//! Descriptors for the radices whose digits align with bit boundaries:
//! binary, octal and hexadecimal (lower and upper case).

use vstd::prelude::*;

verus! {

/// A radix that is a power of two, so that every digit covers a fixed
/// number of bits and conversion is exact.
#[derive(Clone, Copy, PartialEq, Eq, Structural)]
pub enum Radix2 {
    /// Base 2, prefix `0b`.
    Bin,
    /// Base 8, prefix `0o`.
    Oct,
    /// Base 16 with digits `0-9a-f`, prefix `0x`.
    LowHex,
    /// Base 16 with digits `0-9A-F`, prefix `0x`.
    UpHex,
}

/// Bits per digit of the radix.
pub open spec fn spec_digit_bits(r: Radix2) -> nat {
    match r {
        Radix2::Bin => 1,
        Radix2::Oct => 3,
        Radix2::LowHex => 4,
        Radix2::UpHex => 4,
    }
}

/// The ASCII byte that stands for digit value `d` in radix `r`.
pub open spec fn spec_digit_ascii(r: Radix2, d: u8) -> u8 {
    if d < 10 {
        (48 + d) as u8  // '0' + d
    } else {
        match r {
            Radix2::UpHex => (55 + d) as u8,  // 'A' + d - 10
            _ => (87 + d) as u8,  // 'a' + d - 10
        }
    }
}

/// The textual prefix of the radix, as characters.
pub open spec fn spec_prefix(r: Radix2) -> Seq<char> {
    match r {
        Radix2::Bin => seq!['0', 'b'],
        Radix2::Oct => seq!['0', 'o'],
        _ => seq!['0', 'x'],
    }
}

impl Radix2 {
    /// How many bits one digit of this radix covers.
    pub fn digit_bits(&self) -> (k: u32)
        ensures
            k == spec_digit_bits(*self),
            1 <= k <= 4,
    {
        match self {
            Radix2::Bin => 1,
            Radix2::Oct => 3,
            Radix2::LowHex => 4,
            Radix2::UpHex => 4,
        }
    }

    /// The ASCII byte for digit value `d`.
    pub fn encode_digit(&self, d: u8) -> (c: u8)
        requires
            d < 16,
        ensures
            c == spec_digit_ascii(*self, d),
    {
        if d < 10 {
            48 + d
        } else {
            match self {
                Radix2::UpHex => 55 + d,
                _ => 87 + d,
            }
        }
    }

    /// The radix prefix, `0b`, `0o` or `0x`.
    pub fn prefix(&self) -> (p: &'static str)
        ensures
            p@ == spec_prefix(*self),
    {
        proof {
            reveal_strlit("0b");
            reveal_strlit("0o");
            reveal_strlit("0x");
        }
        match self {
            Radix2::Bin => "0b",
            Radix2::Oct => "0o",
            _ => "0x",
        }
    }
}

} // verus!
