//! Binary fixed-point to text conversion.
//!
//! A fixed-point value of width `w` bits (`w` one of 8, 16, 32, 64 or 128)
//! splits into a sign, an integer magnitude and a fractional magnitude at a
//! bit boundary `frac_bits` with `0 <= frac_bits <= w`.  This crate renders
//! such a decomposition as text, either exactly in a radix that is a power of
//! two (2, 8 or 16), or correctly rounded (round-half-to-even) in decimal,
//! and proves the digit strings correct against an arithmetic model.
//!
//! The integer magnitude occupies the low `w - frac_bits` bits of a register;
//! the fractional magnitude is held scaled so that its most significant bit
//! stands for one half, i.e. it denotes the fraction `frac / 2^w`.  Both are
//! carried in a `u128` register whatever the width.

use vstd::prelude::*;

pub mod digits;
pub mod display;
pub mod estimate;
pub mod laws;
pub mod power;
pub mod radix;

verus! {

/// The storage widths a fixed-point register may have.
pub open spec fn valid_width(w: nat) -> bool {
    w == 8 || w == 16 || w == 32 || w == 64 || w == 128
}

} // verus!
