//! Decimal digit-count estimators.
//!
//! `dec_int_digits` gives the number of decimal digits needed to print the
//! largest unsigned value of a given bit width; `dec_frac_digits` gives the
//! least number of decimal fractional digits whose rounding error `0.5 *
//! 10^-d` is below the binary resolution `2^-frac_bits`, which is the digit
//! count decimal output defaults to.  Both are the linear approximation
//! `(bits * 3 + i) / 10` with a range-dependent correction constant `i`; the
//! proofs below pin the approximation to the exact power comparisons on the
//! whole domain, by decade induction from six numeric anchor points.

use vstd::prelude::*;

verus! {

use crate::power::{
    lemma_pow10_adds, lemma_pow10_pos, lemma_pow10_to19, pow10,
};
use vstd::arithmetic::mul::{lemma_mul_inequality, lemma_mul_strict_inequality, lemma_mul_upper_bound};
use vstd::arithmetic::power2::{lemma2_to64, lemma2_to64_rest, lemma_pow2_adds, lemma_pow2_pos, pow2};

/// Decimal digits needed for an `int_bits`-bit integer part, as a formula.
pub open spec fn spec_dec_int_digits(int_bits: nat) -> nat {
    if int_bits == 0 {
        0
    } else if int_bits >= 196 {
        (int_bits * 3 + 12) / 10
    } else if int_bits >= 103 {
        (int_bits * 3 + 11) / 10
    } else {
        (int_bits * 3 + 10) / 10
    }
}

/// Default decimal digits for a `frac_bits`-bit fractional part, as a formula.
pub open spec fn spec_dec_frac_digits(frac_bits: nat) -> nat {
    if frac_bits >= 197 {
        (frac_bits * 3 + 9) / 10
    } else if frac_bits >= 104 {
        (frac_bits * 3 + 8) / 10
    } else {
        (frac_bits * 3 + 7) / 10
    }
}

/// The six numeric comparisons of large powers that anchor the decade
/// inductions.
proof fn lemma_anchor_values()
    ensures
        pow2(93) < pow10(28),
        pow2(186) < pow10(56),
        pow2(289) < pow10(87),
        pow10(3) < pow2(10),
        pow10(31) < pow2(103),
        pow10(59) < pow2(196),
{
    lemma2_to64();
    lemma2_to64_rest();
    lemma_pow10_to19();
    lemma_pow2_adds(64, 29);
    assert(pow2(93) == 9903520314283042199192993792);
    lemma_pow2_adds(64, 39);
    assert(pow2(103) == 10141204801825835211973625643008);
    lemma_pow2_adds(93, 93);
    assert(pow2(186) == 9903520314283042199192993792 * 9903520314283042199192993792);
    lemma_pow2_adds(93, 103);
    assert(pow2(196) == 9903520314283042199192993792 * 10141204801825835211973625643008);
    lemma_pow2_adds(186, 103);
    lemma_pow10_adds(19, 9);
    assert(pow10(28) == 10000000000000000000000000000);
    lemma_pow10_adds(19, 12);
    assert(pow10(31) == 10000000000000000000000000000000);
    lemma_pow10_adds(28, 28);
    lemma_pow10_adds(31, 28);
    lemma_pow10_adds(56, 31);
}

/// Small-range comparison: for `j <= 9`, `2^j <= 10^((3j + 9) / 10)`.
proof fn lemma_pow2_le_pow10_small(j: nat, e: nat)
    requires
        j <= 9,
        e == (3 * j + 9) / 10,
    ensures
        pow2(j) <= pow10(e),
        e <= 3,
{
    lemma2_to64();
    lemma_pow10_to19();
}

/// Small-range comparison: for `j <= 9`, `10^(3j / 10) <= 2^j`.
proof fn lemma_pow10_le_pow2_small(j: nat, e: nat)
    requires
        j <= 9,
        e == (3 * j) / 10,
    ensures
        pow10(e) <= pow2(j),
        e <= 2,
{
    lemma2_to64();
    lemma_pow10_to19();
}

/// One decade downwards: `2^(b+10) <= 10^(d+3)` gives `2^b <= 10^d`.
proof fn lemma_decade_down(b: nat, d: nat)
    requires
        pow2(b + 10) <= pow10(d + 3),
    ensures
        pow2(b) <= pow10(d),
{
    lemma2_to64();
    lemma_pow10_to19();
    lemma_pow2_adds(b, 10);
    lemma_pow10_adds(d, 3);
    let x = pow2(b) as int;
    let y = pow10(d);
    assert(x * 1024 <= y * 1000);
    assert(x <= y) by (nonlinear_arith)
        requires
            x * 1024 <= y * 1000,
            x >= 0,
    ;
}

/// One decade downwards, strictly.
proof fn lemma_decade_down_strict(b: nat, d: nat)
    requires
        pow2(b + 10) < pow10(d + 3),
    ensures
        pow2(b) < pow10(d),
{
    lemma2_to64();
    lemma_pow10_to19();
    lemma_pow2_adds(b, 10);
    lemma_pow10_adds(d, 3);
    let x = pow2(b) as int;
    let y = pow10(d);
    assert(x * 1024 < y * 1000);
    assert(x < y) by (nonlinear_arith)
        requires
            x * 1024 < y * 1000,
            x >= 0,
    ;
}

/// One decade upwards: `10^e <= 2^b` gives `10^(e+3) <= 2^(b+10)`.
proof fn lemma_decade_up(e: nat, b: nat)
    requires
        pow10(e) <= pow2(b),
    ensures
        pow10(e + 3) <= pow2(b + 10),
{
    lemma2_to64();
    lemma_pow10_to19();
    lemma_pow2_adds(b, 10);
    lemma_pow10_adds(e, 3);
    let x = pow10(e);
    let y = pow2(b) as int;
    lemma_pow10_pos(e);
    assert(x * 1000 <= y * 1024) by (nonlinear_arith)
        requires
            x <= y,
            x >= 0,
    ;
}

/// One decade upwards, strictly.
proof fn lemma_decade_up_strict(e: nat, b: nat)
    requires
        pow10(e) < pow2(b),
    ensures
        pow10(e + 3) < pow2(b + 10),
{
    lemma2_to64();
    lemma_pow10_to19();
    lemma_pow2_adds(b, 10);
    lemma_pow10_adds(e, 3);
    let x = pow10(e);
    let y = pow2(b) as int;
    lemma_pow10_pos(e);
    assert(x * 1000 < y * 1024) by (nonlinear_arith)
        requires
            x < y,
            x >= 0,
    ;
}

/// Upper bound of the integer-digit formula: `2^b <= 10^d` on the whole
/// domain, by downward decade induction from the anchors.
proof fn lemma_int_digits_upper(b: nat)
    requires
        b < 299,
    ensures
        pow2(b) <= pow10(spec_dec_int_digits(b)),
    decreases 299 - b,
{
    let d = spec_dec_int_digits(b);
    if b == 0 {
        lemma2_to64();
        lemma_pow10_to19();
    } else if b < 93 {
        lemma_int_digits_upper(b + 10);
        assert(spec_dec_int_digits(b + 10) == d + 3);
        lemma_decade_down(b, d);
    } else if b < 103 {
        let j = (b - 93) as nat;
        let e = (3 * j + 9) / 10;
        assert(d == 28 + e);
        lemma_anchor_values();
        lemma_pow2_le_pow10_small(j, e);
        lemma_pow2_adds(93, j);
        lemma_pow10_adds(28, e);
        lemma_mul_upper_bound(pow2(93) as int, pow10(28), pow2(j) as int, pow10(e));
    } else if b < 186 {
        lemma_int_digits_upper(b + 10);
        assert(spec_dec_int_digits(b + 10) == d + 3);
        lemma_decade_down(b, d);
    } else if b < 196 {
        let j = (b - 186) as nat;
        let e = (3 * j + 9) / 10;
        assert(d == 56 + e);
        lemma_anchor_values();
        lemma_pow2_le_pow10_small(j, e);
        lemma_pow2_adds(186, j);
        lemma_pow10_adds(56, e);
        lemma_mul_upper_bound(pow2(186) as int, pow10(56), pow2(j) as int, pow10(e));
    } else if b < 289 {
        lemma_int_digits_upper(b + 10);
        assert(spec_dec_int_digits(b + 10) == d + 3);
        lemma_decade_down(b, d);
    } else {
        let j = (b - 289) as nat;
        let e = (3 * j + 9) / 10;
        assert(d == 87 + e);
        lemma_anchor_values();
        lemma_pow2_le_pow10_small(j, e);
        lemma_pow2_adds(289, j);
        lemma_pow10_adds(87, e);
        lemma_mul_upper_bound(pow2(289) as int, pow10(87), pow2(j) as int, pow10(e));
    }
}

/// Lower bound of the integer-digit formula: `10^(d-1) < 2^b` on the whole
/// domain, by upward decade induction from the anchors.
proof fn lemma_int_digits_lower(b: nat)
    requires
        1 <= b < 299,
    ensures
        spec_dec_int_digits(b) >= 1,
        pow10((spec_dec_int_digits(b) - 1) as nat) < pow2(b),
    decreases b,
{
    let d = spec_dec_int_digits(b);
    let e = (d - 1) as nat;
    if b < 11 {
        lemma2_to64();
        lemma_pow10_to19();
    } else if b < 103 {
        lemma_int_digits_lower((b - 10) as nat);
        assert(spec_dec_int_digits((b - 10) as nat) == d - 3);
        lemma_decade_up_strict((e - 3) as nat, (b - 10) as nat);
    } else if b < 113 {
        let j = (b - 103) as nat;
        let je = (3 * j) / 10;
        assert(e == 31 + je);
        lemma_anchor_values();
        lemma_pow10_le_pow2_small(j, je);
        lemma_pow10_adds(31, je);
        lemma_pow2_adds(103, j);
        lemma_pow10_pos(je);
        lemma_pow2_pos(j);
        assert(pow10(31) * pow10(je) < pow2(103) * pow10(je)) by {
            lemma_mul_strict_inequality(pow10(31), pow2(103) as int, pow10(je));
        }
        assert(pow2(103) * pow10(je) <= pow2(103) * pow2(j)) by {
            lemma_mul_inequality(pow10(je), pow2(j) as int, pow2(103) as int);
            assert(pow10(je) * (pow2(103) as int) == (pow2(103) as int) * pow10(je))
                by (nonlinear_arith);
            assert((pow2(j) as int) * (pow2(103) as int) == (pow2(103) as int) * (pow2(j) as int))
                by (nonlinear_arith);
        }
    } else if b < 196 {
        lemma_int_digits_lower((b - 10) as nat);
        assert(spec_dec_int_digits((b - 10) as nat) == d - 3);
        lemma_decade_up_strict((e - 3) as nat, (b - 10) as nat);
    } else if b < 206 {
        let j = (b - 196) as nat;
        let je = (3 * j) / 10;
        assert(e == 59 + je);
        lemma_anchor_values();
        lemma_pow10_le_pow2_small(j, je);
        lemma_pow10_adds(59, je);
        lemma_pow2_adds(196, j);
        lemma_pow10_pos(je);
        lemma_pow2_pos(j);
        assert(pow10(59) * pow10(je) < pow2(196) * pow10(je)) by {
            lemma_mul_strict_inequality(pow10(59), pow2(196) as int, pow10(je));
        }
        assert(pow2(196) * pow10(je) <= pow2(196) * pow2(j)) by {
            lemma_mul_inequality(pow10(je), pow2(j) as int, pow2(196) as int);
            assert(pow10(je) * (pow2(196) as int) == (pow2(196) as int) * pow10(je))
                by (nonlinear_arith);
            assert((pow2(j) as int) * (pow2(196) as int) == (pow2(196) as int) * (pow2(j) as int))
                by (nonlinear_arith);
        }
    } else {
        lemma_int_digits_lower((b - 10) as nat);
        assert(spec_dec_int_digits((b - 10) as nat) == d - 3);
        lemma_decade_up_strict((e - 3) as nat, (b - 10) as nat);
    }
}

/// Sufficiency of the fractional-digit formula: `2^(f-1) < 10^d`, i.e. a
/// half decimal unit in the last place is below the binary resolution.
proof fn lemma_frac_digits_upper(f: nat)
    requires
        1 <= f < 300,
    ensures
        pow2((f - 1) as nat) < pow10(spec_dec_frac_digits(f)),
    decreases 300 - f,
{
    let d = spec_dec_frac_digits(f);
    if f < 94 {
        lemma_frac_digits_upper(f + 10);
        assert(spec_dec_frac_digits(f + 10) == d + 3);
        lemma_decade_down_strict((f - 1) as nat, d);
    } else if f < 104 {
        let j = (f - 94) as nat;
        let e = (3 * j + 9) / 10;
        assert(d == 28 + e);
        lemma_anchor_values();
        lemma_pow2_le_pow10_small(j, e);
        lemma_pow2_adds(93, j);
        lemma_pow10_adds(28, e);
        lemma_pow10_pos(e);
        lemma_pow2_pos(j);
        assert(pow2(93) * pow2(j) <= pow10(28) * pow2(j) - pow2(j)) by {
            lemma_mul_inequality(pow2(93) as int + 1, pow10(28), pow2(j) as int);
            assert((pow2(93) as int + 1) * (pow2(j) as int) == pow2(93) * pow2(j) + pow2(j))
                by (nonlinear_arith);
            assert(pow10(28) * (pow2(j) as int) == (pow2(j) as int) * pow10(28))
                by (nonlinear_arith);
        }
        assert(pow10(28) * pow2(j) <= pow10(28) * pow10(e)) by {
            lemma_mul_inequality(pow2(j) as int, pow10(e), pow10(28));
            assert((pow2(j) as int) * pow10(28) == pow10(28) * (pow2(j) as int))
                by (nonlinear_arith);
            assert(pow10(e) * pow10(28) == pow10(28) * pow10(e)) by (nonlinear_arith);
        }
    } else if f < 187 {
        lemma_frac_digits_upper(f + 10);
        assert(spec_dec_frac_digits(f + 10) == d + 3);
        lemma_decade_down_strict((f - 1) as nat, d);
    } else if f < 197 {
        let j = (f - 187) as nat;
        let e = (3 * j + 9) / 10;
        assert(d == 56 + e);
        lemma_anchor_values();
        lemma_pow2_le_pow10_small(j, e);
        lemma_pow2_adds(186, j);
        lemma_pow10_adds(56, e);
        lemma_pow10_pos(e);
        lemma_pow2_pos(j);
        assert(pow2(186) * pow2(j) <= pow10(56) * pow2(j) - pow2(j)) by {
            lemma_mul_inequality(pow2(186) as int + 1, pow10(56), pow2(j) as int);
            assert((pow2(186) as int + 1) * (pow2(j) as int) == pow2(186) * pow2(j) + pow2(j))
                by (nonlinear_arith);
            assert(pow10(56) * (pow2(j) as int) == (pow2(j) as int) * pow10(56))
                by (nonlinear_arith);
        }
        assert(pow10(56) * pow2(j) <= pow10(56) * pow10(e)) by {
            lemma_mul_inequality(pow2(j) as int, pow10(e), pow10(56));
            assert((pow2(j) as int) * pow10(56) == pow10(56) * (pow2(j) as int))
                by (nonlinear_arith);
            assert(pow10(e) * pow10(56) == pow10(56) * pow10(e)) by (nonlinear_arith);
        }
    } else if f < 290 {
        lemma_frac_digits_upper(f + 10);
        assert(spec_dec_frac_digits(f + 10) == d + 3);
        lemma_decade_down_strict((f - 1) as nat, d);
    } else {
        let j = (f - 290) as nat;
        let e = (3 * j + 9) / 10;
        assert(d == 87 + e);
        lemma_anchor_values();
        lemma_pow2_le_pow10_small(j, e);
        lemma_pow2_adds(289, j);
        lemma_pow10_adds(87, e);
        lemma_pow10_pos(e);
        lemma_pow2_pos(j);
        assert(pow2(289) * pow2(j) <= pow10(87) * pow2(j) - pow2(j)) by {
            lemma_mul_inequality(pow2(289) as int + 1, pow10(87), pow2(j) as int);
            assert((pow2(289) as int + 1) * (pow2(j) as int) == pow2(289) * pow2(j) + pow2(j))
                by (nonlinear_arith);
            assert(pow10(87) * (pow2(j) as int) == (pow2(j) as int) * pow10(87))
                by (nonlinear_arith);
        }
        assert(pow10(87) * pow2(j) <= pow10(87) * pow10(e)) by {
            lemma_mul_inequality(pow2(j) as int, pow10(e), pow10(87));
            assert((pow2(j) as int) * pow10(87) == pow10(87) * (pow2(j) as int))
                by (nonlinear_arith);
            assert(pow10(e) * pow10(87) == pow10(87) * pow10(e)) by (nonlinear_arith);
        }
    }
}

/// Minimality of the fractional-digit formula: `10^(d-1) <= 2^(f-1)`, i.e.
/// one digit fewer would not resolve the binary grid.
proof fn lemma_frac_digits_lower(f: nat)
    requires
        1 <= f < 300,
    ensures
        spec_dec_frac_digits(f) >= 1,
        pow10((spec_dec_frac_digits(f) - 1) as nat) <= pow2((f - 1) as nat),
    decreases f,
{
    let d = spec_dec_frac_digits(f);
    let e = (d - 1) as nat;
    if f < 11 {
        lemma2_to64();
        lemma_pow10_to19();
    } else if f < 104 {
        lemma_frac_digits_lower((f - 10) as nat);
        assert(spec_dec_frac_digits((f - 10) as nat) == d - 3);
        lemma_decade_up((e - 3) as nat, (f - 11) as nat);
    } else if f < 114 {
        let j = (f - 104) as nat;
        let je = (3 * j) / 10;
        assert(e == 31 + je);
        lemma_anchor_values();
        lemma_pow10_le_pow2_small(j, je);
        lemma_pow10_adds(31, je);
        lemma_pow2_adds(103, j);
        lemma_pow10_pos(je);
        lemma_pow10_pos(31);
        lemma_pow2_pos(j);
        lemma_mul_upper_bound(pow10(31), pow2(103) as int, pow10(je), pow2(j) as int);
    } else if f < 197 {
        lemma_frac_digits_lower((f - 10) as nat);
        assert(spec_dec_frac_digits((f - 10) as nat) == d - 3);
        lemma_decade_up((e - 3) as nat, (f - 11) as nat);
    } else if f < 207 {
        let j = (f - 197) as nat;
        let je = (3 * j) / 10;
        assert(e == 59 + je);
        lemma_anchor_values();
        lemma_pow10_le_pow2_small(j, je);
        lemma_pow10_adds(59, je);
        lemma_pow2_adds(196, j);
        lemma_pow10_pos(je);
        lemma_pow10_pos(59);
        lemma_pow2_pos(j);
        lemma_mul_upper_bound(pow10(59), pow2(196) as int, pow10(je), pow2(j) as int);
    } else {
        lemma_frac_digits_lower((f - 10) as nat);
        assert(spec_dec_frac_digits((f - 10) as nat) == d - 3);
        lemma_decade_up((e - 3) as nat, (f - 11) as nat);
    }
}

/// The number of decimal digits needed to print the largest unsigned value
/// of `int_bits` bits: `10^(digits-1) <= 2^int_bits - 1 < 10^digits`, with
/// `0` for a zero-width integer part.
pub fn dec_int_digits(int_bits: u32) -> (digits: u32)
    requires
        int_bits < 299,
    ensures
        digits == spec_dec_int_digits(int_bits as nat),
        int_bits == 0 ==> digits == 0,
        int_bits >= 1 ==> digits >= 1 && pow10((digits - 1) as nat) <= pow2(int_bits as nat) - 1,
        pow2(int_bits as nat) - 1 < pow10(digits as nat),
{
    proof {
        if int_bits >= 1 {
            lemma_int_digits_lower(int_bits as nat);
        }
        lemma_int_digits_upper(int_bits as nat);
        lemma_pow10_to19();
    }
    if int_bits == 0 {
        return 0;
    }
    let i: u32 = if int_bits >= 196 {
        12
    } else if int_bits >= 103 {
        11
    } else {
        10
    };
    (int_bits * 3 + i) / 10
}

/// The least number `d` of decimal fractional digits whose half-unit
/// rounding error is below the binary resolution: `0.5 * 10^-d < 2^-frac_bits`
/// while `0.5 * 10^-(d-1) >= 2^-frac_bits`; printing with `d` digits is what
/// decimal output defaults to.
pub fn dec_frac_digits(frac_bits: u32) -> (digits: u32)
    requires
        frac_bits < 300,
    ensures
        digits == spec_dec_frac_digits(frac_bits as nat),
        pow2(frac_bits as nat) < 2 * pow10(digits as nat),
        digits >= 1 ==> 2 * pow10((digits - 1) as nat) <= pow2(frac_bits as nat),
        frac_bits == 0 <==> digits == 0,
{
    proof {
        if frac_bits >= 1 {
            lemma_frac_digits_upper(frac_bits as nat);
            lemma_frac_digits_lower(frac_bits as nat);
            lemma_pow2_adds(1, (frac_bits - 1) as nat);
            lemma2_to64();
            let d = spec_dec_frac_digits(frac_bits as nat);
            assert(pow2(frac_bits as nat) == 2 * pow2((frac_bits - 1) as nat));
            assert(2 * pow2((frac_bits - 1) as nat) < 2 * pow10(d)) by {
                assert(pow2((frac_bits - 1) as nat) < pow10(d));
            }
        } else {
            lemma2_to64();
            lemma_pow10_to19();
        }
    }
    let i: u32 = if frac_bits >= 197 {
        9
    } else if frac_bits >= 104 {
        8
    } else {
        7
    };
    (frac_bits * 3 + i) / 10
}

} // verus!
