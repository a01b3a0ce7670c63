//! The laws of the converters: exactness of the radix-2ᵏ rendering, the
//! round-trip guarantee of the default decimal precision, the tie-to-even
//! rule, and precision capping.

use vstd::prelude::*;

verus! {

use crate::digits::{
    canon_digits, digits_val, fixed_digits, lemma_canon_digits_spec, lemma_fixed_digits_spec,
};
use crate::display::{
    frac_quot, frac_rem, frac_scaled, lemma_dec_round, round_half_even, spec_dec_effective,
    spec_dec_rounded, spec_dec_str, spec_radix2_frac_digits,
};
use crate::estimate::spec_dec_frac_digits;
use crate::power::{lemma_pow10_pos, pow10};
use crate::radix::{Radix2, spec_digit_ascii, spec_digit_bits};
use crate::valid_width;
use vstd::arithmetic::div_mod::{
    lemma_fundamental_div_mod, lemma_fundamental_div_mod_converse,
};
use vstd::arithmetic::power::{lemma_pow_multiplies, pow};
use vstd::arithmetic::power2::{lemma_pow2, lemma_pow2_adds, lemma_pow2_pos, pow2};
use vstd::math::abs;

/// Round-trip of the radix-2ᵏ renderings: the emitted digits reproduce the
/// decomposition exactly.  The integer digits read back as `int_mag`, and
/// the `n` fractional digits, read as a base-`b` fraction, equal
/// `frac_mag / 2^w` with no remainder — so parsing the string recovers the
/// original bits, for every width, every `frac_bits` and every magnitude.
pub proof fn lemma_radix2_round_trip(w: nat, f: nat, int_mag: nat, frac_mag: nat, r: Radix2)
    requires
        valid_width(w),
        f <= w,
        int_mag < pow2((w - f) as nat),
        frac_mag < pow2(w),
        frac_mag % pow2((w - f) as nat) == 0,
    ensures
        ({
            let k = spec_digit_bits(r);
            let b = pow2(k);
            let n = spec_radix2_frac_digits(f, k);
            let fq = frac_quot(frac_mag, b, n, w) as nat;
            digits_val(canon_digits(int_mag, b), b) == int_mag
                && (digits_val(fixed_digits(fq, b, n), b) as int) * (pow2(w) as int)
                == frac_mag * pow(b as int, n)
        }),
{
    let k = spec_digit_bits(r);
    let b = pow2(k);
    let n = spec_radix2_frac_digits(f, k);
    vstd::arithmetic::power2::lemma2_to64();
    lemma_canon_digits_spec(int_mag, b);
    // k * n >= f: every fractional bit falls inside the n digits
    assert(k * n >= f) by {
        lemma_fundamental_div_mod((f + k - 1) as int, k as int);
        assert(k * ((f + k - 1) as int / (k as int)) == (f + k - 1) - (f + k - 1) as int % (
        k as int));
    }
    // the scaled fraction is an exact multiple of 2^w
    let m = (frac_mag as int) / (pow2((w - f) as nat) as int);
    let e = (k * n - f) as nat;
    lemma_pow2_pos((w - f) as nat);
    lemma_pow2_pos(w);
    lemma_pow2_pos(e);
    lemma_fundamental_div_mod(frac_mag as int, pow2((w - f) as nat) as int);
    assert(frac_mag == pow2((w - f) as nat) * m);
    assert(pow(b as int, n) == pow2(k * n)) by {
        lemma_pow2(k);
        lemma_pow2(k * n);
        lemma_pow_multiplies(2, k, n);
    }
    let t = (m * pow2(e)) as int;
    assert(frac_scaled(frac_mag, b, n) == t * pow2(w)) by {
        lemma_pow2_adds((w - f) as nat, (k * n) as nat);
        lemma_pow2_adds(e, w);
        assert((m * pow2((w - f) as nat)) * pow2(k * n) == (m * pow2(e)) * pow2(w))
            by (nonlinear_arith)
            requires
                pow2((w - f) as nat) * pow2(k * n) == pow2(((w - f) + k * n) as nat),
                pow2(e) * pow2(w) == pow2((e + w) as nat),
                pow2(((w - f) + k * n) as nat) == pow2((e + w) as nat),
        ;
    }
    assert(t >= 0) by (nonlinear_arith)
        requires t == m * pow2(e), m >= 0, pow2(e) >= 0;
    lemma_fundamental_div_mod_converse(frac_scaled(frac_mag, b, n), pow2(w) as int, t, 0);
    assert(frac_quot(frac_mag, b, n, w) == t && frac_rem(frac_mag, b, n, w) == 0);
    // the fixed-width digits read back as exactly that multiple
    let fq = frac_quot(frac_mag, b, n, w) as nat;
    lemma_fixed_digits_spec(fq, b, n);
    assert(fq < pow(b as int, n)) by {
        vstd::arithmetic::power::lemma_pow_positive(b as int, n);
        assert(frac_scaled(frac_mag, b, n) < pow(b as int, n) * (pow2(w) as int))
            by (nonlinear_arith)
            requires
                frac_scaled(frac_mag, b, n) == frac_mag * pow(b as int, n),
                frac_mag < pow2(w),
                pow(b as int, n) >= 1,
        ;
        vstd::arithmetic::div_mod::lemma_multiply_divide_lt(frac_scaled(frac_mag, b, n),
            pow2(w) as int, pow(b as int, n));
    }
    vstd::arithmetic::div_mod::lemma_small_mod(fq, pow(b as int, n) as nat);
    assert(digits_val(fixed_digits(fq, b, n), b) == fq);
}

/// The digit symbols of a radix are distinct, so the printed bytes
/// determine the digit values — together with `lemma_radix2_round_trip`
/// this makes the radix-2ᵏ text unambiguous.
pub proof fn lemma_digit_ascii_injective(r: Radix2, d1: u8, d2: u8)
    requires
        d1 < 16,
        d2 < 16,
        spec_digit_ascii(r, d1) == spec_digit_ascii(r, d2),
    ensures
        d1 == d2,
{
}

/// Round-trip of decimal output at the default precision: with `n =
/// spec_dec_frac_digits(f)` digits, the printed value `nv / 10^n` lies
/// strictly nearer to the original magnitude `m / 2^f` than to any other
/// multiple of `2^-f`, so rounding the decimal back to the binary grid
/// recovers the value exactly.  This needs `2^f < 10^n`: where the digit
/// count does not reach that bound, distinct magnitudes can print alike and
/// no parse can tell them apart.
pub proof fn lemma_dec_round_trip(w: nat, f: nat, int_mag: nat, frac_mag: nat)
    requires
        valid_width(w),
        f <= w,
        int_mag < pow2((w - f) as nat),
        frac_mag < pow2(w),
        frac_mag % pow2((w - f) as nat) == 0,
        pow2(f) < pow10(spec_dec_frac_digits(f)),
    ensures
        ({
            let n = spec_dec_frac_digits(f);
            let nv = spec_dec_rounded(w, int_mag, frac_mag, n);
            let m = int_mag * pow2(f) + (frac_mag as int) / (pow2((w - f) as nat) as int);
            forall|m2: int| m2 != m ==> abs(nv * pow2(f) - m * pow10(n)) < abs(
                #[trigger] (nv * pow2(f) - m2 * pow10(n)))
        }),
{
    let n = spec_dec_frac_digits(f);
    let nv = spec_dec_rounded(w, int_mag, frac_mag, n);
    let mf = (frac_mag as int) / (pow2((w - f) as nat) as int);
    let m = int_mag * pow2(f) + mf;
    let den = pow2(w) as int;
    let pn = pow10(n);
    let pwf = pow2((w - f) as nat) as int;
    lemma_pow2_pos(w);
    lemma_pow2_pos(f);
    lemma_pow2_pos((w - f) as nat);
    lemma_pow10_pos(n);
    assert(f >= 1) by {
        if f == 0 {
            assert(spec_dec_frac_digits(0) == 0);
            assert(pow10(0) == 1) by {
                vstd::arithmetic::power::lemma_pow0(10);
            }
        }
    }
    let half = pow2((f - 1) as nat) as int;
    lemma_pow2_adds((f - 1) as nat, 1);
    vstd::arithmetic::power2::lemma2_to64();
    assert(pow2(f) == 2 * half);
    // the rounded value is within half a unit of the exact scaled value
    let num = (int_mag * pow2(w) + frac_mag) * pn;
    lemma_rhe_error(num, den);
    // num == m * 2^(w-f) * 10^n, and nv * 2^w == (nv * 2^f) * 2^(w-f)
    lemma_fundamental_div_mod(frac_mag as int, pwf);
    assert(frac_mag == mf * pwf);
    lemma_pow2_adds(f, (w - f) as nat);
    assert(num == (m * pn) * pwf) by (nonlinear_arith)
        requires
            num == (int_mag * (pow2(f) as int * pwf) + mf * pwf) * pn,
            m == int_mag * pow2(f) + mf,
    ;
    assert(nv * den == (nv * pow2(f)) * pwf) by (nonlinear_arith)
        requires den == pow2(f) as int * pwf;
    let d1 = nv * pow2(f) - m * pn;
    assert(nv * den - num == d1 * pwf) by (nonlinear_arith)
        requires
            nv * den == (nv * pow2(f)) * pwf,
            num == (m * pn) * pwf,
            d1 == nv * pow2(f) - m * pn,
    ;
    // scale the error bound down by 2^(w-f)
    assert(2 * abs(nv * den - num) <= den);
    assert(abs(nv * den - num) == abs(d1 * pwf));
    let ad = abs(d1) as int;
    assert(abs(d1) <= half) by {
        assert(d1 >= 0 ==> d1 * pwf >= 0 && d1 * pwf == ad * pwf) by (nonlinear_arith)
            requires pwf >= 1, d1 >= 0 ==> ad == d1;
        assert(d1 < 0 ==> d1 * pwf < 0 && -(d1 * pwf) == ad * pwf) by (nonlinear_arith)
            requires pwf >= 1, d1 < 0 ==> ad == -d1;
        assert(abs(d1 * pwf) == ad * pwf);
        assert(den == (2 * half) * pwf) by (nonlinear_arith)
            requires den == pow2(f) as int * pwf, pow2(f) == 2 * half;
        assert((2 * ad) * pwf == 2 * (ad * pwf)) by (nonlinear_arith);
        assert((2 * ad) * pwf <= (2 * half) * pwf ==> 2 * ad <= 2 * half) by (nonlinear_arith)
            requires pwf >= 1;
    }
    // any other grid point is further away
    assert(pn > 2 * half);
    assert forall|m2: int| m2 != m implies abs(d1) < abs(
        #[trigger] (nv * pow2(f) - m2 * pow10(n))) by {
        let d2 = nv * pow2(f) - m2 * pn;
        let km = m - m2;
        assert(d2 == d1 + km * pn) by (nonlinear_arith)
            requires
                d1 == nv * pow2(f) - m * pn,
                d2 == nv * pow2(f) - m2 * pn,
                km == m - m2,
        ;
        if km >= 1 {
            assert(km * pn >= pn) by (nonlinear_arith)
                requires km >= 1, pn >= 1;
            assert(d2 >= d1 + pn);
            assert(abs(d2) == d2);
        } else {
            assert(km * pn <= -pn) by (nonlinear_arith)
                requires km <= -1, pn >= 1;
            assert(d2 <= d1 - pn);
            assert(abs(d2) == -d2);
        }
    }
}

/// The error of rounding half-to-even is at most half the denominator.
proof fn lemma_rhe_error(num: int, den: int)
    requires
        den >= 1,
    ensures
        2 * abs(round_half_even(num, den) * den - num) <= den,
{
    lemma_fundamental_div_mod(num, den);
    let q = num / den;
    let r = num % den;
    let rhe = round_half_even(num, den);
    assert(q * den - num == -r) by (nonlinear_arith)
        requires num == den * q + r;
    assert((q + 1) * den - num == den - r) by (nonlinear_arith)
        requires num == den * q + r;
}

/// Round-half-to-even: when the fraction left after the printed digits is
/// exactly one half, the emitted digits are even.
pub proof fn lemma_round_half_to_even(w: nat, int_mag: nat, frac_mag: nat, n: nat)
    requires
        w >= 1,
        n >= 1,
        frac_mag < pow2(w),
        2 * frac_rem(frac_mag, 10, n, w) == pow2(w),
    ensures
        spec_dec_rounded(w, int_mag, frac_mag, n) % 2 == 0,
{
    lemma_dec_round(w, int_mag, frac_mag, n);
    let t = frac_quot(frac_mag, 10, n, w);
    let v = int_mag * pow10(n) + t;
    let nv = spec_dec_rounded(w, int_mag, frac_mag, n);
    if t % 2 == 0 {
        assert(nv == v);
    } else {
        assert(nv == v + 1);
        assert(v % 2 == 1);
        lemma_even_succ(v);
    }
}

proof fn lemma_even_succ(v: int)
    requires
        v % 2 == 1,
    ensures
        (v + 1) % 2 == 0,
{
    lemma_fundamental_div_mod(v, 2);
    lemma_fundamental_div_mod_converse(v + 1, 2, v / 2 + 1, 0);
}

/// Precision capping: any two requested precisions at or above `frac_bits`
/// print the same text — beyond `frac_bits` fractional bits there is
/// nothing left to print.
pub proof fn lemma_precision_capped(w: nat, f: nat, is_neg: bool, int_mag: nat, frac_mag: nat,
    p: usize, q: usize)
    requires
        p as nat >= f,
        q as nat >= f,
    ensures
        spec_dec_str(w, f, is_neg, int_mag, frac_mag, Option::Some(p)) == spec_dec_str(w, f,
            is_neg, int_mag, frac_mag, Option::Some(q)),
{
    assert(spec_dec_effective(f, Option::Some(p)) == f);
    assert(spec_dec_effective(f, Option::Some(q)) == f);
}

} // verus!
