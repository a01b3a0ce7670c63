//! The converters: exact radix-2ᵏ rendering, rounding decimal rendering,
//! and the assembly of the final text.
//!
//! A conversion receives a decomposed value: a sign, an integer magnitude
//! `int_mag < 2^(w - frac_bits)` and a fractional magnitude `frac_mag <
//! 2^w`, scaled so that it denotes the fraction `frac_mag / 2^w`.  The
//! radix-2ᵏ converter is exact; the decimal converter rounds the fraction to
//! a digit count half-to-even, carrying into the integer part when the
//! digits overflow.

use vstd::prelude::*;

verus! {

use crate::digits::{
    canon_digits, digits_ok, digits_val, fixed_digits, increment_digits, int_digits,
    lemma_canon_digits_spec, lemma_canon_digits_unique, lemma_digits_val_bound,
    lemma_digits_val_concat, lemma_digits_val_push, lemma_fixed_digits_spec,
    lemma_fixed_digits_unique,
};
use crate::estimate::{dec_frac_digits, spec_dec_frac_digits};
use crate::power::{lemma_pow10_adds, lemma_pow10_pos, lemma_pow10_to19, pow10, pow2_u128,
    lemma_pow2_128};
use crate::radix::{Radix2, spec_digit_ascii, spec_digit_bits, spec_prefix};
use crate::valid_width;
use vstd::arithmetic::div_mod::{
    lemma_fundamental_div_mod, lemma_fundamental_div_mod_converse, lemma_mod_multiples_vanish,
    lemma_multiply_divide_lt,
};
use vstd::arithmetic::power::{lemma_pow1, lemma_pow_adds, pow};
use vstd::arithmetic::power2::{lemma2_to64, lemma_pow2_adds, lemma_pow2_pos, pow2};
use vstd::string::StringExecFns;

/// `frac * b^n`, the fraction scaled so that its first `n` base-`b` digits
/// move into the integer position.
pub open spec fn frac_scaled(frac: nat, b: nat, n: nat) -> int {
    frac * pow(b as int, n)
}

/// The first `n` base-`b` digits of the fraction `frac / 2^w`, as a number.
pub open spec fn frac_quot(frac: nat, b: nat, n: nat, w: nat) -> int {
    frac_scaled(frac, b, n) / (pow2(w) as int)
}

/// What remains of the fraction after its first `n` base-`b` digits.
pub open spec fn frac_rem(frac: nat, b: nat, n: nat, w: nat) -> int {
    frac_scaled(frac, b, n) % (pow2(w) as int)
}

/// Extracts the first `n` base-`2^k` digits of the fraction `frac / 2^w`,
/// most significant first.  No information is lost: together with the
/// length `n` the digits determine `frac * 2^(k*n) / 2^w` exactly.
fn frac_digits_pow2(frac: u128, w: u32, k: u32, n: u32) -> (out: Vec<u8>)
    requires
        w <= 128,
        1 <= k <= 4,
        k <= w,
        (frac as nat) < pow2(w as nat),
    ensures
        out@ == fixed_digits(frac_quot(frac as nat, pow2(k as nat), n as nat, w as nat) as nat,
            pow2(k as nat), n as nat),
        out@.len() == n,
        digits_ok(out@, pow2(k as nat)),
{
    let b: u128 = pow2_u128(k);
    let p_low: u128 = pow2_u128(w - k);
    proof {
        lemma2_to64();
        lemma_pow2_adds((w - k) as nat, k as nat);
        lemma_pow2_pos(w as nat);
        lemma_pow2_pos((w - k) as nat);
        lemma_pow0_help();
    }
    let mut out: Vec<u8> = Vec::new();
    let mut r: u128 = frac;
    let mut j: u32 = 0;
    proof {
        assert(digits_val(out@, b as nat) == 0);
        assert(pow(b as int, 0) == 1);
        assert(frac_scaled(frac as nat, b as nat, 0) == (frac as int) * 1);
    }
    while j < n
        invariant
            w <= 128,
            1 <= k <= 4,
            k <= w,
            b == pow2(k as nat),
            p_low == pow2((w - k) as nat),
            (p_low as int) * (b as int) == pow2(w as nat),
            j <= n,
            out@.len() == j,
            digits_ok(out@, b as nat),
            (r as nat) < pow2(w as nat),
            frac_scaled(frac as nat, b as nat, j as nat) == (digits_val(out@, b as nat) as int)
                * (pow2(w as nat) as int) + r,
        decreases n - j,
    {
        proof {
            let ri = r as int;
            let bi = b as int;
            let pw = pow2(w as nat) as int;
            let pl = p_low as int;
            lemma2_to64();
            lemma_pow2_128();
            if w < 128 {
                vstd::arithmetic::power2::lemma_pow2_strictly_increases(w as nat, 128);
            }
            lemma_pow2_pos(k as nat);
            lemma_pow2_pos((w - k) as nat);
            lemma_pow2_pos(w as nat);
            lemma_fundamental_div_mod(ri, pl);
            // the digit is below b because r < pw == pl * b
            assert(ri / pl < bi) by {
                lemma_multiply_divide_lt(ri, pl, bi);
            }
            assert(ri / pl >= 0) by {
                vstd::arithmetic::div_mod::lemma_div_pos_is_pos(ri, pl);
            }
            // the shifted remainder stays below pw, so the product fits
            assert((ri % pl) * bi < pl * bi) by (nonlinear_arith)
                requires ri % pl < pl, bi >= 1;
            assert((ri % pl) * bi >= 0) by (nonlinear_arith)
                requires ri % pl >= 0, bi >= 0;
        }
        let d: u8 = (r / p_low) as u8;
        let r2: u128 = (r % p_low) * b;
        proof {
            let ri = r as int;
            let bi = b as int;
            let pw = pow2(w as nat) as int;
            let pl = p_low as int;
            assert(d as int == ri / pl);
            assert(r2 as int == (ri % pl) * bi);
            // push the digit and restate the loop relation one step further
            lemma_digits_val_push(out@, d, b as nat);
            let v = digits_val(out@, b as nat) as int;
            lemma_pow_adds(bi, j as nat, 1);
            lemma_pow1(bi);
            assert(frac_scaled(frac as nat, b as nat, (j + 1) as nat) == frac_scaled(
                frac as nat, b as nat, j as nat) * bi) by {
                assert((frac as int) * (pow(bi, j as nat) * bi) == ((frac as int) * pow(
                    bi, j as nat)) * bi) by (nonlinear_arith);
            }
            assert((v * pw + ri) * bi == (v * bi + ri / pl) * pw + (ri % pl) * bi)
                by (nonlinear_arith)
                requires pl * bi == pw, ri == pl * (ri / pl) + ri % pl;
            assert(digits_val(out@.push(d), b as nat) as int == v * bi + d);
        }
        out.push(d);
        r = r2;
        j = j + 1;
    }
    proof {
        finish_extraction(out@, frac as nat, b as nat, n as nat, w as nat, r as nat);
    }
    out
}

proof fn lemma_pow0_help()
    ensures
        forall|b: int| pow(b, 0) == 1,
{
    assert forall|b: int| pow(b, 0) == 1 by {
        vstd::arithmetic::power::lemma_pow0(b);
    }
}

/// From the loop relation, the extracted digits are exactly the fixed-width
/// form of the scaled quotient.
proof fn finish_extraction(s: Seq<u8>, frac: nat, b: nat, n: nat, w: nat, r: nat)
    requires
        2 <= b <= 256,
        s.len() == n,
        digits_ok(s, b),
        r < pow2(w),
        frac_scaled(frac, b, n) == (digits_val(s, b) as int) * (pow2(w) as int) + r,
    ensures
        s == fixed_digits(frac_quot(frac, b, n, w) as nat, b, n),
        digits_val(s, b) == frac_quot(frac, b, n, w),
        r == frac_rem(frac, b, n, w),
{
    let v = digits_val(s, b) as int;
    let pw = pow2(w) as int;
    lemma_pow2_pos(w);
    lemma_fundamental_div_mod_converse(frac_scaled(frac, b, n), pw, v, r as int);
    lemma_fixed_digits_unique(s, b);
}

/// How many radix-`2^k` digits the fractional part prints: `ceil(f / k)`.
/// Every fractional bit falls in one of them, so the rendering is exact.
pub open spec fn spec_radix2_frac_digits(f: nat, k: nat) -> nat {
    ((f + k - 1) / (k as int)) as nat
}

/// The digit bytes (ASCII) of the exact radix-`2^k` rendering: the integer
/// magnitude in canonical form, then, if any fractional digits exist, a
/// point and exactly `ceil(frac_bits / k)` fractional digits.
pub open spec fn spec_radix2_digits(w: nat, f: nat, int_mag: nat, frac_mag: nat, r: Radix2)
    -> Seq<u8> {
    let k = spec_digit_bits(r);
    let b = pow2(k);
    let n = spec_radix2_frac_digits(f, k);
    let ip = canon_digits(int_mag, b).map_values(|d: u8| spec_digit_ascii(r, d));
    if n == 0 {
        ip
    } else {
        ip + seq![46u8] + fixed_digits(frac_quot(frac_mag, b, n, w) as nat, b, n).map_values(
            |d: u8| spec_digit_ascii(r, d))
    }
}

/// Renders `int_mag + frac_mag / 2^w` exactly in the radix, as ASCII digit
/// bytes with an embedded point, unsigned and without prefix.
pub fn fmt_radix2_helper(w: u32, frac_bits: u32, int_mag: u128, frac_mag: u128, radix: Radix2)
    -> (out: Vec<u8>)
    requires
        valid_width(w as nat),
        frac_bits <= w,
        (int_mag as nat) < pow2((w - frac_bits) as nat),
        (frac_mag as nat) < pow2(w as nat),
    ensures
        out@ == spec_radix2_digits(w as nat, frac_bits as nat, int_mag as nat, frac_mag as nat,
            radix),
{
    let ghost bn = pow2(spec_digit_bits(radix));
    let ghost ip_spec = canon_digits(int_mag as nat, bn).map_values(
        |d: u8| spec_digit_ascii(radix, d));
    let k = radix.digit_bits();
    let b128 = pow2_u128(k);
    proof {
        lemma2_to64();
        lemma_canon_digits_spec(int_mag as nat, bn);
    }
    let ip = int_digits(int_mag, b128);
    let n = (frac_bits + k - 1) / k;
    let mut out: Vec<u8> = Vec::new();
    let mut i: usize = 0;
    while i < ip.len()
        invariant
            ip@ == canon_digits(int_mag as nat, bn),
            digits_ok(ip@, bn),
            bn == pow2(spec_digit_bits(radix)),
            bn <= 16,
            out@.len() == i <= ip@.len(),
            forall|idx: int| 0 <= idx < i ==> out@[idx] == spec_digit_ascii(radix, ip@[idx]),
        decreases ip@.len() - i,
    {
        let c = radix.encode_digit(ip[i]);
        out.push(c);
        i = i + 1;
    }
    proof {
        assert(out@ =~= ip_spec);
    }
    if n == 0 {
        return out;
    }
    out.push(46);
    proof {
        assert(k <= w);
    }
    let fd = frac_digits_pow2(frac_mag, w, k, n);
    let ghost fp_spec = fd@.map_values(|d: u8| spec_digit_ascii(radix, d));
    let mut i2: usize = 0;
    while i2 < fd.len()
        invariant
            digits_ok(fd@, bn),
            bn == pow2(spec_digit_bits(radix)),
            bn <= 16,
            i2 <= fd@.len(),
            out@.len() == ip_spec.len() + 1 + i2,
            out@.take(ip_spec.len() as int) == ip_spec,
            out@[ip_spec.len() as int] == 46u8,
            forall|idx: int| 0 <= idx < i2 ==> out@[ip_spec.len() + 1 + idx]
                == spec_digit_ascii(radix, fd@[idx]),
        decreases fd@.len() - i2,
    {
        let c = radix.encode_digit(fd[i2]);
        proof {
            assert(out@.push(c).take(ip_spec.len() as int) =~= out@.take(ip_spec.len() as int));
        }
        out.push(c);
        i2 = i2 + 1;
    }
    proof {
        assert(out@ =~= ip_spec + seq![46u8] + fp_spec);
    }
    out
}

/// One decimal digit out of the top of the fractional register: returns
/// `(digit, rest)` with `digit = r * 10 / 2^w` and `rest = r * 10 mod 2^w`.
/// For the 128-bit width the product is formed in two 64-bit halves.
fn dec_frac_step(r: u128, w: u32) -> (res: (u8, u128))
    requires
        valid_width(w as nat),
        (r as nat) < pow2(w as nat),
    ensures
        res.0 as int == (r as int) * 10 / (pow2(w as nat) as int),
        res.1 as int == (r as int) * 10 % (pow2(w as nat) as int),
        res.0 < 10,
        (res.1 as nat) < pow2(w as nat),
{
    proof {
        lemma2_to64();
        lemma_pow2_128();
    }
    if w < 128 {
        let pw = pow2_u128(w);
        proof {
            vstd::arithmetic::power2::lemma_pow2_strictly_increases(w as nat, 128);
            assert((r as int) * 10 < pw * 10) by (nonlinear_arith)
                requires r < pw;
            assert(pw * 10 <= pow2(128) * 10) by (nonlinear_arith)
                requires pw <= pow2(128) as int;
            lemma_multiply_divide_lt((r as int) * 10, pw as int, 10);
        }
        let t = r * 10;
        ((t / pw) as u8, t % pw)
    } else {
        let p64: u128 = 0x10000000000000000;
        let lo = r % p64;
        let hi = r / p64;
        let lo10 = lo * 10;
        let t = hi * 10 + lo10 / p64;
        proof {
            let ri = r as int;
            let p = p64 as int;
            let pw = pow2(128) as int;
            lemma_fundamental_div_mod(ri, p);
            lemma_fundamental_div_mod(lo10 as int, p);
            assert(p * p == pw);
            // r * 10 == t * 2^64 + (lo10 % 2^64)
            assert((p * (ri / p) + ri % p) * 10 == (ri / p) * 10 * p + (ri % p) * 10)
                by (nonlinear_arith);
            assert((ri / p) * 10 * p + (p * ((lo10 as int) / p) + (lo10 as int) % p)
                == ((ri / p) * 10 + (lo10 as int) / p) * p + (lo10 as int) % p)
                by (nonlinear_arith);
            // t / 2^64 is the digit, the rest is below 2^128
            lemma_fundamental_div_mod(t as int, p);
            let d = (t as int) / p;
            assert(ri * 10 == d * pw + (((t as int) % p) * p + (lo10 as int) % p))
                by (nonlinear_arith)
                requires
                    ri * 10 == (t as int) * p + (lo10 as int) % p,
                    (t as int) == p * d + (t as int) % p,
                    p * p == pw,
            ;
            assert(((t as int) % p) * p <= (p - 1) * p) by (nonlinear_arith)
                requires (t as int) % p <= p - 1, p >= 0;
            assert(((t as int) % p) * p >= 0) by (nonlinear_arith)
                requires (t as int) % p >= 0, p >= 0;
            assert((p - 1) * p + p == pw) by (nonlinear_arith)
                requires p * p == pw;
            lemma_fundamental_div_mod_converse(ri * 10, pw,
                d, ((t as int) % p) * p + (lo10 as int) % p);
            assert(ri * 10 < pw * 10) by (nonlinear_arith)
                requires ri < pw;
            lemma_multiply_divide_lt(ri * 10, pw, 10);
        }
        let d = (t / p64) as u8;
        let r2 = (t % p64) * p64 + lo10 % p64;
        (d, r2)
    }
}

/// Extracts the first `n` decimal digits of the fraction `frac / 2^w`, most
/// significant first, and returns what remains of the register, which the
/// decimal converter weighs for rounding.
fn frac_digits_dec(frac: u128, w: u32, n: u32) -> (res: (Vec<u8>, u128))
    requires
        valid_width(w as nat),
        (frac as nat) < pow2(w as nat),
    ensures
        res.0@ == fixed_digits(frac_quot(frac as nat, 10, n as nat, w as nat) as nat, 10, n as nat),
        res.0@.len() == n,
        digits_ok(res.0@, 10),
        digits_val(res.0@, 10) == frac_quot(frac as nat, 10, n as nat, w as nat),
        res.1 as int == frac_rem(frac as nat, 10, n as nat, w as nat),
{
    proof {
        lemma_pow0_help();
        lemma_pow2_pos(w as nat);
    }
    let mut out: Vec<u8> = Vec::new();
    let mut r: u128 = frac;
    let mut j: u32 = 0;
    proof {
        assert(digits_val(out@, 10) == 0);
        assert(pow(10, 0) == 1);
        assert(frac_scaled(frac as nat, 10, 0) == (frac as int) * 1);
    }
    while j < n
        invariant
            valid_width(w as nat),
            j <= n,
            out@.len() == j,
            digits_ok(out@, 10),
            (r as nat) < pow2(w as nat),
            frac_scaled(frac as nat, 10, j as nat) == (digits_val(out@, 10) as int)
                * (pow2(w as nat) as int) + r,
        decreases n - j,
    {
        let (d, r2) = dec_frac_step(r, w);
        proof {
            let ri = r as int;
            let pw = pow2(w as nat) as int;
            lemma_fundamental_div_mod(ri * 10, pw);
            assert(ri * 10 == (d as int) * pw + (r2 as int)) by (nonlinear_arith)
                requires
                    ri * 10 == pw * (ri * 10 / pw) + ri * 10 % pw,
                    d as int == ri * 10 / pw,
                    r2 as int == ri * 10 % pw,
            ;
            lemma_digits_val_push(out@, d, 10);
            let v = digits_val(out@, 10) as int;
            lemma_pow_adds(10, j as nat, 1);
            lemma_pow1(10);
            assert(frac_scaled(frac as nat, 10, (j + 1) as nat) == frac_scaled(frac as nat, 10,
                j as nat) * 10) by {
                assert((frac as int) * (pow(10, j as nat) * 10) == ((frac as int) * pow(10,
                    j as nat)) * 10) by (nonlinear_arith);
            }
            assert((v * pw + ri) * 10 == (v * 10 + (d as int)) * pw + (r2 as int))
                by (nonlinear_arith)
                requires ri * 10 == (d as int) * pw + (r2 as int);
        }
        out.push(d);
        r = r2;
        j = j + 1;
    }
    proof {
        finish_extraction(out@, frac as nat, 10, n as nat, w as nat, r as nat);
    }
    (out, r)
}

/// Decimal digit values as their ASCII bytes.
pub open spec fn dec_bytes(s: Seq<u8>) -> Seq<u8> {
    s.map_values(|d: u8| (48 + d) as u8)
}

/// `num / den` rounded to the nearest integer, ties to the even neighbour.
pub open spec fn round_half_even(num: int, den: int) -> int
    recommends
        den >= 1,
{
    let q = num / den;
    let r = num % den;
    if 2 * r < den {
        q
    } else if 2 * r > den {
        q + 1
    } else if q % 2 == 0 {
        q
    } else {
        q + 1
    }
}

/// The number the decimal converter prints, scaled by `10^n`: the exact
/// value `(int_mag + frac_mag / 2^w) * 10^n` rounded half-to-even.
pub open spec fn spec_dec_rounded(w: nat, int_mag: nat, frac_mag: nat, n: nat) -> int {
    round_half_even((int_mag * pow2(w) + frac_mag) * pow10(n), pow2(w) as int)
}

/// The fractional digit count decimal output uses: the requested precision
/// capped at `frac_bits` — beyond `frac_bits` binary digits no information
/// exists — or, with no precision given, the round-trip default.
pub open spec fn spec_dec_effective(f: nat, precision: Option<usize>) -> nat {
    match precision {
        Option::Some(p) => if p as nat > f {
            f
        } else {
            p as nat
        },
        Option::None => spec_dec_frac_digits(f),
    }
}

/// The digit bytes (ASCII) of the decimal rendering with `n` fractional
/// digits: for `n == 0` the truncated integer part alone, otherwise the
/// rounded value split at the point, the integer part canonical and the
/// fractional part padded to exactly `n` digits.
pub open spec fn spec_dec_digits(w: nat, int_mag: nat, frac_mag: nat, n: nat) -> Seq<u8> {
    if n == 0 {
        dec_bytes(canon_digits(int_mag, 10))
    } else {
        let nv = spec_dec_rounded(w, int_mag, frac_mag, n);
        dec_bytes(canon_digits((nv / pow10(n)) as nat, 10)) + seq![46u8] + dec_bytes(
            fixed_digits((nv % pow10(n)) as nat, 10, n))
    }
}

/// The rounded value is the truncated digits `V = int_mag * 10^n + t` plus
/// one exactly when the remainder weighs more than half, or exactly half
/// with `t` odd.
pub proof fn lemma_dec_round(w: nat, int_mag: nat, frac_mag: nat, n: nat)
    requires
        w >= 1,
        n >= 1,
        frac_mag < pow2(w),
    ensures
        ({
            let den = pow2(w) as int;
            let t = frac_quot(frac_mag, 10, n, w);
            let rem = frac_rem(frac_mag, 10, n, w);
            let v = int_mag * pow10(n) + t;
            0 <= rem < den && t >= 0 && v % 2 == t % 2 && spec_dec_rounded(w, int_mag, frac_mag,
                n) == (
            if 2 * rem < den {
                v
            } else if 2 * rem > den {
                v + 1
            } else if t % 2 == 0 {
                v
            } else {
                v + 1
            })
        }),
{
    let den = pow2(w) as int;
    let pn = pow10(n);
    let t = frac_quot(frac_mag, 10, n, w);
    let rem = frac_rem(frac_mag, 10, n, w);
    let v = int_mag * pow10(n) + t;
    let num = (int_mag * pow2(w) + frac_mag) * pn;
    lemma_pow2_pos(w);
    lemma_pow10_pos(n);
    lemma_fundamental_div_mod(frac_scaled(frac_mag, 10, n), den);
    assert(frac_scaled(frac_mag, 10, n) == t * den + rem);
    assert(t >= 0) by {
        vstd::arithmetic::div_mod::lemma_div_pos_is_pos(frac_scaled(frac_mag, 10, n), den);
        assert(frac_scaled(frac_mag, 10, n) >= 0) by (nonlinear_arith)
            requires frac_mag >= 0, pow(10, n) >= 1;
    }
    let im = int_mag as int;
    let fm = frac_mag as int;
    assert(num == im * den * pn + fm * pn) by (nonlinear_arith)
        requires
            num == (im * den + fm) * pn,
    ;
    assert(im * den * pn == (im * pn) * den) by (nonlinear_arith);
    assert(v * den == (im * pn) * den + t * den) by (nonlinear_arith)
        requires
            v == im * pn + t,
    ;
    assert(num == v * den + rem);
    lemma_fundamental_div_mod_converse(num, den, v, rem);
    assert(num / den == v && num % den == rem);
    // the parity of v is the parity of t, since 10^n is even
    assert(v % 2 == t % 2) by {
        lemma_pow10_adds(1, (n - 1) as nat);
        lemma_pow10_to19();
        let h = 5 * pow10((n - 1) as nat);
        assert(pn == 2 * h);
        assert(v == 2 * (int_mag * h) + t) by (nonlinear_arith)
            requires v == int_mag * (2 * h) + t;
        lemma_mod_multiples_vanish(int_mag * h, t, 2);
    }
}

/// Appends the ASCII form of the digit values `src[from..to]`.
fn push_dec_bytes(out: &mut Vec<u8>, src: &Vec<u8>, from: usize, to: usize)
    requires
        from <= to <= src@.len(),
        digits_ok(src@, 10),
    ensures
        final(out)@ == old(out)@ + dec_bytes(src@.subrange(from as int, to as int)),
{
    let ghost start = out@;
    proof {
        assert(src@.subrange(from as int, from as int) =~= Seq::<u8>::empty());
        assert(start + dec_bytes(Seq::<u8>::empty()) =~= start);
    }
    let mut i: usize = from;
    while i < to
        invariant
            from <= i <= to <= src@.len(),
            digits_ok(src@, 10),
            out@ == start + dec_bytes(src@.subrange(from as int, i as int)),
        decreases to - i,
    {
        let c: u8 = 48 + src[i];
        proof {
            let sub = src@.subrange(from as int, i as int);
            assert(src@.subrange(from as int, i + 1 as int) =~= sub.push(src@[i as int]));
            assert(dec_bytes(sub.push(src@[i as int])) =~= dec_bytes(sub).push(c));
            assert(start + dec_bytes(sub).push(c) =~= (start + dec_bytes(sub)).push(c));
        }
        out.push(c);
        i = i + 1;
    }
}

/// Renders `int_mag + frac_mag / 2^w` in decimal, as ASCII digit bytes,
/// unsigned: the fraction is rounded half-to-even to the effective digit
/// count; with zero fractional digits the integer part stands alone,
/// truncated, with no point.
pub fn fmt_dec_helper(w: u32, frac_bits: u32, int_mag: u128, frac_mag: u128,
    precision: Option<usize>) -> (out: Vec<u8>)
    requires
        valid_width(w as nat),
        frac_bits <= w,
        (int_mag as nat) < pow2((w - frac_bits) as nat),
        (frac_mag as nat) < pow2(w as nat),
    ensures
        out@ == spec_dec_digits(w as nat, int_mag as nat, frac_mag as nat,
            spec_dec_effective(frac_bits as nat, precision)),
{
    let n: u32 = match precision {
        Option::Some(p) => if p > frac_bits as usize {
            frac_bits
        } else {
            p as u32
        },
        Option::None => dec_frac_digits(frac_bits),
    };
    proof {
        assert(n as nat == spec_dec_effective(frac_bits as nat, precision));
    }
    let ghost int_n = int_mag as nat;
    let ghost frac_n = frac_mag as nat;
    let ghost wn = w as nat;
    let ghost ci = canon_digits(int_n, 10);
    let mut digits = int_digits(int_mag, 10);
    proof {
        lemma_canon_digits_spec(int_n, 10);
    }
    if n == 0 {
        let mut out: Vec<u8> = Vec::new();
        push_dec_bytes(&mut out, &digits, 0, digits.len());
        proof {
            assert(ci.subrange(0, ci.len() as int) =~= ci);
            assert(Seq::<u8>::empty() + dec_bytes(ci) =~= dec_bytes(ci));
        }
        return out;
    }
    let ghost li = ci.len() as int;
    let (mut fd, rem) = frac_digits_dec(frac_mag, w, n);
    let ghost fd_seq = fd@;
    let ghost t = frac_quot(frac_n, 10, n as nat, wn);
    let ghost pn = pow10(n as nat);
    let ghost nv = spec_dec_rounded(wn, int_n, frac_n, n as nat);
    digits.append(&mut fd);
    proof {
        lemma_dec_round(wn, int_n, frac_n, n as nat);
        lemma_digits_val_concat(ci, fd_seq, 10);
        assert(digits@ == ci + fd_seq);
        assert(digits_ok(digits@, 10)) by {
            assert(forall|idx: int| 0 <= idx < li ==> digits@[idx] == ci[idx]);
            assert(forall|idx: int| li <= idx < digits@.len() ==> digits@[idx] == fd_seq[
                idx - li]);
        }
        assert(digits_val(digits@, 10) == (int_n * pn + t));
    }
    let ghost v_trunc = int_n * pn + t;
    let last = digits[digits.len() - 1];
    let half = pow2_u128(w - 1);
    let round_up = rem > half || (rem == half && last % 2 == 1);
    proof {
        lemma_pow2_adds(1, (w - 1) as nat);
        lemma2_to64();
        assert(pow2(wn) == 2 * pow2((w - 1) as nat));
        // the last digit carries the parity of the truncated digits
        lemma_fixed_digits_spec(t as nat, 10, n as nat);
        assert(digits@.last() == fd_seq.last());
        assert(fd_seq.last() == (t % 10) as u8);
        assert(t % 2 == (t % 10) % 2) by {
            lemma_fundamental_div_mod(t, 10);
            assert(t == 2 * (5 * (t / 10)) + t % 10) by (nonlinear_arith)
                requires t == 10 * (t / 10) + t % 10;
            lemma_mod_multiples_vanish(5 * (t / 10), t % 10, 2);
        }
        assert(nv == v_trunc + if round_up { 1int } else { 0int });
    }
    if round_up {
        increment_digits(&mut digits);
    }
    let sp = digits.len() - (n as usize);
    proof {
        let dd = digits@;
        let spi = dd.len() - n;
        assert(digits_val(dd, 10) == nv);
        let aa = dd.take(spi);
        let bb = dd.skip(spi);
        assert(dd =~= aa + bb);
        lemma_digits_val_concat(aa, bb, 10);
        assert(digits_ok(aa, 10) && digits_ok(bb, 10));
        lemma_digits_val_bound(bb, 10);
        lemma_pow10_pos(n as nat);
        lemma_fundamental_div_mod_converse(nv, pn, digits_val(aa, 10) as int,
            digits_val(bb, 10) as int);
        assert(digits_val(aa, 10) == nv / pn && digits_val(bb, 10) == nv % pn);
        lemma_fixed_digits_unique(bb, 10);
        assert(bb == fixed_digits((nv % pn) as nat, 10, n as nat));
        // the integer-part slice is canonical: its leading digit is only
        // zero when it is the single digit of a zero integer part
        if !round_up {
            assert(aa =~= ci);
            assert(nv / pn == int_n) by {
                lemma_fundamental_div_mod_converse(nv, pn, int_n as int, t);
            }
            assert(aa == canon_digits((nv / pn) as nat, 10));
        } else {
            if aa[0] == 0 {
                assert(dd[0] == 0);
                let d0 = ci + fd_seq;
                assert(dd.len() == d0.len() ==> d0[0] == 0);
                assert(dd.len() == d0.len() + 1 ==> dd[0] == 1);
                assert(d0[0] == ci[0]);
                assert(ci[0] == 0 ==> int_n == 0);
                assert(int_n == 0 ==> ci =~= seq![0u8]);
                assert(aa.len() == 1);
            }
            lemma_canon_digits_unique(aa, 10);
            assert(aa == canon_digits((nv / pn) as nat, 10));
        }
        assert(nv >= 0) by {
            assert(v_trunc >= 0) by (nonlinear_arith)
                requires
                    v_trunc == int_n * pn + t,
                    int_n >= 0,
                    pn >= 1,
                    t >= 0,
            ;
        }
    }
    let mut out: Vec<u8> = Vec::new();
    push_dec_bytes(&mut out, &digits, 0, sp);
    out.push(46);
    let ghost mid = out@;
    push_dec_bytes(&mut out, &digits, sp, digits.len());
    proof {
        let dd = digits@;
        let spi = dd.len() - n;
        let aa = dd.take(spi);
        let bb = dd.skip(spi);
        assert(dd.subrange(0, spi) =~= aa);
        assert(dd.subrange(spi, dd.len() as int) =~= bb);
        assert(Seq::<u8>::empty() + dec_bytes(aa) =~= dec_bytes(aa));
        assert(mid =~= dec_bytes(aa).push(46u8));
        assert(dec_bytes(aa).push(46u8) =~= dec_bytes(aa) + seq![46u8]);
        assert(out@ =~= dec_bytes(aa) + seq![46u8] + dec_bytes(bb));
    }
    out
}

/// The bytes a digit buffer may hold: digits, hex letters, the point and
/// the minus sign.
pub open spec fn ascii_ok(b: u8) -> bool {
    b == 45 || b == 46 || (48 <= b <= 57) || (97 <= b <= 102) || (65 <= b <= 70)
}

/// The character a digit-buffer byte stands for.
pub open spec fn byte_char(b: u8) -> char {
    if b == 45 { '-' } else if b == 46 { '.' }
    else if b == 48 { '0' } else if b == 49 { '1' } else if b == 50 { '2' }
    else if b == 51 { '3' } else if b == 52 { '4' } else if b == 53 { '5' }
    else if b == 54 { '6' } else if b == 55 { '7' } else if b == 56 { '8' }
    else if b == 57 { '9' }
    else if b == 97 { 'a' } else if b == 98 { 'b' } else if b == 99 { 'c' }
    else if b == 100 { 'd' } else if b == 101 { 'e' } else if b == 102 { 'f' }
    else if b == 65 { 'A' } else if b == 66 { 'B' } else if b == 67 { 'C' }
    else if b == 68 { 'D' } else if b == 69 { 'E' } else if b == 70 { 'F' }
    else { ' ' }
}

/// A digit buffer read as text.
pub open spec fn chars_of(s: Seq<u8>) -> Seq<char> {
    s.map_values(|b: u8| byte_char(b))
}

/// Appends the character for one digit-buffer byte.
fn push_ascii(out: &mut String, b: u8)
    requires
        ascii_ok(b),
    ensures
        final(out)@ == old(out)@ + seq![byte_char(b)],
{
    let s: &str = match b {
        45 => "-",
        46 => ".",
        48 => "0",
        49 => "1",
        50 => "2",
        51 => "3",
        52 => "4",
        53 => "5",
        54 => "6",
        55 => "7",
        56 => "8",
        57 => "9",
        97 => "a",
        98 => "b",
        99 => "c",
        100 => "d",
        101 => "e",
        102 => "f",
        65 => "A",
        66 => "B",
        67 => "C",
        68 => "D",
        69 => "E",
        _ => "F",
    };
    proof {
        reveal_strlit("-");
        reveal_strlit(".");
        reveal_strlit("0");
        reveal_strlit("1");
        reveal_strlit("2");
        reveal_strlit("3");
        reveal_strlit("4");
        reveal_strlit("5");
        reveal_strlit("6");
        reveal_strlit("7");
        reveal_strlit("8");
        reveal_strlit("9");
        reveal_strlit("a");
        reveal_strlit("b");
        reveal_strlit("c");
        reveal_strlit("d");
        reveal_strlit("e");
        reveal_strlit("f");
        reveal_strlit("A");
        reveal_strlit("B");
        reveal_strlit("C");
        reveal_strlit("D");
        reveal_strlit("E");
        reveal_strlit("F");
        assert(s@ =~= seq![byte_char(b)]);
    }
    out.append(s);
}

/// Every byte the radix-2ᵏ rendering produces is a digit byte or the point.
proof fn lemma_radix2_digits_ascii(w: nat, f: nat, int_mag: nat, frac_mag: nat, r: Radix2)
    ensures
        forall|i: int| 0 <= i < spec_radix2_digits(w, f, int_mag, frac_mag, r).len()
            ==> ascii_ok(#[trigger] spec_radix2_digits(w, f, int_mag, frac_mag, r)[i]),
{
    let k = spec_digit_bits(r);
    let b = pow2(k);
    let n = spec_radix2_frac_digits(f, k);
    lemma2_to64();
    lemma_canon_digits_spec(int_mag, b);
    lemma_fixed_digits_spec(frac_quot(frac_mag, b, n, w) as nat, b, n);
    let s = spec_radix2_digits(w, f, int_mag, frac_mag, r);
    let ip = canon_digits(int_mag, b);
    let fp = fixed_digits(frac_quot(frac_mag, b, n, w) as nat, b, n);
    assert forall|i: int| 0 <= i < s.len() implies ascii_ok(s[i]) by {
        if n == 0 {
            assert(s[i] == spec_digit_ascii(r, ip[i]));
            assert(ip[i] < 16);
        } else {
            if i < ip.len() {
                assert(s[i] == spec_digit_ascii(r, ip[i]));
                assert(ip[i] < 16);
            } else if i == ip.len() {
                assert(s[i] == 46u8);
            } else {
                assert(s[i] == spec_digit_ascii(r, fp[i - ip.len() - 1]));
                assert(fp[i - ip.len() - 1] < 16);
            }
        }
    }
}

/// Every byte the decimal rendering produces is a digit byte or the point.
proof fn lemma_dec_digits_ascii(w: nat, int_mag: nat, frac_mag: nat, n: nat)
    ensures
        forall|i: int| 0 <= i < spec_dec_digits(w, int_mag, frac_mag, n).len()
            ==> ascii_ok(#[trigger] spec_dec_digits(w, int_mag, frac_mag, n)[i]),
{
    let s = spec_dec_digits(w, int_mag, frac_mag, n);
    let nv = spec_dec_rounded(w, int_mag, frac_mag, n);
    lemma_canon_digits_spec(int_mag, 10);
    lemma_canon_digits_spec((nv / pow10(n)) as nat, 10);
    lemma_fixed_digits_spec((nv % pow10(n)) as nat, 10, n);
    let ip = if n == 0 { canon_digits(int_mag, 10) } else {
        canon_digits((nv / pow10(n)) as nat, 10)
    };
    let fp = fixed_digits((nv % pow10(n)) as nat, 10, n);
    assert forall|i: int| 0 <= i < s.len() implies ascii_ok(s[i]) by {
        if n == 0 {
            assert(s[i] == (48 + ip[i]) as u8);
            assert(ip[i] < 10);
        } else {
            if i < ip.len() {
                assert(s[i] == (48 + ip[i]) as u8);
                assert(ip[i] < 10);
            } else if i == ip.len() {
                assert(s[i] == 46u8);
            } else {
                assert(s[i] == (48 + fp[i - ip.len() - 1]) as u8);
                assert(fp[i - ip.len() - 1] < 10);
            }
        }
    }
}

/// Appends the text of a digit buffer to a string.
fn push_buffer(out: &mut String, digits: &Vec<u8>)
    requires
        forall|i: int| 0 <= i < digits@.len() ==> ascii_ok(#[trigger] digits@[i]),
    ensures
        final(out)@ == old(out)@ + chars_of(digits@),
{
    let ghost start = out@;
    proof {
        assert(digits@.take(0) =~= Seq::<u8>::empty());
        assert(start + chars_of(Seq::<u8>::empty()) =~= start);
    }
    let mut i: usize = 0;
    while i < digits.len()
        invariant
            i <= digits@.len(),
            forall|idx: int| 0 <= idx < digits@.len() ==> ascii_ok(#[trigger] digits@[idx]),
            out@ == start + chars_of(digits@.take(i as int)),
        decreases digits@.len() - i,
    {
        proof {
            let sub = digits@.take(i as int);
            assert(digits@.take(i + 1 as int) =~= sub.push(digits@[i as int]));
            assert(chars_of(sub.push(digits@[i as int])) =~= chars_of(sub).push(byte_char(
                digits@[i as int])));
            assert(start + chars_of(sub).push(byte_char(digits@[i as int])) =~= (start
                + chars_of(sub)).push(byte_char(digits@[i as int])));
        }
        push_ascii(out, digits[i]);
        i = i + 1;
    }
    proof {
        assert(digits@.take(digits@.len() as int) =~= digits@);
    }
}

/// The complete radix-2ᵏ rendering: optional minus sign, optional radix
/// prefix, then the exact digits.
pub open spec fn spec_radix2_str(w: nat, f: nat, is_neg: bool, int_mag: nat, frac_mag: nat,
    r: Radix2, with_prefix: bool) -> Seq<char> {
    (if is_neg { seq!['-'] } else { Seq::<char>::empty() })
    + (if with_prefix { spec_prefix(r) } else { Seq::<char>::empty() })
    + chars_of(spec_radix2_digits(w, f, int_mag, frac_mag, r))
}

/// Renders a decomposed fixed-point value exactly in radix 2, 8 or 16.
/// The digits are exact: no rounding occurs, and the printed digits
/// determine the magnitudes completely.
pub fn fmt_radix2(w: u32, frac_bits: u32, is_neg: bool, int_mag: u128, frac_mag: u128,
    radix: Radix2, with_prefix: bool) -> (out: String)
    requires
        valid_width(w as nat),
        frac_bits <= w,
        (int_mag as nat) < pow2((w - frac_bits) as nat),
        (frac_mag as nat) < pow2(w as nat),
    ensures
        out@ == spec_radix2_str(w as nat, frac_bits as nat, is_neg, int_mag as nat,
            frac_mag as nat, radix, with_prefix),
{
    let digits = fmt_radix2_helper(w, frac_bits, int_mag, frac_mag, radix);
    let mut out = String::new();
    if is_neg {
        push_ascii(&mut out, 45);
    }
    proof {
        if is_neg {
            assert(Seq::<char>::empty() + seq![byte_char(45u8)] =~= seq!['-']);
        }
    }
    if with_prefix {
        let p = radix.prefix();
        out.append(p);
    }
    proof {
        lemma_radix2_digits_ascii(w as nat, frac_bits as nat, int_mag as nat, frac_mag as nat,
            radix);
    }
    push_buffer(&mut out, &digits);
    proof {
        let sign: Seq<char> = if is_neg { seq!['-'] } else { Seq::<char>::empty() };
        let pre: Seq<char> = if with_prefix { spec_prefix(radix) } else {
            Seq::<char>::empty()
        };
        assert(out@ =~= sign + pre + chars_of(digits@));
    }
    out
}

/// The complete decimal rendering: optional minus sign, then the rounded
/// digits; decimal has no radix prefix.
pub open spec fn spec_dec_str(w: nat, f: nat, is_neg: bool, int_mag: nat, frac_mag: nat,
    precision: Option<usize>) -> Seq<char> {
    (if is_neg { seq!['-'] } else { Seq::<char>::empty() })
    + chars_of(spec_dec_digits(w, int_mag, frac_mag, spec_dec_effective(f, precision)))
}

/// Renders a decomposed fixed-point value in decimal, rounded half-to-even
/// to the effective fractional digit count: the requested precision capped
/// at `frac_bits`, or the least count that still identifies every value of
/// `frac_bits` fractional bits.
pub fn fmt_dec(w: u32, frac_bits: u32, is_neg: bool, int_mag: u128, frac_mag: u128,
    precision: Option<usize>) -> (out: String)
    requires
        valid_width(w as nat),
        frac_bits <= w,
        (int_mag as nat) < pow2((w - frac_bits) as nat),
        (frac_mag as nat) < pow2(w as nat),
    ensures
        out@ == spec_dec_str(w as nat, frac_bits as nat, is_neg, int_mag as nat, frac_mag as nat,
            precision),
{
    let digits = fmt_dec_helper(w, frac_bits, int_mag, frac_mag, precision);
    let mut out = String::new();
    if is_neg {
        push_ascii(&mut out, 45);
    }
    proof {
        if is_neg {
            assert(Seq::<char>::empty() + seq![byte_char(45u8)] =~= seq!['-']);
        }
        lemma_dec_digits_ascii(w as nat, int_mag as nat, frac_mag as nat,
            spec_dec_effective(frac_bits as nat, precision));
    }
    push_buffer(&mut out, &digits);
    proof {
        let sign: Seq<char> = if is_neg { seq!['-'] } else { Seq::<char>::empty() };
        assert(out@ =~= sign + chars_of(digits@));
    }
    out
}

} // verus!
