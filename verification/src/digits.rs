//! Digit sequences and their arithmetic meaning.
//!
//! A digit string is modelled as a `Seq<u8>` of digit *values* (not ASCII),
//! most significant digit first.  `digits_val` reads such a sequence back as
//! a number, `canon_digits` is the canonical (no leading zero) form of a
//! number and `fixed_digits` its fixed-width form.  The executable functions
//! extract the canonical digits of a register and add one to a digit string,
//! which is how decimal rounding propagates its carry.

use vstd::prelude::*;

verus! {

use vstd::arithmetic::div_mod::{
    lemma_breakdown, lemma_div_decreases, lemma_fundamental_div_mod,
    lemma_fundamental_div_mod_converse, lemma_small_mod,
};
use vstd::arithmetic::power::{lemma_pow0, lemma_pow1, lemma_pow_adds, lemma_pow_positive, pow};

/// Every entry of `s` is a digit of base `b`.
pub open spec fn digits_ok(s: Seq<u8>, b: nat) -> bool {
    forall|i: int| 0 <= i < s.len() ==> (#[trigger] s[i] as nat) < b
}

/// The number denoted by the digit string `s` in base `b`, most significant
/// digit first.
pub open spec fn digits_val(s: Seq<u8>, b: nat) -> nat
    decreases s.len(),
{
    if s.len() == 0 {
        0
    } else {
        digits_val(s.drop_last(), b) * b + (s.last() as nat)
    }
}

/// The canonical base-`b` digit string of `v`: no leading zero, except that
/// zero itself is the single digit `0`.
pub open spec fn canon_digits(v: nat, b: nat) -> Seq<u8>
    recommends
        2 <= b <= 256,
    decreases v,
        via canon_digits_decreases
{
    if b < 2 {
        seq![]
    } else if v < b {
        seq![v as u8]
    } else {
        canon_digits(v / b, b).push((v % b) as u8)
    }
}

#[via_fn]
proof fn canon_digits_decreases(v: nat, b: nat) {
    if b >= 2 && v >= b {
        lemma_div_decreases(v as int, b as int);
    }
}

/// The base-`b` digit string of `v mod b^n`, padded to exactly `n` digits.
pub open spec fn fixed_digits(v: nat, b: nat, n: nat) -> Seq<u8>
    recommends
        2 <= b <= 256,
    decreases n,
{
    if n == 0 {
        seq![]
    } else {
        fixed_digits(v / b, b, (n - 1) as nat).push((v % b) as u8)
    }
}

/// Appending a digit multiplies the value by the base and adds the digit.
pub proof fn lemma_digits_val_push(s: Seq<u8>, d: u8, b: nat)
    ensures
        digits_val(s.push(d), b) == digits_val(s, b) * b + d,
{
    assert(s.push(d).drop_last() =~= s);
    assert(s.push(d).last() == d);
}

/// A single digit denotes itself.
pub proof fn lemma_digits_val_singleton(d: u8, b: nat)
    ensures
        digits_val(seq![d], b) == d,
{
    let s = seq![d];
    assert(s.drop_last().len() == 0);
    assert(digits_val(s.drop_last(), b) == 0);
    assert(s.last() == d);
    assert(digits_val(s, b) == 0 * b + d);
    assert(0 * b == 0) by (nonlinear_arith);
}

/// A string of zero digits denotes zero.
pub proof fn lemma_digits_val_zero(s: Seq<u8>, b: nat)
    requires
        forall|i: int| 0 <= i < s.len() ==> s[i] == 0,
    ensures
        digits_val(s, b) == 0,
    decreases s.len(),
{
    if s.len() > 0 {
        assert(forall|i: int| 0 <= i < s.drop_last().len() ==> s.drop_last()[i] == 0);
        lemma_digits_val_zero(s.drop_last(), b);
        assert(s.last() == 0);
        assert(digits_val(s, b) == 0 * b + 0);
        assert(0 * b == 0) by (nonlinear_arith);
    }
}

/// Concatenation: the left part is shifted past the right part.
pub proof fn lemma_digits_val_concat(a: Seq<u8>, c: Seq<u8>, b: nat)
    ensures
        digits_val(a + c, b) == digits_val(a, b) * pow(b as int, c.len()) + digits_val(c, b),
    decreases c.len(),
{
    if c.len() == 0 {
        lemma_pow0(b as int);
        assert(a + c =~= a);
    } else {
        lemma_digits_val_concat(a, c.drop_last(), b);
        assert((a + c).drop_last() =~= a + c.drop_last());
        assert((a + c).last() == c.last());
        let va = digits_val(a, b) as int;
        let vc = digits_val(c.drop_last(), b) as int;
        let p = pow(b as int, (c.len() - 1) as nat);
        lemma_pow_adds(b as int, (c.len() - 1) as nat, 1);
        lemma_pow1(b as int);
        assert((va * p + vc) * (b as int) == va * (p * (b as int)) + vc * (b as int))
            by (nonlinear_arith);
    }
}

/// A digit string of length `n` denotes a value below `b^n`.
pub proof fn lemma_digits_val_bound(s: Seq<u8>, b: nat)
    requires
        digits_ok(s, b),
        b >= 1,
    ensures
        digits_val(s, b) < pow(b as int, s.len()),
    decreases s.len(),
{
    if s.len() == 0 {
        lemma_pow0(b as int);
    } else {
        assert(digits_ok(s.drop_last(), b));
        lemma_digits_val_bound(s.drop_last(), b);
        let v = digits_val(s.drop_last(), b) as int;
        let p = pow(b as int, (s.len() - 1) as nat);
        lemma_pow_adds(b as int, (s.len() - 1) as nat, 1);
        lemma_pow1(b as int);
        assert(v <= p - 1);
        assert(s.last() as int <= b - 1);
        assert(v * (b as int) <= (p - 1) * (b as int)) by (nonlinear_arith)
            requires v <= p - 1, b >= 1;
        assert((p - 1) * (b as int) + (b as int) == p * (b as int)) by (nonlinear_arith);
    }
}

/// A digit string that does not start with `0` denotes at least `1`.
pub proof fn lemma_digits_val_pos(s: Seq<u8>, b: nat)
    requires
        s.len() >= 1,
        s[0] >= 1,
        b >= 2,
    ensures
        digits_val(s, b) >= 1,
    decreases s.len(),
{
    if s.len() == 1 {
        assert(s.drop_last().len() == 0);
    } else {
        assert(s.drop_last()[0] == s[0]);
        lemma_digits_val_pos(s.drop_last(), b);
        let v = digits_val(s.drop_last(), b) as int;
        assert(v * (b as int) >= 1 * (b as int)) by (nonlinear_arith)
            requires v >= 1, b >= 2;
    }
}

/// Shape, digit range and value of the fixed-width form.
pub proof fn lemma_fixed_digits_spec(v: nat, b: nat, n: nat)
    requires
        2 <= b <= 256,
    ensures
        fixed_digits(v, b, n).len() == n,
        digits_ok(fixed_digits(v, b, n), b),
        digits_val(fixed_digits(v, b, n), b) == v % (pow(b as int, n) as nat),
        n >= 1 ==> fixed_digits(v, b, n).last() == (v % b) as u8,
    decreases n,
{
    if n == 0 {
        lemma_pow0(b as int);
        assert(v % (pow(b as int, 0) as nat) == 0) by {
            assert(pow(b as int, 0) == 1);
        }
    } else {
        lemma_fixed_digits_spec(v / b, b, (n - 1) as nat);
        let s = fixed_digits(v / b, b, (n - 1) as nat);
        lemma_digits_val_push(s, (v % b) as u8, b);
        let p = pow(b as int, (n - 1) as nat);
        lemma_pow_positive(b as int, (n - 1) as nat);
        lemma_pow_adds(b as int, 1, (n - 1) as nat);
        lemma_pow1(b as int);
        lemma_breakdown(v as int, b as int, p);
        assert(digits_val(s, b) == (v / b) % (p as nat));
        assert((v as int) % ((b as int) * p) == (b as int) * ((v as int / (b as int)) % p) + (v as int) % (b as int));
        assert((b as int) * ((v / b) as int % p) == ((v / b) as int % p) * (b as int))
            by (nonlinear_arith);
    }
}

/// A digit string of length `n` is the fixed-width form of its own value:
/// fixed-width digit strings are unique.
pub proof fn lemma_fixed_digits_unique(s: Seq<u8>, b: nat)
    requires
        2 <= b <= 256,
        digits_ok(s, b),
    ensures
        s == fixed_digits(digits_val(s, b), b, s.len()),
    decreases s.len(),
{
    if s.len() == 0 {
        assert(s =~= fixed_digits(digits_val(s, b), b, 0));
    } else {
        assert(digits_ok(s.drop_last(), b));
        lemma_fixed_digits_unique(s.drop_last(), b);
        let v0 = digits_val(s.drop_last(), b);
        let d = s.last();
        let v = digits_val(s, b);
        assert(v == v0 * b + d);
        lemma_fundamental_div_mod_converse(v as int, b as int, v0 as int, d as int);
        assert(v / b == v0 && v % b == d as nat);
        assert(s =~= fixed_digits(v0, b, (s.len() - 1) as nat).push((v % b) as u8));
    }
}

/// Shape, digit range and value of the canonical form.
pub proof fn lemma_canon_digits_spec(v: nat, b: nat)
    requires
        2 <= b <= 256,
    ensures
        canon_digits(v, b).len() >= 1,
        digits_ok(canon_digits(v, b), b),
        digits_val(canon_digits(v, b), b) == v,
        v >= 1 ==> canon_digits(v, b)[0] >= 1,
        v == 0 ==> canon_digits(v, b) =~= seq![0u8],
    decreases v,
{
    if v < b {
        let s = canon_digits(v, b);
        assert(s =~= seq![v as u8]);
        lemma_digits_val_singleton(v as u8, b);
    } else {
        lemma_div_decreases(v as int, b as int);
        lemma_canon_digits_spec(v / b, b);
        let s0 = canon_digits(v / b, b);
        assert(canon_digits(v, b) == s0.push((v % b) as u8));
        lemma_digits_val_push(s0, (v % b) as u8, b);
        lemma_fundamental_div_mod(v as int, b as int);
        assert(canon_digits(v, b)[0] == s0[0]);
        assert(v / b >= 1) by {
            assert(v / b > 0) by {
                vstd::arithmetic::div_mod::lemma_div_non_zero(v as int, b as int);
            }
        }
    }
}

/// A digit string with no leading zero (or the single digit `0`) is the
/// canonical form of its own value: such strings are unique.
pub proof fn lemma_canon_digits_unique(s: Seq<u8>, b: nat)
    requires
        2 <= b <= 256,
        digits_ok(s, b),
        s.len() >= 1,
        s[0] >= 1 || s.len() == 1,
    ensures
        s == canon_digits(digits_val(s, b), b),
    decreases s.len(),
{
    let v = digits_val(s, b);
    if s.len() == 1 {
        assert(s =~= seq![s[0]]);
        lemma_digits_val_singleton(s[0], b);
        assert(v == s[0] as nat);
        assert(s =~= canon_digits(v, b));
    } else {
        assert(s.drop_last()[0] == s[0]);
        assert(digits_ok(s.drop_last(), b));
        lemma_canon_digits_unique(s.drop_last(), b);
        lemma_digits_val_pos(s.drop_last(), b);
        let v0 = digits_val(s.drop_last(), b);
        let d = s.last();
        assert(v == v0 * b + d);
        lemma_fundamental_div_mod_converse(v as int, b as int, v0 as int, d as int);
        assert(v / b == v0 && v % b == d as nat);
        assert(v >= b) by {
            assert(v0 * b >= 1 * b) by (nonlinear_arith)
                requires v0 >= 1, b >= 2;
        }
        assert(s =~= canon_digits(v / b, b).push((v % b) as u8));
    }
}

/// Changing one digit changes the value by the difference times the weight
/// of that position.
pub proof fn lemma_digits_val_update(s: Seq<u8>, j: int, x: u8, b: nat)
    requires
        0 <= j < s.len(),
    ensures
        digits_val(s.update(j, x), b) == digits_val(s, b) + (x - s[j]) * pow(
            b as int,
            (s.len() - 1 - j) as nat,
        ),
    decreases s.len(),
{
    if j == s.len() - 1 {
        assert(s.update(j, x).drop_last() =~= s.drop_last());
        assert(s.update(j, x).last() == x);
        lemma_pow0(b as int);
        assert((x - s[j]) * 1 == x - s[j]) by (nonlinear_arith);
    } else {
        assert(s.update(j, x).drop_last() =~= s.drop_last().update(j, x));
        assert(s.update(j, x).last() == s.last());
        lemma_digits_val_update(s.drop_last(), j, x, b);
        let diff = x - s[j] as int;
        let p = pow(b as int, (s.len() - 2 - j) as nat);
        lemma_pow_adds(b as int, (s.len() - 2 - j) as nat, 1);
        lemma_pow1(b as int);
        let v0 = digits_val(s.drop_last(), b) as int;
        assert((v0 + diff * p) * (b as int) == v0 * (b as int) + diff * (p * (b as int)))
            by (nonlinear_arith);
    }
}

/// Extracts the canonical base-`b` digits of `v`, most significant first.
pub fn int_digits(v: u128, b: u128) -> (r: Vec<u8>)
    requires
        2 <= b <= 16,
    ensures
        r@ == canon_digits(v as nat, b as nat),
{
    let mut acc: Vec<u8> = Vec::new();
    let mut x: u128 = v;
    let d0: u8 = (x % b) as u8;
    acc.insert(0, d0);
    x = x / b;
    proof {
        let vn = v as nat;
        let bn = b as nat;
        if v < b {
            vstd::arithmetic::div_mod::lemma_basic_div(v as int, b as int);
            lemma_small_mod(vn, bn);
            assert(acc@ =~= canon_digits(vn, bn));
        } else {
            vstd::arithmetic::div_mod::lemma_div_non_zero(v as int, b as int);
            assert(canon_digits(vn, bn) == canon_digits(vn / bn, bn).push((vn % bn) as u8));
            assert(canon_digits(vn / bn, bn).push((vn % bn) as u8) =~= canon_digits(vn / bn, bn)
                + seq![(vn % bn) as u8]);
            assert(acc@ =~= seq![(vn % bn) as u8]);
            assert(canon_digits(vn, bn) == canon_digits(x as nat, bn) + acc@);
        }
    }
    while x != 0
        invariant
            2 <= b <= 16,
            x == 0 ==> acc@ == canon_digits(v as nat, b as nat),
            x >= 1 ==> canon_digits(v as nat, b as nat) == canon_digits(x as nat, b as nat)
                + acc@,
        decreases x,
    {
        let d: u8 = (x % b) as u8;
        proof {
            let xn = x as nat;
            let bn = b as nat;
            if xn < bn {
                vstd::arithmetic::div_mod::lemma_basic_div(x as int, b as int);
                assert(canon_digits(xn, bn) =~= seq![xn as u8]);
                lemma_small_mod(xn, bn);
                assert(seq![xn as u8] + acc@ =~= acc@.insert(0, (xn % bn) as u8));
            } else {
                assert(canon_digits(xn, bn) == canon_digits(xn / bn, bn).push((xn % bn) as u8));
                assert(canon_digits(xn / bn, bn).push((xn % bn) as u8) + acc@ =~= canon_digits(
                    xn / bn,
                    bn,
                ) + acc@.insert(0, (xn % bn) as u8));
                vstd::arithmetic::div_mod::lemma_div_non_zero(x as int, b as int);
            }
            lemma_div_decreases(x as int, b as int);
        }
        acc.insert(0, d);
        x = x / b;
    }
    acc
}

/// Adds one to a decimal digit string, carrying right to left; the string
/// grows by one leading digit `1` exactly when it was all nines.
pub fn increment_digits(d: &mut Vec<u8>)
    requires
        digits_ok(old(d)@, 10),
        old(d)@.len() >= 1,
    ensures
        digits_ok(final(d)@, 10),
        digits_val(final(d)@, 10) == digits_val(old(d)@, 10) + 1,
        final(d)@.len() == old(d)@.len() || final(d)@.len() == old(d)@.len() + 1,
        final(d)@.len() == old(d)@.len() ==> (final(d)@[0] == 0 ==> old(d)@[0] == 0),
        final(d)@.len() == old(d)@.len() + 1 ==> final(d)@[0] == 1,
{
    let ghost s = old(d)@;
    let n = d.len();
    let mut i: usize = n;
    proof {
        lemma_pow0(10);
    }
    while i > 0
        invariant
            s == old(d)@,
            digits_ok(s, 10),
            s.len() == n >= 1,
            0 <= i <= n,
            d@.len() == n,
            digits_ok(d@, 10),
            forall|idx: int| 0 <= idx < i ==> d@[idx] == s[idx],
            forall|idx: int| i <= idx < n ==> d@[idx] == 0,
            digits_val(s, 10) + 1 == digits_val(d@, 10) + pow(10, (n - i) as nat),
        decreases i,
    {
        let digit = d[i - 1];
        proof {
            assert(digit == s[i - 1]);
        }
        if digit == 9 {
            proof {
                lemma_digits_val_update(d@, (i - 1) as int, 0u8, 10);
                lemma_pow_adds(10, (n - i) as nat, 1);
                lemma_pow1(10);
                let p = pow(10, (n - i) as nat);
                assert((0 - 9) * p == -(9 * p)) by (nonlinear_arith);
                assert(p * 10 == 10 * p) by (nonlinear_arith);
            }
            d[i - 1] = 0;
            i = i - 1;
        } else {
            proof {
                lemma_digits_val_update(d@, (i - 1) as int, (digit + 1) as u8, 10);
                let p = pow(10, (n - i) as nat);
                assert(((digit + 1) - digit) * p == p) by (nonlinear_arith);
            }
            d[i - 1] = digit + 1;
            return;
        }
    }
    proof {
        lemma_digits_val_zero(d@, 10);
    }
    d.insert(0, 1u8);
    proof {
        let zeros = d@.subrange(1, d@.len() as int);
        assert(d@ =~= seq![1u8] + zeros);
        lemma_digits_val_concat(seq![1u8], zeros, 10);
        lemma_digits_val_zero(zeros, 10);
        lemma_digits_val_singleton(1u8, 10);
        assert(1 * pow(10, zeros.len()) == pow(10, zeros.len())) by (nonlinear_arith);
    }
}

} // verus!
