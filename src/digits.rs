//! Natural numbers of any size, held as little-endian digits in base `RATE_ONE`.
//!
//! Multiplying such a number by a rate is one pass of carries, and dividing it by a
//! power of `RATE_ONE` is reading it from a higher digit on: together they compute a
//! rate tapered over many years without rounding in between.
use vstd::arithmetic::div_mod::lemma_fundamental_div_mod_converse;
use vstd::arithmetic::power::{lemma_pow0, lemma_pow_positive, pow};
use vstd::prelude::*;

use crate::inflation::RATE_ONE;

verus! {

/// The number that the little-endian base-`RATE_ONE` digits `s` stand for.
pub open spec fn digits_value(s: Seq<u64>) -> int
    decreases s.len(),
{
    if s.len() == 0 {
        0
    } else {
        digits_value(s.drop_last()) + s.last() * pow(RATE_ONE as int, (s.len() - 1) as nat)
    }
}

/// Every element of `s` is a digit in base `RATE_ONE`.
pub open spec fn is_digits(s: Seq<u64>) -> bool {
    forall|i: int| 0 <= i < s.len() ==> #[trigger] s[i] < RATE_ONE
}

/// One more factor of the base.
pub proof fn lemma_pow_step(b: int, e: nat)
    ensures
        pow(b, e + 1) == b * pow(b, e),
{
    reveal(pow);
}

/// A power of a non-negative base is non-negative.
pub proof fn lemma_pow_nonneg(b: int, e: nat)
    requires
        b >= 0,
    ensures
        pow(b, e) >= 0,
    decreases e,
{
    if e == 0 {
        lemma_pow0(b);
    } else {
        lemma_pow_nonneg(b, (e - 1) as nat);
        lemma_pow_step(b, (e - 1) as nat);
        assert(b * pow(b, (e - 1) as nat) >= 0) by (nonlinear_arith)
            requires
                b >= 0,
                pow(b, (e - 1) as nat) >= 0,
        ;
    }
}

/// A number of `n` digits is below the base to the power `n`.
pub proof fn lemma_digits_bound(s: Seq<u64>)
    requires
        is_digits(s),
    ensures
        0 <= digits_value(s) < pow(RATE_ONE as int, s.len()),
    decreases s.len(),
{
    let b = RATE_ONE as int;
    if s.len() == 0 {
        lemma_pow0(b);
    } else {
        let n = (s.len() - 1) as nat;
        let p = s.drop_last();
        assert forall|i: int| 0 <= i < p.len() implies #[trigger] p[i] < RATE_ONE by {
            assert(p[i] == s[i]);
        }
        lemma_digits_bound(p);
        lemma_pow_positive(b, n);
        lemma_pow_step(b, n);
        let v = digits_value(p);
        let d = s.last() as int;
        let q = pow(b, n);
        assert(0 <= v + d * q < b * q) by (nonlinear_arith)
            requires
                0 <= v < q,
                0 <= d < b,
        ;
    }
}

/// The number `n`, in three digits.
pub fn digits_of(n: u64) -> (r: Vec<u64>)
    ensures
        is_digits(r@),
        r@.len() == 3,
        digits_value(r@) == n,
{
    let r = vec![n % RATE_ONE, (n / RATE_ONE) % RATE_ONE, n / RATE_ONE / RATE_ONE];
    proof {
        let b = RATE_ONE as int;
        lemma_pow0(b);
        lemma_pow_step(b, 0);
        lemma_pow_step(b, 1);
        assert(r@.drop_last() =~= seq![r@[0], r@[1]]);
        assert(r@.drop_last().drop_last() =~= seq![r@[0]]);
        assert(r@.drop_last().drop_last().drop_last() =~= Seq::<u64>::empty());
        let s1 = r@.drop_last().drop_last();
        let s2 = r@.drop_last();
        assert(s1.len() == 1 && s1.last() == r@[0]);
        assert(pow(b, (s1.len() - 1) as nat) == 1);
        assert(digits_value(s1.drop_last()) == 0);
        assert(s1.last() * pow(b, (s1.len() - 1) as nat) == r@[0]);
        assert(digits_value(s1) == r@[0]);
        assert(digits_value(s2) == r@[0] + r@[1] * b);
        assert(digits_value(r@) == r@[0] + r@[1] * b + r@[2] * (b * b));
    }
    r
}

/// `s` times `k`, one digit longer.
pub fn mul_digits(s: &Vec<u64>, k: u64) -> (r: Vec<u64>)
    requires
        is_digits(s@),
        k < RATE_ONE,
    ensures
        is_digits(r@),
        r@.len() == s@.len() + 1,
        digits_value(r@) == digits_value(s@) * k,
{
    let ghost b = RATE_ONE as int;
    let mut r: Vec<u64> = Vec::new();
    let mut carry: u64 = 0;
    let mut i: usize = 0;
    proof {
        lemma_pow0(b);
        assert(s@.take(0) =~= Seq::<u64>::empty());
    }
    while i < s.len()
        invariant
            is_digits(s@),
            k < RATE_ONE,
            b == RATE_ONE as int,
            i <= s@.len(),
            r@.len() == i,
            is_digits(r@),
            carry < RATE_ONE,
            digits_value(r@) + carry * pow(b, i as nat) == digits_value(s@.take(i as int)) * k,
        decreases s@.len() - i,
    {
        let d = s[i];
        assert(d as int * k + carry < b * b) by (nonlinear_arith)
            requires
                0 <= d < b,
                0 <= k < b,
                0 <= carry < b,
        ;
        let x: u64 = d * k + carry;
        let digit: u64 = x % RATE_ONE;
        let next: u64 = x / RATE_ONE;
        proof {
            let q = pow(b, i as nat);
            lemma_pow_step(b, i as nat);
            assert(s@.take(i + 1).drop_last() =~= s@.take(i as int));
            assert(r@.push(digit).drop_last() =~= r@);
            let old_r = digits_value(r@);
            let old_s = digits_value(s@.take(i as int));
            assert(digits_value(s@.take(i + 1)) == old_s + d * q);
            assert(digits_value(r@.push(digit)) == old_r + digit * q);
            assert(x == next * b + digit);
            assert(old_r + digit * q + next * (b * q) == (old_s + d * q) * k) by (nonlinear_arith)
                requires
                    old_r + carry * q == old_s * k,
                    x == next * b + digit,
                    x == d * k + carry,
            ;
        }
        r.push(digit);
        carry = next;
        i = i + 1;
    }
    proof {
        assert(s@.take(s@.len() as int) =~= s@);
        assert(r@.push(carry).drop_last() =~= r@);
    }
    r.push(carry);
    r
}

/// Cutting off the lowest `m` digits of `m + 3` digits leaves the top three.
proof fn lemma_top_digits(s: Seq<u64>, m: nat)
    requires
        is_digits(s),
        s.len() == m + 3,
    ensures
        digits_value(s) / pow(RATE_ONE as int, m) == s[m as int] + s[m + 1 as int] * (RATE_ONE as int)
            + s[m + 2 as int] * (RATE_ONE as int * RATE_ONE as int),
{
    let b = RATE_ONE as int;
    let low = s.take(m as int);
    assert forall|i: int| 0 <= i < low.len() implies #[trigger] low[i] < RATE_ONE by {
        assert(low[i] == s[i]);
    }
    lemma_digits_bound(low);
    assert(s.drop_last() =~= s.take(m + 2 as int));
    assert(s.take(m + 2 as int).drop_last() =~= s.take(m + 1 as int));
    assert(s.take(m + 1 as int).drop_last() =~= low);
    lemma_pow_step(b, m);
    lemma_pow_step(b, m + 1);
    let q = pow(b, m);
    let top = s[m as int] + s[m + 1 as int] * b + s[m + 2 as int] * (b * b);
    let v = digits_value(low);
    assert(digits_value(s.take(m + 1 as int)) == v + s[m as int] * q);
    assert(digits_value(s.take(m + 2 as int)) == v + s[m as int] * q + s[m + 1 as int] * (b * q));
    assert(digits_value(s) == v + s[m as int] * q + s[m + 1 as int] * (b * q) + s[m + 2 as int] * (b * (b * q)));
    assert(digits_value(s) == top * q + v) by (nonlinear_arith)
        requires
            digits_value(s) == v + s[m as int] * q + s[m + 1 as int] * (b * q) + s[m + 2 as int] * (b * (b * q)),
            top == s[m as int] + s[m + 1 as int] * b + s[m + 2 as int] * (b * b),
    ;
    lemma_fundamental_div_mod_converse(digits_value(s), q, top, v);
}

/// The number `s` stands for, divided by the base to the power `s.len() - 3`.
pub fn top_digits_value(s: &Vec<u64>) -> (r: u128)
    requires
        is_digits(s@),
        s@.len() >= 3,
    ensures
        r == digits_value(s@) / pow(RATE_ONE as int, (s@.len() - 3) as nat),
{
    let m = s.len() - 3;
    let b = RATE_ONE as u128;
    proof {
        lemma_top_digits(s@, m as nat);
    }
    let d0 = s[m] as u128;
    let d1 = s[m + 1] as u128;
    let d2 = s[m + 2] as u128;
    assert(d0 + d1 * b + d2 * (b * b) < b * b * b) by (nonlinear_arith)
        requires
            d0 < b,
            d1 < b,
            d2 < b,
            b == 1_000_000_000,
    ;
    d0 + d1 * b + d2 * (b * b)
}

} // verus!
