//! What holds of the decimals the library computes with, whatever digits
//! and scale the outside crate has chosen to write them with.
use vstd::prelude::*;
use vstd::arithmetic::div_mod::{lemma_div_multiples_vanish, lemma_div_multiples_vanish_quotient};
use crate::decimal::{pow10, rescaled, same_number, toward_zero};

verus! {

/// Every power of ten is positive.
pub proof fn lemma_pow10_is_positive(n: nat)
    ensures
        pow10(n) > 0,
    decreases n,
{
    if n > 0 {
        lemma_pow10_is_positive((n - 1) as nat);
    }
}

/// The power of a sum is the product of the powers.
pub proof fn lemma_pow10_adds(a: nat, b: nat)
    ensures
        pow10(a + b) == pow10(a) * pow10(b),
    decreases a,
{
    if a > 0 {
        lemma_pow10_adds((a - 1) as nat, b);
        assert(pow10(a + b) == 10 * pow10((a - 1 + b) as nat));
        assert(10 * (pow10((a - 1) as nat) * pow10(b)) == (10 * pow10((a - 1) as nat)) * pow10(b))
            by (nonlinear_arith);
    } else {
        assert(pow10(0) * pow10(b) == pow10(b)) by (nonlinear_arith)
            requires
                pow10(0) == 1,
        ;
    }
}

proof fn lemma_cut_of_multiple(k: int, d: int)
    requires
        d > 0,
    ensures
        toward_zero(k * d, d) == k,
{
    if k >= 0 {
        assert(k * d >= 0) by (nonlinear_arith)
            requires
                k >= 0,
                d > 0,
        ;
        lemma_div_multiples_vanish(k, d);
        assert(k * d == d * k) by (nonlinear_arith);
    } else {
        assert(k * d < 0) by (nonlinear_arith)
            requires
                k < 0,
                d > 0,
        ;
        assert(-(k * d) == d * (-k)) by (nonlinear_arith);
        lemma_div_multiples_vanish(-k, d);
    }
}

proof fn lemma_cut_cancels(m: int, a: int, b: int)
    requires
        a > 0,
        b > 0,
    ensures
        toward_zero(m * a, a * b) == toward_zero(m, b),
{
    if m >= 0 {
        assert(m * a >= 0) by (nonlinear_arith)
            requires
                m >= 0,
                a > 0,
        ;
        lemma_div_multiples_vanish_quotient(a, m, b);
        assert(m * a == a * m) by (nonlinear_arith);
    } else {
        assert(m * a < 0) by (nonlinear_arith)
            requires
                m < 0,
                a > 0,
        ;
        lemma_div_multiples_vanish_quotient(a, -m, b);
        assert(-(m * a) == a * (-m)) by (nonlinear_arith);
    }
}

proof fn lemma_rescaled_with_zeros(m: int, e: int, f: int, s: int)
    requires
        e <= f,
    ensures
        rescaled((m, e), s) == rescaled((m * pow10((f - e) as nat), f), s),
{
    let p = pow10((f - e) as nat);
    lemma_pow10_is_positive((f - e) as nat);
    if m == 0 {
        assert(m * p == 0) by (nonlinear_arith)
            requires
                m == 0,
        ;
    } else {
        assert(m * p != 0) by (nonlinear_arith)
            requires
                m != 0,
                p > 0,
        ;
        if s >= f {
            lemma_pow10_adds((f - e) as nat, (s - f) as nat);
            assert(((f - e) as nat) + ((s - f) as nat) == (s - e) as nat);
            let q = pow10((s - f) as nat);
            assert(m * (p * q) == (m * p) * q) by (nonlinear_arith);
            assert(pow10(0) == 1);
            assert(m * 1 == m);
            if s == f {
                assert((m * p) * 1 == m * p) by (nonlinear_arith);
            }
        } else if s >= e {
            let up = pow10((s - e) as nat);
            let down = pow10((f - s) as nat);
            lemma_pow10_adds((s - e) as nat, (f - s) as nat);
            assert(((s - e) as nat) + ((f - s) as nat) == (f - e) as nat);
            lemma_pow10_is_positive((f - s) as nat);
            assert(m * (up * down) == (m * up) * down) by (nonlinear_arith);
            lemma_cut_of_multiple(m * up, down);
            assert(pow10(0) == 1);
            assert(m * 1 == m);
        } else {
            let b = pow10((e - s) as nat);
            lemma_pow10_adds((f - e) as nat, (e - s) as nat);
            assert(((f - e) as nat) + ((e - s) as nat) == (f - s) as nat);
            lemma_pow10_is_positive((e - s) as nat);
            lemma_cut_cancels(m, p, b);
        }
    }
}

/// Bringing a decimal to a scale is a matter of the number alone: two
/// decimals that stand for the same number, written with whatever digits
/// and scale, are the same decimal once both are brought to one scale.
pub proof fn lemma_rescaled_number(x: (int, int), y: (int, int), scale: int)
    requires
        same_number(x, y),
    ensures
        rescaled(x, scale) == rescaled(y, scale),
{
    assert(pow10(0) == 1);
    if x.1 <= y.1 {
        assert(x.0 * pow10((y.1 - x.1) as nat) == y.0 * 1);
        lemma_rescaled_with_zeros(x.0, x.1, y.1, scale);
    } else {
        assert(x.0 * 1 == y.0 * pow10((x.1 - y.1) as nat));
        lemma_rescaled_with_zeros(y.0, y.1, x.1, scale);
    }
}

} // verus!
