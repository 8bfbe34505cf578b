//! Arithmetic of real numbers for statements about precision.

use vstd::prelude::*;

verus! {

pub(crate) proof fn lemma_times(x: real, y: real, b: real)
    requires
        b >= 0real,
        x <= y,
    ensures
        x * b <= y * b,
{
    assert(x * b <= y * b) by (nonlinear_arith)
        requires
            b >= 0real,
            x <= y,
    ;
}

pub(crate) proof fn lemma_cancel(x: real, y: real, b: real)
    requires
        b > 0real,
        x * b <= y * b,
    ensures
        x <= y,
{
    assert(x <= y) by (nonlinear_arith)
        requires
            b > 0real,
            x * b <= y * b,
    ;
}

pub(crate) proof fn lemma_positive(a: real, b: real)
    requires
        a > 0real,
        b > 0real,
    ensures
        a * b > 0real,
{
    assert(a * b > 0real) by (nonlinear_arith)
        requires
            a > 0real,
            b > 0real,
    ;
}

pub(crate) proof fn lemma_swap(a: real, b: real)
    ensures
        a * b == b * a,
{
    assert(a * b == b * a) by (nonlinear_arith);
}

pub(crate) proof fn lemma_regroup(a: real, b: real, c: real)
    ensures
        (a * b) * c == a * (b * c),
{
    assert((a * b) * c == a * (b * c)) by (nonlinear_arith);
}

/// The factors of a product of three in another order.
pub(crate) proof fn lemma_last_two(a: real, b: real, c: real)
    ensures
        (a * b) * c == (a * c) * b,
{
    lemma_regroup(a, b, c);
    lemma_regroup(a, c, b);
    lemma_swap(b, c);
}

pub(crate) proof fn lemma_spread(a: real, b: real, c: real)
    ensures
        (a + b) * c == a * c + b * c,
        (a - b) * c == a * c - b * c,
{
    assert((a + b) * c == a * c + b * c) by (nonlinear_arith);
    assert((a - b) * c == a * c - b * c) by (nonlinear_arith);
}

pub(crate) proof fn lemma_cross(a: real, b: real, c: real, d: real)
    ensures
        (a * b) * (c * d) == (a * c) * (b * d),
{
    lemma_regroup(a * b, c, d);
    lemma_last_two(a, b, c);
    lemma_regroup(a * c, b, d);
}

pub(crate) proof fn lemma_nothing(a: real)
    ensures
        0real * a == 0real,
        a * 0real == 0real,
        1real * a == a,
        a * 1real == a,
{
    assert(0real * a == 0real) by (nonlinear_arith);
    assert(a * 0real == 0real) by (nonlinear_arith);
    assert(1real * a == a) by (nonlinear_arith);
    assert(a * 1real == a) by (nonlinear_arith);
}

pub(crate) proof fn lemma_ratio(a: real, b: real)
    requires
        b > 0real,
    ensures
        (a / b) * b == a,
{
    assert((a / b) * b == a) by (nonlinear_arith)
        requires
            b > 0real,
    ;
}

pub(crate) proof fn lemma_ratio_sign(a: real, b: real)
    requires
        a >= 0real,
        b > 0real,
    ensures
        (a / b) * b == a,
        a / b >= 0real,
        a > 0real ==> a / b > 0real,
{
    lemma_ratio(a, b);
    lemma_nothing(b);
    lemma_cancel(0real, a / b, b);
}

pub(crate) proof fn lemma_is_ratio(q: real, a: real, b: real)
    requires
        b > 0real,
        q * b == a,
    ensures
        q == a / b,
{
    lemma_ratio(a, b);
    lemma_cancel(q, a / b, b);
    lemma_cancel(a / b, q, b);
}

/// A product of integers is that of the reals that they are.
pub(crate) proof fn lemma_product_is_real(m: nat, d: nat)
    ensures
        (m * d) as real == (m as real) * (d as real),
    decreases m,
{
    let b = d as real;
    if m == 0 {
        lemma_nothing(b);
        assert(0 * d == 0);
    } else {
        let k = (m - 1) as nat;
        lemma_product_is_real(k, d);
        vstd::arithmetic::mul::lemma_mul_is_distributive_add_other_way(d as int, k as int, 1);
        assert(m * d == k * d + d);
        lemma_spread(k as real, 1real, b);
        lemma_nothing(b);
    }
}

} // verus!
