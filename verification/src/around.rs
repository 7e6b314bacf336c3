//! Integers around numbers in double precision, and roots.
use crate::double::{ceil_of, is_root, root, root_shift, Number};
use crate::precision::{lemma_below_one, lemma_integer_bounds, lemma_products_agree, value};
use vstd::arithmetic::power2::{lemma_pow2_pos, pow2};
use vstd::prelude::*;

verus! {

/// An integer below the ceiling does not lie above the number.
pub proof fn below_the_ceiling(x: Number, n: nat)
    requires
        n < ceil_of(x),
    ensures
        n as real <= value(x),
{
    if x.e >= 0 {
        lemma_products_agree(x.m, pow2(x.e as nat));
    } else {
        lemma_below_one(x);
        let p = pow2((-x.e) as nat);
        lemma_under(x.m, p, n);
        lemma_integer_bounds(value(x), x.m, p, n);
    }
}

proof fn lemma_under(m: nat, p: nat, n: nat)
    requires
        p > 0,
        n < (m + p - 1) / p as int,
    ensures
        n * p <= m,
{
    let k = (m + p - 1) as int;
    let q = k / p as int;
    vstd::arithmetic::div_mod::lemma_fundamental_div_mod(k, p as int);
    let r = k % p as int;
    let (ni, pi) = (n as int, p as int);
    assert((ni + 1) * pi <= pi * q) by (nonlinear_arith)
        requires
            ni + 1 <= q,
            pi > 0,
    ;
    assert((ni + 1) * pi == ni * pi + pi) by (nonlinear_arith);
}

proof fn lemma_some_root(n: nat) -> (r: nat)
    requires
        n > 0,
    ensures
        is_root(n, r),
    decreases n,
{
    if n == 1 {
        lemma_odd_squares(1);
        assert(is_root(n, 1));
        1
    } else {
        let r = lemma_some_root((n - 1) as nat);
        let sq = r * r;
        lemma_odd_squares(r);
        lemma_odd_squares(r + 1);
        assert((r + 1) * (r + 1) == sq + 2 * r + 1) by (nonlinear_arith)
            requires
                sq == r * r,
        ;
        if n <= sq + r {
            assert(is_root(n, r));
            r
        } else {
            assert(is_root(n, r + 1));
            r + 1
        }
    }
}

/// The squares of the odd numbers around twice `r`.
proof fn lemma_odd_squares(r: nat)
    ensures
        (2 * r - 1) * (2 * r - 1) == 4 * (r * r) - 4 * r + 1,
        (2 * r + 1) * (2 * r + 1) == 4 * (r * r) + 4 * r + 1,
{
    let k = r as int;
    assert((2 * k - 1) * (2 * k - 1) == 4 * (k * k) - 4 * k + 1) by (nonlinear_arith);
    assert((2 * k + 1) * (2 * k + 1) == 4 * (k * k) + 4 * k + 1) by (nonlinear_arith);
}

/// Only zero has the root zero, and the significand of a root is the integer nearest to the
/// root of the shifted significand.
pub proof fn roots_are_nearest(x: Number)
    requires
        x.m > 0,
    ensures
        root(x).m > 0,
        4 * (x.m * pow2(root_shift(x.e))) < 4 * (root(x).m * root(x).m) + 4 * root(x).m + 1,
        4 * (root(x).m * root(x).m) - 4 * root(x).m + 1 < 4 * (x.m * pow2(root_shift(x.e))),
{
    let t = root_shift(x.e);
    let n = x.m * pow2(t);
    lemma_pow2_pos(t);
    let (am, ak) = (x.m, pow2(t));
    assert(n > 0) by (nonlinear_arith)
        requires
            n == am * ak,
            am > 0,
            ak > 0,
    ;
    let some = lemma_some_root(n);
    assert(is_root(n, some));
    assert(is_root(n, root(x).m));
    lemma_odd_squares(root(x).m);
}

} // verus!
