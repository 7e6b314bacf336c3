//! How close results in double precision come to the exact ones.
use crate::double::{
    beyond, ceil_of, denominator, excess, fits, floor_of, least, lemma_rounded, less, nearest,
    numerator, over, plus, round_of, rounded, times, valid, whole, Number,
};
use vstd::arithmetic::power2::{
    lemma2_to64, lemma2_to64_rest, lemma_pow2_adds, lemma_pow2_pos, lemma_pow2_unfold, pow2,
};
use vstd::prelude::*;

verus! {

/// `2^e`.
pub open spec fn two(e: int) -> real {
    if e >= 0 {
        pow2(e as nat) as real
    } else {
        (1 as real) / (pow2((-e) as nat) as real)
    }
}

/// The number that `x` stands for.
pub open spec fn value(x: Number) -> real {
    (x.m as real) * two(x.e)
}

/// `x` differs from `y` by no more than one part in `2^53`.
pub open spec fn close(x: real, y: real) -> bool {
    &&& (beyond() as real) * x <= (beyond() as real) * y + y
    &&& (beyond() as real) * y <= (beyond() as real) * x + y
}

/// Powers of two are positive.
pub proof fn lemma_two_positive(e: int)
    ensures
        two(e) > 0 as real,
{
    lemma_pow2_pos(e as nat);
    lemma_pow2_pos((-e) as nat);
    let p = pow2((-e) as nat) as real;
    assert((1 as real) / p > 0 as real) by (nonlinear_arith)
        requires
            p > 0 as real,
    ;
}

proof fn lemma_two_next(e: int)
    ensures
        two(e + 1) == two(e) + two(e),
{
    lemma2_to64();
    if e >= 0 {
        lemma_pow2_unfold((e + 1) as nat);
    } else {
        lemma_pow2_unfold((-e) as nat);
        lemma_pow2_pos((-e - 1) as nat);
        let p = pow2((-e) as nat) as real;
        let q = pow2((-e - 1) as nat) as real;
        assert(p == q + q);
        assert((1 as real) / q == (1 as real) / p + (1 as real) / p) by (nonlinear_arith)
            requires
                p == q + q,
                q > 0 as real,
        ;
        if e == -1 {
            assert((1 as real) / q == 1 as real) by (nonlinear_arith)
                requires
                    q == 1 as real,
            ;
        }
    }
}

/// Exponents add up.
pub proof fn lemma_two_adds(a: int, b: int)
    ensures
        two(a + b) == two(a) * two(b),
    decreases (if b < 0 { -b } else { b }),
{
    let x = two(a);
    if b == 0 {
        lemma2_to64();
        assert(two(0) == 1 as real);
        assert(x * (1 as real) == x) by (nonlinear_arith);
    } else if b > 0 {
        lemma_two_adds(a, b - 1);
        lemma_two_next(a + b - 1);
        lemma_two_next(b - 1);
        let y = two(b - 1);
        assert(x * (y + y) == x * y + x * y) by (nonlinear_arith);
    } else {
        lemma_two_adds(a, b + 1);
        lemma_two_next(a + b);
        lemma_two_next(b);
        let y = two(b);
        assert(x * (y + y) == x * y + x * y) by (nonlinear_arith);
    }
}

/// A product is the same number whether it is computed on integers or not.
pub(crate) proof fn lemma_products_agree(a: nat, b: nat)
    ensures
        (a * b) as real == (a as real) * (b as real),
    decreases b,
{
    let x = a as real;
    if b == 0 {
        assert(a * b == 0) by (nonlinear_arith)
            requires
                b == 0,
        ;
        assert(x * (0 as real) == 0 as real) by (nonlinear_arith);
    } else {
        let c = (b - 1) as nat;
        lemma_products_agree(a, c);
        assert(a * b == a * c + a) by (nonlinear_arith)
            requires
                b == c + 1,
        ;
        let y = c as real;
        assert(x * (y + (1 as real)) == x * y + x) by (nonlinear_arith);
    }
}

/// `n / d` rounded to an integer is off by a half at most.
proof fn lemma_nearest_close(n: nat, d: nat)
    requires
        d > 0,
    ensures
        2 * (nearest(n, d) * d) <= 2 * n + d,
        2 * n - d <= 2 * (nearest(n, d) * d),
{
    vstd::arithmetic::div_mod::lemma_fundamental_div_mod(n as int, d as int);
    let f = n / d;
    assert(f * d == d * f && (f + 1) * d == d * f + d) by (nonlinear_arith);
}

/// `n / d` at scale `s`, exactly.
proof fn lemma_scaled(n: nat, d: nat, s: int)
    requires
        d > 0,
    ensures
        denominator(d, s) > 0,
        (numerator(n, s) as real) * (d as real) * two(s) == (n as real) * (denominator(
            d,
            s,
        ) as real),
{
    lemma_pow2_pos(s as nat);
    lemma_pow2_pos((-s) as nat);
    lemma2_to64();
    let x = n as real;
    let y = d as real;
    if s < 0 {
        let k = pow2((-s) as nat);
        lemma_products_agree(n, k);
        let z = k as real;
        assert((x * z) * y * ((1 as real) / z) == x * y) by (nonlinear_arith)
            requires
                z > 0 as real,
        ;
    } else {
        let k = pow2(s as nat);
        let z = k as real;
        if s > 0 {
            assert(d * k > 0) by (nonlinear_arith)
                requires
                    d > 0,
                    k > 0,
            ;
            lemma_products_agree(d, k);
            assert(x * y * z == x * (y * z)) by (nonlinear_arith);
        } else {
            assert(x * y * (1 as real) == x * y) by (nonlinear_arith);
        }
    }
}

/// A fraction that is not too small for scale `s` fits at some scale.
proof fn lemma_some_scale(n: nat, d: nat, s: int)
    requires
        d > 0,
        least() * denominator(d, s) <= numerator(n, s),
    ensures
        exists|t: int| fits(n, d, t),
    decreases numerator(n, s) - denominator(d, s),
{
    lemma_scaled(n, d, s);
    if numerator(n, s) < beyond() * denominator(d, s) {
        assert(fits(n, d, s));
    } else {
        lemma_next_scale(n, d, s);
        lemma_some_scale(n, d, s + 1);
    }
}

proof fn lemma_next_scale(n: nat, d: nat, s: int)
    ensures
        (numerator(n, s) == 2 * numerator(n, s + 1) && denominator(d, s + 1) == denominator(d, s))
            || (numerator(n, s + 1) == numerator(n, s) && denominator(d, s + 1) == 2 * denominator(
            d,
            s,
        )),
{
    lemma2_to64();
    if s >= 0 {
        let k = pow2(s as nat);
        lemma_pow2_unfold((s + 1) as nat);
        assert(d * (2 * k) == 2 * (d * k)) by (nonlinear_arith);
        if s == 0 {
            assert(d * 1 == d);
        }
    } else {
        let k = pow2((-s - 1) as nat);
        lemma_pow2_unfold((-s) as nat);
        assert(n * (2 * k) == 2 * (n * k)) by (nonlinear_arith);
        if s == -1 {
            assert(n * 1 == n);
        }
    }
}

proof fn lemma_power_exceeds(d: nat)
    ensures
        d < pow2(d),
    decreases d,
{
    lemma2_to64();
    if d > 0 {
        lemma_power_exceeds((d - 1) as nat);
        lemma_pow2_unfold(d);
    }
}

proof fn lemma_times_grows(a: real, b: real, c: real)
    requires
        a <= b,
        c >= 0 as real,
    ensures
        a * c <= b * c,
{
    assert(a * c <= b * c) by (nonlinear_arith)
        requires
            a <= b,
            c >= 0 as real,
    ;
}

proof fn lemma_times_cancels(a: real, b: real, c: real)
    requires
        a * c <= b * c,
        c > 0 as real,
    ensures
        a <= b,
{
    if b < a {
        assert(b * c < a * c) by (nonlinear_arith)
            requires
                b < a,
                c > 0 as real,
        ;
    }
}

proof fn lemma_times_positive(a: real, b: real)
    requires
        a > 0 as real,
        b > 0 as real,
    ensures
        a * b > 0 as real,
{
    assert(a * b > 0 as real) by (nonlinear_arith)
        requires
            a > 0 as real,
            b > 0 as real,
    ;
}

/// The identities behind [`rounding_comes_close`].
proof fn lemma_regrouped(m: real, q: real, p: real, n: real, d: real, s: real, e: real)
    requires
        p * d * s == n * q,
    ensures
        (m * q) * (s * e * d) == (m * (s * e) * d) * q,
        p * (s * e * d) == (n * e) * q,
{
    let w = s * e;
    assert((m * q) * (w * d) == (m * w * d) * q) by (nonlinear_arith);
    assert(p * (s * e * d) == (p * d * s) * e) by (nonlinear_arith);
    assert((n * q) * e == (n * e) * q) by (nonlinear_arith);
}

/// What is close stays so when both sides are multiplied by the same, and the other way
/// round.
proof fn lemma_close_times(x: real, y: real, z: real)
    requires
        z > 0 as real,
    ensures
        close(x, y) <==> close(x * z, y * z),
{
    let b = beyond() as real;
    assert((b * x) * z == b * (x * z)) by (nonlinear_arith);
    assert((b * y + y) * z == b * (y * z) + y * z) by (nonlinear_arith);
    assert((b * x + y) * z == b * (x * z) + y * z) by (nonlinear_arith);
    assert((b * y) * z == b * (y * z)) by (nonlinear_arith);
    if close(x, y) {
        lemma_times_grows(b * x, b * y + y, z);
        lemma_times_grows(b * y, b * x + y, z);
    }
    if close(x * z, y * z) {
        lemma_times_cancels(b * x, b * y + y, z);
        lemma_times_cancels(b * y, b * x + y, z);
    }
}

/// What is rounded comes close to the exact fraction.
pub proof fn rounding_comes_close(n: nat, d: nat, e: int)
    requires
        d > 0,
    ensures
        valid(rounded(n, d, e)),
        rounded(n, d, e).m > 0 <==> n > 0,
        close(value(rounded(n, d, e)) * (d as real), (n as real) * two(e)),
{
    let r = rounded(n, d, e);
    let dr = d as real;
    if n == 0 {
        lemma_nothing(two(0));
        lemma_nothing(dr);
        lemma_nothing(two(e));
    } else {
        let s = lemma_its_scale(n, d);
        lemma_rounded(n, d, e, s);
        lemma_scaled(n, d, s);
        let p = numerator(n, s);
        let q = denominator(d, s);
        let m = nearest(p, q);
        let (mr, qr, pr, nr) = (m as real, q as real, p as real, n as real);
        lemma_two_adds(s, e);
        lemma_two_positive(e);
        lemma_two_positive(s);
        lemma_value_of(m, e + s);
        assert(value(r) == mr * (two(s) * two(e)));
        lemma_mantissa_close(p, q);
        assert(close(mr * qr, pr));
        lemma_regrouped(mr, qr, pr, nr, dr, two(s), two(e));
        let z = two(s) * two(e) * dr;
        lemma_times_positive(two(s), two(e));
        lemma_times_positive(two(s) * two(e), dr);
        lemma_close_times(mr * qr, pr, z);
        lemma_close_times(value(r) * dr, nr * two(e), qr);
    }
}

proof fn lemma_nothing(x: real)
    ensures
        (0 as real) * x == 0 as real,
{
    assert((0 as real) * x == 0 as real) by (nonlinear_arith);
}

proof fn lemma_its_scale(n: nat, d: nat) -> (s: int)
    requires
        n > 0,
        d > 0,
    ensures
        fits(n, d, s),
{
    let k = d + 53;
    lemma_power_exceeds(d);
    lemma_pow2_adds(d, 53);
    lemma2_to64();
    lemma2_to64_rest();
    let w = pow2(d);
    assert(least() * d <= n * (w * beyond())) by (nonlinear_arith)
        requires
            n >= 1,
            d < w,
    ;
    lemma_some_scale(n, d, -(k as int));
    choose|s: int| fits(n, d, s)
}

/// A significand that was rounded up to the next power of two stands for the same number
/// when it is written with 53 bits.
proof fn lemma_value_of(m: nat, e: int)
    ensures
        m == beyond() ==> value(Number { m: least(), e: e + 1 }) == (m as real) * two(e),
{
    lemma_two_next(e);
    let t = two(e);
    assert((least() as real) * (t + t) == (beyond() as real) * t) by (nonlinear_arith);
}

proof fn lemma_mantissa_close(p: nat, q: nat)
    requires
        q > 0,
        least() * q <= p,
    ensures
        close((nearest(p, q) as real) * (q as real), p as real),
{
    let m = nearest(p, q);
    lemma_nearest_close(p, q);
    lemma_products_agree(m, q);
    let x = m * q;
    assert(beyond() * x <= beyond() * p + p);
    assert(beyond() * p <= beyond() * x + p);
}

/// No number is negative, and only zero stands for zero.
pub proof fn lemma_sign(x: Number)
    ensures
        value(x) >= 0 as real,
        value(x) > 0 as real <==> x.m > 0,
{
    lemma_two_positive(x.e);
    if x.m > 0 {
        lemma_times_positive(x.m as real, two(x.e));
    } else {
        lemma_nothing(two(x.e));
    }
}

proof fn lemma_one(x: real)
    ensures
        x * (1 as real) == x,
{
    assert(x * (1 as real) == x) by (nonlinear_arith);
}

/// A product comes close to the exact one, and is zero only where a factor is.
pub proof fn products_come_close(a: Number, b: Number)
    ensures
        valid(times(a, b)),
        times(a, b).m > 0 <==> a.m > 0 && b.m > 0,
        close(value(times(a, b)), value(a) * value(b)),
{
    let n = a.m * b.m;
    rounding_comes_close(n, 1, a.e + b.e);
    lemma_one(value(times(a, b)));
    lemma_two_adds(a.e, b.e);
    lemma_products_agree(a.m, b.m);
    let (x, y, s, t) = (a.m as real, b.m as real, two(a.e), two(b.e));
    assert((x * y) * (s * t) == (x * s) * (y * t)) by (nonlinear_arith);
    let (am, bm) = (a.m, b.m);
    assert(n > 0 <==> am > 0 && bm > 0) by (nonlinear_arith)
        requires
            n == am * bm,
    ;
}

/// A quotient comes close to the exact one, multiplied out, and is zero only where the
/// dividend is.
pub proof fn quotients_come_close(a: Number, b: Number)
    requires
        b.m > 0,
    ensures
        valid(over(a, b)),
        over(a, b).m > 0 <==> a.m > 0,
        close(value(over(a, b)) * value(b), value(a)),
{
    rounding_comes_close(a.m, b.m, a.e - b.e);
    lemma_two_adds(a.e - b.e, b.e);
    lemma_two_positive(b.e);
    let (x, y, s, t) = (a.m as real, b.m as real, two(a.e - b.e), two(b.e));
    let v = value(over(a, b));
    lemma_close_times(v * y, x * s, t);
    assert((v * y) * t == v * (y * t)) by (nonlinear_arith);
    assert((x * s) * t == x * (s * t)) by (nonlinear_arith);
}

/// A number written with a smaller exponent.
proof fn lemma_written_with(x: Number, e: int)
    requires
        e <= x.e,
    ensures
        ((x.m * pow2((x.e - e) as nat)) as real) * two(e) == value(x),
{
    let k = pow2((x.e - e) as nat);
    lemma_products_agree(x.m, k);
    lemma_two_adds(x.e - e, e);
    let (m, z, t) = (x.m as real, k as real, two(e));
    assert((m * z) * t == m * (z * t)) by (nonlinear_arith);
}

/// A sum comes close to the exact one, and is zero only where both parts are.
pub proof fn sums_come_close(a: Number, b: Number)
    requires
        valid(a),
        valid(b),
    ensures
        valid(plus(a, b)),
        plus(a, b).m > 0 <==> a.m > 0 || b.m > 0,
        close(value(plus(a, b)), value(a) + value(b)),
{
    lemma_sign(a);
    lemma_sign(b);
    if a.m > 0 && b.m > 0 {
        let e = crate::order::smaller(a.e, b.e);
        let x = a.m * pow2((a.e - e) as nat);
        let y = b.m * pow2((b.e - e) as nat);
        lemma_written_with(a, e);
        lemma_written_with(b, e);
        lemma_pow2_pos((a.e - e) as nat);
        lemma_pow2_pos((b.e - e) as nat);
        let (am, ak) = (a.m, pow2((a.e - e) as nat));
        assert(x > 0) by (nonlinear_arith)
            requires
                x == am * ak,
                am > 0,
                ak > 0,
        ;
        rounding_comes_close(x + y, 1, e);
        lemma_one(value(plus(a, b)));
        let (xr, yr, t) = (x as real, y as real, two(e));
        assert((xr + yr) * t == xr * t + yr * t) by (nonlinear_arith);
    }
}

proof fn lemma_two_grows(a: int, b: int)
    requires
        a <= b,
    ensures
        two(a) <= two(b),
    decreases b - a,
{
    lemma_two_positive(a);
    if a < b {
        lemma_two_next(a);
        lemma_two_grows(a + 1, b);
    }
}

/// Numbers are compared as what they stand for.
pub proof fn comparing_is_exact(a: Number, b: Number)
    requires
        valid(a),
        valid(b),
    ensures
        less(a, b) <==> value(a) < value(b),
{
    lemma_sign(a);
    lemma_sign(b);
    if a.m > 0 && b.m > 0 {
        if a.e < b.e {
            lemma_lower_exponent(a, b);
        } else if b.e < a.e {
            lemma_lower_exponent(b, a);
        } else {
            let t = two(a.e);
            lemma_two_positive(a.e);
            if a.m < b.m {
                assert((a.m as real) < (b.m as real));
                let d = (b.m as real) - (a.m as real);
                lemma_times_positive(d, t);
                let (x, y) = (a.m as real, b.m as real);
                assert((y - x) * t == y * t - x * t) by (nonlinear_arith);
            } else {
                lemma_times_grows(b.m as real, a.m as real, t);
            }
        }
    }
}

proof fn lemma_lower_exponent(a: Number, b: Number)
    requires
        a.m < beyond(),
        least() <= b.m,
        a.e < b.e,
    ensures
        value(a) < value(b),
{
    let (x, y, s, t) = (a.m as real, b.m as real, two(a.e), two(b.e));
    let (l, g) = (least() as real, beyond() as real);
    lemma_two_next(a.e);
    lemma_two_grows(a.e + 1, b.e);
    lemma_two_positive(a.e);
    lemma_two_positive(b.e);
    lemma_times_positive(g - x, s);
    assert((g - x) * s == g * s - x * s) by (nonlinear_arith);
    assert(s + s <= t);
    assert(g * s <= l * t);
    lemma_times_grows(l, y, t);
}

/// What is left of `a` without `b` is something exactly if `a` is greater.
pub proof fn differences_are_positive(a: Number, b: Number)
    requires
        valid(a),
        valid(b),
    ensures
        valid(excess(a, b)),
        excess(a, b).m > 0 <==> less(b, a),
{
    if less(b, a) && b.m > 0 {
        let k = pow2((a.e - b.e) as nat);
        let x = a.m * k;
        lemma2_to64();
        if a.e > b.e {
            lemma_pow2_unfold((a.e - b.e) as nat);
            lemma_pow2_pos((a.e - b.e - 1) as nat);
            assert(k >= 2);
        } else {
            assert(k == 1);
        }
        let am = a.m;
        assert(x >= am && (k >= 2 ==> x >= 2 * am)) by (nonlinear_arith)
            requires
                x == am * k,
                k >= 1,
        ;
        assert(x > b.m);
        rounding_comes_close((x - b.m) as nat, 1, b.e);
    }
}

/// A number below one unit of its exponent times that unit.
pub(crate) proof fn lemma_below_one(x: Number)
    requires
        x.e < 0,
    ensures
        pow2((-x.e) as nat) > 0,
        value(x) * (pow2((-x.e) as nat) as real) == x.m as real,
{
    lemma_pow2_pos((-x.e) as nat);
    let (m, z) = (x.m as real, pow2((-x.e) as nat) as real);
    let i = (1 as real) / z;
    assert(i * z == 1 as real) by (nonlinear_arith)
        requires
            i == (1 as real) / z,
            z > 0 as real,
    ;
    assert((m * i) * z == m * (i * z)) by (nonlinear_arith);
    lemma_one(m);
}

/// Comparing with an integer, multiplied out.
pub(crate) proof fn lemma_integer_bounds(v: real, m: nat, p: nat, n: nat)
    requires
        p > 0,
        v * (p as real) == m as real,
    ensures
        n * p <= m <==> n as real <= v,
{
    let pr = p as real;
    lemma_products_agree(n, p);
    if n as real <= v {
        lemma_times_grows(n as real, v, pr);
    }
    if n * p <= m {
        lemma_times_cancels(n as real, v, pr);
    }
}

/// The integer part lies less than one below.
pub proof fn the_floor_lies_below(x: Number)
    ensures
        floor_of(x) as real <= value(x) < (floor_of(x) + 1) as real,
{
    let f = floor_of(x);
    if x.e >= 0 {
        lemma_products_agree(x.m, pow2(x.e as nat));
    } else {
        lemma_below_one(x);
        let p = pow2((-x.e) as nat);
        let m = x.m;
        vstd::arithmetic::div_mod::lemma_fundamental_div_mod(m as int, p as int);
        lemma_integer_bounds(value(x), m, p, f);
        lemma_integer_bounds(value(x), m, p, f + 1);
        assert(f * p == p * f && (f + 1) * p == p * f + p) by (nonlinear_arith);
    }
}

/// The ceiling does not lie below.
pub proof fn the_ceiling_lies_above(x: Number)
    ensures
        value(x) <= ceil_of(x) as real,
{
    let c = ceil_of(x);
    if x.e >= 0 {
        lemma_products_agree(x.m, pow2(x.e as nat));
    } else {
        lemma_below_one(x);
        let p = pow2((-x.e) as nat);
        let m = x.m;
        vstd::arithmetic::div_mod::lemma_fundamental_div_mod(m + p - 1, p as int);
        assert(c * p == p * c) by (nonlinear_arith);
        assert(m <= c * p);
        lemma_products_agree(c, p);
        lemma_times_cancels(value(x), c as real, p as real);
    }
}

/// A number less than a half away from an integer is rounded to it.
pub proof fn rounding_finds_the_integer(x: Number, c: nat)
    requires
        ((2 * c) as real) < value(x) + value(x) + (1 as real),
        value(x) + value(x) < (2 * c + 1) as real,
    ensures
        round_of(x) == c,
{
    if x.e >= 0 {
        lemma_products_agree(x.m, pow2(x.e as nat));
    } else {
        lemma_below_one(x);
        let p = pow2((-x.e) as nat);
        let (m, v, pr) = (x.m, value(x), p as real);
        assert((v + v + (1 as real)) * pr == v * pr + v * pr + pr) by (nonlinear_arith);
        lemma_integer_bounds(v + v + (1 as real), 2 * m + p, p, 2 * c);
        lemma_integer_bounds(v + v + (1 as real), 2 * m + p, p, 2 * c + 2);
        let n = 2 * m + p;
        assert((2 * c) * p == c * (2 * p) && (2 * c + 2) * p == c * (2 * p) + 2 * p)
            by (nonlinear_arith);
        vstd::arithmetic::div_mod::lemma_fundamental_div_mod_converse(
            n as int,
            (2 * p) as int,
            c as int,
            n - c * (2 * p),
        );
    }
}

/// A whole number of no more than 52 bits stands for itself.
pub proof fn whole_numbers_stand_for_themselves(n: nat)
    requires
        n < least(),
    ensures
        valid(whole(n)),
        whole(n).m > 0 <==> n > 0,
        value(whole(n)) == n as real,
{
    let x = whole(n);
    if n == 0 {
        lemma_nothing(two(0));
    } else {
        crate::double::whole_numbers_are_kept(n);
        lemma_below_one(x);
        let p = pow2((-x.e) as nat);
        lemma_products_agree(n, p);
        lemma_times_cancels(value(x), n as real, p as real);
        lemma_times_cancels(n as real, value(x), p as real);
    }
}

/// `x` differs from `y` by no more than `g` parts in `2^53`.
pub open spec fn within(x: real, y: real, g: nat) -> bool {
    &&& (beyond() as real) * x <= (beyond() as real) * y + (g as real) * y
    &&& (beyond() as real) * y <= (beyond() as real) * x + (g as real) * y
}

/// Errors up to here can be added up without care.
pub const SMALL: u64 = 0x100_0000_0000;

/// What is close stays so when both sides are multiplied by the same.
pub(crate) proof fn lemma_close_scaled(x: real, y: real, z: real)
    requires
        z >= 0 as real,
        close(x, y),
    ensures
        close(x * z, y * z),
{
    if z > 0 as real {
        lemma_close_times(x, y, z);
    } else {
        assert(x * z == 0 as real && y * z == 0 as real) by (nonlinear_arith)
            requires
                z == 0 as real,
        ;
    }
}

proof fn lemma_at_most(g: nat, y: real)
    requires
        g <= SMALL,
        y >= 0 as real,
    ensures
        0 as real <= (g as real) * y <= (0x100_0000_0000 as real) * y,
{
    lemma_times_grows(0 as real, g as real, y);
    lemma_times_grows(g as real, 0x100_0000_0000 as real, y);
    lemma_nothing(y);
}

/// A greater error allows more.
pub proof fn lemma_within_more(x: real, y: real, g: nat, h: nat)
    requires
        g <= h,
        y >= 0 as real,
        within(x, y, g),
    ensures
        within(x, y, h),
{
    lemma_times_grows(g as real, h as real, y);
}

/// Two numbers that are near their exact values, added up: how much the error grows.
proof fn lemma_drift(x: real, y: real, z: real, r: real, p: real, q: real)
    requires
        y >= 0 as real,
        z >= 0 as real,
        (beyond() as real) * x <= (beyond() as real) * y + p,
        (beyond() as real) * y <= (beyond() as real) * x + p,
        close(r, x),
        close(z, y),
        (beyond() as real) * p <= (beyond() as real) * q + p,
        0 as real <= p <= (0x100_0000_0000 as real) * y,
        0 as real <= q <= (0x100_0000_0000 as real) * z,
    ensures
        (beyond() as real) * r <= (beyond() as real) * z + q + (3 as real) * z,
        (beyond() as real) * z <= (beyond() as real) * r + q + (3 as real) * z,
{
}

/// Sums that stand to each other as `c` to 1, but for errors, with one more part added to
/// each: the error grows by three parts at most.
pub proof fn lemma_error_grows(
    r: real,
    a: real,
    t: real,
    u: real,
    sum: real,
    base: real,
    c: real,
    g: nat,
)
    requires
        c >= 0 as real,
        a >= 0 as real,
        u >= 0 as real,
        base >= 0 as real,
        g <= SMALL,
        within(r, c * a, g),
        within(t, c * u, g),
        close(sum, r + t),
        close(base, a + u),
    ensures
        within(sum, c * base, g + 3),
{
    let x = r + t;
    let y = c * a + c * u;
    let z = c * base;
    let gr = g as real;
    let p = gr * y;
    let q = gr * z;
    assert(gr * (c * a + c * u) == gr * (c * a) + gr * (c * u)) by (nonlinear_arith);
    assert((a + u) * c == c * a + c * u && base * c == c * base) by (nonlinear_arith);
    lemma_close_scaled(base, a + u, c);
    lemma_not_negative(c, a);
    lemma_not_negative(c, u);
    lemma_not_negative(c, base);
    lemma_at_most(g, y);
    lemma_at_most(g, z);
    let b = beyond() as real;
    lemma_times_grows(b * y, b * z + y, gr);
    assert((b * y) * gr == b * (gr * y) && (b * z + y) * gr == b * (gr * z) + gr * y)
        by (nonlinear_arith);
    lemma_drift(x, y, z, sum, p, q);
    assert((g + 3) as real == gr + (3 as real));
    assert((gr + (3 as real)) * z == gr * z + (3 as real) * z) by (nonlinear_arith);
}

proof fn lemma_not_negative(a: real, b: real)
    requires
        a >= 0 as real,
        b >= 0 as real,
    ensures
        a * b >= 0 as real,
{
    assert(a * b >= 0 as real) by (nonlinear_arith)
        requires
            a >= 0 as real,
            b >= 0 as real,
    ;
}

/// A number times a product, computed from the left and from the right.
pub proof fn lemma_weighted(c: Number, a: Number, w: Number)
    ensures
        within(value(times(times(c, a), w)), value(c) * value(times(a, w)), 5),
{
    let (x, y, z) = (value(c), value(a), value(w));
    let v = value(times(c, a));
    let u = value(times(a, w));
    lemma_sign(c);
    lemma_sign(a);
    lemma_sign(w);
    products_come_close(times(c, a), w);
    products_come_close(c, a);
    products_come_close(a, w);
    lemma_close_scaled(v, x * y, z);
    lemma_close_scaled(u, y * z, x);
    assert((y * z) * x == (x * y) * z && u * x == x * u) by (nonlinear_arith);
    lemma_not_negative(x, y);
    lemma_not_negative(x * y, z);
    lemma_three_roundings(value(times(times(c, a), w)), v * z, (x * y) * z, x * u);
}

proof fn lemma_three_roundings(t: real, p: real, e: real, q: real)
    requires
        e >= 0 as real,
        close(t, p),
        close(p, e),
        close(q, e),
    ensures
        within(t, q, 5),
{
    let b = beyond() as real;
    assert(b * t <= b * q + (5 as real) * q);
    assert(b * q <= b * t + (5 as real) * q);
}

/// A quotient of sums that stand to each other as `c` to 1, but for errors.
pub proof fn lemma_mean(v: real, r: real, a: real, c: real, g: nat)
    requires
        a > 0 as real,
        c >= 0 as real,
        g + 2 <= SMALL,
        close(v * a, r),
        within(r, c * a, g),
    ensures
        within(v, c, g + 2),
{
    let b = beyond() as real;
    let (gr, hr) = (g as real, (g + 2) as real);
    let y = c * a;
    lemma_not_negative(c, a);
    lemma_at_most(g, y);
    assert(hr * y == gr * y + (2 as real) * y) by (nonlinear_arith)
        requires
            hr == gr + (2 as real),
    ;
    assert(b * (v * a) <= b * y + hr * y);
    assert(b * y <= b * (v * a) + hr * y);
    assert((b * v) * a == b * (v * a)) by (nonlinear_arith);
    assert((b * c + hr * c) * a == b * (c * a) + hr * (c * a)) by (nonlinear_arith);
    assert((b * v + hr * c) * a == b * (v * a) + hr * (c * a)) by (nonlinear_arith);
    assert((b * c) * a == b * (c * a)) by (nonlinear_arith);
    lemma_times_cancels(b * v, b * c + hr * c, a);
    lemma_times_cancels(b * c, b * v + hr * c, a);
}

/// A byte is found again behind a small error.
pub proof fn bytes_survive(x: Number, c: u8, g: nat)
    requires
        g <= SMALL,
        within(value(x), c as nat as real, g),
    ensures
        round_of(x) == c,
{
    let y = c as nat as real;
    lemma_at_most(g, y);
    assert(((2 * c) as nat) as real == y + y);
    assert(((2 * c + 1) as nat) as real == y + y + (1 as real));
    assert(y <= 255 as real);
    rounding_finds_the_integer(x, c as nat);
}

/// So is a byte that was divided by 255, behind a small error, and multiplied by it again.
pub proof fn shares_survive(v: Number, c: u8, g: nat)
    requires
        g <= SMALL,
        within(value(v), value(over(whole(c as nat), whole(255))), g),
    ensures
        round_of(times(v, whole(255))) == c,
{
    let a = over(whole(c as nat), whole(255));
    let x = times(v, whole(255));
    whole_numbers_stand_for_themselves(255);
    whole_numbers_stand_for_themselves(c as nat);
    quotients_come_close(whole(c as nat), whole(255));
    products_come_close(v, whole(255));
    lemma_sign(a);
    lemma_at_most(g, value(a));
    let y = c as nat as real;
    assert(((2 * c) as nat) as real == y + y);
    assert(((2 * c + 1) as nat) as real == y + y + (1 as real));
    assert(y <= 255 as real);
    lemma_share(value(x), value(v), value(a), y, (g as real) * value(a));
    rounding_finds_the_integer(x, c as nat);
}

proof fn lemma_share(x: real, v: real, a: real, y: real, p: real)
    requires
        0 as real <= y <= 255 as real,
        a >= 0 as real,
        close(x, v * (255 as real)),
        close(a * (255 as real), y),
        0 as real <= p <= (0x100_0000_0000 as real) * a,
        (beyond() as real) * v <= (beyond() as real) * a + p,
        (beyond() as real) * a <= (beyond() as real) * v + p,
    ensures
        y + y < x + x + (1 as real),
        x + x < y + y + (1 as real),
{
}

} // verus!
