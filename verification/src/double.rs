//! Double-precision arithmetic on numbers that are not negative: 53 significant bits,
//! every result rounded to the nearest number, halfway cases to the even one. Exponents
//! are not limited, so nothing overflows or vanishes.
use vstd::arithmetic::power2::{
    lemma2_to64, lemma2_to64_rest, lemma_pow2_adds, lemma_pow2_pos, lemma_pow2_strictly_increases,
    lemma_pow2_unfold, pow2,
};
use vstd::prelude::*;

verus! {

/// Where significands start, and the first number beyond them.
#[verifier::inline]
pub open spec fn least() -> nat {
    0x10_0000_0000_0000
}

#[verifier::inline]
pub open spec fn beyond() -> nat {
    0x20_0000_0000_0000
}

/// The number `m * 2^e`.
#[verifier::ext_equal]
pub struct Number {
    pub m: nat,
    pub e: int,
}

pub open spec fn zero() -> Number {
    Number { m: 0, e: 0 }
}

/// Zero, or a significand of 53 bits.
pub open spec fn valid(x: Number) -> bool {
    x == zero() || least() <= x.m < beyond()
}

/// `n / d` rounded to an integer, halves to the even one.
pub open spec fn nearest(n: nat, d: nat) -> nat {
    let f = n / d;
    let r = n % d;
    if 2 * r < d || (2 * r == d && f % 2 == 0) {
        f
    } else {
        f + 1
    }
}

/// The numerator and the denominator of `n / d / 2^s`.
pub open spec fn numerator(n: nat, s: int) -> nat {
    if s < 0 {
        n * pow2((-s) as nat)
    } else {
        n
    }
}

pub open spec fn denominator(d: nat, s: int) -> nat {
    if s > 0 {
        d * pow2(s as nat)
    } else {
        d
    }
}

/// `n / d / 2^s` has 53 bits before the point.
pub open spec fn fits(n: nat, d: nat, s: int) -> bool {
    least() * denominator(d, s) <= numerator(n, s) < beyond() * denominator(d, s)
}

/// The number nearest to `n / d * 2^e`.
pub open spec fn rounded(n: nat, d: nat, e: int) -> Number {
    if n == 0 {
        zero()
    } else {
        let s = choose|s: int| fits(n, d, s);
        let m = nearest(numerator(n, s), denominator(d, s));
        if m == beyond() {
            Number { m: least(), e: e + s + 1 }
        } else {
            Number { m, e: e + s }
        }
    }
}

pub open spec fn whole(n: nat) -> Number {
    rounded(n, 1, 0)
}

pub open spec fn times(a: Number, b: Number) -> Number {
    rounded(a.m * b.m, 1, a.e + b.e)
}

pub open spec fn over(a: Number, b: Number) -> Number {
    rounded(a.m, b.m, a.e - b.e)
}

pub open spec fn plus(a: Number, b: Number) -> Number {
    if a.m == 0 {
        b
    } else if b.m == 0 {
        a
    } else {
        let e = crate::order::smaller(a.e, b.e);
        rounded(
            a.m * pow2((a.e - e) as nat) + b.m * pow2((b.e - e) as nat),
            1,
            e,
        )
    }
}

pub open spec fn less(a: Number, b: Number) -> bool {
    b.m > 0 && (a.m == 0 || a.e < b.e || (a.e == b.e && a.m < b.m))
}

pub open spec fn lesser(a: Number, b: Number) -> Number {
    if less(b, a) {
        b
    } else {
        a
    }
}

pub open spec fn greater(a: Number, b: Number) -> Number {
    if less(a, b) {
        b
    } else {
        a
    }
}

/// `a - b`, or zero where that is negative.
pub open spec fn excess(a: Number, b: Number) -> Number {
    if !less(b, a) {
        zero()
    } else if b.m == 0 {
        a
    } else {
        rounded((a.m * pow2((a.e - b.e) as nat) - b.m) as nat, 1, b.e)
    }
}

/// `r` is the integer nearest to the square root of `n`.
pub open spec fn is_root(n: nat, r: nat) -> bool {
    r > 0 && (2 * r - 1) * (2 * r - 1) < 4 * n < (2 * r + 1) * (2 * r + 1)
}

/// By how much a significand is shifted before its root is taken, so that the root has 53
/// bits and the exponent can be halved.
pub open spec fn root_shift(e: int) -> nat {
    if e % 2 == 0 {
        52
    } else {
        53
    }
}

/// The number nearest to the square root.
pub open spec fn root(x: Number) -> Number {
    if x.m == 0 {
        zero()
    } else {
        let t = root_shift(x.e);
        let n = x.m * pow2(t);
        Number { m: choose|r: nat| is_root(n, r), e: (x.e - t) / 2 }
    }
}

/// The integer part.
pub open spec fn floor_of(x: Number) -> nat {
    if x.e >= 0 {
        x.m * pow2(x.e as nat)
    } else {
        x.m / pow2((-x.e) as nat)
    }
}

/// The least integer that is not smaller.
pub open spec fn ceil_of(x: Number) -> nat {
    if x.e >= 0 {
        x.m * pow2(x.e as nat)
    } else {
        ((x.m + pow2((-x.e) as nat) - 1) / pow2((-x.e) as nat) as int) as nat
    }
}

/// The nearest integer, halves upwards.
pub open spec fn round_of(x: Number) -> nat {
    if x.e >= 0 {
        x.m * pow2(x.e as nat)
    } else {
        (2 * x.m + pow2((-x.e) as nat)) / (2 * pow2((-x.e) as nat))
    }
}

proof fn lemma_shift_ratio(s: int, t: int)
    requires
        s < t,
    ensures
        numerator(1, s) * denominator(1, t) == numerator(1, t) * denominator(1, s) * pow2(
            (t - s) as nat,
        ),
{
    let k = (t - s) as nat;
    let a = numerator(1, s);
    let b = denominator(1, s);
    let p = numerator(1, t);
    let q = denominator(1, t);
    lemma2_to64();
    if s >= 0 {
        lemma_pow2_adds(s as nat, k);
        assert(a == 1 && p == 1 && b == pow2(s as nat) && q == pow2(t as nat));
    } else if t <= 0 {
        lemma_pow2_adds((-t) as nat, k);
        assert(b == 1 && q == 1 && a == pow2((-s) as nat) && p == pow2((-t) as nat));
    } else {
        lemma_pow2_adds((-s) as nat, t as nat);
        assert(b == 1 && p == 1 && a == pow2((-s) as nat) && q == pow2(t as nat));
    }
    assert(a * q == p * b * pow2(k)) by (nonlinear_arith)
        requires
            (a == 1 && p == 1 && q == b * pow2(k)) || (b == 1 && q == 1 && a == p * pow2(k)) || (b
                == 1 && p == 1 && a * q == pow2(k)),
    ;
}

/// There is one scale at most at which a fraction fits.
proof fn lemma_one_scale(n: nat, d: nat, s: int, t: int)
    requires
        d > 0,
        fits(n, d, s),
        fits(n, d, t),
    ensures
        s == t,
{
    if s < t {
        lemma_scales_apart(n, d, s, t);
    } else if t < s {
        lemma_scales_apart(n, d, t, s);
    }
}

proof fn lemma_scales_apart(n: nat, d: nat, s: int, t: int)
    requires
        d > 0,
        s < t,
        fits(n, d, t),
    ensures
        !fits(n, d, s),
{
    let a = numerator(1, s) as int;
    let b = denominator(1, s) as int;
    let p = numerator(1, t) as int;
    let q = denominator(1, t) as int;
    let k = pow2((t - s) as nat) as int;
    lemma_shift_ratio(s, t);
    lemma_pow2_pos((-s) as nat);
    lemma_pow2_pos(s as nat);
    lemma_pow2_pos((-t) as nat);
    lemma_pow2_pos(t as nat);
    lemma_pow2_unfold((t - s) as nat);
    lemma_pow2_pos((t - s - 1) as nat);
    assert(k >= 2);
    assert(numerator(n, s) == n * a && numerator(n, t) == n * p && denominator(d, s) == d * b
        && denominator(d, t) == d * q) by (nonlinear_arith)
        requires
            a == (if s < 0 {
                pow2((-s) as nat) as int
            } else {
                1
            }),
            b == (if s > 0 {
                pow2(s as nat) as int
            } else {
                1
            }),
            p == (if t < 0 {
                pow2((-t) as nat) as int
            } else {
                1
            }),
            q == (if t > 0 {
                pow2(t as nat) as int
            } else {
                1
            }),
            numerator(n, s) == (if s < 0 {
                n * pow2((-s) as nat)
            } else {
                n
            }),
            numerator(n, t) == (if t < 0 {
                n * pow2((-t) as nat)
            } else {
                n
            }),
            denominator(d, s) == (if s > 0 {
                d * pow2(s as nat)
            } else {
                d
            }),
            denominator(d, t) == (if t > 0 {
                d * pow2(t as nat)
            } else {
                d
            }),
    ;
    let low = least() as int;
    assert(n * a >= 2 * low * (d * b)) by (nonlinear_arith)
        requires
            low * (d * q) <= n * p,
            a * q == p * b * k,
            k >= 2,
            d > 0,
            b > 0,
            q > 0,
            p > 0,
            low > 0,
    {
        assert((low * (d * q)) * (b * k) <= (n * p) * (b * k));
        assert((n * a) * q == n * (a * q));
        assert((n * p) * (b * k) == n * (p * b * k));
        assert((low * (d * q)) * (b * k) == (low * (d * b) * q) * k);
        assert((2 * low * (d * b)) * q == (low * (d * b) * q) * 2);
        assert(low * (d * b) * q > 0);
        assert((low * (d * b) * q) * k >= (low * (d * b) * q) * 2);
    }
}

/// How a fraction is rounded, told the scale at which it fits.
pub(crate) proof fn lemma_rounded(n: nat, d: nat, e: int, s: int)
    requires
        n > 0,
        d > 0,
        fits(n, d, s),
    ensures
        rounded(n, d, e) == ({
            let m = nearest(numerator(n, s), denominator(d, s));
            if m == beyond() {
                Number { m: least(), e: e + s + 1 }
            } else {
                Number { m, e: e + s }
            }
        }),
        least() <= nearest(numerator(n, s), denominator(d, s)) <= beyond(),
{
    let c = choose|s: int| fits(n, d, s);
    lemma_one_scale(n, d, s, c);
    let p = numerator(n, s);
    let q = denominator(d, s);
    lemma_pow2_pos(s as nat);
    assert(q > 0) by (nonlinear_arith)
        requires
            d > 0,
            pow2(s as nat) > 0,
            q == d || q == d * pow2(s as nat),
    ;
    lemma_nearest_in_range(p, q, least(), beyond());
}

proof fn lemma_nearest_in_range(p: nat, q: nat, lo: nat, hi: nat)
    requires
        q > 0,
        lo * q <= p < hi * q,
    ensures
        lo <= nearest(p, q) <= hi,
{
    vstd::arithmetic::div_mod::lemma_fundamental_div_mod(p as int, q as int);
    let f = p / q;
    let r = p % q;
    assert(lo <= f < hi) by (nonlinear_arith)
        requires
            p == q * f + r,
            0 <= r < q,
            lo * q <= p < hi * q,
            q > 0,
    ;
}

proof fn lemma_power_shift(k: u128)
    requires
        k < 127,
    ensures
        1u128 << k == pow2(k as nat),
    decreases k,
{
    if k == 0 {
        assert(1u128 << 0 == 1) by (bit_vector);
        lemma2_to64();
    } else {
        let j: u128 = (k - 1) as u128;
        lemma_power_shift(j);
        assert(1u128 << k == 2 * (1u128 << j)) by (bit_vector)
            requires
                k < 127,
                j + 1 == k,
        ;
        lemma_pow2_unfold(k as nat);
    }
}

fn power(k: u64) -> (p: u128)
    requires
        k < 127,
    ensures
        p == pow2(k as nat),
        p > 0,
{
    proof {
        lemma_power_shift(k as u128);
        lemma_pow2_pos(k as nat);
    }
    1u128 << (k as u128)
}

fn nearest_int(n: u128, d: u128) -> (r: u128)
    requires
        d > 0,
        n < u128::MAX,
    ensures
        r == nearest(n as nat, d as nat),
{
    let f: u128 = n / d;
    let r: u128 = n % d;
    assert(f <= n) by (nonlinear_arith)
        requires
            f == n / d,
            d > 0,
    ;
    if r < d - r || (r == d - r && f % 2 == 0) {
        f
    } else {
        f + 1
    }
}

/// A number as it is computed with.
#[derive(Debug, Clone, Copy, PartialEq, Eq, Structural)]
pub struct Double {
    m: u64,
    e: i64,
}

impl View for Double {
    type V = Number;

    closed spec fn view(&self) -> Number {
        Number { m: self.m as nat, e: self.e as int }
    }
}

/// How far the exponent is from 0.
pub open spec fn reach(x: Number) -> int {
    if x.e < 0 {
        -x.e
    } else {
        x.e
    }
}

/// Valid, with an exponent between `-b` and `b`.
pub open spec fn bounded(x: Number, b: int) -> bool {
    valid(x) && reach(x) <= b
}

/// Exponents up to here can be added without care.
pub const WIDE: i64 = 0x1000_0000_0000;

fn settled(m: u128, e: i64) -> (r: Double)
    requires
        least() <= m <= beyond(),
        e < i64::MAX,
    ensures
        r@ == (if m == beyond() {
            Number { m: least(), e: e + 1 }
        } else {
            Number { m: m as nat, e: e as int }
        }),
        valid(r@),
{
    if m == 0x20_0000_0000_0000u128 {
        Double { m: 0x10_0000_0000_0000, e: e + 1 }
    } else {
        Double { m: m as u64, e }
    }
}

proof fn lemma_powers()
    ensures
        pow2(0) == 1,
        pow2(1) == 2,
        pow2(52) == least(),
        pow2(53) == beyond(),
        pow2(60) == 0x1000_0000_0000_0000,
{
    lemma2_to64();
    lemma2_to64_rest();
}

impl Double {
    pub fn zero() -> (r: Self)
        ensures
            r@ == zero(),
    {
        Double { m: 0, e: 0 }
    }

    /// The number nearest to `n * 2^e`.
    fn pack(n: u128, e: i64) -> (r: Self)
        requires
            n < 0x100_0000_0000_0000_0000_0000_0000_0000,
            -WIDE <= e <= WIDE,
        ensures
            r@ == rounded(n as nat, 1, e as int),
            valid(r@),
            n > 0 ==> e - 52 <= r@.e <= e + 69,
    {
        if n == 0 {
            return Double::zero();
        }
        proof {
            lemma_powers();
        }
        if n < 0x20_0000_0000_0000u128 {
            let mut m: u64 = n as u64;
            let mut k: i64 = 0;
            while m < 0x10_0000_0000_0000
                invariant
                    0 <= k <= 52,
                    0 < n,
                    m == n * pow2(k as nat),
                    m < beyond(),
                    -WIDE <= e <= WIDE,
                decreases beyond() - m,
            {
                proof {
                    lemma_powers();
                    lemma_pow2_unfold((k + 1) as nat);
                    assert(n * pow2((k + 1) as nat) == 2 * (n * pow2(k as nat))) by (nonlinear_arith)
                        requires
                            pow2((k + 1) as nat) == 2 * pow2(k as nat),
                    ;
                    assert(pow2(k as nat) <= m) by (nonlinear_arith)
                        requires
                            m == n * pow2(k as nat),
                            n > 0,
                            pow2(k as nat) >= 0,
                    ;
                    if k >= 52 {
                        assert(pow2(k as nat) == least());
                    }
                    lemma_pow2_pos(k as nat);
                }
                m = 2 * m;
                k = k + 1;
            }
            proof {
                let s = -k as int;
                assert(numerator(n as nat, s) == m) by {
                    assert(n * 1 == n);
                    assert(n * pow2(0) == n) by (nonlinear_arith)
                        requires
                            pow2(0) == 1,
                    ;
                }
                assert(denominator(1, s) == 1);
                lemma_rounded(n as nat, 1, e as int, s);
                assert(nearest(m as nat, 1) == m);
            }
            return Double { m, e: e - k };
        }
        let mut p: u128 = 1;
        let mut k: i64 = 0;
        while n >= 0x20_0000_0000_0000u128 * p
            invariant
                beyond() <= n < 0x100_0000_0000_0000_0000_0000_0000_0000,
                0 <= k <= 68,
                p == pow2(k as nat),
                0 < p <= 0x10_0000_0000_0000_0000,
                k > 0 ==> n >= least() * p,
            decreases 69 - k,
        {
            proof {
                lemma_powers();
                lemma_pow2_unfold((k + 1) as nat);
                if k >= 67 {
                    lemma_pow2_adds(60, 7);
                    lemma2_to64();
                    if k > 67 {
                        lemma_pow2_strictly_increases(67, k as nat);
                    }
                    assert(false);
                }
            }
            p = 2 * p;
            k = k + 1;
        }
        proof {
            let s = k as int;
            assert(k > 0);
            assert(denominator(1, s) == p);
            assert(numerator(n as nat, s) == n);
            lemma_rounded(n as nat, 1, e as int, s);
        }
        settled(nearest_int(n, p), e + k)
    }

    pub fn from_int(n: u64) -> (r: Self)
        ensures
            r@ == whole(n as nat),
            bounded(r@, 69),
    {
        Double::pack(n as u128, 0)
    }

    pub fn is_zero(&self) -> (r: bool)
        ensures
            r == (self@.m == 0),
    {
        self.m == 0
    }

    pub fn times(self, b: Double) -> (r: Self)
        requires
            bounded(self@, WIDE as int),
            bounded(b@, WIDE as int),
        ensures
            r@ == times(self@, b@),
            valid(r@),
            reach(r@) <= reach(self@) + reach(b@) + 54,
    {
        if self.m == 0 || b.m == 0 {
            assert(self@.m * b@.m == 0) by (nonlinear_arith)
                requires
                    self@.m == 0 || b@.m == 0,
            ;
            return Double::zero();
        }
        proof {
            lemma_powers();
            assert(least() * least() <= self.m * b.m < beyond() * beyond()) by (nonlinear_arith)
                requires
                    least() <= self.m < beyond(),
                    least() <= b.m < beyond(),
            ;
        }
        let n: u128 = self.m as u128 * b.m as u128;
        let s: i64 = if n < 0x20_0000_0000_0000u128 * 0x10_0000_0000_0000u128 {
            52
        } else {
            53
        };
        let d: u128 = power(s as u64);
        proof {
            assert(denominator(1, s as int) == d);
            assert(numerator(n as nat, s as int) == n);
            lemma_rounded(n as nat, 1, self@.e + b@.e, s as int);
        }
        settled(nearest_int(n, d), self.e + b.e + s)
    }

    pub fn over(self, b: Double) -> (r: Self)
        requires
            bounded(self@, WIDE as int),
            bounded(b@, WIDE as int),
            b@.m > 0,
        ensures
            r@ == over(self@, b@),
            valid(r@),
            reach(r@) <= reach(self@) + reach(b@) + 54,
    {
        if self.m == 0 {
            return Double::zero();
        }
        proof {
            lemma_powers();
        }
        let s: i64 = if self.m >= b.m {
            -52
        } else {
            -53
        };
        let wide: u128 = if self.m >= b.m {
            0x10_0000_0000_0000u128
        } else {
            0x20_0000_0000_0000u128
        };
        assert(self.m * wide < 0x40_0000_0000_0000 * 0x40_0000_0000_0000) by (nonlinear_arith)
            requires
                self.m < 0x20_0000_0000_0000,
                wide <= 0x20_0000_0000_0000,
        ;
        let n: u128 = self.m as u128 * wide;
        proof {
            assert(numerator(self.m as nat, s as int) == n);
            assert(denominator(b.m as nat, s as int) == b.m);
            lemma_rounded(self.m as nat, b.m as nat, self@.e - b@.e, s as int);
        }
        settled(nearest_int(n, b.m as u128), self.e - b.e + s)
    }

    pub fn plus(self, b: Double) -> (r: Self)
        requires
            bounded(self@, WIDE as int),
            bounded(b@, WIDE as int),
        ensures
            r@ == plus(self@, b@),
            valid(r@),
            reach(r@) <= crate::order::larger(reach(self@), reach(b@)) + 1,
    {
        if self.m == 0 {
            return b;
        }
        if b.m == 0 {
            return self;
        }
        let (hi, lo): (Double, Double) = if self.e >= b.e {
            (self, b)
        } else {
            (b, self)
        };
        let gap: i64 = hi.e - lo.e;
        proof {
            lemma_powers();
            lemma_pow2_pos(gap as nat);
            assert(hi.m * pow2(gap as nat) + lo.m * pow2(0) == hi.m * pow2(gap as nat) + lo.m)
                by (nonlinear_arith)
                requires
                    pow2(0) == 1,
            ;
            assert(plus(self@, b@) == rounded(
                (hi.m * pow2(gap as nat) + lo.m) as nat,
                1,
                lo.e as int,
            ));
        }
        if gap > 60 {
            proof {
                lemma_pow2_strictly_increases(60, gap as nat);
                lemma_far_apart(hi.m as nat, lo.m as nat, gap as nat, lo.e as int);
            }
            return hi;
        }
        let p: u128 = power(gap as u64);
        proof {
            if gap < 60 {
                lemma_pow2_strictly_increases(gap as nat, 60);
            }
            assert(hi.m * p < 0x20_0000_0000_0000 * p && hi.m * p >= 0x10_0000_0000_0000 * p
                && hi.m * p <= 0x20_0000_0000_0000 * 0x1000_0000_0000_0000) by (nonlinear_arith)
                requires
                    0x10_0000_0000_0000 <= hi.m < 0x20_0000_0000_0000,
                    0 < p <= 0x1000_0000_0000_0000,
            ;
        }
        let n: u128 = hi.m as u128 * p + lo.m as u128;
        let s: i64 = if n < 0x20_0000_0000_0000u128 * p {
            gap
        } else {
            gap + 1
        };
        let d: u128 = power(s as u64);
        proof {
            lemma_pow2_unfold((gap + 1) as nat);
            assert(denominator(1, s as int) == d);
            assert(numerator(n as nat, s as int) == n);
            assert(n < 0x40_0000_0000_0000 * p);
            lemma_rounded(n as nat, 1, lo.e as int, s as int);
            if s == gap + 1 {
                assert(hi.m * p <= (0x20_0000_0000_0000 - 1) * p) by (nonlinear_arith)
                    requires
                        hi.m <= 0x20_0000_0000_0000 - 1,
                        p > 0,
                ;
                lemma_half_is_short(n as nat, p as nat);
            }
        }
        settled(nearest_int(n, d), lo.e + s)
    }

    pub fn less(self, b: Double) -> (r: bool)
        ensures
            r == less(self@, b@),
    {
        b.m > 0 && (self.m == 0 || self.e < b.e || (self.e == b.e && self.m < b.m))
    }

    pub fn lesser(self, b: Double) -> (r: Self)
        ensures
            r@ == lesser(self@, b@),
    {
        if b.less(self) {
            b
        } else {
            self
        }
    }

    pub fn greater(self, b: Double) -> (r: Self)
        ensures
            r@ == greater(self@, b@),
    {
        if self.less(b) {
            b
        } else {
            self
        }
    }

    /// `self - b`, or zero where that is negative.
    pub fn excess(self, b: Double) -> (r: Self)
        requires
            bounded(self@, WIDE as int),
            bounded(b@, WIDE as int),
        ensures
            r@ == excess(self@, b@),
            valid(r@),
            reach(r@) <= crate::order::larger(reach(self@), reach(b@)) + 130,
    {
        if !b.less(self) {
            return Double::zero();
        }
        if b.m == 0 {
            return self;
        }
        let gap: i64 = self.e - b.e;
        proof {
            lemma_powers();
        }
        if gap > 60 {
            proof {
                lemma_pow2_strictly_increases(60, gap as nat);
                lemma_little_taken(self.m as nat, b.m as nat, gap as nat, b.e as int);
            }
            return self;
        }
        let p: u128 = power(gap as u64);
        proof {
            if gap < 60 {
                lemma_pow2_strictly_increases(gap as nat, 60);
            }
            assert(self.m * p <= 0x20_0000_0000_0000 * 0x1000_0000_0000_0000 && self.m * p
                >= self.m) by (nonlinear_arith)
                requires
                    0 <= self.m < 0x20_0000_0000_0000,
                    0 < p <= 0x1000_0000_0000_0000,
            ;
            if gap > 0 {
                lemma_pow2_unfold(gap as nat);
                lemma_pow2_pos((gap - 1) as nat);
                assert(self.m * p >= 2 * self.m) by (nonlinear_arith)
                    requires
                        p >= 2,
                        self.m >= 0,
                ;
            }
        }
        let n: u128 = self.m as u128 * p - b.m as u128;
        Double::pack(n, b.e)
    }

    /// The integer part, or `limit` where it is more.
    pub fn floor_upto(self, limit: u64) -> (r: u64)
        requires
            valid(self@),
            limit < 0x10_0000_0000_0000,
        ensures
            r == crate::order::smaller(floor_of(self@) as int, limit as int),
    {
        if self.m == 0 {
            assert(floor_of(self@) == 0) by (nonlinear_arith)
                requires
                    self@.m == 0,
                    floor_of(self@) == self@.m * pow2(0),
            ;
            return 0;
        }
        proof {
            lemma_powers();
        }
        if self.e >= 0 {
            proof {
                lemma_large(self@.m, self@.e as nat);
            }
            return limit;
        }
        if self.e < -60 {
            proof {
                lemma_pow2_strictly_increases(60, (-self.e) as nat);
                vstd::arithmetic::div_mod::lemma_basic_div(self.m as int, pow2((-self.e) as nat) as int);
            }
            return 0;
        }
        let p: u128 = power((-self.e) as u64);
        let f: u128 = self.m as u128 / p;
        if f > limit as u128 {
            limit
        } else {
            f as u64
        }
    }

    /// The least integer that is not smaller, or `limit` where it is more.
    pub fn ceil_upto(self, limit: u64) -> (r: u64)
        requires
            valid(self@),
            0 < limit < 0x10_0000_0000_0000,
        ensures
            r == crate::order::smaller(ceil_of(self@) as int, limit as int),
    {
        if self.m == 0 {
            assert(ceil_of(self@) == 0) by (nonlinear_arith)
                requires
                    self@.m == 0,
                    ceil_of(self@) == self@.m * pow2(0),
            ;
            return 0;
        }
        proof {
            lemma_powers();
        }
        if self.e >= 0 {
            proof {
                lemma_large(self@.m, self@.e as nat);
            }
            return limit;
        }
        if self.e < -60 {
            proof {
                let p = pow2((-self.e) as nat) as int;
                lemma_pow2_strictly_increases(60, (-self.e) as nat);
                assert((self.m + p - 1) / p == 1) by (nonlinear_arith)
                    requires
                        0 < self.m < p,
                ;
            }
            return 1;
        }
        let p: u128 = power((-self.e) as u64);
        proof {
            if self.e > -60 {
                lemma_pow2_strictly_increases((-self.e) as nat, 60);
            }
        }
        let f: u128 = (self.m as u128 + p - 1) / p;
        if f > limit as u128 {
            limit
        } else {
            f as u64
        }
    }

    /// The nearest integer, halves upwards, or 255 where it is more.
    pub fn round_to_byte(self) -> (r: u8)
        requires
            valid(self@),
        ensures
            r == crate::order::smaller(round_of(self@) as int, 255),
    {
        if self.m == 0 {
            assert(round_of(self@) == 0) by (nonlinear_arith)
                requires
                    self@.m == 0,
                    round_of(self@) == self@.m * pow2(0),
            ;
            return 0;
        }
        proof {
            lemma_powers();
        }
        if self.e >= 0 {
            proof {
                lemma_large(self@.m, self@.e as nat);
            }
            return 255;
        }
        if self.e < -60 {
            proof {
                let p = pow2((-self.e) as nat) as int;
                lemma_pow2_strictly_increases(60, (-self.e) as nat);
                assert((2 * self.m + p) / (2 * p) == 0) by (nonlinear_arith)
                    requires
                        0 <= 2 * self.m < p,
                ;
            }
            return 0;
        }
        let p: u128 = power((-self.e) as u64);
        proof {
            if self.e > -60 {
                lemma_pow2_strictly_increases((-self.e) as nat, 60);
            }
        }
        let f: u128 = (2 * self.m as u128 + p) / (2 * p);
        if f > 255 {
            255
        } else {
            f as u8
        }
    }

    /// The square root.
    pub fn root(self) -> (r: Self)
        requires
            bounded(self@, 1000),
        ensures
            r@ == root(self@),
            bounded(r@, 600),
    {
        if self.m == 0 {
            return Double::zero();
        }
        let up: u64 = (self.e + 2000) as u64;
        let t: u64 = if up % 2 == 0 {
            52
        } else {
            53
        };
        proof {
            lemma_powers();
            assert(root_shift(self@.e) == t);
        }
        let p: u128 = power(t);
        proof {
            assert(0x10_0000_0000_0000 * 0x10_0000_0000_0000 <= self.m * p <= 0x20_0000_0000_0000
                * 0x20_0000_0000_0000 - 0x20_0000_0000_0000) by (nonlinear_arith)
                requires
                    0x10_0000_0000_0000 <= self.m <= 0x20_0000_0000_0000 - 1,
                    0x10_0000_0000_0000 <= p <= 0x20_0000_0000_0000,
            ;
        }
        let n: u128 = self.m as u128 * p;
        let m: u64 = nearest_root(n);
        proof {
            let c = choose|r: nat| is_root(n as nat, r);
            lemma_one_root(n as nat, m as nat, c);
        }
        let half: u64 = (up - t) / 2;
        Double { m, e: half as i64 - 1000 }
    }
}

proof fn lemma_large(m: nat, e: nat)
    requires
        m >= least(),
    ensures
        m * pow2(e) >= least(),
{
    lemma_pow2_pos(e);
    assert(m * pow2(e) >= m) by (nonlinear_arith)
        requires
            pow2(e) >= 1,
            m >= 0,
    ;
}

/// What lies 60 bits below a number does not change it when it is added.
proof fn lemma_far_apart(m: nat, little: nat, gap: nat, e: int)
    requires
        least() <= m < beyond(),
        0 < little < beyond(),
        pow2(gap) > 0x1000_0000_0000_0000,
        gap > 0,
    ensures
        rounded(m * pow2(gap) + little, 1, e) == (Number { m, e: e + gap }),
{
    let p = pow2(gap);
    let n = m * p + little;
    assert(least() * p <= n < beyond() * p) by (nonlinear_arith)
        requires
            n == m * p + little,
            least() <= m,
            m + 1 <= beyond(),
            0 <= little < p,
    ;
    assert(denominator(1, gap as int) == p);
    assert(numerator(n, gap as int) == n);
    lemma_rounded(n, 1, e, gap as int);
    vstd::arithmetic::div_mod::lemma_fundamental_div_mod_converse(
        n as int,
        p as int,
        m as int,
        little as int,
    );
    assert(nearest(n, p) == m);
}

/// Nor when it is taken away.
proof fn lemma_little_taken(m: nat, little: nat, gap: nat, e: int)
    requires
        least() <= m < beyond(),
        0 < little < beyond(),
        pow2(gap) > 0x1000_0000_0000_0000,
        gap > 1,
    ensures
        m * pow2(gap) > little,
        rounded((m * pow2(gap) - little) as nat, 1, e) == (Number { m, e: e + gap }),
{
    let p = pow2(gap) as int;
    let n = m * p - little;
    lemma_pow2_unfold(gap);
    assert(n > 0) by (nonlinear_arith)
        requires
            n == m * p - little,
            m >= 1,
            p > little,
    ;
    if m > least() {
        assert(n == (m - 1) * p + (p - little)) by (nonlinear_arith)
            requires
                n == m * p - little,
        ;
        assert(least() * p <= n < beyond() * p) by (nonlinear_arith)
            requires
                n == (m - 1) * p + (p - little),
                least() <= m - 1,
                m <= beyond(),
                0 < little < p,
        ;
        assert(denominator(1, gap as int) == p);
        assert(numerator(n as nat, gap as int) == n);
        lemma_rounded(n as nat, 1, e, gap as int);
        vstd::arithmetic::div_mod::lemma_fundamental_div_mod_converse(
            n,
            p,
            m - 1,
            p - little,
        );
        assert(nearest(n as nat, p as nat) == m);
    } else {
        let q = pow2((gap - 1) as nat) as int;
        assert(p == 2 * q);
        assert(n == (beyond() - 1) * q + (q - little)) by (nonlinear_arith)
            requires
                n == m * p - little,
                p == 2 * q,
                m == least(),
        ;
        assert(least() * q <= n < beyond() * q) by (nonlinear_arith)
            requires
                n == (beyond() - 1) * q + (q - little),
                0 < little < q,
        ;
        assert(denominator(1, gap - 1) == q);
        assert(numerator(n as nat, gap - 1) == n);
        lemma_rounded(n as nat, 1, e, gap - 1);
        vstd::arithmetic::div_mod::lemma_fundamental_div_mod_converse(
            n,
            q,
            beyond() - 1,
            q - little,
        );
        assert(nearest(n as nat, q as nat) == beyond());
    }
}

/// A sum that takes one bit more is not rounded up to yet another.
proof fn lemma_half_is_short(n: nat, p: nat)
    requires
        p > 0,
        beyond() * p <= n < (beyond() - 1) * p + beyond(),
    ensures
        nearest(n, 2 * p) < beyond(),
{
    let d = 2 * p;
    let f = n / d;
    let r = n % d;
    vstd::arithmetic::div_mod::lemma_fundamental_div_mod(n as int, d as int);
    assert(n + p < beyond() * d) by (nonlinear_arith)
        requires
            n < (beyond() - 1) * p + beyond(),
            d == 2 * p,
            p >= 1,
    ;
    if 2 * r < d {
        assert(f < beyond()) by (nonlinear_arith)
            requires
                n == d * f + r,
                n < beyond() * d,
                r >= 0,
                d > 0,
        ;
    } else {
        assert(f + 1 < beyond()) by (nonlinear_arith)
            requires
                n == d * f + r,
                n + p < beyond() * d,
                2 * r >= d,
                d == 2 * p,
                d > 0,
        ;
    }
}

proof fn lemma_one_root(n: nat, a: nat, b: nat)
    requires
        is_root(n, a),
        is_root(n, b),
    ensures
        a == b,
{
    if a < b {
        assert((2 * a + 1) * (2 * a + 1) <= (2 * b - 1) * (2 * b - 1)) by (nonlinear_arith)
            requires
                0 < a < b,
        ;
    } else if b < a {
        assert((2 * b + 1) * (2 * b + 1) <= (2 * a - 1) * (2 * a - 1)) by (nonlinear_arith)
            requires
                0 < b < a,
        ;
    }
}

/// The integer nearest to the square root, bit by bit.
fn nearest_root(n: u128) -> (r: u64)
    requires
        0x10_0000_0000_0000 * 0x10_0000_0000_0000 <= n <= 0x20_0000_0000_0000 * 0x20_0000_0000_0000
            - 0x20_0000_0000_0000,
    ensures
        is_root(n as nat, r as nat),
        least() <= r < beyond(),
{
    let mut f: u128 = 0;
    let mut bit: u128 = 0x20_0000_0000_0000;
    let mut left: u64 = 53;
    proof {
        lemma_powers();
    }
    while left > 0
        invariant
            n <= 0x20_0000_0000_0000 * 0x20_0000_0000_0000 - 0x20_0000_0000_0000,
            left <= 53,
            bit == pow2(left as nat),
            f * f <= n < (f + bit) * (f + bit),
            f + bit <= 0x20_0000_0000_0000,
            bit > 0,
        decreases left,
    {
        proof {
            lemma_pow2_unfold(left as nat);
            lemma_pow2_pos((left - 1) as nat);
        }
        bit = bit / 2;
        left = left - 1;
        let g: u128 = f + bit;
        assert(g * g <= 0x20_0000_0000_0000 * 0x20_0000_0000_0000) by (nonlinear_arith)
            requires
                0 <= g <= 0x20_0000_0000_0000,
        ;
        if g * g <= n {
            f = g;
        }
    }
    proof {
        lemma_powers();
        assert(f >= 0x10_0000_0000_0000) by (nonlinear_arith)
            requires
                0x10_0000_0000_0000 * 0x10_0000_0000_0000 <= n,
                n < (f + 1) * (f + 1),
                f >= 0,
        ;
        assert(f * f <= 0x20_0000_0000_0000 * 0x20_0000_0000_0000) by (nonlinear_arith)
            requires
                0 <= f <= 0x20_0000_0000_0000,
        ;
    }
    let rest: u128 = n - f * f;
    if rest > f {
        assert(f + 1 < 0x20_0000_0000_0000) by (nonlinear_arith)
            requires
                n > f * f + f,
                n <= 0x20_0000_0000_0000 * 0x20_0000_0000_0000 - 0x20_0000_0000_0000,
                0 <= f < 0x20_0000_0000_0000,
        ;
        assert(is_root(n as nat, (f + 1) as nat)) by (nonlinear_arith)
            requires
                n >= f * f + f + 1,
                n < (f + 1) * (f + 1),
                f >= 0,
                is_root(n as nat, (f + 1) as nat) == (f + 1 > 0 && (2 * (f + 1) - 1) * (2 * (f + 1)
                    - 1) < 4 * n < (2 * (f + 1) + 1) * (2 * (f + 1) + 1)),
        ;
        (f + 1) as u64
    } else {
        assert(is_root(n as nat, f as nat)) by (nonlinear_arith)
            requires
                n <= f * f + f,
                f * f <= n,
                f >= 1,
                is_root(n as nat, f as nat) == (f > 0 && (2 * f - 1) * (2 * f - 1) < 4 * n < (2 * f
                    + 1) * (2 * f + 1)),
        ;
        f as u64
    }
}

/// A whole number of no more than 52 bits is kept exactly.
pub proof fn whole_numbers_are_kept(n: nat)
    requires
        0 < n < least(),
    ensures
        valid(whole(n)),
        whole(n).m > 0,
        whole(n).e < 0,
        whole(n).m == n * pow2((-whole(n).e) as nat),
{
    lemma_powers();
    lemma_fitting_scale(n, 0);
    let k = choose|k: nat| k > 0 && least() <= #[trigger] (n * pow2(k)) < beyond();
    let s = -(k as int);
    assert(numerator(n, s) == n * pow2(k));
    assert(denominator(1, s) == 1);
    lemma_rounded(n, 1, 0, s);
    assert(nearest((n * pow2(k)) as nat, 1) == n * pow2(k));
}

proof fn lemma_fitting_scale(n: nat, j: nat)
    requires
        0 < n,
        n * pow2(j) < least(),
    ensures
        exists|k: nat| k > 0 && least() <= #[trigger] (n * pow2(k)) < beyond(),
    decreases least() - n * pow2(j),
{
    lemma_pow2_unfold(j + 1);
    lemma_pow2_pos(j);
    assert(n * pow2(j + 1) == 2 * (n * pow2(j)) && n * pow2(j) > 0) by (nonlinear_arith)
        requires
            pow2(j + 1) == 2 * pow2(j),
            n > 0,
            pow2(j) > 0,
    ;
    if n * pow2(j + 1) < least() {
        lemma_fitting_scale(n, j + 1);
    } else {
        assert(least() <= n * pow2(j + 1) < beyond());
    }
}

} // verus!
