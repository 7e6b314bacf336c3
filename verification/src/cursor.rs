//! Pointer shapes: noticing a new one, scaling it, and keeping it small enough for
//! the wire.
use crate::around::{below_the_ceiling, roots_are_nearest};
use crate::capture::{rect_update, DisplayUpdate, RgbaPointer};
use crate::double::{
    bounded, ceil_of, excess, floor_of, greater, lesser, over, plus, root, round_of, times, valid,
    whole, zero, Double, Number, WIDE,
};
use crate::precision::{
    bytes_survive, close, comparing_is_exact, differences_are_positive, lemma_close_scaled,
    lemma_error_grows, lemma_mean, lemma_products_agree, lemma_sign, lemma_weighted,
    lemma_within_more, products_come_close, quotients_come_close, shares_survive, sums_come_close,
    the_ceiling_lies_above, the_floor_lies_below, value, whole_numbers_stand_for_themselves, within,
    SMALL,
};
use crate::wire::push_be16;
use std::collections::hash_map::DefaultHasher;
use std::hash::Hasher;
use vstd::prelude::*;
use vstd::std_specs::hash::DefaultHasherAdditionalSpecFns;

verus! {

/// How many of `ns` source cells of an axis one of `nd` destination cells covers.
pub open spec fn cells_per_cell(ns: nat, nd: nat) -> Number {
    over(whole(ns), whole(nd))
}

/// Where destination cell `d` starts and ends, counted in source cells.
pub open spec fn starts_at(d: nat, ns: nat, nd: nat) -> Number {
    times(whole(d), cells_per_cell(ns, nd))
}

pub open spec fn ends_at(d: nat, ns: nat, nd: nat) -> Number {
    plus(starts_at(d, ns, nd), cells_per_cell(ns, nd))
}

/// The first source cell that destination cell `d` reaches into, and the one behind the
/// last.
pub open spec fn first_cell(d: nat, ns: nat, nd: nat) -> int {
    crate::order::smaller(floor_of(starts_at(d, ns, nd)) as int, ns as int)
}

pub open spec fn end_cell(d: nat, ns: nat, nd: nat) -> int {
    crate::order::smaller(ceil_of(ends_at(d, ns, nd)) as int, ns as int)
}

/// How much of source cell `s` destination cell `d` covers.
pub open spec fn covered(d: nat, s: nat, ns: nat, nd: nat) -> Number {
    excess(
        lesser(ends_at(d, ns, nd), whole(s + 1)),
        greater(starts_at(d, ns, nd), whole(s)),
    )
}

/// Sums over the pixels that a destination pixel covers, each weighted by how much of it
/// is covered: the colours times alpha, alpha, and the weights alone.
#[verifier::ext_equal]
pub struct SumsView {
    pub red: Number,
    pub green: Number,
    pub blue: Number,
    pub alpha: Number,
    pub area: Number,
}

pub open spec fn no_sums() -> SumsView {
    SumsView { red: zero(), green: zero(), blue: zero(), alpha: zero(), area: zero() }
}

/// Alpha as a part of 1.
pub open spec fn share(alpha: u8) -> Number {
    over(whole(alpha as nat), whole(255))
}

/// The sums with source pixel number `at` added.
pub open spec fn with_pixel(t: SumsView, src: Seq<u8>, at: int, weight: Number) -> SumsView {
    let a = share(src[4 * at + 3]);
    SumsView {
        red: plus(t.red, times(times(whole(src[4 * at] as nat), a), weight)),
        green: plus(t.green, times(times(whole(src[4 * at + 1] as nat), a), weight)),
        blue: plus(t.blue, times(times(whole(src[4 * at + 2] as nat), a), weight)),
        alpha: plus(t.alpha, times(a, weight)),
        area: plus(t.area, weight),
    }
}

/// The sums `t` with the covered pixels of source row `sy` added, up to column `k`.
pub open spec fn along_row(
    t: SumsView,
    src: Seq<u8>,
    sw: nat,
    sh: nat,
    dw: nat,
    dh: nat,
    dx: nat,
    dy: nat,
    sy: int,
    k: int,
) -> SumsView
    decreases k,
{
    if k <= first_cell(dx, sw, dw) || k <= 0 {
        t
    } else {
        with_pixel(
            along_row(t, src, sw, sh, dw, dh, dx, dy, sy, k - 1),
            src,
            sy * sw + (k - 1),
            times(covered(dx, (k - 1) as nat, sw, dw), covered(dy, sy as nat, sh, dh)),
        )
    }
}

/// The sums over the covered pixels of the source rows before row `k`, row by row.
pub open spec fn down_rows(
    src: Seq<u8>,
    sw: nat,
    sh: nat,
    dw: nat,
    dh: nat,
    dx: nat,
    dy: nat,
    k: int,
) -> SumsView
    decreases k,
{
    if k <= first_cell(dy, sh, dh) || k <= 0 {
        no_sums()
    } else {
        along_row(
            down_rows(src, sw, sh, dw, dh, dx, dy, k - 1),
            src,
            sw,
            sh,
            dw,
            dh,
            dx,
            dy,
            k - 1,
            end_cell(dx, sw, dw),
        )
    }
}

pub open spec fn byte_of(x: Number) -> u8 {
    crate::order::smaller(round_of(x) as int, 255) as u8
}

/// One channel of a pixel with these sums: the mean alpha over the area, and the mean
/// colour weighted by alpha, so that what is transparent lends no colour.
pub open spec fn channel(t: SumsView, c: int) -> u8 {
    if c == 3 {
        if t.area.m > 0 {
            byte_of(times(over(t.alpha, t.area), whole(255)))
        } else {
            0
        }
    } else if t.alpha.m > 0 {
        byte_of(
            over(
                if c == 0 {
                    t.red
                } else if c == 1 {
                    t.green
                } else {
                    t.blue
                },
                t.alpha,
            ),
        )
    } else {
        0
    }
}

/// One channel of a resampled pixel.
pub open spec fn resampled(
    src: Seq<u8>,
    sw: nat,
    sh: nat,
    dw: nat,
    dh: nat,
    c: int,
    dx: nat,
    dy: nat,
) -> u8 {
    if sw == 0 || sh == 0 {
        0
    } else {
        channel(down_rows(src, sw, sh, dw, dh, dx, dy, end_cell(dy, sh, dh)), c)
    }
}

/// Byte `i` of the resampled image.
pub open spec fn resampled_byte(src: Seq<u8>, sw: nat, sh: nat, dw: nat, dh: nat, i: int) -> u8 {
    resampled(
        src,
        sw,
        sh,
        dw,
        dh,
        i % 4,
        ((i / 4) % dw as int) as nat,
        ((i / 4) / dw as int) as nat,
    )
}

pub open spec fn resampled_image(src: Seq<u8>, sw: nat, sh: nat, dw: nat, dh: nat) -> Seq<u8> {
    Seq::new(4 * (dw * dh), |i: int| resampled_byte(src, sw, sh, dw, dh, i))
}

/// [`SumsView`] as it is computed.
#[derive(Debug, Clone, Copy)]
struct Sums {
    red: Double,
    green: Double,
    blue: Double,
    alpha: Double,
    area: Double,
}

impl View for Sums {
    type V = SumsView;

    closed spec fn view(&self) -> SumsView {
        SumsView {
            red: self.red@,
            green: self.green@,
            blue: self.blue@,
            alpha: self.alpha@,
            area: self.area@,
        }
    }
}

/// The exponents of the sums lie between `-b` and `b`.
spec fn sums_bounded(t: SumsView, b: int) -> bool {
    &&& bounded(t.red, b)
    &&& bounded(t.green, b)
    &&& bounded(t.blue, b)
    &&& bounded(t.alpha, b)
    &&& bounded(t.area, b)
}

/// Exponents of what one pixel adds to the sums stay below this.
pub const PIXEL_EXPONENT: i64 = 1400;

/// A destination cell on one axis.
#[derive(Debug, Clone, Copy)]
struct Cell {
    start: Double,
    end: Double,
}

impl Cell {
    spec fn is_cell(&self, d: nat, ns: nat, nd: nat) -> bool {
        &&& self.start@ == starts_at(d, ns, nd)
        &&& self.end@ == ends_at(d, ns, nd)
        &&& bounded(self.start@, 320)
        &&& bounded(self.end@, 320)
    }

    fn new(d: u16, ns: u16, nd: u16) -> (c: Cell)
        requires
            nd > 0,
        ensures
            c.is_cell(d as nat, ns as nat, nd as nat),
    {
        let n: Double = Double::from_int(ns as u64);
        let m: Double = Double::from_int(nd as u64);
        proof {
            lemma_whole_positive(nd as nat);
        }
        let step: Double = n.over(m);
        let at: Double = Double::from_int(d as u64);
        let start: Double = at.times(step);
        let end: Double = start.plus(step);
        Cell { start, end }
    }

    fn covers(
        &self,
        s: u16,
        Ghost(d): Ghost<nat>,
        Ghost(ns): Ghost<nat>,
        Ghost(nd): Ghost<nat>,
    ) -> (r: Double)
        requires
            self.is_cell(d, ns, nd),
        ensures
            r@ == covered(d, s as nat, ns, nd),
            bounded(r@, 450),
    {
        let here: Double = Double::from_int(s as u64);
        let next: Double = Double::from_int(s as u64 + 1);
        let hi: Double = self.end.lesser(next);
        let lo: Double = self.start.greater(here);
        let r: Double = hi.excess(lo);
        r
    }
}

proof fn lemma_whole_positive(n: nat)
    requires
        0 < n < 0x10_0000_0000_0000,
    ensures
        whole(n).m > 0,
{
    crate::double::whole_numbers_are_kept(n);
}

impl Sums {
    fn none() -> (t: Sums)
        ensures
            t@ == no_sums(),
            sums_bounded(t@, 0),
    {
        let z: Double = Double::zero();
        Sums { red: z, green: z, blue: z, alpha: z, area: z }
    }

    fn add_pixel(self, src: &[u8], at: usize, weight: Double, Ghost(b): Ghost<int>) -> (t: Sums)
        requires
            4 * at + 3 < src@.len(),
            bounded(weight@, 960),
            PIXEL_EXPONENT <= b < WIDE,
            sums_bounded(self@, b),
        ensures
            t@ == with_pixel(self@, src@, at as int, weight@),
            sums_bounded(t@, b + 1),
    {
        let _ = src.len();
        let full: Double = Double::from_int(255);
        proof {
            lemma_whole_positive(255);
        }
        let alpha: Double = Double::from_int(src[4 * at + 3] as u64);
        let a: Double = alpha.over(full);
        let red: Double = Double::from_int(src[4 * at] as u64).times(a);
        let green: Double = Double::from_int(src[4 * at + 1] as u64).times(a);
        let blue: Double = Double::from_int(src[4 * at + 2] as u64).times(a);
        let r: Double = red.times(weight);
        let g: Double = green.times(weight);
        let l: Double = blue.times(weight);
        let w: Double = a.times(weight);
        let t: Sums = Sums {
            red: self.red.plus(r),
            green: self.green.plus(g),
            blue: self.blue.plus(l),
            alpha: self.alpha.plus(w),
            area: self.area.plus(weight),
        };
        t
    }

    /// The four channels of a pixel with these sums.
    fn pixel(self) -> (r: (u8, u8, u8, u8))
        requires
            sums_bounded(self@, 0x400_0000_0000),
        ensures
            r.0 == channel(self@, 0),
            r.1 == channel(self@, 1),
            r.2 == channel(self@, 2),
            r.3 == channel(self@, 3),
    {
        let alpha: u8 = if self.area.is_zero() {
            0
        } else {
            let mean: Double = self.alpha.over(self.area);
            mean.times(Double::from_int(255)).round_to_byte()
        };
        if self.alpha.is_zero() {
            (0, 0, 0, alpha)
        } else {
            (
                self.red.over(self.alpha).round_to_byte(),
                self.green.over(self.alpha).round_to_byte(),
                self.blue.over(self.alpha).round_to_byte(),
                alpha,
            )
        }
    }
}

/// The four channels of one resampled pixel.
fn resample_pixel(src: &[u8], sw: u16, sh: u16, dw: u16, dh: u16, dx: u16, dy: u16) -> (r: (
    u8,
    u8,
    u8,
    u8,
))
    requires
        0 < sw,
        0 < sh,
        dx < dw,
        dy < dh,
        4 * (sw * sh) <= src@.len(),
    ensures
        r.0 == resampled(src@, sw as nat, sh as nat, dw as nat, dh as nat, 0, dx as nat, dy as nat),
        r.1 == resampled(src@, sw as nat, sh as nat, dw as nat, dh as nat, 1, dx as nat, dy as nat),
        r.2 == resampled(src@, sw as nat, sh as nat, dw as nat, dh as nat, 2, dx as nat, dy as nat),
        r.3 == resampled(src@, sw as nat, sh as nat, dw as nat, dh as nat, 3, dx as nat, dy as nat),
{
    let ghost w = sw as nat;
    let ghost h = sh as nat;
    let ghost v = dw as nat;
    let ghost u = dh as nat;
    let ghost x = dx as nat;
    let ghost y = dy as nat;
    let across: Cell = Cell::new(dx, sw, dw);
    let down: Cell = Cell::new(dy, sh, dh);
    let left: u16 = across.start.floor_upto(sw as u64) as u16;
    let right: u16 = across.end.ceil_upto(sw as u64) as u16;
    let top: u16 = down.start.floor_upto(sh as u64) as u16;
    let bottom: u16 = down.end.ceil_upto(sh as u64) as u16;
    let mut t: Sums = Sums::none();
    let mut sy: u16 = top;
    while sy < bottom
        invariant
            top <= sy,
            bottom <= sh,
            sy <= bottom || sy == top,
            w == sw,
            h == sh,
            v == dw,
            u == dh,
            x == dx,
            y == dy,
            across.is_cell(x, w, v),
            down.is_cell(y, h, u),
            left == first_cell(x, w, v),
            right == end_cell(x, w, v),
            right <= sw,
            top == first_cell(y, h, u),
            4 * (sw * sh) <= src@.len(),
            t@ == down_rows(src@, w, h, v, u, x, y, sy as int),
            sums_bounded(t@, PIXEL_EXPONENT + sy * 65536),
        decreases bottom - sy,
    {
        let tall: Double = down.covers(sy, Ghost(y), Ghost(h), Ghost(u));
        let ghost before = t@;
        let mut sx: u16 = left;
        while sx < right
            invariant
                left <= sx,
                sx <= right || sx == left,
                right <= sw,
                sy < sh,
                w == sw,
                h == sh,
                v == dw,
                u == dh,
                x == dx,
                y == dy,
                across.is_cell(x, w, v),
                left == first_cell(x, w, v),
                4 * (sw * sh) <= src@.len(),
                tall@ == covered(y, sy as nat, h, u),
                bounded(tall@, 450),
                t@ == along_row(before, src@, w, h, v, u, x, y, sy as int, sx as int),
                sums_bounded(t@, PIXEL_EXPONENT + sy * 65536 + sx),
            decreases right - sx,
        {
            let wide: Double = across.covers(sx, Ghost(x), Ghost(w), Ghost(v));
            let weight: Double = wide.times(tall);
            proof {
                lemma_products(sy as int, sw as int);
                assert(sy * sw + sx + 1 <= sw * sh) by (nonlinear_arith)
                    requires
                        sy + 1 <= sh,
                        sx + 1 <= sw,
                ;
            }
            let at: usize = sy as usize * sw as usize + sx as usize;
            t = t.add_pixel(src, at, weight, Ghost(PIXEL_EXPONENT + sy * 65536 + sx));
            sx = sx + 1;
        }
        proof {
            if right <= left {
                lemma_row_without_cells(before, src@, w, h, v, u, x, y, sy as int, left as int);
                lemma_row_without_cells(before, src@, w, h, v, u, x, y, sy as int, right as int);
            }
        }
        sy = sy + 1;
    }
    proof {
        if bottom < sy {
            assert(down_rows(src@, w, h, v, u, x, y, bottom as int) == no_sums());
            assert(down_rows(src@, w, h, v, u, x, y, top as int) == no_sums());
        }
    }
    t.pixel()
}

proof fn lemma_row_without_cells(
    t: SumsView,
    src: Seq<u8>,
    sw: nat,
    sh: nat,
    dw: nat,
    dh: nat,
    dx: nat,
    dy: nat,
    sy: int,
    k: int,
)
    requires
        k <= first_cell(dx, sw, dw),
    ensures
        along_row(t, src, sw, sh, dw, dh, dx, dy, sy, k) == t,
{
}

proof fn lemma_products(a: int, b: int)
    requires
        0 <= a <= 65535,
        0 <= b <= 65535,
    ensures
        0 <= a * b <= 65535 * 65535,
{
    assert(0 <= a * b <= 65535 * 65535) by (nonlinear_arith)
        requires
            0 <= a <= 65535,
            0 <= b <= 65535,
    ;
}

/// Scales an RGBA image by averaging over the area that each new pixel covers.
pub fn resample_rgba(src: &[u8], sw: u16, sh: u16, dw: u16, dh: u16) -> (out: Vec<u8>)
    requires
        dw == 0 || dh == 0 || 4 * (sw * sh) <= src@.len(),
        4 * (dw * dh) <= usize::MAX,
    ensures
        out@ == resampled_image(src@, sw as nat, sh as nat, dw as nat, dh as nat),
{
    let mut out: Vec<u8> = Vec::new();
    let mut dy: u16 = 0;
    let ghost total = dw * dh;
    while dy < dh
        invariant
            dy <= dh,
            total == dw * dh,
            dw == 0 || dh == 0 || 4 * (sw * sh) <= src@.len(),
            out@.len() == 4 * (dy * dw),
            forall|i: int|
                0 <= i < out@.len() ==> #[trigger] out@[i] == resampled_byte(
                    src@,
                    sw as nat,
                    sh as nat,
                    dw as nat,
                    dh as nat,
                    i,
                ),
        decreases dh - dy,
    {
        let mut dx: u16 = 0;
        while dx < dw
            invariant
                dx <= dw,
                dy < dh,
                4 * (sw * sh) <= src@.len() || dw == 0,
                out@.len() == 4 * (dy * dw + dx),
                forall|i: int|
                    0 <= i < out@.len() ==> #[trigger] out@[i] == resampled_byte(
                        src@,
                        sw as nat,
                        sh as nat,
                        dw as nat,
                        dh as nat,
                        i,
                    ),
            decreases dw - dx,
        {
            let p: (u8, u8, u8, u8) = if sw == 0 || sh == 0 {
                (0, 0, 0, 0)
            } else {
                resample_pixel(src, sw, sh, dw, dh, dx, dy)
            };
            proof {
                let q = dy * dw + dx;
                vstd::arithmetic::div_mod::lemma_fundamental_div_mod_converse(
                    q,
                    dw as int,
                    dy as int,
                    dx as int,
                );
                assert((4 * q) / 4 == q && (4 * q + 1) / 4 == q && (4 * q + 2) / 4 == q && (4 * q
                    + 3) / 4 == q);
            }
            out.push(p.0);
            out.push(p.1);
            out.push(p.2);
            out.push(p.3);
            dx = dx + 1;
        }
        proof {
            assert((dy + 1) * dw == dy * dw + dw) by (nonlinear_arith);
        }
        dy = dy + 1;
    }
    proof {
        assert(dh * dw == dw * dh) by (nonlinear_arith);
        assert(out@ =~= resampled_image(src@, sw as nat, sh as nat, dw as nat, dh as nat));
    }
    out
}

/// The destination cells are computed close enough for each to cover some of the source:
/// of the first source cell that it reaches into it covers a part.
proof fn lemma_cell_covers(d: nat, ns: nat, nd: nat)
    requires
        0 < ns <= 65535,
        d < nd <= 65535,
    ensures
        0 <= first_cell(d, ns, nd) < ns,
        first_cell(d, ns, nd) < end_cell(d, ns, nd) <= ns,
        covered(d, first_cell(d, ns, nd) as nat, ns, nd).m > 0,
{
    let step = cells_per_cell(ns, nd);
    let start = starts_at(d, ns, nd);
    let end = ends_at(d, ns, nd);
    whole_numbers_stand_for_themselves(ns);
    whole_numbers_stand_for_themselves(nd);
    whole_numbers_stand_for_themselves(d);
    quotients_come_close(whole(ns), whole(nd));
    products_come_close(whole(d), step);
    sums_come_close(start, step);
    lemma_sign(step);
    let (n, m, k) = (ns as real, nd as real, d as real);
    let (x, y, z) = (value(step), value(start), value(end));
    assert(x * m <= x * (65535 as real)) by (nonlinear_arith)
        requires
            x > 0 as real,
            m <= 65535 as real,
    ;
    assert(k * x <= x * m - x) by (nonlinear_arith)
        requires
            x > 0 as real,
            k + (1 as real) <= m,
    ;
    lemma_cell_bounds(n, x * m, k * x, x, y, z);
    let f = floor_of(start);
    the_floor_lies_below(start);
    the_ceiling_lies_above(end);
    assert(f < ns);
    whole_numbers_stand_for_themselves(f);
    whole_numbers_stand_for_themselves(f + 1);
    comparing_is_exact(whole(f + 1), end);
    comparing_is_exact(start, whole(f));
    let hi = lesser(end, whole(f + 1));
    let lo = greater(start, whole(f));
    comparing_is_exact(lo, hi);
    differences_are_positive(hi, lo);
}

/// `n` source cells, `w` for what `nd` steps of `x` make, `v` for what `d` of them make:
/// the cell starts before the last source cell ends, and ends behind its start.
proof fn lemma_cell_bounds(n: real, w: real, v: real, x: real, y: real, z: real)
    requires
        n > 0 as real,
        x > 0 as real,
        close(w, n),
        close(y, v),
        close(z, y + x),
        w <= (65535 as real) * x,
        v <= w - x,
    ensures
        y < n,
        y < z,
{
}

/// How far the sums over `k` pixels may be off, in parts of `2^53`.
spec fn drift(k: nat) -> nat {
    3 * k + 5
}

/// Sums over `k` pixels of one colour: each stands to the next as it does in one pixel,
/// but for errors.
#[verifier::opaque]
spec fn kept(t: SumsView, colour: Seq<u8>, k: nat) -> bool {
    &&& valid(t.red) && valid(t.green) && valid(t.blue) && valid(t.alpha) && valid(t.area)
    &&& within(value(t.red), value(whole(colour[0] as nat)) * value(t.alpha), drift(k))
    &&& within(value(t.green), value(whole(colour[1] as nat)) * value(t.alpha), drift(k))
    &&& within(value(t.blue), value(whole(colour[2] as nat)) * value(t.alpha), drift(k))
    &&& within(value(t.alpha), value(share(colour[3])) * value(t.area), drift(k))
}

proof fn lemma_ratio_more(x: Number, c: Number, y: Number, g: nat, h: nat)
    requires
        g <= h,
        within(value(x), value(c) * value(y), g),
    ensures
        within(value(x), value(c) * value(y), h),
{
    lemma_sign(c);
    lemma_sign(y);
    let (a, b) = (value(c), value(y));
    assert(a * b >= 0 as real) by (nonlinear_arith)
        requires
            a >= 0 as real,
            b >= 0 as real,
    ;
    lemma_within_more(value(x), a * b, g, h);
}

proof fn lemma_kept_longer(t: SumsView, colour: Seq<u8>, k: nat, n: nat)
    requires
        kept(t, colour, k),
        k <= n,
    ensures
        kept(t, colour, n),
{
    reveal(kept);
    let (g, h) = (drift(k), drift(n));
    lemma_ratio_more(t.red, whole(colour[0] as nat), t.alpha, g, h);
    lemma_ratio_more(t.green, whole(colour[1] as nat), t.alpha, g, h);
    lemma_ratio_more(t.blue, whole(colour[2] as nat), t.alpha, g, h);
    lemma_ratio_more(t.alpha, share(colour[3]), t.area, g, h);
}

proof fn lemma_nothing_kept(colour: Seq<u8>)
    ensures
        kept(no_sums(), colour, 0),
{
    reveal(kept);
    lemma_sign(zero());
    lemma_no_ratio(whole(colour[0] as nat));
    lemma_no_ratio(whole(colour[1] as nat));
    lemma_no_ratio(whole(colour[2] as nat));
    lemma_no_ratio(share(colour[3]));
}

proof fn lemma_no_ratio(c: Number)
    ensures
        within(value(zero()), value(c) * value(zero()), drift(0)),
{
    lemma_sign(zero());
    let (a, b) = (value(c), value(zero()));
    assert(a * b == 0 as real) by (nonlinear_arith)
        requires
            b == 0 as real,
    ;
    let g = drift(0) as real;
    assert(g * (0 as real) == 0 as real) by (nonlinear_arith);
}

/// One more pixel of colour `c`, where `x` sums up colours and `y` alphas.
proof fn lemma_colour_kept(x: Number, y: Number, c: Number, a: Number, w: Number, g: nat)
    requires
        5 <= g <= SMALL,
        valid(x),
        valid(y),
        within(value(x), value(c) * value(y), g),
    ensures
        valid(plus(x, times(times(c, a), w))),
        within(
            value(plus(x, times(times(c, a), w))),
            value(c) * value(plus(y, times(a, w))),
            g + 3,
        ),
{
    let t = times(times(c, a), w);
    let u = times(a, w);
    lemma_weighted(c, a, w);
    lemma_ratio_more(t, c, u, 5, g);
    products_come_close(times(c, a), w);
    products_come_close(a, w);
    sums_come_close(x, t);
    sums_come_close(y, u);
    lemma_sign(c);
    lemma_sign(y);
    lemma_sign(u);
    lemma_sign(plus(y, u));
    lemma_error_grows(
        value(x),
        value(y),
        value(t),
        value(u),
        value(plus(x, t)),
        value(plus(y, u)),
        value(c),
        g,
    );
}

/// One more pixel, where `x` sums up alphas and `y` areas.
proof fn lemma_alpha_kept(x: Number, y: Number, a: Number, w: Number, g: nat)
    requires
        5 <= g <= SMALL,
        valid(x),
        valid(y),
        valid(w),
        within(value(x), value(a) * value(y), g),
    ensures
        valid(plus(x, times(a, w))),
        valid(plus(y, w)),
        within(value(plus(x, times(a, w))), value(a) * value(plus(y, w)), g + 3),
{
    let t = times(a, w);
    products_come_close(a, w);
    lemma_one_part(value(t), value(a) * value(w));
    lemma_ratio_more(t, a, w, 1, g);
    sums_come_close(x, t);
    sums_come_close(y, w);
    lemma_sign(a);
    lemma_sign(y);
    lemma_sign(w);
    lemma_sign(plus(y, w));
    lemma_error_grows(
        value(x),
        value(y),
        value(t),
        value(w),
        value(plus(x, t)),
        value(plus(y, w)),
        value(a),
        g,
    );
}

proof fn lemma_one_part(x: real, y: real)
    requires
        close(x, y),
    ensures
        within(x, y, 1),
{
    assert((1nat as real) * y == y) by (nonlinear_arith);
}

/// Pixel number `at` has this colour.
spec fn coloured(src: Seq<u8>, at: int, colour: Seq<u8>) -> bool {
    forall|k: int| 0 <= k < 4 ==> src[4 * at + k] == #[trigger] colour[k]
}

proof fn lemma_pixel_kept(
    t: SumsView,
    src: Seq<u8>,
    at: int,
    weight: Number,
    colour: Seq<u8>,
    k: nat,
)
    requires
        kept(t, colour, k),
        coloured(src, at, colour),
        valid(weight),
        drift(k) <= SMALL,
    ensures
        kept(with_pixel(t, src, at, weight), colour, k + 1),
        with_pixel(t, src, at, weight).area.m > 0 <==> t.area.m > 0 || weight.m > 0,
{
    reveal(kept);
    let g = drift(k);
    let a = share(colour[3]);
    assert(src[4 * at + 0] == colour[0] && src[4 * at + 1] == colour[1] && src[4 * at + 2]
        == colour[2] && src[4 * at + 3] == colour[3]);
    lemma_colour_kept(t.red, t.alpha, whole(colour[0] as nat), a, weight, g);
    lemma_colour_kept(t.green, t.alpha, whole(colour[1] as nat), a, weight, g);
    lemma_colour_kept(t.blue, t.alpha, whole(colour[2] as nat), a, weight, g);
    lemma_alpha_kept(t.alpha, t.area, a, weight, g);
    sums_come_close(t.area, weight);
    assert(drift(k + 1) == g + 3);
}

/// All pixels have this colour.
pub open spec fn uniform(src: Seq<u8>, colour: Seq<u8>) -> bool {
    &&& colour.len() == 4
    &&& forall|i: int| 0 <= i < src.len() ==> #[trigger] src[i] == colour[i % 4]
}

proof fn lemma_uniform_pixel(src: Seq<u8>, colour: Seq<u8>, at: int)
    requires
        uniform(src, colour),
        0 <= at,
        4 * at + 3 < src.len(),
    ensures
        coloured(src, at, colour),
{
    assert forall|k: int| 0 <= k < 4 implies src[4 * at + k] == #[trigger] colour[k] by {
        assert((4 * at + k) % 4 == k);
    }
}

#[verifier::spinoff_prover]
#[verifier::rlimit(60)]
proof fn lemma_row_kept(
    t: SumsView,
    src: Seq<u8>,
    sw: nat,
    sh: nat,
    dw: nat,
    dh: nat,
    dx: nat,
    dy: nat,
    sy: int,
    k: int,
    colour: Seq<u8>,
    n: nat,
)
    requires
        uniform(src, colour),
        src.len() == 4 * (sw * sh),
        0 <= sy < sh,
        0 <= k <= sw,
        kept(t, colour, n),
        drift(n + sw) <= SMALL,
    ensures
        kept(along_row(t, src, sw, sh, dw, dh, dx, dy, sy, k), colour, (n + k) as nat),
        t.area.m > 0 ==> along_row(t, src, sw, sh, dw, dh, dx, dy, sy, k).area.m > 0,
        k > first_cell(dx, sw, dw) && covered(dx, first_cell(dx, sw, dw) as nat, sw, dw).m > 0
            && covered(dy, sy as nat, sh, dh).m > 0 ==> along_row(
            t,
            src,
            sw,
            sh,
            dw,
            dh,
            dx,
            dy,
            sy,
            k,
        ).area.m > 0,
    decreases k,
{
    let first = first_cell(dx, sw, dw);
    if k <= first || k <= 0 {
        lemma_kept_longer(t, colour, n, (n + k) as nat);
    } else {
        lemma_row_kept(t, src, sw, sh, dw, dh, dx, dy, sy, k - 1, colour, n);
        let at = sy * sw + (k - 1);
        let (w, h) = (sw as int, sh as int);
        assert(0 <= at && 4 * at + 3 < 4 * (w * h)) by (nonlinear_arith)
            requires
                at == sy * w + (k - 1),
                0 <= sy < h,
                0 < k <= w,
        ;
        lemma_uniform_pixel(src, colour, at);
        let x = covered(dx, (k - 1) as nat, sw, dw);
        let y = covered(dy, sy as nat, sh, dh);
        products_come_close(x, y);
        let row = along_row(t, src, sw, sh, dw, dh, dx, dy, sy, k - 1);
        lemma_pixel_kept(row, src, at, times(x, y), colour, (n + k - 1) as nat);
    }
}

proof fn lemma_rows_kept(
    src: Seq<u8>,
    sw: nat,
    sh: nat,
    dw: nat,
    dh: nat,
    dx: nat,
    dy: nat,
    k: int,
    colour: Seq<u8>,
)
    requires
        uniform(src, colour),
        src.len() == 4 * (sw * sh),
        0 < sw <= 65535,
        0 < sh <= 65535,
        dx < dw <= 65535,
        dy < dh <= 65535,
        0 <= k <= sh,
    ensures
        kept(down_rows(src, sw, sh, dw, dh, dx, dy, k), colour, (k * sw) as nat),
        k > first_cell(dy, sh, dh) ==> down_rows(src, sw, sh, dw, dh, dx, dy, k).area.m > 0,
    decreases k,
{
    let first = first_cell(dy, sh, dh);
    lemma_cell_covers(dx, sw, dw);
    lemma_cell_covers(dy, sh, dh);
    let w = sw as int;
    assert(0 <= k * w) by (nonlinear_arith)
        requires
            0 <= k,
            0 <= w,
    ;
    if k <= first || k <= 0 {
        lemma_nothing_kept(colour);
        lemma_kept_longer(no_sums(), colour, 0, (k * sw) as nat);
    } else {
        lemma_rows_kept(src, sw, sh, dw, dh, dx, dy, k - 1, colour);
        let n = ((k - 1) * sw) as nat;
        assert(0 <= (k - 1) * w && (k - 1) * w + w == k * w && k * w <= 65535 * 65535)
            by (nonlinear_arith)
            requires
                0 < k <= 65535,
                0 <= w <= 65535,
        ;
        let rows = down_rows(src, sw, sh, dw, dh, dx, dy, k - 1);
        let end = end_cell(dx, sw, dw);
        lemma_row_kept(rows, src, sw, sh, dw, dh, dx, dy, k - 1, end, colour, n);
        lemma_kept_longer(
            along_row(rows, src, sw, sh, dw, dh, dx, dy, k - 1, end),
            colour,
            (n + end) as nat,
            (k * sw) as nat,
        );
    }
}

/// Source cell `s` may lend to destination cell `d`: they touch.
pub open spec fn touches(d: nat, s: int, ns: nat, nd: nat) -> bool {
    (s + 1) * nd >= d * ns && s * nd <= (d + 1) * ns
}

/// The cells that a destination cell reaches into touch it.
proof fn lemma_cells_touch(d: nat, ns: nat, nd: nat, s: int)
    requires
        0 < ns <= 65535,
        d < nd <= 65535,
        first_cell(d, ns, nd) <= s < end_cell(d, ns, nd),
    ensures
        touches(d, s, ns, nd),
{
    lemma_cell_covers(d, ns, nd);
    let step = cells_per_cell(ns, nd);
    let start = starts_at(d, ns, nd);
    let end = ends_at(d, ns, nd);
    whole_numbers_stand_for_themselves(ns);
    whole_numbers_stand_for_themselves(nd);
    whole_numbers_stand_for_themselves(d);
    quotients_come_close(whole(ns), whole(nd));
    products_come_close(whole(d), step);
    sums_come_close(start, step);
    lemma_sign(step);
    lemma_sign(start);
    let (n, m, k) = (ns as real, nd as real, d as real);
    let (x, y, z) = (value(step), value(start), value(end));
    let f = floor_of(start);
    the_floor_lies_below(start);
    assert(f <= s);
    below_the_ceiling(end, s as nat);
    lemma_close_scaled(y, k * x, m);
    lemma_close_scaled(z, y + x, m);
    lemma_close_scaled(x * m, n, k);
    lemma_regroup_cells(k, x, m, n, y);
    lemma_products_agree(d, ns);
    lemma_products_agree((s + 1) as nat, nd);
    lemma_products_agree(s as nat, nd);
    lemma_small_product(d as int, ns as int);
    lemma_scaled_order(y, (s + 1) as real, m);
    lemma_scaled_order(s as real, z, m);
    lemma_touching((s as nat * nd) as real, ((s + 1) as nat * nd) as real, (d * ns) as real, n, y * m, z * m, x * m, (k * x) * m);
    let (si, ni, di, mi) = (s, ns as int, d as int, nd as int);
    assert((di + 1) * ni == di * ni + ni) by (nonlinear_arith);
}

proof fn lemma_small_product(a: int, b: int)
    requires
        0 <= a <= 65535,
        0 <= b <= 65535,
    ensures
        0 <= a * b <= 65535 * 65535,
{
    assert(0 <= a * b <= 65535 * 65535) by (nonlinear_arith)
        requires
            0 <= a <= 65535,
            0 <= b <= 65535,
    ;
}

proof fn lemma_scaled_order(a: real, b: real, m: real)
    requires
        a <= b,
        m >= 0 as real,
    ensures
        a * m <= b * m,
{
    assert(a * m <= b * m) by (nonlinear_arith)
        requires
            a <= b,
            m >= 0 as real,
    ;
}

proof fn lemma_regroup_cells(k: real, x: real, m: real, n: real, y: real)
    ensures
        (x * m) * k == (k * x) * m,
        n * k == k * n,
        (y + x) * m == y * m + x * m,
{
    assert((x * m) * k == (k * x) * m) by (nonlinear_arith);
    assert(n * k == k * n) by (nonlinear_arith);
    assert((y + x) * m == y * m + x * m) by (nonlinear_arith);
}

/// `low` and `high` are the source cell's edges, `q` the exact start, and `q + n` the exact
/// end, all times the destination's cells.
proof fn lemma_touching(
    low: real,
    high: real,
    q: real,
    n: real,
    y: real,
    z: real,
    w: real,
    p: real,
)
    requires
        0 as real <= q <= (65535 * 65535) as real,
        0 as real <= n <= 65535 as real,
        close(w, n),
        close(p, q),
        close(y, p),
        close(z, y + w),
        y <= high,
        low <= z,
    ensures
        high > q - (1 as real),
        low < q + n + (1 as real),
{
}

/// A picture of one colour, not fully transparent, keeps its colour and its alpha at
/// any size.
pub proof fn uniform_images_stay_uniform(
    src: Seq<u8>,
    sw: nat,
    sh: nat,
    dw: nat,
    dh: nat,
    colour: Seq<u8>,
    c: int,
    dx: nat,
    dy: nat,
)
    requires
        0 < sw <= u16::MAX,
        0 < sh <= u16::MAX,
        dx < dw <= u16::MAX,
        dy < dh <= u16::MAX,
        0 <= c < 4,
        src.len() == 4 * (sw * sh),
        uniform(src, colour),
        colour[3] > 0,
    ensures
        resampled(src, sw, sh, dw, dh, c, dx, dy) == colour[c],
{
    reveal(kept);
    let k = end_cell(dy, sh, dh);
    lemma_cell_covers(dy, sh, dh);
    lemma_rows_kept(src, sw, sh, dw, dh, dx, dy, k, colour);
    let t = down_rows(src, sw, sh, dw, dh, dx, dy, k);
    let (ki, w) = (k as int, sw as int);
    assert(0 <= ki * w <= 65535 * 65535) by (nonlinear_arith)
        requires
            0 <= ki <= 65535,
            0 <= w <= 65535,
    ;
    let g = drift((k * sw) as nat);
    whole_numbers_stand_for_themselves(255);
    whole_numbers_stand_for_themselves(colour[3] as nat);
    quotients_come_close(whole(colour[3] as nat), whole(255));
    lemma_sign(t.area);
    lemma_sign(t.alpha);
    lemma_sign(share(colour[3]));
    if c == 3 {
        quotients_come_close(t.alpha, t.area);
        lemma_mean(
            value(over(t.alpha, t.area)),
            value(t.alpha),
            value(t.area),
            value(share(colour[3])),
            g,
        );
        shares_survive(over(t.alpha, t.area), colour[3], g + 2);
    } else {
        lemma_positive_base(value(t.alpha), value(share(colour[3])), value(t.area), g);
        let x = if c == 0 {
            t.red
        } else if c == 1 {
            t.green
        } else {
            t.blue
        };
        whole_numbers_stand_for_themselves(colour[c] as nat);
        quotients_come_close(x, t.alpha);
        lemma_mean(
            value(over(x, t.alpha)),
            value(x),
            value(t.alpha),
            colour[c] as nat as real,
            g,
        );
        bytes_survive(over(x, t.alpha), colour[c], g + 2);
    }
}

/// What is near something positive is positive.
proof fn lemma_positive_base(x: real, a: real, b: real, g: nat)
    requires
        g <= SMALL,
        a > 0 as real,
        b > 0 as real,
        within(x, a * b, g),
    ensures
        x > 0 as real,
{
    let y = a * b;
    assert(y > 0 as real) by (nonlinear_arith)
        requires
            y == a * b,
            a > 0 as real,
            b > 0 as real,
    ;
    let h = g as real;
    assert(h * y <= (0x100_0000_0000 as real) * y) by (nonlinear_arith)
        requires
            h <= 0x100_0000_0000 as real,
            y > 0 as real,
    ;
}

/// Pixel `(x, y)` of two pictures of this width is the same.
pub open spec fn same_pixel(a: Seq<u8>, b: Seq<u8>, width: nat, x: int, y: int) -> bool {
    &&& a[4 * (y * width + x)] == b[4 * (y * width + x)]
    &&& a[4 * (y * width + x) + 1] == b[4 * (y * width + x) + 1]
    &&& a[4 * (y * width + x) + 2] == b[4 * (y * width + x) + 2]
    &&& a[4 * (y * width + x) + 3] == b[4 * (y * width + x) + 3]
}

/// Two pictures agree on every pixel that touches destination pixel `(dx, dy)`.
pub open spec fn agree_near(
    a: Seq<u8>,
    b: Seq<u8>,
    sw: nat,
    sh: nat,
    dw: nat,
    dh: nat,
    dx: nat,
    dy: nat,
) -> bool {
    forall|x: int, y: int|
        0 <= x < sw && 0 <= y < sh && touches(dx, x, sw, dw) && touches(dy, y, sh, dh)
            ==> #[trigger] same_pixel(a, b, sw, x, y)
}

proof fn lemma_same_row_near(
    t: SumsView,
    a: Seq<u8>,
    b: Seq<u8>,
    sw: nat,
    sh: nat,
    dw: nat,
    dh: nat,
    dx: nat,
    dy: nat,
    sy: int,
    k: int,
)
    requires
        0 < sw <= 65535,
        dx < dw <= 65535,
        0 <= sy < sh,
        touches(dy, sy, sh, dh),
        k <= end_cell(dx, sw, dw),
        agree_near(a, b, sw, sh, dw, dh, dx, dy),
    ensures
        along_row(t, a, sw, sh, dw, dh, dx, dy, sy, k) == along_row(
            t,
            b,
            sw,
            sh,
            dw,
            dh,
            dx,
            dy,
            sy,
            k,
        ),
    decreases k,
{
    if k > first_cell(dx, sw, dw) && k > 0 {
        lemma_same_row_near(t, a, b, sw, sh, dw, dh, dx, dy, sy, k - 1);
        lemma_cells_touch(dx, sw, dw, k - 1);
        assert(same_pixel(a, b, sw, k - 1, sy));
    }
}

proof fn lemma_same_rows_near(
    a: Seq<u8>,
    b: Seq<u8>,
    sw: nat,
    sh: nat,
    dw: nat,
    dh: nat,
    dx: nat,
    dy: nat,
    k: int,
)
    requires
        0 < sw <= 65535,
        0 < sh <= 65535,
        dx < dw <= 65535,
        dy < dh <= 65535,
        k <= end_cell(dy, sh, dh),
        agree_near(a, b, sw, sh, dw, dh, dx, dy),
    ensures
        down_rows(a, sw, sh, dw, dh, dx, dy, k) == down_rows(b, sw, sh, dw, dh, dx, dy, k),
    decreases k,
{
    if k > first_cell(dy, sh, dh) && k > 0 {
        lemma_same_rows_near(a, b, sw, sh, dw, dh, dx, dy, k - 1);
        lemma_cells_touch(dy, sh, dh, k - 1);
        lemma_same_row_near(
            down_rows(a, sw, sh, dw, dh, dx, dy, k - 1),
            a,
            b,
            sw,
            sh,
            dw,
            dh,
            dx,
            dy,
            k - 1,
            end_cell(dx, sw, dw),
        );
    }
}

/// Where byte `c` of pixel `(x, y)` stands in a picture of this size.
proof fn lemma_pixel_place(dw: nat, dh: nat, x: nat, y: nat, c: int)
    requires
        x < dw,
        y < dh,
        0 <= c < 4,
    ensures
        0 <= 4 * (y * dw + x) + c < 4 * (dw * dh),
        (4 * (y * dw + x) + c) % 4 == c,
        ((4 * (y * dw + x) + c) / 4) % dw as int == x,
        ((4 * (y * dw + x) + c) / 4) / dw as int == y,
{
    let q = (y * dw + x) as int;
    let w = dw as int;
    assert((4 * q + c) / 4 == q && (4 * q + c) % 4 == c);
    vstd::arithmetic::div_mod::lemma_fundamental_div_mod_converse(q, w, y as int, x as int);
    assert(0 <= q && q + 1 <= dw * dh) by (nonlinear_arith)
        requires
            q == y * dw + x,
            x < dw,
            y + 1 <= dh,
    ;
}

/// A pixel of a scaled picture shows what stood at its place: pictures that agree on the
/// pixels that touch it give the same.
pub proof fn pixels_show_what_stood_at_their_place(
    a: Seq<u8>,
    b: Seq<u8>,
    sw: nat,
    sh: nat,
    dw: nat,
    dh: nat,
    x: nat,
    y: nat,
    c: int,
)
    requires
        0 < sw <= u16::MAX,
        0 < sh <= u16::MAX,
        x < dw <= u16::MAX,
        y < dh <= u16::MAX,
        0 <= c < 4,
        forall|i: int, j: int|
            0 <= i < sw && 0 <= j < sh && (i + 1) * dw >= x * sw && i * dw <= (x + 1) * sw && (j + 1)
                * dh >= y * sh && j * dh <= (y + 1) * sh ==> #[trigger] same_pixel(a, b, sw, i, j),
    ensures
        resampled_image(a, sw, sh, dw, dh)[4 * (y * dw + x) + c] == resampled_image(
            b,
            sw,
            sh,
            dw,
            dh,
        )[4 * (y * dw + x) + c],
        resampled_image(a, sw, sh, dw, dh).len() == 4 * (dw * dh),
{
    lemma_pixel_place(dw, dh, x, y, c);
    lemma_same_rows_near(a, b, sw, sh, dw, dh, x, y, end_cell(y, sh, dh));
}

/// A pixel of a scaled picture that touches pixels of one colour only, not fully
/// transparent, has that colour.
pub proof fn areas_of_one_colour_keep_it(
    src: Seq<u8>,
    sw: nat,
    sh: nat,
    dw: nat,
    dh: nat,
    x: nat,
    y: nat,
    c: int,
    colour: Seq<u8>,
)
    requires
        0 < sw <= u16::MAX,
        0 < sh <= u16::MAX,
        x < dw <= u16::MAX,
        y < dh <= u16::MAX,
        0 <= c < 4,
        src.len() == 4 * (sw * sh),
        colour.len() == 4,
        colour[3] > 0,
        forall|i: int, j: int|
            0 <= i < sw && 0 <= j < sh && (i + 1) * dw >= x * sw && i * dw <= (x + 1) * sw && (j + 1)
                * dh >= y * sh && j * dh <= (y + 1) * sh ==> #[trigger] has_colour(
                src,
                sw,
                i,
                j,
                colour,
            ),
    ensures
        resampled_image(src, sw, sh, dw, dh)[4 * (y * dw + x) + c] == colour[c],
{
    let b = Seq::new(src.len(), |i: int| colour[i % 4]);
    assert forall|i: int, j: int|
        0 <= i < sw && 0 <= j < sh && (i + 1) * dw >= x * sw && i * dw <= (x + 1) * sw && (j + 1)
            * dh >= y * sh && j * dh <= (y + 1) * sh implies #[trigger] same_pixel(
        src,
        b,
        sw,
        i,
        j,
    ) by {
        assert(has_colour(src, sw, i, j, colour));
        lemma_pixel_place(sw, sh, i as nat, j as nat, 0);
        lemma_pixel_place(sw, sh, i as nat, j as nat, 1);
        lemma_pixel_place(sw, sh, i as nat, j as nat, 2);
        lemma_pixel_place(sw, sh, i as nat, j as nat, 3);
    }
    pixels_show_what_stood_at_their_place(src, b, sw, sh, dw, dh, x, y, c);
    lemma_pixel_place(dw, dh, x, y, c);
    uniform_images_stay_uniform(b, sw, sh, dw, dh, colour, c, x, y);
}

/// Pixel `(x, y)` of a picture of this width has this colour.
pub open spec fn has_colour(src: Seq<u8>, width: nat, x: int, y: int, colour: Seq<u8>) -> bool {
    &&& src[4 * (y * width + x)] == colour[0]
    &&& src[4 * (y * width + x) + 1] == colour[1]
    &&& src[4 * (y * width + x) + 2] == colour[2]
    &&& src[4 * (y * width + x) + 3] == colour[3]
}

/// Fully transparent pixels lend no colour: two pictures that agree wherever there is
/// something to see are scaled to the same picture.
pub proof fn transparent_pixels_lend_no_colour(
    a: Seq<u8>,
    b: Seq<u8>,
    sw: nat,
    sh: nat,
    dw: nat,
    dh: nat,
    c: int,
    dx: nat,
    dy: nat,
)
    requires
        a.len() == 4 * (sw * sh),
        b.len() == a.len(),
        forall|p: int, k: int|
            #![trigger a[4 * p + k]]
            0 <= p < sw * sh && 0 <= k < 4 ==> a[4 * p + 3] == b[4 * p + 3] && (a[4 * p + 3] > 0
                ==> a[4 * p + k] == b[4 * p + k]),
    ensures
        resampled(a, sw, sh, dw, dh, c, dx, dy) == resampled(b, sw, sh, dw, dh, c, dx, dy),
{
    lemma_same_rows(a, b, sw, sh, dw, dh, dx, dy, end_cell(dy, sh, dh));
}

/// The pixels number `at` look alike.
spec fn alike(a: Seq<u8>, b: Seq<u8>, at: int) -> bool {
    &&& a[4 * at + 3] == b[4 * at + 3]
    &&& a[4 * at + 3] > 0 ==> a[4 * at] == b[4 * at] && a[4 * at + 1] == b[4 * at + 1] && a[4 * at
        + 2] == b[4 * at + 2]
}

proof fn lemma_same_pixel(t: SumsView, a: Seq<u8>, b: Seq<u8>, at: int, weight: Number)
    requires
        alike(a, b, at),
    ensures
        with_pixel(t, a, at, weight) == with_pixel(t, b, at, weight),
{
    if a[4 * at + 3] == 0 {
        let none = over(whole(0), whole(255));
        assert(whole(0) == zero());
        assert(none == zero());
        assert forall|n: nat| #[trigger] times(whole(n), none) == zero() by {
            assert(whole(n).m * 0 == 0) by (nonlinear_arith);
        }
    }
}

proof fn lemma_same_row(
    t: SumsView,
    a: Seq<u8>,
    b: Seq<u8>,
    sw: nat,
    sh: nat,
    dw: nat,
    dh: nat,
    dx: nat,
    dy: nat,
    sy: int,
    k: int,
)
    requires
        0 <= sy < sh,
        k <= sw,
        forall|p: int| 0 <= p < sw * sh ==> #[trigger] alike(a, b, p),
    ensures
        along_row(t, a, sw, sh, dw, dh, dx, dy, sy, k) == along_row(
            t,
            b,
            sw,
            sh,
            dw,
            dh,
            dx,
            dy,
            sy,
            k,
        ),
    decreases k,
{
    if k > first_cell(dx, sw, dw) && k > 0 {
        lemma_same_row(t, a, b, sw, sh, dw, dh, dx, dy, sy, k - 1);
        let at = sy * sw + (k - 1);
        assert(0 <= at && at + 1 <= sw * sh) by (nonlinear_arith)
            requires
                at == sy * sw + (k - 1),
                0 <= k - 1,
                k <= sw,
                0 <= sy,
                sy + 1 <= sh,
        ;
        assert(alike(a, b, at));
        lemma_same_pixel(
            along_row(t, a, sw, sh, dw, dh, dx, dy, sy, k - 1),
            a,
            b,
            at,
            times(covered(dx, (k - 1) as nat, sw, dw), covered(dy, sy as nat, sh, dh)),
        );
    }
}

proof fn lemma_same_rows(
    a: Seq<u8>,
    b: Seq<u8>,
    sw: nat,
    sh: nat,
    dw: nat,
    dh: nat,
    dx: nat,
    dy: nat,
    k: int,
)
    requires
        k <= sh,
        forall|p: int, c: int|
            #![trigger a[4 * p + c]]
            0 <= p < sw * sh && 0 <= c < 4 ==> a[4 * p + 3] == b[4 * p + 3] && (a[4 * p + 3] > 0
                ==> a[4 * p + c] == b[4 * p + c]),
    ensures
        down_rows(a, sw, sh, dw, dh, dx, dy, k) == down_rows(b, sw, sh, dw, dh, dx, dy, k),
    decreases k,
{
    if k > first_cell(dy, sh, dh) && k > 0 {
        lemma_same_rows(a, b, sw, sh, dw, dh, dx, dy, k - 1);
        assert forall|p: int| 0 <= p < sw * sh implies #[trigger] alike(a, b, p) by {
            assert(a[4 * p + 0] == a[4 * p]);
            let _ = a[4 * p + 1];
            let _ = a[4 * p + 2];
            let _ = a[4 * p + 3];
            assert(a[4 * p + 3] > 0 ==> a[4 * p + 0] == b[4 * p + 0]);
        }
        lemma_same_row(
            down_rows(a, sw, sh, dw, dh, dx, dy, k - 1),
            a,
            b,
            sw,
            sh,
            dw,
            dh,
            dx,
            dy,
            k - 1,
            end_cell(dx, sw, dw),
        );
    }
}

/// A pointer shape: pixels, width, height, and the hotspot's place.
pub type Shape = (Vec<u8>, u16, u16, u16, u16);

/// [`Shape`] with its pixels as a sequence.
pub type ShapeView = (Seq<u8>, u16, u16, u16, u16);

pub open spec fn seen(s: Shape) -> ShapeView {
    (s.0@, s.1, s.2, s.3, s.4)
}

/// The hotspot coordinate in proportion, rounded, and within the new side.
pub open spec fn scaled_hot(hot: u16, new: u16, old: u16) -> u16 {
    let v = if old == 0 {
        if hot == 0 {
            0
        } else {
            new as int
        }
    } else {
        (2 * (hot * new) + old) / (2 * old as int)
    };
    if v > new - 1 {
        (new - 1) as u16
    } else {
        v as u16
    }
}

/// The shape at another size.
pub open spec fn resized(s: ShapeView, new_w: u16, new_h: u16) -> ShapeView {
    if new_w == s.1 && new_h == s.2 {
        s
    } else {
        (
            resampled_image(s.0, s.1 as nat, s.2 as nat, new_w as nat, new_h as nat),
            new_w,
            new_h,
            scaled_hot(s.3, new_w, s.1),
            scaled_hot(s.4, new_h, s.2),
        )
    }
}

fn scale_hot(hot: u16, new: u16, old: u16) -> (r: u16)
    requires
        new > 0,
    ensures
        r == scaled_hot(hot, new, old),
{
    if old == 0 {
        return if hot == 0 {
            0
        } else {
            new - 1
        };
    }
    proof {
        lemma_products(hot as int, new as int);
    }
    let v: u64 = (2 * (hot as u64 * new as u64) + old as u64) / (2 * old as u64);
    if v > (new - 1) as u64 {
        new - 1
    } else {
        v as u16
    }
}

/// Scales a pointer shape, hotspot included, to another size.
pub fn resize_cursor(
    data: Vec<u8>,
    w: u16,
    h: u16,
    hot_x: u16,
    hot_y: u16,
    new_w: u16,
    new_h: u16,
) -> (r: Shape)
    requires
        (new_w == w && new_h == h) || (new_w > 0 && new_h > 0 && 4 * (w * h) <= data@.len() && 4
            * (new_w * new_h) <= usize::MAX),
    ensures
        seen(r) == resized((data@, w, h, hot_x, hot_y), new_w, new_h),
{
    if new_w == w && new_h == h {
        return (data, w, h, hot_x, hot_y);
    }
    let pixels: Vec<u8> = resample_rgba(data.as_slice(), w, h, new_w, new_h);
    let x: u16 = scale_hot(hot_x, new_w, w);
    let y: u16 = scale_hot(hot_y, new_h, h);
    (pixels, new_w, new_h, x, y)
}

/// The sides of a scaled pointer lie between 1 and this.
pub const MAX_CURSOR_SIDE: u16 = 256;

pub open spec fn cursor_side(v: i64) -> u16 {
    if v < 1 {
        1
    } else if v > MAX_CURSOR_SIDE {
        MAX_CURSOR_SIDE
    } else {
        v as u16
    }
}

fn clamp_side(v: i64) -> (r: u16)
    ensures
        r == cursor_side(v),
        1 <= r <= 256,
{
    if v < 1 {
        1
    } else if v > MAX_CURSOR_SIDE as i64 {
        MAX_CURSOR_SIDE
    } else {
        v as u16
    }
}

/// Scales a pointer shape to the wanted sides, each brought into range.
pub fn scale_cursor(
    data: Vec<u8>,
    w: u16,
    h: u16,
    hot_x: u16,
    hot_y: u16,
    scaled_w: i64,
    scaled_h: i64,
) -> (r: Shape)
    requires
        4 * (w * h) <= data@.len(),
    ensures
        seen(r) == resized(
            (data@, w, h, hot_x, hot_y),
            cursor_side(scaled_w),
            cursor_side(scaled_h),
        ),
        4 * (r.1 * r.2) <= r.0@.len(),
{
    let new_w: u16 = clamp_side(scaled_w);
    let new_h: u16 = clamp_side(scaled_h);
    assert(0 < new_w * new_h <= 65536) by (nonlinear_arith)
        requires
            0 < new_w <= 256,
            0 < new_h <= 256,
    ;
    resize_cursor(data, w, h, hot_x, hot_y, new_w, new_h)
}

/// Pixels that a pointer has at most on the wire, where the byte count of its mask
/// must fit into 16 bits.
pub const MAX_AREA: u16 = 16383;

pub open spec fn clamped(v: int, lo: int, hi: int) -> int {
    if v < lo {
        lo
    } else if v > hi {
        hi
    } else {
        v
    }
}

/// By how much each side of an oversized pointer is multiplied.
pub open spec fn shrink(w: u16, h: u16) -> Number {
    root(over(whole(MAX_AREA as nat), whole((w * h) as nat)))
}

/// The height of an oversized pointer after it is shrunk in proportion.
pub open spec fn shrunk_height(w: u16, h: u16) -> int {
    clamped(floor_of(times(whole(h as nat), shrink(w, h))) as int, 1, MAX_AREA as int)
}

/// The width that goes with it, within the area that is allowed.
pub open spec fn shrunk_width(w: u16, h: u16) -> int {
    clamped(
        floor_of(times(whole(w as nat), shrink(w, h))) as int,
        1,
        MAX_AREA as int / shrunk_height(w, h),
    )
}

/// The shape, shrunk in proportion where it has more pixels than the wire allows.
pub open spec fn fitted(s: ShapeView) -> ShapeView {
    if s.1 * s.2 <= MAX_AREA {
        s
    } else {
        resized(s, shrunk_width(s.1, s.2) as u16, shrunk_height(s.1, s.2) as u16)
    }
}

/// The sides of an oversized pointer after it is shrunk.
pub fn fitted_sides(w: u16, h: u16) -> (r: (u16, u16))
    requires
        w * h > MAX_AREA,
    ensures
        r.0 == shrunk_width(w, h),
        r.1 == shrunk_height(w, h),
        0 < r.0 * r.1 <= MAX_AREA,
{
    proof {
        lemma_products(w as int, h as int);
    }
    let area: u64 = w as u64 * h as u64;
    let most: Double = Double::from_int(MAX_AREA as u64);
    proof {
        lemma_whole_positive(area as nat);
    }
    let share: Double = most.over(Double::from_int(area));
    let shrink: Double = share.root();
    let rh: u64 = Double::from_int(h as u64).times(shrink).floor_upto(65535);
    let rw: u64 = Double::from_int(w as u64).times(shrink).floor_upto(65535);
    let new_h: u16 = if rh < 1 {
        1
    } else if rh > MAX_AREA as u64 {
        MAX_AREA
    } else {
        rh as u16
    };
    let limit: u16 = MAX_AREA / new_h;
    proof {
        assert(1 <= limit <= 16383 && limit * new_h <= 16383) by (nonlinear_arith)
            requires
                limit == 16383int / new_h as int,
                1 <= new_h <= 16383,
        ;
    }
    let new_w: u16 = if rw < 1 {
        1
    } else if rw > limit as u64 {
        limit
    } else {
        rw as u16
    };
    assert(0 < new_w * new_h <= 16383) by (nonlinear_arith)
        requires
            1 <= new_w <= limit,
            limit * new_h <= 16383,
            new_h >= 1,
    ;
    (new_w, new_h)
}

/// Shrinks a pointer shape that has too many pixels for the wire.
pub fn clamp_pointer_size(data: Vec<u8>, w: u16, h: u16, hot_x: u16, hot_y: u16) -> (r: Shape)
    requires
        w * h > MAX_AREA ==> 4 * (w * h) <= data@.len(),
    ensures
        seen(r) == fitted((data@, w, h, hot_x, hot_y)),
        r.1 * r.2 <= MAX_AREA,
        4 * (r.1 * r.2) <= u16::MAX,
{
    proof {
        lemma_products(w as int, h as int);
    }
    if w as u64 * h as u64 <= MAX_AREA as u64 {
        return (data, w, h, hot_x, hot_y);
    }
    let (new_w, new_h): (u16, u16) = fitted_sides(w, h);
    assert(new_w > 0 && new_h > 0) by (nonlinear_arith)
        requires
            0 < new_w * new_h,
    ;
    resize_cursor(data, w, h, hot_x, hot_y, new_w, new_h)
}

/// The shape in a bitmap whose rows lie `stride` bytes apart.
pub open spec fn bitmap_shape(
    bitmap: Seq<u8>,
    stride: int,
    w: i64,
    h: i64,
    hot_x: u16,
    hot_y: u16,
) -> Option<ShapeView> {
    if 1 <= w <= 256 && 1 <= h <= 256 {
        Some(
            (
                crate::capture::rect_bytes(bitmap, stride, 0, 0, w as int, h as int),
                w as u16,
                h as u16,
                hot_x,
                hot_y,
            ),
        )
    } else {
        None
    }
}

/// A pointer as it was read from the system: its pixels packed row after row. Shapes
/// without pixels, or with a side above the limit, are passed over. The bitmap's rows
/// lie `stride` bytes apart.
pub fn read_cursor_bitmap(
    bitmap: &[u8],
    stride: usize,
    w: i64,
    h: i64,
    hot_x: u16,
    hot_y: u16,
) -> (r: Option<Shape>)
    requires
        1 <= w <= 256 && 1 <= h <= 256 ==> (h - 1) * stride + 4 * w <= bitmap@.len(),
    ensures
        r is Some <==> bitmap_shape(bitmap@, stride as int, w, h, hot_x, hot_y) is Some,
        r matches Some(s) ==> bitmap_shape(bitmap@, stride as int, w, h, hot_x, hot_y) == Some(
            seen(s),
        ),
{
    if w < 1 || w > MAX_CURSOR_SIDE as i64 || h < 1 || h > MAX_CURSOR_SIDE as i64 {
        return None;
    }
    match rect_update(bitmap, stride, 0, 0, w as u16, h as u16) {
        Some(u) => Some((u.data, w as u16, h as u16, hot_x, hot_y)),
        None => None,
    }
}

/// What is hashed of a shape: its pixels, its sides and its hot spot.
pub open spec fn written(s: ShapeView) -> Seq<Seq<u8>> {
    seq![
        s.0,
        crate::wire::be16(s.1),
        crate::wire::be16(s.2),
        crate::wire::be16(s.3),
        crate::wire::be16(s.4),
    ]
}

/// The number by which a shape is known again.
pub open spec fn hash_of(s: ShapeView) -> u64 {
    DefaultHasher::spec_finish(written(s))
}

pub fn shape_hash(s: &Shape) -> (h: u64)
    ensures
        h == hash_of(seen(*s)),
{
    let mut hasher = DefaultHasher::new();
    hasher.write(s.0.as_slice());
    write_number(&mut hasher, s.1);
    write_number(&mut hasher, s.2);
    write_number(&mut hasher, s.3);
    write_number(&mut hasher, s.4);
    assert(hasher@ =~= written(seen(*s)));
    hasher.finish()
}

fn write_number(hasher: &mut DefaultHasher, n: u16)
    ensures
        final(hasher)@ == old(hasher)@.push(crate::wire::be16(n)),
{
    let mut bytes: Vec<u8> = Vec::new();
    push_be16(&mut bytes, n);
    assert(bytes@ =~= crate::wire::be16(n));
    hasher.write(bytes.as_slice());
}

/// No two shapes write the same bytes to the hasher: the same pixels at other sides, or
/// with another hot spot, write others. Hashes themselves may collide.
pub proof fn shapes_are_told_apart(a: ShapeView, b: ShapeView)
    requires
        written(a) == written(b),
    ensures
        a == b,
{
    crate::wire::numbers_round_trip(a.1, 0);
    crate::wire::numbers_round_trip(b.1, 0);
    crate::wire::numbers_round_trip(a.2, 0);
    crate::wire::numbers_round_trip(b.2, 0);
    crate::wire::numbers_round_trip(a.3, 0);
    crate::wire::numbers_round_trip(b.3, 0);
    crate::wire::numbers_round_trip(a.4, 0);
    crate::wire::numbers_round_trip(b.4, 0);
    assert(written(a)[0] == a.0 && written(b)[0] == b.0);
    assert(written(a)[1] == crate::wire::be16(a.1) && written(b)[1] == crate::wire::be16(b.1));
    assert(written(a)[2] == crate::wire::be16(a.2) && written(b)[2] == crate::wire::be16(b.2));
    assert(written(a)[3] == crate::wire::be16(a.3) && written(b)[3] == crate::wire::be16(b.3));
    assert(written(a)[4] == crate::wire::be16(a.4) && written(b)[4] == crate::wire::be16(b.4));
}

/// What the client was last told of the pointer.
#[derive(Debug)]
pub struct CursorState {
    pub last_hash: u64,
    pub last_pos: Option<(u16, u16)>,
}

/// The pointer's shape that is sent: one whose hash is not that of the last, at the wanted
/// size, shrunk where the wire demands it.
pub open spec fn shape_report(
    last_hash: u64,
    shape: Option<ShapeView>,
    scaled_w: i64,
    scaled_h: i64,
) -> Option<ShapeView> {
    match shape {
        Some(s) => if hash_of(s) != last_hash {
            Some(fitted(resized(s, cursor_side(scaled_w), cursor_side(scaled_h))))
        } else {
            None
        },
        None => None,
    }
}

/// The pointer update holds this shape.
pub open spec fn carries(p: RgbaPointer, s: ShapeView) -> bool {
    &&& p.cache_index == 0
    &&& p.data@ == s.0
    &&& p.width == s.1
    &&& p.height == s.2
    &&& p.hot_x == s.3
    &&& p.hot_y == s.4
}

pub open spec fn seen_shape(shape: Option<Shape>) -> Option<ShapeView> {
    match shape {
        Some(s) => Some(seen(s)),
        None => None,
    }
}

/// What is reported of the pointer's place.
pub open spec fn place_report(last: Option<(u16, u16)>, x: u16, y: u16) -> Option<DisplayUpdate> {
    if last == Some((x, y)) {
        None
    } else {
        Some(DisplayUpdate::PointerPosition(x, y))
    }
}

impl CursorState {
    pub fn new() -> (s: Self)
        ensures
            s.last_hash == 0,
            s.last_pos is None,
    {
        CursorState { last_hash: 0, last_pos: None }
    }

    /// Looks at the pointer's shape: one that differs from the last, going by its
    /// hash, is sent at the wanted size, shrunk where the wire demands it.
    pub fn poll_shape(&mut self, shape: Option<Shape>, scaled_w: i64, scaled_h: i64) -> (r:
        Option<RgbaPointer>)
        requires
            shape matches Some(s) ==> 4 * (s.1 * s.2) <= s.0@.len(),
        ensures
            final(self).last_pos == old(self).last_pos,
            r is Some <==> shape_report(
                old(self).last_hash,
                seen_shape(shape),
                scaled_w,
                scaled_h,
            ) is Some,
            final(self).last_hash == (if r is Some {
                hash_of(seen(shape->0))
            } else {
                old(self).last_hash
            }),
            r matches Some(p) ==> carries(
                p,
                shape_report(old(self).last_hash, seen_shape(shape), scaled_w, scaled_h)->0,
            ) && 4 * (p.width * p.height) <= u16::MAX,
    {
        match shape {
            None => None,
            Some(raw) => {
                let hash: u64 = shape_hash(&raw);
                if hash == self.last_hash {
                    return None;
                }
                self.last_hash = hash;
                let (data, w, h, hot_x, hot_y): Shape = raw;
                let (data, w, h, hot_x, hot_y): Shape = scale_cursor(
                    data,
                    w,
                    h,
                    hot_x,
                    hot_y,
                    scaled_w,
                    scaled_h,
                );
                let (data, w, h, hot_x, hot_y): Shape = clamp_pointer_size(
                    data,
                    w,
                    h,
                    hot_x,
                    hot_y,
                );
                Some(RgbaPointer { cache_index: 0, width: w, height: h, hot_x, hot_y, data })
            },
        }
    }

    /// Reports the pointer's place where it moved.
    pub fn poll_position(&mut self, x: u16, y: u16) -> (r: Option<DisplayUpdate>)
        ensures
            final(self).last_hash == old(self).last_hash,
            final(self).last_pos == Some((x, y)),
            r == place_report(old(self).last_pos, x, y),
    {
        let moved: bool = match self.last_pos {
            Some((px, py)) => px != x || py != y,
            None => true,
        };
        if moved {
            self.last_pos = Some((x, y));
            Some(DisplayUpdate::PointerPosition(x, y))
        } else {
            None
        }
    }
}

/// Resizing keeps the hotspot in proportion, on each axis by itself: it is the nearest
/// point to the exact one, or the last one of the side where that would lie beyond.
pub proof fn hotspots_stay_in_proportion(s: ShapeView, new_w: u16, new_h: u16)
    requires
        s.3 < s.1,
        s.4 < s.2,
        new_w > 0,
        new_h > 0,
    ensures
        resized(s, new_w, new_h).1 == new_w,
        resized(s, new_w, new_h).2 == new_h,
        resized(s, new_w, new_h).3 < new_w,
        resized(s, new_w, new_h).4 < new_h,
        -(s.1 as int) <= 2 * (s.1 * resized(s, new_w, new_h).3) - 2 * (s.3 * new_w) <= s.1 || (
        resized(s, new_w, new_h).3 == new_w - 1 && 2 * (s.3 * new_w) + s.1 >= 2 * (s.1 * new_w)),
        -(s.2 as int) <= 2 * (s.2 * resized(s, new_w, new_h).4) - 2 * (s.4 * new_h) <= s.2 || (
        resized(s, new_w, new_h).4 == new_h - 1 && 2 * (s.4 * new_h) + s.2 >= 2 * (s.2 * new_h)),
{
    lemma_hot_in_proportion(s.3, new_w, s.1);
    lemma_hot_in_proportion(s.4, new_h, s.2);
    assert(s.1 * s.3 == s.3 * s.1 && s.2 * s.4 == s.4 * s.2) by (nonlinear_arith);
}

/// Neither coordinate of the hotspot depends on what belongs to the other axis.
pub proof fn hotspots_keep_their_axes(
    s: ShapeView,
    t: ShapeView,
    new_w: u16,
    new_h: u16,
    other: u16,
)
    requires
        s.3 < s.1,
        s.4 < s.2,
        t.3 < t.1,
        t.4 < t.2,
        new_w > 0,
        new_h > 0,
        other > 0,
    ensures
        s.1 == t.1 && s.3 == t.3 ==> resized(s, new_w, new_h).3 == resized(t, new_w, other).3,
        s.2 == t.2 && s.4 == t.4 ==> resized(s, new_w, new_h).4 == resized(t, other, new_h).4,
{
    lemma_hot_unscaled(s.3, s.1);
    lemma_hot_unscaled(s.4, s.2);
}

proof fn lemma_hot_unscaled(hot: u16, side: u16)
    requires
        hot < side,
    ensures
        scaled_hot(hot, side, side) == hot,
{
    let (h, d) = (hot as int, side as int);
    assert((2 * (h * d) + d) / (2 * d) == h) by (nonlinear_arith)
        requires
            0 <= h,
            d > 0,
    ;
}

proof fn lemma_hot_in_proportion(hot: u16, new: u16, old: u16)
    requires
        hot < old,
        new > 0,
    ensures
        scaled_hot(hot, new, old) < new,
        -(old as int) <= 2 * (old * scaled_hot(hot, new, old)) - 2 * (hot * new) <= old || (scaled_hot(
            hot,
            new,
            old,
        ) == new - 1 && 2 * (hot * new) + old >= 2 * (old * new)),
{
    let (o, p) = (old as int, hot * new);
    let n = 2 * p + o;
    let d = 2 * o;
    let v = n / d;
    vstd::arithmetic::div_mod::lemma_fundamental_div_mod(n, d);
    lemma_products(hot as int, new as int);
    assert(0 <= v) by (nonlinear_arith)
        requires
            v == n / d,
            n >= 0,
            d > 0,
    ;
    assert(d * v == 2 * (o * v)) by (nonlinear_arith)
        requires
            d == 2 * o,
    ;
    if v > new - 1 {
        let k = new as int;
        assert(d * v >= d * k && d * k == 2 * (o * k)) by (nonlinear_arith)
            requires
                v >= k,
                d == 2 * o,
                o > 0,
        ;
    }
}

/// A scaled pointer has the sides that were asked for, but at least 1 and at most 256.
pub proof fn pointers_have_the_sides_asked_for(v: i64)
    ensures
        1 <= v <= 256 ==> cursor_side(v) == v,
        v < 1 ==> cursor_side(v) == 1,
        v > 256 ==> cursor_side(v) == 256,
{
}

/// A shape is read from its bitmap pixel by pixel, with its hotspot as it is; one without
/// pixels or with a side above 256 is passed over.
pub proof fn bitmaps_are_read_pixel_by_pixel(
    bitmap: Seq<u8>,
    stride: int,
    w: i64,
    h: i64,
    hot_x: u16,
    hot_y: u16,
    x: int,
    y: int,
    b: int,
)
    requires
        0 <= x < w,
        0 <= y < h,
        0 <= b < 4,
    ensures
        w <= 256 && h <= 256 ==> {
            &&& bitmap_shape(bitmap, stride, w, h, hot_x, hot_y) matches Some(s)
            &&& s.0.len() == 4 * w * h
            &&& s.0[4 * (y * w + x) + b] == bitmap[y * stride + 4 * x + b]
            &&& s.1 == w && s.2 == h
            &&& s.3 == hot_x && s.4 == hot_y
        },
        w > 256 || h > 256 ==> bitmap_shape(bitmap, stride, w, h, hot_x, hot_y) is None,
        bitmap_shape(bitmap, stride, 0, h, hot_x, hot_y) is None,
        bitmap_shape(bitmap, stride, w, 0, hot_x, hot_y) is None,
{
    let (wi, hi) = (w as int, h as int);
    let col = 4 * x + b;
    let i = y * (4 * wi) + col;
    assert(4 * (y * wi + x) + b == i && 0 <= i < 4 * wi * hi) by (nonlinear_arith)
        requires
            i == y * (4 * wi) + col,
            col == 4 * x + b,
            0 <= y < hi,
            0 <= col < 4 * wi,
    ;
    vstd::arithmetic::div_mod::lemma_fundamental_div_mod_converse(i, 4 * wi, y, col);
}

/// The same shape is sent once: it is sent where its hash is not that of the last, and not
/// where it is; and what is sent holds the shape with each part in its place.
pub proof fn shapes_are_sent_when_they_change(
    last_hash: u64,
    s: ShapeView,
    scaled_w: i64,
    scaled_h: i64,
    p: RgbaPointer,
)
    ensures
        shape_report(hash_of(s), Some(s), scaled_w, scaled_h) is None,
        hash_of(s) != last_hash ==> shape_report(last_hash, Some(s), scaled_w, scaled_h) is Some,
        shape_report(last_hash, None, scaled_w, scaled_h) is None,
        carries(p, s) ==> p.width == s.1 && p.height == s.2 && p.hot_x == s.3 && p.hot_y == s.4
            && p.data@ == s.0 && p.cache_index == 0,
{
}

/// A shape that is small enough goes out at the sides that were asked for.
pub proof fn small_pointers_go_out_as_asked(
    last_hash: u64,
    s: ShapeView,
    scaled_w: i64,
    scaled_h: i64,
)
    requires
        hash_of(s) != last_hash,
        1 <= scaled_w <= 256,
        1 <= scaled_h <= 256,
        scaled_w * scaled_h <= 16383,
    ensures
        shape_report(last_hash, Some(s), scaled_w, scaled_h) matches Some(t) && t.1 == scaled_w && t.2
            == scaled_h && t == resized(s, scaled_w as u16, scaled_h as u16),
        resized(s, s.1, s.2) == s,
{
}

/// The pointer's place is reported where it moved, across before down.
pub proof fn places_are_reported_when_they_change(last: Option<(u16, u16)>, x: u16, y: u16)
    ensures
        place_report(Some((x, y)), x, y) is None,
        last is None ==> place_report(last, x, y) is Some,
        last matches Some((px, py)) && (px != x || py != y) ==> place_report(last, x, y) is Some,
        place_report(last, x, y) matches Some(u) ==> (u matches DisplayUpdate::PointerPosition(a, b)
            && a == x && b == y),
{
}

/// Two sides that are shrunk by one factor keep their order.
proof fn lemma_sides_keep_order(a: u16, b: u16, k: Number)
    requires
        a < b,
        k.m > 0,
    ensures
        floor_of(times(whole(a as nat), k)) <= floor_of(times(whole(b as nat), k)),
{
    let (x, y) = (times(whole(a as nat), k), times(whole(b as nat), k));
    whole_numbers_stand_for_themselves(a as nat);
    whole_numbers_stand_for_themselves(b as nat);
    products_come_close(whole(a as nat), k);
    products_come_close(whole(b as nat), k);
    lemma_sign(k);
    let (p, q, v) = (a as nat as real, b as nat as real, value(k));
    lemma_factor_apart(p, q, v);
    lemma_order_kept(value(x), value(y), p * v, q * v, v);
    the_floor_lies_below(x);
    the_floor_lies_below(y);
}

proof fn lemma_factor_apart(p: real, q: real, v: real)
    requires
        0 as real <= p <= 65535 as real,
        p + (1 as real) <= q,
        v > 0 as real,
    ensures
        p * v + v <= q * v,
        0 as real <= p * v <= (65535 as real) * v,
{
    assert(p * v + v <= q * v) by (nonlinear_arith)
        requires
            p + (1 as real) <= q,
            v > 0 as real,
    ;
    assert(0 as real <= p * v <= (65535 as real) * v) by (nonlinear_arith)
        requires
            0 as real <= p <= 65535 as real,
            v > 0 as real,
    ;
}

proof fn lemma_order_kept(x: real, y: real, p: real, q: real, v: real)
    requires
        v > 0 as real,
        0 as real <= p <= (65535 as real) * v,
        p + v <= q,
        close(x, p),
        close(y, q),
    ensures
        x <= y,
{
}

/// A pointer that is shrunk for the wire keeps the longer of its sides the longer one, or as
/// long as the allowed area leaves it; and it has pixels, no more than are allowed.
pub proof fn shrinking_keeps_the_longer_side(w: u16, h: u16)
    requires
        w * h > 16383,
    ensures
        w > h ==> shrunk_width(w, h) >= shrunk_height(w, h) || shrunk_width(w, h) == 16383int
            / shrunk_height(w, h),
        w < h ==> shrunk_width(w, h) <= shrunk_height(w, h),
        1 <= shrunk_width(w, h),
        1 <= shrunk_height(w, h),
        shrunk_width(w, h) * shrunk_height(w, h) <= 16383,
{
    let nh = shrunk_height(w, h);
    let nw = shrunk_width(w, h);
    let limit = 16383int / nh;
    assert(1 <= limit && limit * nh <= 16383) by (nonlinear_arith)
        requires
            limit == 16383int / nh,
            1 <= nh <= 16383,
    ;
    assert(nw * nh <= limit * nh) by (nonlinear_arith)
        requires
            nw <= limit,
            nh >= 1,
    ;
    assert(nh == 16383 ==> limit == 1) by (nonlinear_arith)
        requires
            limit == 16383int / nh,
            1 <= nh <= 16383,
    ;
    lemma_products(w as int, h as int);
    let area = (w * h) as nat;
    whole_numbers_stand_for_themselves(area);
    whole_numbers_stand_for_themselves(MAX_AREA as nat);
    quotients_come_close(whole(MAX_AREA as nat), whole(area));
    roots_are_nearest(over(whole(MAX_AREA as nat), whole(area)));
    if w > h {
        lemma_sides_keep_order(h, w, shrink(w, h));
    } else if w < h {
        lemma_sides_keep_order(w, h, shrink(w, h));
    }
}

/// A pointer that is small enough is sent as it is, and any other at the shrunken sides.
pub proof fn only_large_pointers_are_shrunk(s: ShapeView)
    ensures
        s.1 * s.2 <= 16383 ==> fitted(s) == s,
        s.1 * s.2 > 16383 ==> fitted(s) == resized(
            s,
            shrunk_width(s.1, s.2) as u16,
            shrunk_height(s.1, s.2) as u16,
        ),
{
}

} // verus!
