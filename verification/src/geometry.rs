use crate::fixed::{ceil_div, SCALE};
use vstd::arithmetic::div_mod::{
    lemma_div_is_ordered, lemma_div_multiples_vanish, lemma_fundamental_div_mod_converse,
};
use vstd::prelude::*;

verus! {

/// An axis-aligned box by two corners, in fixed-point pixels.
///
/// A box is *proper* when `x1 < x2` and `y1 < y2`. Nothing forces a box to be
/// proper: the functions below are defined for every box, and treat one that is
/// not as having no interior.
#[derive(Clone, Copy, Debug, PartialEq, Eq, Structural)]
pub struct BBox {
    pub x1: i32,
    pub y1: i32,
    pub x2: i32,
    pub y2: i32,
}

/// Signed area: the product of the signed width and the signed height.
pub open spec fn area(b: BBox) -> int {
    (b.x2 - b.x1) * (b.y2 - b.y1)
}

/// Whether the box has an interior.
pub open spec fn proper(b: BBox) -> bool {
    b.x1 < b.x2 && b.y1 < b.y2
}

/// One of the four coordinates: 0 and 1 pick `x1` and `y1`, 2 and 3 `x2` and `y2`.
pub open spec fn coord(b: BBox, axis: int) -> int {
    if axis == 0 {
        b.x1 as int
    } else if axis == 1 {
        b.y1 as int
    } else if axis == 2 {
        b.x2 as int
    } else {
        b.y2 as int
    }
}

/// Length that the intervals `[lo1, hi1]` and `[lo2, hi2]` share; zero when
/// they do not meet or when one of them is reversed.
pub open spec fn span_overlap(lo1: int, hi1: int, lo2: int, hi2: int) -> int {
    let hi = if hi1 < hi2 { hi1 } else { hi2 };
    let lo = if lo1 > lo2 { lo1 } else { lo2 };
    if hi > lo {
        hi - lo
    } else {
        0
    }
}

/// Area that two boxes share.
pub open spec fn intersection_area(a: BBox, b: BBox) -> int {
    span_overlap(a.x1 as int, a.x2 as int, b.x1 as int, b.x2 as int) * span_overlap(
        a.y1 as int,
        a.y2 as int,
        b.y1 as int,
        b.y2 as int,
    )
}

/// Area that two boxes cover together.
pub open spec fn union_area(a: BBox, b: BBox) -> int {
    area(a) + area(b) - intersection_area(a, b)
}

/// Intersection over union as a fixed-point fraction, rounded up, so that it
/// exceeds a threshold `t` exactly when the true ratio exceeds `t / SCALE`.
/// Zero when the union is not positive.
pub open spec fn iou(a: BBox, b: BBox) -> int {
    ceil_div(intersection_area(a, b) * SCALE, union_area(a, b))
}

/// The part of `a` that `b` covers, as a fixed-point fraction rounded up.
/// Zero when the area of `a` is not positive.
pub open spec fn overlap_fraction(a: BBox, b: BBox) -> int {
    ceil_div(intersection_area(a, b) * SCALE, area(a))
}

pub proof fn lemma_span_overlap(lo1: int, hi1: int, lo2: int, hi2: int)
    ensures
        0 <= span_overlap(lo1, hi1, lo2, hi2),
        span_overlap(lo1, hi1, lo2, hi2) == span_overlap(lo2, hi2, lo1, hi1),
        span_overlap(lo1, hi1, lo2, hi2) > 0 ==> lo1 < hi1 && lo2 < hi2 && span_overlap(
            lo1,
            hi1,
            lo2,
            hi2,
        ) <= hi1 - lo1 && span_overlap(lo1, hi1, lo2, hi2) <= hi2 - lo2,
        lo1 < hi1 ==> span_overlap(lo1, hi1, lo1, hi1) == hi1 - lo1,
{
}

/// The shared area is never negative, is the same either way round, and is
/// positive only for two proper boxes, of which it exceeds neither.
pub proof fn lemma_intersection(a: BBox, b: BBox)
    ensures
        0 <= intersection_area(a, b),
        intersection_area(a, b) == intersection_area(b, a),
        intersection_area(a, b) > 0 ==> proper(a) && proper(b) && intersection_area(a, b) <= area(
            a,
        ) && intersection_area(a, b) <= area(b) && intersection_area(a, b) <= union_area(a, b),
        intersection_area(a, b) < 0x1_0000_0000_0000_0000,
{
    let w = span_overlap(a.x1 as int, a.x2 as int, b.x1 as int, b.x2 as int);
    let h = span_overlap(a.y1 as int, a.y2 as int, b.y1 as int, b.y2 as int);
    lemma_span_overlap(a.x1 as int, a.x2 as int, b.x1 as int, b.x2 as int);
    lemma_span_overlap(a.y1 as int, a.y2 as int, b.y1 as int, b.y2 as int);
    let aw = a.x2 - a.x1;
    let ah = a.y2 - a.y1;
    let bw = b.x2 - b.x1;
    let bh = b.y2 - b.y1;
    assert(0 <= w * h < 0x1_0000_0000_0000_0000) by (nonlinear_arith)
        requires
            0 <= w < 0x1_0000_0000,
            0 <= h < 0x1_0000_0000,
    ;
    assert(w * h > 0 ==> w > 0 && h > 0) by (nonlinear_arith)
        requires
            0 <= w,
            0 <= h,
    ;
    if w * h > 0 {
        assert(w * h <= aw * ah) by (nonlinear_arith)
            requires
                0 < w <= aw,
                0 < h <= ah,
        ;
        assert(w * h <= bw * bh) by (nonlinear_arith)
            requires
                0 < w <= bw,
                0 < h <= bh,
        ;
    }
}

/// The two ratios lie between zero and one, and each is zero exactly when the
/// boxes share no area.
pub proof fn lemma_ratio_range(a: BBox, b: BBox)
    ensures
        0 <= iou(a, b) <= SCALE,
        0 <= overlap_fraction(a, b) <= SCALE,
        iou(a, b) == 0 <==> intersection_area(a, b) == 0,
        overlap_fraction(a, b) == 0 <==> intersection_area(a, b) == 0,
{
    lemma_intersection(a, b);
    lemma_ceil_fraction(intersection_area(a, b), union_area(a, b));
    lemma_ceil_fraction(intersection_area(a, b), area(a));
}

/// A proper box coincides with itself entirely.
pub proof fn lemma_iou_self(b: BBox)
    requires
        proper(b),
    ensures
        intersection_area(b, b) == area(b),
        area(b) > 0,
        iou(b, b) == SCALE,
{
    lemma_span_overlap(b.x1 as int, b.x2 as int, b.x1 as int, b.x2 as int);
    lemma_span_overlap(b.y1 as int, b.y2 as int, b.y1 as int, b.y2 as int);
    let w = b.x2 - b.x1;
    let h = b.y2 - b.y1;
    assert(w * h > 0) by (nonlinear_arith)
        requires
            w > 0,
            h > 0,
    ;
    let u = area(b);
    assert(union_area(b, b) == u);
    lemma_ceil_whole(u, SCALE as int);
}

/// Two boxes of zero area have intersection over union zero.
pub proof fn lemma_iou_of_empty_boxes(a: BBox, b: BBox)
    requires
        area(a) == 0,
        area(b) == 0,
    ensures
        intersection_area(a, b) == 0,
        iou(a, b) == 0,
        overlap_fraction(a, b) == 0,
        overlap_fraction(b, a) == 0,
{
    lemma_intersection(a, b);
    lemma_intersection(b, a);
}

/// `ceil_div(part * SCALE, whole)` for a part that is positive only where it
/// does not exceed the whole.
proof fn lemma_ceil_fraction(part: int, whole: int)
    requires
        0 <= part,
        part > 0 ==> part <= whole,
    ensures
        0 <= ceil_div(part * SCALE, whole) <= SCALE,
        ceil_div(part * SCALE, whole) == 0 <==> part == 0,
{
    if whole > 0 {
        let n = part * SCALE;
        if part == 0 {
            lemma_fundamental_div_mod_converse(whole - 1, whole, 0, whole - 1);
        } else {
            assert(n + whole - 1 >= whole);
            assert(whole * SCALE + whole - 1 >= n + whole - 1) by (nonlinear_arith)
                requires
                    part <= whole,
                    n == part * SCALE,
            ;
            lemma_div_is_ordered(whole, n + whole - 1, whole);
            lemma_div_is_ordered(n + whole - 1, whole * SCALE + whole - 1, whole);
            lemma_div_multiples_vanish(1, whole);
            lemma_ceil_whole_plus(whole, SCALE as int);
        }
    }
}

/// `(whole * k + whole - 1) / whole == k`.
proof fn lemma_ceil_whole_plus(whole: int, k: int)
    requires
        whole > 0,
    ensures
        (whole * k + whole - 1) / whole == k,
{
    assert(whole * k == k * whole) by (nonlinear_arith);
    lemma_fundamental_div_mod_converse(whole * k + whole - 1, whole, k, whole - 1);
}

/// `ceil_div(whole * k, whole) == k`.
proof fn lemma_ceil_whole(whole: int, k: int)
    requires
        whole > 0,
    ensures
        ceil_div(whole * k, whole) == k,
{
    lemma_ceil_whole_plus(whole, k);
}

impl BBox {
    /// Signed area of the box.
    pub fn area(&self) -> (r: i128)
        ensures
            r == area(*self),
            -0x1_0000_0000_0000_0000 <= r <= 0x1_0000_0000_0000_0000,
    {
        let w: i64 = self.x2 as i64 - self.x1 as i64;
        let h: i64 = self.y2 as i64 - self.y1 as i64;
        assert(-0x1_0000_0000_0000_0000 <= w * h <= 0x1_0000_0000_0000_0000) by (nonlinear_arith)
            requires
                -0x1_0000_0000 <= w <= 0x1_0000_0000,
                -0x1_0000_0000 <= h <= 0x1_0000_0000,
        ;
        (w as i128) * (h as i128)
    }

    /// Area shared with `other`.
    pub fn intersection_area(&self, other: &BBox) -> (r: i128)
        ensures
            r == intersection_area(*self, *other),
            0 <= r < 0x1_0000_0000_0000_0000,
    {
        let w = shared_span(self.x1, self.x2, other.x1, other.x2);
        let h = shared_span(self.y1, self.y2, other.y1, other.y2);
        assert(0 <= w * h < 0x1_0000_0000_0000_0000) by (nonlinear_arith)
            requires
                0 <= w < 0x1_0000_0000,
                0 <= h < 0x1_0000_0000,
        ;
        (w as i128) * (h as i128)
    }

    /// Intersection over union with `other`, between `0` and `SCALE`.
    pub fn iou(&self, other: &BBox) -> (r: u32)
        ensures
            r == iou(*self, *other),
            r <= SCALE,
    {
        let inter = self.intersection_area(other);
        let whole = self.area() + other.area() - inter;
        proof {
            lemma_ratio_range(*self, *other);
            lemma_intersection(*self, *other);
        }
        ratio_up(inter, whole)
    }

    /// The part of this box that `other` covers, between `0` and `SCALE`.
    pub fn overlap_fraction(&self, other: &BBox) -> (r: u32)
        ensures
            r == overlap_fraction(*self, *other),
            r <= SCALE,
    {
        let inter = self.intersection_area(other);
        let whole = self.area();
        proof {
            lemma_ratio_range(*self, *other);
            lemma_intersection(*self, *other);
        }
        ratio_up(inter, whole)
    }
}

fn shared_span(lo1: i32, hi1: i32, lo2: i32, hi2: i32) -> (r: i64)
    ensures
        r == span_overlap(lo1 as int, hi1 as int, lo2 as int, hi2 as int),
        0 <= r < 0x1_0000_0000,
{
    let hi = if hi1 < hi2 { hi1 } else { hi2 };
    let lo = if lo1 > lo2 { lo1 } else { lo2 };
    if hi > lo {
        hi as i64 - lo as i64
    } else {
        0
    }
}

fn ratio_up(part: i128, whole: i128) -> (r: u32)
    requires
        0 <= part < 0x1_0000_0000_0000_0000,
        -0x4_0000_0000_0000_0000 <= whole <= 0x4_0000_0000_0000_0000,
        0 <= ceil_div(part * SCALE, whole as int) <= SCALE,
    ensures
        r == ceil_div(part * SCALE, whole as int),
{
    if whole <= 0 {
        0
    } else {
        let n: i128 = part * (SCALE as i128);
        let q: i128 = (n + (whole - 1)) / whole;
        q as u32
    }
}

} // verus!
