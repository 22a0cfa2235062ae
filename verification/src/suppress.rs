use crate::fixed::{floor_div, SCALE};
use crate::geometry::{coord, iou, overlap_fraction, BBox};
use crate::interpreter::Interpreter;
use vstd::arithmetic::div_mod::{lemma_div_is_ordered, lemma_div_multiples_vanish};
use vstd::prelude::*;

verus! {

/// Largest weight that a candidate can have: the largest score at full overlap.
pub const WEIGHT_MAX: i128 = 655_350_000;

/// Overlap fraction above which a candidate counts as lying inside the seed.
pub const CONTAINMENT: u32 = 7_000;

/// What one round decides about a candidate other than its seed.
#[derive(Clone, Copy, Debug, PartialEq, Eq, Structural)]
pub enum Verdict {
    /// Scored below the threshold: dropped, without a part in the merged box.
    Noise,
    /// Overlaps the seed beyond the threshold: dropped, and averaged into the merged box.
    Merged,
    /// Lies mostly inside the seed: dropped, without a part in the merged box.
    Contained,
    /// Belongs to another cluster: stays in the pool.
    Apart,
}

/// Candidate `i` is chosen before candidate `j`: by the higher score, and among
/// equal scores by the higher index.
pub open spec fn outranks(scores: Seq<u16>, i: int, j: int) -> bool {
    scores[i] > scores[j] || (scores[i] == scores[j] && i > j)
}

/// Position in `pool` of the candidate that is chosen first.
pub open spec fn seed_position(scores: Seq<u16>, pool: Seq<usize>) -> int
    decreases pool.len(),
{
    if pool.len() <= 1 {
        0
    } else {
        let p = seed_position(scores, pool.drop_last());
        if outranks(scores, pool.last() as int, pool[p] as int) {
            pool.len() - 1
        } else {
            p
        }
    }
}

/// The verdict on candidate `idx` in the round of `seed`.
pub open spec fn verdict(
    boxes: Seq<BBox>,
    scores: Seq<u16>,
    score_threshold: int,
    iou_threshold: int,
    seed: int,
    idx: int,
) -> Verdict {
    if scores[idx] < score_threshold {
        Verdict::Noise
    } else if iou(boxes[idx], boxes[seed]) > iou_threshold {
        Verdict::Merged
    } else if overlap_fraction(boxes[idx], boxes[seed]) > CONTAINMENT {
        Verdict::Contained
    } else {
        Verdict::Apart
    }
}

/// Weight with which candidate `idx` enters the merged box of `seed`: its score
/// times its intersection over union with the seed if it is merged, else zero.
pub open spec fn weight(
    boxes: Seq<BBox>,
    scores: Seq<u16>,
    score_threshold: int,
    iou_threshold: int,
    seed: int,
    idx: int,
) -> int {
    if verdict(boxes, scores, score_threshold, iou_threshold, seed, idx) == Verdict::Merged {
        scores[idx] * iou(boxes[idx], boxes[seed])
    } else {
        0
    }
}

/// Sum of the weights of the candidates in `rest`.
pub open spec fn total_weight(
    boxes: Seq<BBox>,
    scores: Seq<u16>,
    score_threshold: int,
    iou_threshold: int,
    seed: int,
    rest: Seq<usize>,
) -> int
    decreases rest.len(),
{
    if rest.len() == 0 {
        0
    } else {
        total_weight(boxes, scores, score_threshold, iou_threshold, seed, rest.drop_last())
            + weight(boxes, scores, score_threshold, iou_threshold, seed, rest.last() as int)
    }
}

/// Sum over the candidates in `rest` of weight times coordinate `axis`.
pub open spec fn total_moment(
    boxes: Seq<BBox>,
    scores: Seq<u16>,
    score_threshold: int,
    iou_threshold: int,
    seed: int,
    rest: Seq<usize>,
    axis: int,
) -> int
    decreases rest.len(),
{
    if rest.len() == 0 {
        0
    } else {
        total_moment(boxes, scores, score_threshold, iou_threshold, seed, rest.drop_last(), axis)
            + weight(boxes, scores, score_threshold, iou_threshold, seed, rest.last() as int)
            * coord(boxes[rest.last() as int], axis)
    }
}

/// Coordinate `axis` of the merged box: the average of that coordinate over the
/// seed, weighted by its score, and the candidates in `rest`, each by its
/// weight, rounded down. Where all the weights are zero it is the seed's own.
pub open spec fn merged_coord(
    boxes: Seq<BBox>,
    scores: Seq<u16>,
    score_threshold: int,
    iou_threshold: int,
    seed: int,
    rest: Seq<usize>,
    axis: int,
) -> int {
    let den = scores[seed] * SCALE + total_weight(
        boxes,
        scores,
        score_threshold,
        iou_threshold,
        seed,
        rest,
    );
    let num = scores[seed] * SCALE * coord(boxes[seed], axis) + total_moment(
        boxes,
        scores,
        score_threshold,
        iou_threshold,
        seed,
        rest,
        axis,
    );
    if den == 0 {
        coord(boxes[seed], axis)
    } else {
        num / den
    }
}

/// The box that the round of `seed` emits.
pub open spec fn merged_box(
    boxes: Seq<BBox>,
    scores: Seq<u16>,
    score_threshold: int,
    iou_threshold: int,
    seed: int,
    rest: Seq<usize>,
) -> BBox {
    BBox {
        x1: merged_coord(boxes, scores, score_threshold, iou_threshold, seed, rest, 0) as i32,
        y1: merged_coord(boxes, scores, score_threshold, iou_threshold, seed, rest, 1) as i32,
        x2: merged_coord(boxes, scores, score_threshold, iou_threshold, seed, rest, 2) as i32,
        y2: merged_coord(boxes, scores, score_threshold, iou_threshold, seed, rest, 3) as i32,
    }
}

/// The candidates of `rest` that the round of `seed` leaves in the pool, in
/// their order.
pub open spec fn survivors(
    boxes: Seq<BBox>,
    scores: Seq<u16>,
    score_threshold: int,
    iou_threshold: int,
    seed: int,
    rest: Seq<usize>,
) -> Seq<usize> {
    rest.filter(
        |i: usize|
            verdict(boxes, scores, score_threshold, iou_threshold, seed, i as int)
                == Verdict::Apart,
    )
}

/// The clusters that come out of `pool`, in the order in which their seeds are
/// chosen: the first candidate by rank becomes a seed, its round sweeps the
/// rest, and the survivors go through the same again.
pub open spec fn clusters(
    boxes: Seq<BBox>,
    scores: Seq<u16>,
    score_threshold: int,
    iou_threshold: int,
    pool: Seq<usize>,
) -> Seq<(usize, BBox)>
    decreases pool.len(),
    via clusters_decreases
{
    if pool.len() == 0 {
        Seq::empty()
    } else {
        let p = seed_position(scores, pool);
        let seed = pool[p];
        let rest = pool.remove(p);
        seq![
            (seed, merged_box(boxes, scores, score_threshold, iou_threshold, seed as int, rest)),
        ] + clusters(
            boxes,
            scores,
            score_threshold,
            iou_threshold,
            survivors(boxes, scores, score_threshold, iou_threshold, seed as int, rest),
        )
    }
}

#[via_fn]
proof fn clusters_decreases(
    boxes: Seq<BBox>,
    scores: Seq<u16>,
    score_threshold: int,
    iou_threshold: int,
    pool: Seq<usize>,
) {
    if pool.len() != 0 {
        let p = seed_position(scores, pool);
        lemma_seed_position_in_range(scores, pool);
        let seed = pool[p];
        let rest = pool.remove(p);
        rest.lemma_filter_len(
            |i: usize|
                verdict(boxes, scores, score_threshold, iou_threshold, seed as int, i as int)
                    == Verdict::Apart,
        );
    }
}

/// The pool of all candidates: every index below `n`, in ascending order.
pub open spec fn full_pool(n: nat) -> Seq<usize> {
    Seq::new(n, |i: int| i as usize)
}

/// The outcome of weighted cluster suppression on `boxes` with their `scores`:
/// seed index and merged box of each cluster, in the order of the seeds' rank.
pub open spec fn suppress(
    boxes: Seq<BBox>,
    scores: Seq<u16>,
    score_threshold: int,
    iou_threshold: int,
) -> Seq<(usize, BBox)> {
    clusters(boxes, scores, score_threshold, iou_threshold, full_pool(boxes.len()))
}

/// The seed's position lies in the pool.
pub proof fn lemma_seed_position_in_range(scores: Seq<u16>, pool: Seq<usize>)
    requires
        pool.len() > 0,
    ensures
        0 <= seed_position(scores, pool) < pool.len(),
    decreases pool.len(),
{
    if pool.len() > 1 {
        lemma_seed_position_in_range(scores, pool.drop_last());
    }
}

/// The last candidate of `rest` stays in the pool exactly when it stands
/// apart from the seed, after those that stay of the candidates before it.
pub proof fn lemma_round_step(
    boxes: Seq<BBox>,
    scores: Seq<u16>,
    score_threshold: int,
    iou_threshold: int,
    seed: int,
    rest: Seq<usize>,
)
    requires
        rest.len() > 0,
    ensures
        survivors(boxes, scores, score_threshold, iou_threshold, seed, rest) == if verdict(
            boxes,
            scores,
            score_threshold,
            iou_threshold,
            seed,
            rest.last() as int,
        ) == Verdict::Apart {
            survivors(boxes, scores, score_threshold, iou_threshold, seed, rest.drop_last()).push(
                rest.last(),
            )
        } else {
            survivors(boxes, scores, score_threshold, iou_threshold, seed, rest.drop_last())
        },
{
    reveal(Seq::filter);
}

/// A weight lies between zero and `WEIGHT_MAX`.
pub proof fn lemma_weight_range(
    boxes: Seq<BBox>,
    scores: Seq<u16>,
    score_threshold: int,
    iou_threshold: int,
    seed: int,
    idx: int,
)
    ensures
        0 <= weight(boxes, scores, score_threshold, iou_threshold, seed, idx) <= WEIGHT_MAX,
{
    crate::geometry::lemma_ratio_range(boxes[idx], boxes[seed]);
    let s = scores[idx] as int;
    let u = iou(boxes[idx], boxes[seed]);
    assert(0 <= s * u <= 655_350_000) by (nonlinear_arith)
        requires
            0 <= s <= 65535,
            0 <= u <= 10_000,
    ;
}

/// The weights of `rest` sum to at most `WEIGHT_MAX` for each candidate, and
/// its moment along an axis lies between the least and the greatest
/// coordinate there is, each times the sum of the weights.
pub proof fn lemma_totals_range(
    boxes: Seq<BBox>,
    scores: Seq<u16>,
    score_threshold: int,
    iou_threshold: int,
    seed: int,
    rest: Seq<usize>,
    axis: int,
)
    ensures
        0 <= total_weight(boxes, scores, score_threshold, iou_threshold, seed, rest) <= rest.len()
            * WEIGHT_MAX,
        i32::MIN * total_weight(boxes, scores, score_threshold, iou_threshold, seed, rest)
            <= total_moment(boxes, scores, score_threshold, iou_threshold, seed, rest, axis)
            <= i32::MAX * total_weight(boxes, scores, score_threshold, iou_threshold, seed, rest),
    decreases rest.len(),
{
    if rest.len() > 0 {
        lemma_totals_range(
            boxes,
            scores,
            score_threshold,
            iou_threshold,
            seed,
            rest.drop_last(),
            axis,
        );
        let idx = rest.last() as int;
        lemma_weight_range(boxes, scores, score_threshold, iou_threshold, seed, idx);
        let w = weight(boxes, scores, score_threshold, iou_threshold, seed, idx);
        let c = coord(boxes[idx], axis);
        lemma_weighted_coord(w, c);
    }
}

/// A coordinate times a weight stays between the ends of the coordinate range
/// times that weight.
proof fn lemma_weighted_coord(w: int, c: int)
    requires
        0 <= w,
        i32::MIN <= c <= i32::MAX,
    ensures
        i32::MIN * w <= w * c <= i32::MAX * w,
{
    assert(i32::MIN * w <= w * c <= i32::MAX * w) by (nonlinear_arith)
        requires
            0 <= w,
            i32::MIN <= c <= i32::MAX,
    ;
}

/// A quotient of a numerator that lies between two multiples of a positive
/// denominator lies between the two factors.
proof fn lemma_average_range(num: int, den: int)
    requires
        den > 0,
        i32::MIN * den <= num <= i32::MAX * den,
    ensures
        i32::MIN <= num / den <= i32::MAX,
{
    lemma_div_is_ordered(i32::MIN * den, num, den);
    lemma_div_is_ordered(num, i32::MAX * den, den);
    lemma_div_multiples_vanish(i32::MIN as int, den);
    lemma_div_multiples_vanish(i32::MAX as int, den);
    assert(i32::MIN * den == den * i32::MIN) by (nonlinear_arith);
    assert(i32::MAX * den == den * i32::MAX) by (nonlinear_arith);
}

/// A weighted average of coordinates is a coordinate: the merged box has its
/// coordinates within the `i32` range.
pub proof fn lemma_merged_coord_range(
    boxes: Seq<BBox>,
    scores: Seq<u16>,
    score_threshold: int,
    iou_threshold: int,
    seed: int,
    rest: Seq<usize>,
    axis: int,
)
    ensures
        i32::MIN <= merged_coord(boxes, scores, score_threshold, iou_threshold, seed, rest, axis)
            <= i32::MAX,
{
    lemma_totals_range(boxes, scores, score_threshold, iou_threshold, seed, rest, axis);
    let w0 = scores[seed] * SCALE;
    let c0 = coord(boxes[seed], axis);
    lemma_weighted_coord(w0, c0);
    let den = w0 + total_weight(boxes, scores, score_threshold, iou_threshold, seed, rest);
    let tm = total_moment(boxes, scores, score_threshold, iou_threshold, seed, rest, axis);
    let num = scores[seed] * SCALE * c0 + tm;
    assert(scores[seed] * SCALE * c0 == w0 * c0);
    if den != 0 {
        assert(i32::MIN * den <= num <= i32::MAX * den) by (nonlinear_arith)
            requires
                den == w0 + (den - w0),
                i32::MIN * w0 <= w0 * c0 <= i32::MAX * w0,
                i32::MIN * (den - w0) <= tm <= i32::MAX * (den - w0),
                num == w0 * c0 + tm,
        ;
        lemma_average_range(num, den);
    }
}

/// Position in `pool` of the candidate that is chosen first.
fn first_by_rank(scores: &[u16], pool: &Vec<usize>) -> (p: usize)
    requires
        pool.len() > 0,
        forall|k: int| 0 <= k < pool.len() ==> pool[k] < scores.len(),
    ensures
        p == seed_position(scores@, pool@),
        p < pool.len(),
{
    let mut p: usize = 0;
    let mut k: usize = 1;
    assert(pool@.take(1).len() == 1);
    while k < pool.len()
        invariant
            1 <= k <= pool.len(),
            p < k,
            forall|j: int| 0 <= j < pool.len() ==> pool[j] < scores.len(),
            p == seed_position(scores@, pool@.take(k as int)),
        decreases pool.len() - k,
    {
        let cand = pool[k];
        let best = pool[p];
        proof {
            assert(pool@.take(k + 1).drop_last() =~= pool@.take(k as int));
            assert(pool@.take(k + 1).last() == pool@[k as int]);
            assert(pool@.take(k as int)[p as int] == pool@[p as int]);
        }
        if scores[cand] > scores[best] || (scores[cand] == scores[best] && cand > best) {
            p = k;
        }
        k = k + 1;
    }
    assert(pool@.take(pool.len() as int) =~= pool@);
    p
}

/// Verdict on candidate `idx` in the round of `seed`, and its weight.
fn judge(
    boxes: &[BBox],
    scores: &[u16],
    score_threshold: u16,
    iou_threshold: u32,
    seed: usize,
    idx: usize,
) -> (r: (Verdict, i128))
    requires
        boxes.len() <= scores.len(),
        seed < boxes.len(),
        idx < boxes.len(),
    ensures
        r.0 == verdict(
            boxes@,
            scores@,
            score_threshold as int,
            iou_threshold as int,
            seed as int,
            idx as int,
        ),
        r.1 == weight(
            boxes@,
            scores@,
            score_threshold as int,
            iou_threshold as int,
            seed as int,
            idx as int,
        ),
        0 <= r.1 <= WEIGHT_MAX,
{
    proof {
        lemma_weight_range(
            boxes@,
            scores@,
            score_threshold as int,
            iou_threshold as int,
            seed as int,
            idx as int,
        );
    }
    let s = scores[idx];
    if s < score_threshold {
        return (Verdict::Noise, 0);
    }
    let shared = boxes[idx].iou(&boxes[seed]);
    if shared > iou_threshold {
        let w: i128 = (s as i128) * (shared as i128);
        (Verdict::Merged, w)
    } else if boxes[idx].overlap_fraction(&boxes[seed]) > CONTAINMENT {
        (Verdict::Contained, 0)
    } else {
        (Verdict::Apart, 0)
    }
}

/// Quotient of the weighted sum `num` by the sum of the weights `den`, or
/// `own` where the weights are all zero.
fn average(num: i128, den: i128, own: i32) -> (r: i32)
    requires
        0 <= den <= 0x1_0000_0000_0000_0000 * WEIGHT_MAX,
        i32::MIN * den <= num <= i32::MAX * den,
    ensures
        r == if den == 0 {
            own as int
        } else {
            num / den
        },
{
    if den == 0 {
        own
    } else {
        proof {
            lemma_average_range(num as int, den as int);
        }
        let q = floor_div(num, den);
        q as i32
    }
}

/// One round: the merged box of `seed`, and the candidates of `rest` that stay.
fn sweep(
    boxes: &[BBox],
    scores: &[u16],
    score_threshold: u16,
    iou_threshold: u32,
    seed: usize,
    rest: &Vec<usize>,
) -> (r: (BBox, Vec<usize>))
    requires
        boxes.len() <= scores.len(),
        seed < boxes.len(),
        forall|k: int| 0 <= k < rest.len() ==> rest[k] < boxes.len(),
    ensures
        r.0 == merged_box(
            boxes@,
            scores@,
            score_threshold as int,
            iou_threshold as int,
            seed as int,
            rest@,
        ),
        r.1@ == survivors(
            boxes@,
            scores@,
            score_threshold as int,
            iou_threshold as int,
            seed as int,
            rest@,
        ),
{
    let ghost st = score_threshold as int;
    let ghost it = iou_threshold as int;
    let ghost sd = seed as int;
    let own = boxes[seed];
    let w0: i128 = (scores[seed] as i128) * (SCALE as i128);
    proof {
        lemma_weighted_coord(w0 as int, own.x1 as int);
        lemma_weighted_coord(w0 as int, own.y1 as int);
        lemma_weighted_coord(w0 as int, own.x2 as int);
        lemma_weighted_coord(w0 as int, own.y2 as int);
        assert(rest@.take(0).len() == 0);
        reveal(Seq::filter);
    }
    let mut den: i128 = w0;
    let mut nx1: i128 = w0 * (own.x1 as i128);
    let mut ny1: i128 = w0 * (own.y1 as i128);
    let mut nx2: i128 = w0 * (own.x2 as i128);
    let mut ny2: i128 = w0 * (own.y2 as i128);
    let mut keep: Vec<usize> = Vec::new();
    let mut k: usize = 0;
    while k < rest.len()
        invariant
            k <= rest.len(),
            boxes.len() <= scores.len(),
            seed < boxes.len(),
            forall|j: int| 0 <= j < rest.len() ==> rest[j] < boxes.len(),
            st == score_threshold,
            it == iou_threshold,
            sd == seed,
            own == boxes@[sd],
            w0 == scores@[sd] * SCALE,
            den == w0 + total_weight(boxes@, scores@, st, it, sd, rest@.take(k as int)),
            nx1 == w0 * own.x1 + total_moment(boxes@, scores@, st, it, sd, rest@.take(k as int), 0),
            ny1 == w0 * own.y1 + total_moment(boxes@, scores@, st, it, sd, rest@.take(k as int), 1),
            nx2 == w0 * own.x2 + total_moment(boxes@, scores@, st, it, sd, rest@.take(k as int), 2),
            ny2 == w0 * own.y2 + total_moment(boxes@, scores@, st, it, sd, rest@.take(k as int), 3),
            0 <= den <= (k + 1) * WEIGHT_MAX,
            i32::MIN * den <= nx1 <= i32::MAX * den,
            i32::MIN * den <= ny1 <= i32::MAX * den,
            i32::MIN * den <= nx2 <= i32::MAX * den,
            i32::MIN * den <= ny2 <= i32::MAX * den,
            keep@ == survivors(boxes@, scores@, st, it, sd, rest@.take(k as int)),
        decreases rest.len() - k,
    {
        let idx = rest[k];
        let other = boxes[idx];
        let (v, w) = judge(boxes, scores, score_threshold, iou_threshold, seed, idx);
        proof {
            let upto = rest@.take(k + 1);
            assert(upto.drop_last() =~= rest@.take(k as int));
            assert(upto.last() == idx);
            lemma_round_step(boxes@, scores@, st, it, sd, upto);
            lemma_weighted_coord(w as int, other.x1 as int);
            lemma_weighted_coord(w as int, other.y1 as int);
            lemma_weighted_coord(w as int, other.x2 as int);
            lemma_weighted_coord(w as int, other.y2 as int);
            assert(coord(other, 0) == other.x1);
            assert(coord(other, 1) == other.y1);
            assert(coord(other, 2) == other.x2);
            assert(coord(other, 3) == other.y2);
        }
        den = den + w;
        nx1 = nx1 + w * (other.x1 as i128);
        ny1 = ny1 + w * (other.y1 as i128);
        nx2 = nx2 + w * (other.x2 as i128);
        ny2 = ny2 + w * (other.y2 as i128);
        if v == Verdict::Apart {
            keep.push(idx);
        }
        k = k + 1;
    }
    proof {
        assert(rest@.take(rest.len() as int) =~= rest@);
        assert(coord(own, 0) == own.x1);
        assert(coord(own, 1) == own.y1);
        assert(coord(own, 2) == own.x2);
        assert(coord(own, 3) == own.y2);
        assert(scores@[sd] * SCALE * coord(own, 0) == w0 * own.x1);
        assert(scores@[sd] * SCALE * coord(own, 1) == w0 * own.y1);
        assert(scores@[sd] * SCALE * coord(own, 2) == w0 * own.x2);
        assert(scores@[sd] * SCALE * coord(own, 3) == w0 * own.y2);
    }
    let merged = BBox {
        x1: average(nx1, den, own.x1),
        y1: average(ny1, den, own.y1),
        x2: average(nx2, den, own.x2),
        y2: average(ny2, den, own.y2),
    };
    (merged, keep)
}

impl Interpreter {
    /// Weighted cluster suppression.
    ///
    /// Takes the candidates by rank: the highest score first, and among equal
    /// scores the highest index. Each one that is still in the pool when its
    /// turn comes is the seed of a cluster. Its round drops from the pool every
    /// other candidate that scores below `score_threshold`, that has an
    /// intersection over union with the seed above `iou_threshold`, or that lies
    /// with more than `CONTAINMENT` of its area inside the seed. The cluster's
    /// box is the average of the seed and of the candidates dropped for their
    /// intersection over union, each weighted by its score times that ratio.
    ///
    /// Returns the seed index and the box of each cluster, in the order of the
    /// rounds. Scores beyond the number of boxes are not read.
    pub fn non_max_suppression(
        boxes: &[BBox],
        scores: &[u16],
        score_threshold: u16,
        iou_threshold: u32,
    ) -> (out: Vec<(usize, BBox)>)
        requires
            boxes.len() <= scores.len(),
        ensures
            out@ == suppress(boxes@, scores@, score_threshold as int, iou_threshold as int),
            forall|k: int| 0 <= k < out.len() ==> (#[trigger] out[k]).0 < boxes.len(),
    {
        let ghost st = score_threshold as int;
        let ghost it = iou_threshold as int;
        let mut pool: Vec<usize> = Vec::new();
        let mut i: usize = 0;
        while i < boxes.len()
            invariant
                i <= boxes.len(),
                pool@ == full_pool(i as nat),
            decreases boxes.len() - i,
        {
            pool.push(i);
            assert(pool@ =~= full_pool((i + 1) as nat));
            i = i + 1;
        }
        let mut out: Vec<(usize, BBox)> = Vec::new();
        assert(out@ + clusters(boxes@, scores@, st, it, pool@) =~= suppress(
            boxes@,
            scores@,
            st,
            it,
        ));
        while pool.len() > 0
            invariant
                boxes.len() <= scores.len(),
                st == score_threshold,
                it == iou_threshold,
                forall|k: int| 0 <= k < pool.len() ==> pool[k] < boxes.len(),
                out@ + clusters(boxes@, scores@, st, it, pool@) == suppress(
                    boxes@,
                    scores@,
                    st,
                    it,
                ),
            decreases pool.len(),
        {
            let ghost before = pool@;
            let p = first_by_rank(scores, &pool);
            let seed = pool.remove(p);
            let (merged, next) = sweep(boxes, scores, score_threshold, iou_threshold, seed, &pool);
            proof {
                let tail = clusters(boxes@, scores@, st, it, next@);
                assert(clusters(boxes@, scores@, st, it, before) == seq![(seed, merged)] + tail);
                assert(out@.push((seed, merged)) + tail =~= out@ + (seq![(seed, merged)] + tail));
                pool@.lemma_filter_len(
                    |i: usize|
                        verdict(boxes@, scores@, st, it, seed as int, i as int) == Verdict::Apart,
                );
                lemma_survivors_within(boxes@, scores@, st, it, seed as int, pool@, boxes.len() as int);
            }
            out.push((seed, merged));
            pool = next;
        }
        proof {
            assert(clusters(boxes@, scores@, st, it, pool@) =~= Seq::empty());
            assert(out@ + Seq::<(usize, BBox)>::empty() =~= out@);
            lemma_seeds_within(
                boxes@,
                scores@,
                st,
                it,
                full_pool(boxes.len() as nat),
                boxes.len() as int,
            );
        }
        out
    }
}

/// A round leaves in the pool only candidates that were in it.
pub proof fn lemma_survivors_within(
    boxes: Seq<BBox>,
    scores: Seq<u16>,
    score_threshold: int,
    iou_threshold: int,
    seed: int,
    rest: Seq<usize>,
    bound: int,
)
    requires
        forall|k: int| 0 <= k < rest.len() ==> rest[k] < bound,
    ensures
        survivors(boxes, scores, score_threshold, iou_threshold, seed, rest).len() <= rest.len(),
        forall|k: int|
            0 <= k < survivors(boxes, scores, score_threshold, iou_threshold, seed, rest).len()
                ==> survivors(boxes, scores, score_threshold, iou_threshold, seed, rest)[k] < bound,
    decreases rest.len(),
{
    if rest.len() > 0 {
        lemma_round_step(boxes, scores, score_threshold, iou_threshold, seed, rest);
        lemma_survivors_within(
            boxes,
            scores,
            score_threshold,
            iou_threshold,
            seed,
            rest.drop_last(),
            bound,
        );
    } else {
        reveal(Seq::filter);
    }
}

/// Every seed is a candidate of the pool it was chosen from.
pub proof fn lemma_seeds_within(
    boxes: Seq<BBox>,
    scores: Seq<u16>,
    score_threshold: int,
    iou_threshold: int,
    pool: Seq<usize>,
    bound: int,
)
    requires
        forall|k: int| 0 <= k < pool.len() ==> pool[k] < bound,
    ensures
        forall|k: int|
            0 <= k < clusters(boxes, scores, score_threshold, iou_threshold, pool).len() ==> (
            #[trigger] clusters(boxes, scores, score_threshold, iou_threshold, pool)[k]).0 < bound,
    decreases pool.len(),
{
    if pool.len() > 0 {
        lemma_seed_position_in_range(scores, pool);
        let p = seed_position(scores, pool);
        let seed = pool[p];
        let rest = pool.remove(p);
        let next = survivors(boxes, scores, score_threshold, iou_threshold, seed as int, rest);
        lemma_survivors_within(
            boxes,
            scores,
            score_threshold,
            iou_threshold,
            seed as int,
            rest,
            bound,
        );
        lemma_seeds_within(boxes, scores, score_threshold, iou_threshold, next, bound);
        let all = clusters(boxes, scores, score_threshold, iou_threshold, pool);
        let tail = clusters(boxes, scores, score_threshold, iou_threshold, next);
        assert forall|k: int| 0 <= k < all.len() implies (#[trigger] all[k]).0 < bound by {
            if k > 0 {
                assert(all[k] == tail[k - 1]);
            }
        }
    }
}

} // verus!
