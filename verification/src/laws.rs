use crate::fixed::SCALE;
use crate::geometry::{
    area, coord, iou, lemma_iou_of_empty_boxes, lemma_iou_self, lemma_ratio_range, proper, BBox,
};
use crate::suppress::{
    clusters, full_pool, lemma_round_step, lemma_seed_position_in_range, merged_box, merged_coord,
    outranks, seed_position, suppress, survivors, total_moment, total_weight, verdict, weight,
    Verdict,
};
use vstd::arithmetic::div_mod::lemma_div_multiples_vanish;
use vstd::prelude::*;

verus! {

/// Candidate `i` is the seed of one of the clusters.
pub open spec fn has_seed(found: Seq<(usize, BBox)>, i: usize) -> bool {
    exists|k: int| 0 <= k < found.len() && (#[trigger] found[k]).0 == i
}

/// The seed is the first of its pool by rank: no candidate of the pool
/// outranks it.
pub proof fn lemma_seed_is_first(scores: Seq<u16>, pool: Seq<usize>)
    requires
        pool.len() > 0,
    ensures
        forall|q: int|
            0 <= q < pool.len() ==> !outranks(
                scores,
                #[trigger] pool[q] as int,
                pool[seed_position(scores, pool)] as int,
            ),
    decreases pool.len(),
{
    if pool.len() > 1 {
        let front = pool.drop_last();
        lemma_seed_is_first(scores, front);
        lemma_seed_position_in_range(scores, front);
        let p = seed_position(scores, front);
        let top = pool[seed_position(scores, pool)] as int;
        assert forall|q: int| 0 <= q < pool.len() implies !outranks(
            scores,
            #[trigger] pool[q] as int,
            top,
        ) by {
            if q < pool.len() - 1 {
                assert(front[q] == pool[q]);
                assert(!outranks(scores, front[q] as int, front[p] as int));
            }
        }
    }
}

/// Two boxes of zero area are never merged: whatever the scores and the
/// thresholds, neither enters the merged box of the other.
pub proof fn lemma_empty_boxes_not_merged(
    boxes: Seq<BBox>,
    scores: Seq<u16>,
    score_threshold: int,
    iou_threshold: int,
    seed: int,
    idx: int,
)
    requires
        0 <= iou_threshold,
        area(boxes[seed]) == 0,
        area(boxes[idx]) == 0,
    ensures
        iou(boxes[idx], boxes[seed]) == 0,
        verdict(boxes, scores, score_threshold, iou_threshold, seed, idx) != Verdict::Merged,
        weight(boxes, scores, score_threshold, iou_threshold, seed, idx) == 0,
{
    lemma_iou_of_empty_boxes(boxes[idx], boxes[seed]);
}

/// A candidate that scores below the threshold has no part in any merged box:
/// in every round its verdict is `Noise` and its weight is zero.
pub proof fn lemma_noise_has_no_weight(
    boxes: Seq<BBox>,
    scores: Seq<u16>,
    score_threshold: int,
    iou_threshold: int,
    seed: int,
    idx: int,
)
    requires
        scores[idx] < score_threshold,
    ensures
        verdict(boxes, scores, score_threshold, iou_threshold, seed, idx) == Verdict::Noise,
        weight(boxes, scores, score_threshold, iou_threshold, seed, idx) == 0,
{
}

/// Candidates without weight leave the sums at zero.
proof fn lemma_weightless(
    boxes: Seq<BBox>,
    scores: Seq<u16>,
    score_threshold: int,
    iou_threshold: int,
    seed: int,
    rest: Seq<usize>,
    axis: int,
)
    requires
        forall|k: int|
            0 <= k < rest.len() ==> weight(
                boxes,
                scores,
                score_threshold,
                iou_threshold,
                seed,
                #[trigger] rest[k] as int,
            ) == 0,
    ensures
        total_weight(boxes, scores, score_threshold, iou_threshold, seed, rest) == 0,
        total_moment(boxes, scores, score_threshold, iou_threshold, seed, rest, axis) == 0,
    decreases rest.len(),
{
    if rest.len() > 0 {
        let front = rest.drop_last();
        assert forall|k: int| 0 <= k < front.len() implies weight(
            boxes,
            scores,
            score_threshold,
            iou_threshold,
            seed,
            #[trigger] front[k] as int,
        ) == 0 by {
            assert(front[k] == rest[k]);
        }
        lemma_weightless(boxes, scores, score_threshold, iou_threshold, seed, front, axis);
        assert(rest.last() == rest[rest.len() - 1]);
    }
}

/// A round in which every other candidate stands apart leaves them all.
proof fn lemma_all_apart(
    boxes: Seq<BBox>,
    scores: Seq<u16>,
    score_threshold: int,
    iou_threshold: int,
    seed: int,
    rest: Seq<usize>,
)
    requires
        forall|k: int|
            0 <= k < rest.len() ==> verdict(
                boxes,
                scores,
                score_threshold,
                iou_threshold,
                seed,
                #[trigger] rest[k] as int,
            ) == Verdict::Apart,
    ensures
        survivors(boxes, scores, score_threshold, iou_threshold, seed, rest) == rest,
    decreases rest.len(),
{
    if rest.len() > 0 {
        let front = rest.drop_last();
        assert forall|k: int| 0 <= k < front.len() implies verdict(
            boxes,
            scores,
            score_threshold,
            iou_threshold,
            seed,
            #[trigger] front[k] as int,
        ) == Verdict::Apart by {
            assert(front[k] == rest[k]);
        }
        lemma_all_apart(boxes, scores, score_threshold, iou_threshold, seed, front);
        lemma_round_step(boxes, scores, score_threshold, iou_threshold, seed, rest);
        assert(rest.last() == rest[rest.len() - 1]);
        assert(front.push(rest.last()) =~= rest);
    } else {
        reveal(Seq::filter);
    }
}

/// Every candidate that a round leaves stood apart from the seed, and so
/// scores at least the threshold.
proof fn lemma_survivors_apart(
    boxes: Seq<BBox>,
    scores: Seq<u16>,
    score_threshold: int,
    iou_threshold: int,
    seed: int,
    rest: Seq<usize>,
)
    ensures
        forall|k: int|
            0 <= k < survivors(boxes, scores, score_threshold, iou_threshold, seed, rest).len()
                ==> scores[(#[trigger] survivors(
                boxes,
                scores,
                score_threshold,
                iou_threshold,
                seed,
                rest,
            )[k]) as int] >= score_threshold,
    decreases rest.len(),
{
    if rest.len() > 0 {
        lemma_round_step(boxes, scores, score_threshold, iou_threshold, seed, rest);
        lemma_survivors_apart(
            boxes,
            scores,
            score_threshold,
            iou_threshold,
            seed,
            rest.drop_last(),
        );
    } else {
        reveal(Seq::filter);
    }
}

/// The merged box of a round in which nothing has weight is the seed's own.
proof fn lemma_lone_seed(
    boxes: Seq<BBox>,
    scores: Seq<u16>,
    score_threshold: int,
    iou_threshold: int,
    seed: int,
    rest: Seq<usize>,
)
    requires
        forall|k: int|
            0 <= k < rest.len() ==> weight(
                boxes,
                scores,
                score_threshold,
                iou_threshold,
                seed,
                #[trigger] rest[k] as int,
            ) == 0,
    ensures
        merged_box(boxes, scores, score_threshold, iou_threshold, seed, rest) == boxes[seed],
{
    let w0 = scores[seed] * SCALE;
    assert forall|axis: int| 0 <= axis < 4 implies merged_coord(
        boxes,
        scores,
        score_threshold,
        iou_threshold,
        seed,
        rest,
        axis,
    ) == coord(boxes[seed], axis) by {
        lemma_weightless(boxes, scores, score_threshold, iou_threshold, seed, rest, axis);
        if w0 != 0 {
            lemma_div_multiples_vanish(coord(boxes[seed], axis), w0);
        }
    }
    assert(coord(boxes[seed], 0) == boxes[seed].x1);
    assert(coord(boxes[seed], 1) == boxes[seed].y1);
    assert(coord(boxes[seed], 2) == boxes[seed].x2);
    assert(coord(boxes[seed], 3) == boxes[seed].y2);
}

/// Where every candidate of the pool scores at least the threshold, so does
/// every seed.
proof fn lemma_seeds_of_scoring_pool(
    boxes: Seq<BBox>,
    scores: Seq<u16>,
    score_threshold: int,
    iou_threshold: int,
    pool: Seq<usize>,
)
    requires
        forall|q: int| 0 <= q < pool.len() ==> scores[#[trigger] pool[q] as int] >= score_threshold,
    ensures
        forall|k: int|
            0 <= k < clusters(boxes, scores, score_threshold, iou_threshold, pool).len()
                ==> scores[(#[trigger] clusters(
                boxes,
                scores,
                score_threshold,
                iou_threshold,
                pool,
            )[k]).0 as int] >= score_threshold,
    decreases pool.len(),
{
    if pool.len() > 0 {
        lemma_seed_position_in_range(scores, pool);
        let p = seed_position(scores, pool);
        let seed = pool[p];
        let rest = pool.remove(p);
        let next = survivors(boxes, scores, score_threshold, iou_threshold, seed as int, rest);
        rest.lemma_filter_len(
            |i: usize|
                verdict(boxes, scores, score_threshold, iou_threshold, seed as int, i as int)
                    == Verdict::Apart,
        );
        lemma_survivors_apart(boxes, scores, score_threshold, iou_threshold, seed as int, rest);
        lemma_seeds_of_scoring_pool(boxes, scores, score_threshold, iou_threshold, next);
        let all = clusters(boxes, scores, score_threshold, iou_threshold, pool);
        let tail = clusters(boxes, scores, score_threshold, iou_threshold, next);
        assert forall|k: int| 0 <= k < all.len() implies scores[(#[trigger] all[k]).0 as int]
            >= score_threshold by {
            if k > 0 {
                assert(all[k] == tail[k - 1]);
            }
        }
    }
}

/// A candidate that scores below the threshold is the seed of a cluster only
/// where no candidate reaches the threshold: it is then the seed of the first
/// cluster, and no candidate scores more than it.
pub proof fn lemma_low_score_seed(
    boxes: Seq<BBox>,
    scores: Seq<u16>,
    score_threshold: int,
    iou_threshold: int,
    k: int,
)
    requires
        boxes.len() <= usize::MAX,
        0 <= k < suppress(boxes, scores, score_threshold, iou_threshold).len(),
        scores[suppress(boxes, scores, score_threshold, iou_threshold)[k].0 as int]
            < score_threshold,
    ensures
        k == 0,
        forall|i: int|
            0 <= i < boxes.len() ==> #[trigger] scores[i] <= scores[suppress(
                boxes,
                scores,
                score_threshold,
                iou_threshold,
            )[0].0 as int],
        forall|i: int| 0 <= i < boxes.len() ==> #[trigger] scores[i] < score_threshold,
{
    let pool = full_pool(boxes.len());
    let all = clusters(boxes, scores, score_threshold, iou_threshold, pool);
    lemma_seed_position_in_range(scores, pool);
    lemma_seed_is_first(scores, pool);
    let p = seed_position(scores, pool);
    let seed = pool[p];
    let rest = pool.remove(p);
    let next = survivors(boxes, scores, score_threshold, iou_threshold, seed as int, rest);
    let tail = clusters(boxes, scores, score_threshold, iou_threshold, next);
    lemma_survivors_apart(boxes, scores, score_threshold, iou_threshold, seed as int, rest);
    lemma_seeds_of_scoring_pool(boxes, scores, score_threshold, iou_threshold, next);
    if k > 0 {
        assert(all[k] == tail[k - 1]);
    }
    assert(all[0].0 == seed);
    assert forall|i: int| 0 <= i < boxes.len() implies #[trigger] scores[i] <= scores[seed as int] by {
        assert(pool[i] == i);
        assert(!outranks(scores, pool[i] as int, seed as int));
    }
}

/// The candidates of the pool are all different, their boxes have, two by
/// two, intersection over union zero, and they all score at least the
/// threshold.
pub open spec fn apart_pool(
    boxes: Seq<BBox>,
    scores: Seq<u16>,
    score_threshold: int,
    pool: Seq<usize>,
) -> bool {
    &&& forall|i: int, j: int|
        #![trigger pool[i], pool[j]]
        0 <= i < pool.len() && 0 <= j < pool.len() && i != j ==> pool[i] != pool[j] && iou(
            boxes[pool[i] as int],
            boxes[pool[j] as int],
        ) == 0
    &&& forall|q: int| 0 <= q < pool.len() ==> scores[#[trigger] pool[q] as int] >= score_threshold
}

/// In a pool of candidates that are apart, the round of any of them finds all
/// the others apart and without weight, and leaves a pool of the same kind.
proof fn lemma_apart_round(
    boxes: Seq<BBox>,
    scores: Seq<u16>,
    score_threshold: int,
    iou_threshold: int,
    pool: Seq<usize>,
    p: int,
)
    requires
        0 <= iou_threshold,
        0 <= p < pool.len(),
        apart_pool(boxes, scores, score_threshold, pool),
    ensures
        apart_pool(boxes, scores, score_threshold, pool.remove(p)),
        forall|k: int|
            0 <= k < pool.remove(p).len() ==> verdict(
                boxes,
                scores,
                score_threshold,
                iou_threshold,
                pool[p] as int,
                #[trigger] pool.remove(p)[k] as int,
            ) == Verdict::Apart,
        forall|k: int|
            0 <= k < pool.remove(p).len() ==> weight(
                boxes,
                scores,
                score_threshold,
                iou_threshold,
                pool[p] as int,
                #[trigger] pool.remove(p)[k] as int,
            ) == 0,
{
    let rest = pool.remove(p);
    let seed = pool[p] as int;
    assert forall|k: int| 0 <= k < rest.len() implies verdict(
        boxes,
        scores,
        score_threshold,
        iou_threshold,
        seed,
        #[trigger] rest[k] as int,
    ) == Verdict::Apart && weight(
        boxes,
        scores,
        score_threshold,
        iou_threshold,
        seed,
        rest[k] as int,
    ) == 0 by {
        let q = if k < p {
            k
        } else {
            k + 1
        };
        assert(rest[k] == pool[q]);
        assert(pool[q] != pool[p] && iou(boxes[pool[q] as int], boxes[pool[p] as int]) == 0);
        lemma_ratio_range(boxes[pool[q] as int], boxes[pool[p] as int]);
    }
    assert forall|i: int, j: int|
        #![trigger rest[i], rest[j]]
        0 <= i < rest.len() && 0 <= j < rest.len() && i != j implies rest[i] != rest[j] && iou(
        boxes[rest[i] as int],
        boxes[rest[j] as int],
    ) == 0 by {
        let qi = if i < p {
            i
        } else {
            i + 1
        };
        let qj = if j < p {
            j
        } else {
            j + 1
        };
        assert(rest[i] == pool[qi] && rest[j] == pool[qj]);
    }
    assert forall|q: int| 0 <= q < rest.len() implies scores[#[trigger] rest[q] as int]
        >= score_threshold by {
        let qq = if q < p {
            q
        } else {
            q + 1
        };
        assert(rest[q] == pool[qq]);
    }
}

/// The clusters of a pool of candidates that are apart: as many as
/// candidates, every candidate the seed of one, and each cluster's box its
/// seed's.
pub proof fn lemma_disjoint_pool(
    boxes: Seq<BBox>,
    scores: Seq<u16>,
    score_threshold: int,
    iou_threshold: int,
    pool: Seq<usize>,
)
    requires
        0 <= iou_threshold,
        apart_pool(boxes, scores, score_threshold, pool),
    ensures
        clusters(boxes, scores, score_threshold, iou_threshold, pool).len() == pool.len(),
        forall|k: int|
            0 <= k < pool.len() ==> (#[trigger] clusters(
                boxes,
                scores,
                score_threshold,
                iou_threshold,
                pool,
            )[k]).1 == boxes[clusters(boxes, scores, score_threshold, iou_threshold, pool)[k].0 as int],
        forall|q: int|
            0 <= q < pool.len() ==> has_seed(
                clusters(boxes, scores, score_threshold, iou_threshold, pool),
                #[trigger] pool[q],
            ),
    decreases pool.len(),
{
    if pool.len() > 0 {
        lemma_seed_position_in_range(scores, pool);
        let p = seed_position(scores, pool);
        let seed = pool[p];
        let rest = pool.remove(p);
        lemma_apart_round(boxes, scores, score_threshold, iou_threshold, pool, p);
        lemma_all_apart(boxes, scores, score_threshold, iou_threshold, seed as int, rest);
        lemma_lone_seed(boxes, scores, score_threshold, iou_threshold, seed as int, rest);
        lemma_disjoint_pool(boxes, scores, score_threshold, iou_threshold, rest);
        let all = clusters(boxes, scores, score_threshold, iou_threshold, pool);
        let tail = clusters(boxes, scores, score_threshold, iou_threshold, rest);
        lemma_cons_seeds(all, (seed, boxes[seed as int]), tail, boxes, pool, p);
    }
}

/// What holds of the seeds and boxes of the clusters after the first holds of
/// all of them once the first is the candidate at `p` with its own box.
proof fn lemma_cons_seeds(
    all: Seq<(usize, BBox)>,
    first: (usize, BBox),
    tail: Seq<(usize, BBox)>,
    boxes: Seq<BBox>,
    pool: Seq<usize>,
    p: int,
)
    requires
        0 <= p < pool.len(),
        all == seq![first] + tail,
        first == (pool[p], boxes[pool[p] as int]),
        tail.len() == pool.len() - 1,
        forall|k: int| 0 <= k < tail.len() ==> (#[trigger] tail[k]).1 == boxes[tail[k].0 as int],
        forall|q: int| 0 <= q < pool.len() - 1 ==> has_seed(tail, #[trigger] pool.remove(p)[q]),
    ensures
        all.len() == pool.len(),
        forall|k: int| 0 <= k < all.len() ==> (#[trigger] all[k]).1 == boxes[all[k].0 as int],
        forall|q: int| 0 <= q < pool.len() ==> has_seed(all, #[trigger] pool[q]),
{
    let rest = pool.remove(p);
    assert forall|k: int| 0 <= k < all.len() implies (#[trigger] all[k]).1 == boxes[all[k].0 as int] by {
        if k > 0 {
            assert(all[k] == tail[k - 1]);
        }
    }
    assert forall|q: int| 0 <= q < pool.len() implies has_seed(all, #[trigger] pool[q]) by {
        if q == p {
            assert(all[0].0 == pool[q]);
        } else {
            let r = if q < p {
                q
            } else {
                q - 1
            };
            assert(rest[r] == pool[q]);
            assert(has_seed(tail, rest[r]));
            let kt = choose|kt: int| 0 <= kt < tail.len() && (#[trigger] tail[kt]).0 == rest[r];
            assert(all[kt + 1] == tail[kt]);
        }
    }
}

/// Suppression leaves boxes that share no area as they are: where the boxes,
/// two by two, have intersection over union zero and every score reaches the
/// threshold, there are as many clusters as boxes, every box is the seed of
/// one, and each cluster's box is its seed's.
pub proof fn lemma_disjoint_boxes_unchanged(
    boxes: Seq<BBox>,
    scores: Seq<u16>,
    score_threshold: int,
    iou_threshold: int,
)
    requires
        boxes.len() <= usize::MAX,
        0 <= iou_threshold,
        forall|i: int, j: int|
            0 <= i < boxes.len() && 0 <= j < boxes.len() && i != j ==> iou(
                #[trigger] boxes[i],
                #[trigger] boxes[j],
            ) == 0,
        forall|i: int| 0 <= i < boxes.len() ==> #[trigger] scores[i] >= score_threshold,
    ensures
        suppress(boxes, scores, score_threshold, iou_threshold).len() == boxes.len(),
        forall|k: int|
            0 <= k < boxes.len() ==> (#[trigger] suppress(
                boxes,
                scores,
                score_threshold,
                iou_threshold,
            )[k]).1 == boxes[suppress(boxes, scores, score_threshold, iou_threshold)[k].0 as int],
        forall|i: int|
            0 <= i < boxes.len() ==> #[trigger] has_seed(
                suppress(boxes, scores, score_threshold, iou_threshold),
                i as usize,
            ),
{
    let pool = full_pool(boxes.len());
    assert(apart_pool(boxes, scores, score_threshold, pool));
    lemma_disjoint_pool(boxes, scores, score_threshold, iou_threshold, pool);
    let all = suppress(boxes, scores, score_threshold, iou_threshold);
    assert forall|i: int| 0 <= i < boxes.len() implies #[trigger] has_seed(all, i as usize) by {
        assert(pool[i] == i as usize);
    }
}

/// Two copies of one proper box merge into that box: with an
/// intersection-over-union threshold below one, whatever their scores and the
/// score threshold, suppression gives one cluster, seeded by the copy of
/// higher rank, whose box is the box itself.
pub proof fn lemma_identical_boxes_merge(
    b: BBox,
    s0: u16,
    s1: u16,
    score_threshold: int,
    iou_threshold: int,
)
    requires
        proper(b),
        0 <= iou_threshold < SCALE,
    ensures
        suppress(seq![b, b], seq![s0, s1], score_threshold, iou_threshold) == seq![
            (
                if s1 >= s0 {
                    1usize
                } else {
                    0usize
                },
                b,
            ),
        ],
{
    let boxes = seq![b, b];
    let scores = seq![s0, s1];
    let pool = full_pool(2);
    assert(pool =~= seq![0usize, 1usize]);
    assert(pool.drop_last() =~= seq![0usize]);
    assert(seed_position(scores, pool.drop_last()) == 0);
    let p = seed_position(scores, pool);
    assert(p == if s1 >= s0 {
        1int
    } else {
        0int
    });
    let seed = pool[p];
    let other: usize = if s1 >= s0 {
        0
    } else {
        1
    };
    let rest = pool.remove(p);
    assert(rest =~= seq![other]);
    assert(rest.drop_last() =~= Seq::<usize>::empty());
    lemma_iou_self(b);
    let st = score_threshold;
    let it = iou_threshold;
    let sd = seed as int;
    lemma_round_step(boxes, scores, st, it, sd, rest);
    assert(survivors(boxes, scores, st, it, sd, rest.drop_last()) =~= Seq::<usize>::empty()) by {
        reveal(Seq::filter);
    }
    let v = verdict(boxes, scores, st, it, sd, other as int);
    assert(v != Verdict::Apart);
    let next = survivors(boxes, scores, st, it, sd, rest);
    assert(next =~= Seq::<usize>::empty());
    let w = weight(boxes, scores, st, it, sd, other as int);
    let w0 = scores[sd] * SCALE;
    assert(rest.last() == other);
    assert forall|axis: int| 0 <= axis < 4 implies merged_coord(
        boxes,
        scores,
        st,
        it,
        sd,
        rest,
        axis,
    ) == coord(b, axis) by {
        let c = coord(b, axis);
        assert(total_weight(boxes, scores, st, it, sd, rest.drop_last()) == 0);
        assert(total_moment(boxes, scores, st, it, sd, rest.drop_last(), axis) == 0);
        assert(total_weight(boxes, scores, st, it, sd, rest) == w);
        assert(total_moment(boxes, scores, st, it, sd, rest, axis) == w * c);
        let den = w0 + w;
        assert(0 <= w) by {
            crate::suppress::lemma_weight_range(boxes, scores, st, it, sd, other as int);
        }
        assert(scores[sd] * SCALE * c + w * c == den * c) by (nonlinear_arith)
            requires
                den == scores[sd] * SCALE + w,
        ;
        if den != 0 {
            lemma_div_multiples_vanish(c, den);
        }
    }
    assert(coord(b, 0) == b.x1);
    assert(coord(b, 1) == b.y1);
    assert(coord(b, 2) == b.x2);
    assert(coord(b, 3) == b.y2);
    assert(merged_box(boxes, scores, st, it, sd, rest) == b);
    assert(clusters(boxes, scores, st, it, next) =~= Seq::<(usize, BBox)>::empty());
    assert(clusters(boxes, scores, st, it, pool) =~= seq![(seed, b)]);
}

} // verus!
