use crate::decode::{decode_all, CellBox};
use crate::fixed::floor_div;
use crate::geometry::BBox;
use crate::grid::{count_cells, total_cells, GridLevel};
use crate::interpreter::Interpreter;
use crate::suppress::suppress;
use vstd::arithmetic::div_mod::{lemma_div_is_ordered, lemma_div_multiples_vanish};
use vstd::prelude::*;

verus! {

/// Number of values that a cell's record holds before its class scores: the
/// four of its box, then its objectness.
pub const BOX_FIELDS: usize = 5;

/// Error code: the prediction tensor does not fit the configuration.
pub const ERR_LAYOUT: i32 = -6;

/// One detected object: its class, the score of that class, and its box with
/// `x` divided by the input width and `y` by the input height.
#[derive(Clone, Copy, Debug, PartialEq, Eq, Structural)]
pub struct Detection {
    pub class_id: usize,
    pub score: i32,
    pub bbox: BBox,
}

/// A raw objectness value as a score: negative values count as zero, and
/// values beyond the `u16` range as its end.
pub open spec fn to_score(v: i32) -> u16 {
    if v < 0 {
        0
    } else if v > u16::MAX {
        u16::MAX
    } else {
        v as u16
    }
}

/// The box fields of the record of cell `k`.
pub open spec fn cell_box(preds: Seq<i32>, row_len: int, k: int) -> CellBox {
    CellBox {
        tx: preds[k * row_len],
        ty: preds[k * row_len + 1],
        sw: preds[k * row_len + 2],
        sh: preds[k * row_len + 3],
    }
}

/// The box fields of the first `n` records.
pub open spec fn cell_boxes(preds: Seq<i32>, row_len: int, n: nat) -> Seq<CellBox> {
    Seq::new(n, |k: int| cell_box(preds, row_len, k))
}

/// The objectness scores of the first `n` records.
pub open spec fn objectness(preds: Seq<i32>, row_len: int, n: nat) -> Seq<u16> {
    Seq::new(n, |k: int| to_score(preds[k * row_len + 4]))
}

/// The class scores of the record of cell `k`.
pub open spec fn class_scores(preds: Seq<i32>, row_len: int, k: int) -> Seq<i32> {
    preds.subrange(k * row_len + BOX_FIELDS, (k + 1) * row_len)
}

/// Index of the greatest of `scores`; of the last one where several are
/// greatest.
pub open spec fn best_class(scores: Seq<i32>) -> int
    decreases scores.len(),
{
    if scores.len() <= 1 {
        0
    } else {
        let p = best_class(scores.drop_last());
        if scores.last() >= scores[p] {
            scores.len() - 1
        } else {
            p
        }
    }
}

/// The box with `x` divided by `width` and `y` by `height`, rounded down.
pub open spec fn normalized(b: BBox, width: int, height: int) -> BBox {
    BBox {
        x1: (b.x1 as int / width) as i32,
        y1: (b.y1 as int / height) as i32,
        x2: (b.x2 as int / width) as i32,
        y2: (b.y2 as int / height) as i32,
    }
}

/// The detection that a cluster stands for: class and score from the record
/// of its seed, box from the cluster.
pub open spec fn detection_of(
    preds: Seq<i32>,
    row_len: int,
    width: int,
    height: int,
    cluster: (usize, BBox),
) -> Detection {
    let scores = class_scores(preds, row_len, cluster.0 as int);
    let class = best_class(scores);
    Detection {
        class_id: class as usize,
        score: scores[class],
        bbox: normalized(cluster.1, width, height),
    }
}

/// Whether a tensor of `len` values fits the configuration: at least one
/// class, an input with positive sides, and one record for each cell.
pub open spec fn layout_ok(
    len: nat,
    levels: Seq<GridLevel>,
    classes: nat,
    width: nat,
    height: nat,
) -> bool {
    &&& classes >= 1
    &&& width >= 1
    &&& height >= 1
    &&& len == total_cells(levels) * (BOX_FIELDS + classes)
}

/// The detections in a prediction tensor: the cells' boxes decoded, the
/// clusters among them, and the detection of each cluster, in the clusters'
/// order.
pub open spec fn detections(
    preds: Seq<i32>,
    levels: Seq<GridLevel>,
    classes: nat,
    width: nat,
    height: nat,
    score_threshold: int,
    iou_threshold: int,
) -> Seq<Detection> {
    let row_len = (BOX_FIELDS + classes) as int;
    let n = total_cells(levels);
    let found = suppress(
        decode_all(levels, cell_boxes(preds, row_len, n)),
        objectness(preds, row_len, n),
        score_threshold,
        iou_threshold,
    );
    Seq::new(
        found.len(),
        |i: int| detection_of(preds, row_len, width as int, height as int, found[i]),
    )
}

/// The index `best_class` gives lies among the scores.
pub proof fn lemma_best_class(scores: Seq<i32>)
    requires
        scores.len() > 0,
    ensures
        0 <= best_class(scores) < scores.len(),
        forall|j: int|
            0 <= j < scores.len() ==> #[trigger] scores[j] <= scores[best_class(scores)],
        forall|j: int|
            best_class(scores) < j < scores.len() ==> #[trigger] scores[j] < scores[best_class(
                scores,
            )],
    decreases scores.len(),
{
    if scores.len() > 1 {
        lemma_best_class(scores.drop_last());
        let p = best_class(scores.drop_last());
        assert(scores.drop_last()[p] == scores[p]);
        assert forall|j: int| 0 <= j < scores.len() implies #[trigger] scores[j]
            <= scores[best_class(scores)] by {
            if j < scores.len() - 1 {
                assert(scores.drop_last()[j] == scores[j]);
            }
        }
        assert forall|j: int| best_class(scores) < j < scores.len() implies #[trigger] scores[j]
            < scores[best_class(scores)] by {
            if j < scores.len() - 1 {
                assert(scores.drop_last()[j] == scores[j]);
            }
        }
    }
}

/// A raw objectness value as a score.
pub fn score_of(v: i32) -> (s: u16)
    ensures
        s == to_score(v),
{
    if v < 0 {
        0
    } else if v > 65535 {
        65535
    } else {
        v as u16
    }
}

/// Whether the value at `index` of a tensor with records of `row_len` values
/// is one of a box's extents, which the network gives as logarithms.
pub fn is_extent(index: usize, row_len: usize) -> (r: bool)
    ensures
        r == (row_len > 0 && (index as int % row_len as int == 2 || index as int % row_len as int
            == 3)),
{
    if row_len == 0 {
        false
    } else {
        let field = index % row_len;
        field == 2 || field == 3
    }
}

/// One coordinate divided by a side of the input, rounded down.
fn scale_down(v: i32, side: usize) -> (r: i32)
    requires
        side >= 1,
    ensures
        r == v as int / side as int,
{
    proof {
        let d = side as int;
        assert(i32::MIN * d <= v <= i32::MAX * d) by (nonlinear_arith)
            requires
                d >= 1,
                i32::MIN <= v <= i32::MAX,
        ;
        assert(i32::MIN * d == d * i32::MIN && i32::MAX * d == d * i32::MAX) by (nonlinear_arith);
        lemma_div_is_ordered(i32::MIN * d, v as int, d);
        lemma_div_is_ordered(v as int, i32::MAX * d, d);
        lemma_div_multiples_vanish(i32::MIN as int, d);
        lemma_div_multiples_vanish(i32::MAX as int, d);
    }
    let q = floor_div(v as i128, side as i128);
    q as i32
}

/// The box with `x` divided by `width` and `y` by `height`.
pub fn normalize(b: BBox, width: usize, height: usize) -> (r: BBox)
    requires
        width >= 1,
        height >= 1,
    ensures
        r == normalized(b, width as int, height as int),
{
    BBox {
        x1: scale_down(b.x1, width),
        y1: scale_down(b.y1, height),
        x2: scale_down(b.x2, width),
        y2: scale_down(b.y2, height),
    }
}

/// Index of the greatest of the values of `preds` from `start` up to `end`,
/// counted from `start`.
fn arg_max(preds: &[i32], start: usize, end: usize) -> (best: usize)
    requires
        start < end <= preds.len(),
    ensures
        best == best_class(preds@.subrange(start as int, end as int)),
        start + best < end,
{
    let ghost all = preds@.subrange(start as int, end as int);
    let mut best: usize = 0;
    let mut j: usize = 1;
    assert(all.take(1).len() == 1);
    while j < end - start
        invariant
            start < end <= preds.len(),
            all == preds@.subrange(start as int, end as int),
            1 <= j <= end - start,
            best < j,
            best == best_class(all.take(j as int)),
        decreases end - start - j,
    {
        proof {
            assert(all.take(j + 1).drop_last() =~= all.take(j as int));
            assert(all.take(j + 1).last() == preds@[start + j]);
            assert(all.take(j as int)[best as int] == preds@[start + best]);
        }
        if preds[start + j] >= preds[start + best] {
            best = j;
        }
        j = j + 1;
    }
    assert(all.take((end - start) as int) =~= all);
    best
}

/// Finds the objects in a prediction tensor.
///
/// `preds` holds one record for each cell of `levels`, in the flat order: the
/// cell's box, its objectness, and a score for each of `classes` classes. The
/// boxes are decoded, clustered by weighted cluster suppression on their
/// objectness with the two thresholds, and each cluster gives one detection:
/// the best class of its seed and that class's score, with the cluster's box
/// normalised by the input's `width` and `height`.
///
/// Fails with `ERR_LAYOUT` where the tensor does not fit the configuration.
pub fn detect(
    preds: &[i32],
    levels: &[GridLevel],
    classes: usize,
    width: usize,
    height: usize,
    score_threshold: u16,
    iou_threshold: u32,
) -> (r: Result<Vec<Detection>, i32>)
    ensures
        layout_ok(preds@.len(), levels@, classes as nat, width as nat, height as nat) ==> r is Ok
            && r->Ok_0@ == detections(
            preds@,
            levels@,
            classes as nat,
            width as nat,
            height as nat,
            score_threshold as int,
            iou_threshold as int,
        ),
        !layout_ok(preds@.len(), levels@, classes as nat, width as nat, height as nat) ==> r == Err::<
            Vec<Detection>,
            i32,
        >(ERR_LAYOUT),
{
    let len = preds.len();
    if classes == 0 || width == 0 || height == 0 {
        return Err(ERR_LAYOUT);
    }
    let n = match count_cells(levels) {
        Some(n) => n,
        None => {
            assert(total_cells(levels@) * (BOX_FIELDS + classes) > usize::MAX) by (nonlinear_arith)
                requires
                    total_cells(levels@) > usize::MAX,
                    BOX_FIELDS + classes >= 1,
            ;
            return Err(ERR_LAYOUT);
        },
    };
    let ghost row = (BOX_FIELDS + classes) as int;
    if n == 0 {
        assert(n * row == 0) by (nonlinear_arith)
            requires
                n == 0,
        ;
        if len != 0 {
            return Err(ERR_LAYOUT);
        }
    } else {
        assert(n * row >= row) by (nonlinear_arith)
            requires
                n >= 1,
                row >= 0,
        ;
        match classes.checked_add(BOX_FIELDS) {
            None => {
                return Err(ERR_LAYOUT);
            },
            Some(row_len) => match n.checked_mul(row_len) {
                None => {
                    return Err(ERR_LAYOUT);
                },
                Some(fit) => {
                    if fit != len {
                        return Err(ERR_LAYOUT);
                    }
                },
            },
        }
    }
    let row_len: usize = if n == 0 {
        0
    } else {
        classes + BOX_FIELDS
    };
    let mut positions: Vec<CellBox> = Vec::new();
    let mut scores: Vec<u16> = Vec::new();
    let mut k: usize = 0;
    while k < n
        invariant
            k <= n,
            n > 0 ==> row_len == row,
            row >= 6,
            n * row == preds.len(),
            positions@ == cell_boxes(preds@, row, k as nat),
            scores@ == objectness(preds@, row, k as nat),
        decreases n - k,
    {
        assert(0 <= k * row && k * row + row <= n * row) by (nonlinear_arith)
            requires
                0 <= k < n,
                row >= 0,
        ;
        let at = k * row_len;
        positions.push(
            CellBox { tx: preds[at], ty: preds[at + 1], sw: preds[at + 2], sh: preds[at + 3] },
        );
        scores.push(score_of(preds[at + 4]));
        proof {
            assert(positions@ =~= cell_boxes(preds@, row, (k + 1) as nat));
            assert(scores@ =~= objectness(preds@, row, (k + 1) as nat));
        }
        k = k + 1;
    }
    let boxes = Interpreter::calc_locations(positions.as_slice(), levels);
    let found = Interpreter::non_max_suppression(
        boxes.as_slice(),
        scores.as_slice(),
        score_threshold,
        iou_threshold,
    );
    let mut out: Vec<Detection> = Vec::new();
    let mut i: usize = 0;
    while i < found.len()
        invariant
            i <= found.len(),
            width >= 1,
            height >= 1,
            n > 0 ==> row_len == row,
            row >= 6,
            n * row == preds.len(),
            forall|j: int| 0 <= j < found.len() ==> (#[trigger] found[j]).0 < n,
            out.len() == i,
            forall|j: int|
                0 <= j < i ==> out[j] == detection_of(
                    preds@,
                    row,
                    width as int,
                    height as int,
                    found[j],
                ),
        decreases found.len() - i,
    {
        let (seed, merged) = found[i];
        assert(seed == found[i as int].0);
        assert(0 <= seed * row && seed * row + row <= n * row) by (nonlinear_arith)
            requires
                0 <= seed < n,
                row >= 0,
        ;
        assert((seed + 1) * row == seed * row + row) by (nonlinear_arith);
        let start = seed * row_len + BOX_FIELDS;
        let end = seed * row_len + row_len;
        let class = arg_max(preds, start, end);
        proof {
            let all = class_scores(preds@, row, seed as int);
            assert(all =~= preds@.subrange(start as int, end as int));
            assert(all[class as int] == preds@[start + class]);
        }
        out.push(
            Detection {
                class_id: class,
                score: preds[start + class],
                bbox: normalize(merged, width, height),
            },
        );
        i = i + 1;
    }
    proof {
        assert(out@ =~= detections(
            preds@,
            levels@,
            classes as nat,
            width as nat,
            height as nat,
            score_threshold as int,
            iou_threshold as int,
        ));
    }
    Ok(out)
}

} // verus!
