use crate::fixed::{clamp, floor_div, saturate, SCALE};
use crate::geometry::BBox;
use crate::grid::{
    cells, lemma_flat_index, lemma_total_cells_prefix, locate, total_cells, CellPos, GridLevel,
};
use crate::interpreter::Interpreter;
use vstd::prelude::*;

verus! {

/// What the network predicts for the box of one cell, in fixed point: the
/// offset `(tx, ty)` of the centre from the cell's corner, in cells, and the
/// extent `(sw, sh)` in cells, that is the exponential of the network's
/// log-size outputs.
#[derive(Clone, Copy, Debug, PartialEq, Eq, Structural)]
pub struct CellBox {
    pub tx: i32,
    pub ty: i32,
    pub sw: i32,
    pub sh: i32,
}

/// The box that a cell at `(row, col)` of a level with the given stride
/// predicts: centred at the cell's corner plus the offset, with the extent
/// halved to either side, all scaled by the stride. A coordinate beyond the
/// `i32` range takes the nearest end of it.
pub open spec fn decode_cell(stride: int, row: int, col: int, raw: CellBox) -> BBox {
    let cx = (col * SCALE + raw.tx) * stride;
    let cy = (row * SCALE + raw.ty) * stride;
    let hw = (raw.sw * stride) / 2;
    let hh = (raw.sh * stride) / 2;
    BBox { x1: clamp(cx - hw), y1: clamp(cy - hh), x2: clamp(cx + hw), y2: clamp(cy + hh) }
}

/// The box at place `k` of the flat order.
pub open spec fn decode_at(levels: Seq<GridLevel>, positions: Seq<CellBox>, k: int) -> BBox {
    let c = locate(levels, k);
    decode_cell(levels[c.level as int].stride as int, c.row as int, c.col as int, positions[k])
}

/// The boxes of all cells, in the flat order.
pub open spec fn decode_all(levels: Seq<GridLevel>, positions: Seq<CellBox>) -> Seq<BBox> {
    Seq::new(positions.len(), |k: int| decode_at(levels, positions, k))
}

/// Centre of a cell along one axis, in fixed-point pixels.
fn centre(index: usize, offset: i32, stride: u32) -> (c: i128)
    ensures
        c == (index * SCALE + offset) * stride,
        -0x1_0000_0000_0000_0000_0000_0000_0000 <= c <= 0x1_0000_0000_0000_0000_0000_0000_0000,
{
    let cell: i128 = (index as i128) * (SCALE as i128) + (offset as i128);
    assert(-0x1_0000_0000_0000_0000_0000_0000_0000 <= cell * stride
        <= 0x1_0000_0000_0000_0000_0000_0000_0000) by (nonlinear_arith)
        requires
            -0x1_0000_0000_0000_0000_0000 <= cell <= 0x1_0000_0000_0000_0000_0000,
            0 <= stride <= 0x1_0000_0000,
    ;
    cell * (stride as i128)
}

/// Half the extent of a box along one axis, in fixed-point pixels, rounded down.
fn half_extent(extent: i32, stride: u32) -> (h: i128)
    ensures
        h == (extent * stride) / 2,
        -0x1_0000_0000_0000_0000 <= h <= 0x1_0000_0000_0000_0000,
{
    assert(-0x1_0000_0000_0000_0000 <= extent * stride <= 0x1_0000_0000_0000_0000)
        by (nonlinear_arith)
        requires
            -0x1_0000_0000 <= extent <= 0x1_0000_0000,
            0 <= stride <= 0x1_0000_0000,
    ;
    floor_div((extent as i128) * (stride as i128), 2)
}

/// The box that one cell predicts.
pub fn decode_one(stride: u32, row: usize, col: usize, raw: CellBox) -> (b: BBox)
    ensures
        b == decode_cell(stride as int, row as int, col as int, raw),
{
    let cx = centre(col, raw.tx, stride);
    let cy = centre(row, raw.ty, stride);
    let hw = half_extent(raw.sw, stride);
    let hh = half_extent(raw.sh, stride);
    BBox {
        x1: saturate(cx - hw),
        y1: saturate(cy - hh),
        x2: saturate(cx + hw),
        y2: saturate(cy + hh),
    }
}

impl Interpreter {
    /// Decodes the boxes of all cells: one box for each entry of `positions`,
    /// in the same order, each from the cell that `locate` gives for its place.
    pub fn calc_locations(positions: &[CellBox], levels: &[GridLevel]) -> (locs: Vec<BBox>)
        requires
            positions.len() == total_cells(levels@),
        ensures
            locs@ == decode_all(levels@, positions@),
            locs.len() == total_cells(levels@),
    {
        let mut locs: Vec<BBox> = Vec::new();
        let mut l: usize = 0;
        assert(levels@.take(0) =~= Seq::<GridLevel>::empty());
        while l < levels.len()
            invariant
                l <= levels.len(),
                positions.len() == total_cells(levels@),
                locs.len() == total_cells(levels@.take(l as int)),
                forall|k: int|
                    0 <= k < locs.len() ==> locs[k] == decode_at(levels@, positions@, k),
            decreases levels.len() - l,
        {
            let level = levels[l];
            let ghost before = locs.len() as int;
            proof {
                lemma_total_cells_prefix(levels@, l as int);
            }
            let mut row: usize = 0;
            while row < level.rows && level.cols > 0
                invariant
                    l < levels.len(),
                    level == levels@[l as int],
                    positions.len() == total_cells(levels@),
                    before == total_cells(levels@.take(l as int)),
                    before + cells(level) <= total_cells(levels@),
                    row <= level.rows,
                    level.cols == 0 ==> row == 0,
                    locs.len() == before + row * level.cols,
                    forall|k: int|
                        0 <= k < locs.len() ==> locs[k] == decode_at(levels@, positions@, k),
                decreases level.rows - row,
            {
                let mut col: usize = 0;
                while col < level.cols
                    invariant
                        l < levels.len(),
                        level == levels@[l as int],
                        positions.len() == total_cells(levels@),
                        before == total_cells(levels@.take(l as int)),
                        before + cells(level) <= total_cells(levels@),
                        row < level.rows,
                        col <= level.cols,
                        locs.len() == before + row * level.cols + col,
                        forall|k: int|
                            0 <= k < locs.len() ==> locs[k] == decode_at(levels@, positions@, k),
                    decreases level.cols - col,
                {
                    let k = locs.len();
                    proof {
                        let c = CellPos { level: l, row, col };
                        lemma_flat_index(levels@, c);
                    }
                    let b = decode_one(level.stride, row, col, positions[k]);
                    locs.push(b);
                    col = col + 1;
                }
                assert(before + row * level.cols + level.cols == before + (row + 1) * level.cols)
                    by (nonlinear_arith);
                row = row + 1;
            }
            assert(locs.len() == before + cells(level)) by {
                if level.cols == 0 {
                    assert(level.rows * level.cols == 0) by (nonlinear_arith)
                        requires
                            level.cols == 0,
                    ;
                }
            }
            l = l + 1;
        }
        assert(levels@.take(levels.len() as int) =~= levels@);
        assert(locs@ =~= decode_all(levels@, positions@));
        locs
    }
}

} // verus!
