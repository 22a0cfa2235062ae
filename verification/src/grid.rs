use vstd::arithmetic::div_mod::{
    lemma_fundamental_div_mod, lemma_fundamental_div_mod_converse, lemma_mod_bound,
};
use vstd::prelude::*;

verus! {

/// One feature-map scale of the detector: `rows` by `cols` cells, each a
/// square of `stride` pixels.
#[derive(Clone, Copy, Debug, PartialEq, Eq, Structural)]
pub struct GridLevel {
    pub stride: u32,
    pub rows: usize,
    pub cols: usize,
}

/// A cell of a list of levels: the level, and the row and column in it.
#[derive(Clone, Copy, Debug, PartialEq, Eq, Structural)]
pub struct CellPos {
    pub level: usize,
    pub row: usize,
    pub col: usize,
}

/// Number of cells of a level.
pub open spec fn cells(level: GridLevel) -> nat {
    (level.rows * level.cols) as nat
}

/// Number of cells of all the levels together.
pub open spec fn total_cells(levels: Seq<GridLevel>) -> nat
    decreases levels.len(),
{
    if levels.len() == 0 {
        0
    } else {
        total_cells(levels.drop_last()) + cells(levels.last())
    }
}

/// Whether `c` names a cell of `levels`.
pub open spec fn valid_cell(levels: Seq<GridLevel>, c: CellPos) -> bool {
    &&& c.level < levels.len()
    &&& c.row < levels[c.level as int].rows
    &&& c.col < levels[c.level as int].cols
}

/// Place of a cell in the flat order: the levels one after another, each row
/// by row.
pub open spec fn flat_index(levels: Seq<GridLevel>, c: CellPos) -> int {
    total_cells(levels.take(c.level as int)) + c.row * levels[c.level as int].cols + c.col
}

/// The cell at place `k` of the flat order, for `k` below `total_cells(levels)`.
pub open spec fn locate(levels: Seq<GridLevel>, k: int) -> CellPos
    decreases levels.len(),
{
    if levels.len() == 0 {
        CellPos { level: 0, row: 0, col: 0 }
    } else {
        let before = total_cells(levels.drop_last()) as int;
        if k >= before {
            let cols = levels.last().cols as int;
            CellPos {
                level: (levels.len() - 1) as usize,
                row: ((k - before) / cols) as usize,
                col: ((k - before) % cols) as usize,
            }
        } else {
            locate(levels.drop_last(), k)
        }
    }
}

/// The levels up to any point hold no more cells than all of them.
pub proof fn lemma_total_cells_prefix(levels: Seq<GridLevel>, l: int)
    requires
        0 <= l <= levels.len(),
    ensures
        total_cells(levels.take(l)) <= total_cells(levels),
        l < levels.len() ==> total_cells(levels.take(l)) + cells(levels[l]) <= total_cells(levels),
        l < levels.len() ==> total_cells(levels.take(l + 1)) == total_cells(levels.take(l)) + cells(
            levels[l],
        ),
    decreases levels.len(),
{
    if l == levels.len() {
        assert(levels.take(l) =~= levels);
    } else {
        assert(levels.take(l + 1).drop_last() =~= levels.take(l));
        if l == levels.len() - 1 {
            assert(levels.take(l + 1) =~= levels);
        } else {
            lemma_total_cells_prefix(levels.drop_last(), l);
            assert(levels.drop_last().take(l) =~= levels.take(l));
            assert(levels.drop_last().take(l + 1) =~= levels.take(l + 1));
        }
    }
}

/// `row * cols + col` for a column below `cols` determines both, and lies
/// below `rows * cols` for a row below `rows`.
proof fn lemma_row_major(rows: int, cols: int, row: int, col: int)
    requires
        0 <= row < rows,
        0 <= col < cols,
    ensures
        0 <= row * cols + col < rows * cols,
        (row * cols + col) / cols == row,
        (row * cols + col) % cols == col,
{
    assert(0 <= row * cols && row * cols + cols <= rows * cols) by (nonlinear_arith)
        requires
            0 <= row < rows,
            0 < cols,
    ;
    lemma_fundamental_div_mod_converse(row * cols + col, cols, row, col);
}

/// Every place of the flat order belongs to a cell, and to that cell alone:
/// `locate` gives a cell of the levels whose place is `k`.
pub proof fn lemma_locate(levels: Seq<GridLevel>, k: int)
    requires
        levels.len() <= usize::MAX,
        0 <= k < total_cells(levels),
    ensures
        valid_cell(levels, locate(levels, k)),
        flat_index(levels, locate(levels, k)) == k,
    decreases levels.len(),
{
    let n = levels.len() as int;
    let before = total_cells(levels.drop_last()) as int;
    assert(levels.take(n - 1) =~= levels.drop_last());
    if k >= before {
        let last = levels.last();
        let cols = last.cols as int;
        let rows = last.rows as int;
        let r = k - before;
        assert(0 <= r < rows * cols);
        assert(cols > 0) by (nonlinear_arith)
            requires
                0 <= r < rows * cols,
                0 <= cols,
                0 <= rows,
        ;
        lemma_fundamental_div_mod(r, cols);
        lemma_mod_bound(r, cols);
        let q = r / cols;
        let m = r % cols;
        assert(0 <= q < rows) by (nonlinear_arith)
            requires
                r == cols * q + m,
                0 <= m < cols,
                0 <= r < rows * cols,
                0 <= rows,
        ;
        assert(q * cols == cols * q) by (nonlinear_arith);
    } else {
        lemma_locate(levels.drop_last(), k);
        let c = locate(levels.drop_last(), k);
        assert(levels.drop_last().take(c.level as int) =~= levels.take(c.level as int));
    }
}

/// Every cell has a place of its own in the flat order: the place lies below
/// the number of cells, and `locate` leads from it back to the cell.
pub proof fn lemma_flat_index(levels: Seq<GridLevel>, c: CellPos)
    requires
        valid_cell(levels, c),
    ensures
        0 <= flat_index(levels, c) < total_cells(levels),
        locate(levels, flat_index(levels, c)) == c,
    decreases levels.len(),
{
    let n = levels.len() as int;
    let l = c.level as int;
    let level = levels[l];
    lemma_row_major(level.rows as int, level.cols as int, c.row as int, c.col as int);
    lemma_total_cells_prefix(levels, l);
    assert(levels.take(n - 1) =~= levels.drop_last());
    if l == n - 1 {
    } else {
        lemma_total_cells_prefix(levels.drop_last(), l);
        assert(levels.drop_last().take(l) =~= levels.take(l));
        lemma_flat_index(levels.drop_last(), c);
    }
}

/// Two cells with the same place are the same cell.
pub proof fn lemma_flat_index_injective(levels: Seq<GridLevel>, a: CellPos, b: CellPos)
    requires
        valid_cell(levels, a),
        valid_cell(levels, b),
        flat_index(levels, a) == flat_index(levels, b),
    ensures
        a == b,
{
    lemma_flat_index(levels, a);
    lemma_flat_index(levels, b);
}

/// The level for one stride on an input of `height` by `width` pixels: as many
/// whole cells as fit each way.
pub fn level_for(stride: u32, height: usize, width: usize) -> (level: GridLevel)
    requires
        stride > 0,
    ensures
        level.stride == stride,
        level.rows == height as int / stride as int,
        level.cols == width as int / stride as int,
{
    GridLevel { stride, rows: height / (stride as usize), cols: width / (stride as usize) }
}

/// Number of cells of all the levels together, or `None` where that number
/// does not fit a `usize`.
pub fn count_cells(levels: &[GridLevel]) -> (total: Option<usize>)
    ensures
        match total {
            Some(t) => t == total_cells(levels@),
            None => total_cells(levels@) > usize::MAX,
        },
{
    let mut sum: usize = 0;
    let mut l: usize = 0;
    assert(levels@.take(0) =~= Seq::<GridLevel>::empty());
    while l < levels.len()
        invariant
            l <= levels.len(),
            sum == total_cells(levels@.take(l as int)),
        decreases levels.len() - l,
    {
        let level = levels[l];
        proof {
            lemma_total_cells_prefix(levels@, l as int);
        }
        match level.rows.checked_mul(level.cols) {
            None => {
                return None;
            },
            Some(n) => match sum.checked_add(n) {
                None => {
                    return None;
                },
                Some(next) => {
                    sum = next;
                },
            },
        }
        l = l + 1;
    }
    assert(levels@.take(levels.len() as int) =~= levels@);
    Some(sum)
}

/// The cell at place `k` of the flat order, or `None` where `k` is not below
/// the number of cells.
pub fn cell_at(levels: &[GridLevel], k: usize) -> (cell: Option<CellPos>)
    ensures
        match cell {
            Some(c) => k < total_cells(levels@) && c == locate(levels@, k as int),
            None => k >= total_cells(levels@),
        },
{
    let mut before: usize = 0;
    let mut l: usize = 0;
    assert(levels@.take(0) =~= Seq::<GridLevel>::empty());
    while l < levels.len()
        invariant
            l <= levels.len(),
            before == total_cells(levels@.take(l as int)),
            before <= k,
        decreases levels.len() - l,
    {
        let level = levels[l];
        let rest = k - before;
        proof {
            lemma_total_cells_prefix(levels@, l as int);
        }
        let inside = match level.rows.checked_mul(level.cols) {
            None => true,
            Some(n) => rest < n,
        };
        if inside {
            assert(level.cols > 0) by (nonlinear_arith)
                requires
                    0 <= rest < level.rows * level.cols,
            ;
            let c = CellPos { level: l, row: rest / level.cols, col: rest % level.cols };
            proof {
                let r = rest as int;
                let cols = level.cols as int;
                lemma_fundamental_div_mod(r, cols);
                lemma_mod_bound(r, cols);
                assert(0 <= r / cols < level.rows) by (nonlinear_arith)
                    requires
                        r == cols * (r / cols) + r % cols,
                        0 <= r % cols < cols,
                        0 <= r < level.rows * cols,
                ;
                assert((r / cols) * cols == cols * (r / cols)) by (nonlinear_arith);
                assert(valid_cell(levels@, c));
                assert(flat_index(levels@, c) == k);
                lemma_flat_index(levels@, c);
            }
            return Some(c);
        }
        before = before + level.rows * level.cols;
        l = l + 1;
    }
    assert(levels@.take(levels.len() as int) =~= levels@);
    None
}

} // verus!
