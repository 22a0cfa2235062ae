use wonnx_mobile::grid::{cell_at, count_cells, level_for, CellPos, GridLevel};

fn pyramid_416() -> Vec<GridLevel> {
    vec![level_for(8, 416, 416), level_for(16, 416, 416), level_for(32, 416, 416)]
}

#[test]
fn levels_hold_whole_cells() {
    assert_eq!(level_for(8, 416, 416), GridLevel { stride: 8, rows: 52, cols: 52 });
    assert_eq!(level_for(16, 416, 416), GridLevel { stride: 16, rows: 26, cols: 26 });
    assert_eq!(level_for(32, 416, 416), GridLevel { stride: 32, rows: 13, cols: 13 });
    assert_eq!(level_for(32, 100, 70), GridLevel { stride: 32, rows: 3, cols: 2 });
    assert_eq!(level_for(32, 31, 0), GridLevel { stride: 32, rows: 0, cols: 0 });
}

#[test]
fn the_pyramid_counts_all_cells() {
    assert_eq!(count_cells(&pyramid_416()), Some(3549));
    assert_eq!(count_cells(&[]), Some(0));
}

#[test]
fn a_count_beyond_the_machine_word_is_none() {
    let huge = GridLevel { stride: 1, rows: usize::MAX, cols: 2 };
    assert_eq!(count_cells(&[huge]), None);
    let full = GridLevel { stride: 1, rows: usize::MAX, cols: 1 };
    let one = GridLevel { stride: 1, rows: 1, cols: 1 };
    assert_eq!(count_cells(&[full]), Some(usize::MAX));
    assert_eq!(count_cells(&[full, one]), None);
}

#[test]
fn cells_at_the_ends_of_each_level() {
    let levels = pyramid_416();
    assert_eq!(cell_at(&levels, 0), Some(CellPos { level: 0, row: 0, col: 0 }));
    assert_eq!(cell_at(&levels, 53), Some(CellPos { level: 0, row: 1, col: 1 }));
    assert_eq!(cell_at(&levels, 2703), Some(CellPos { level: 0, row: 51, col: 51 }));
    assert_eq!(cell_at(&levels, 2704), Some(CellPos { level: 1, row: 0, col: 0 }));
    assert_eq!(cell_at(&levels, 3379), Some(CellPos { level: 1, row: 25, col: 25 }));
    assert_eq!(cell_at(&levels, 3380), Some(CellPos { level: 2, row: 0, col: 0 }));
    assert_eq!(cell_at(&levels, 3548), Some(CellPos { level: 2, row: 12, col: 12 }));
    assert_eq!(cell_at(&levels, 3549), None);
    assert_eq!(cell_at(&levels, usize::MAX), None);
}

#[test]
fn every_place_belongs_to_exactly_one_cell() {
    let levels = vec![
        GridLevel { stride: 8, rows: 3, cols: 4 },
        GridLevel { stride: 16, rows: 0, cols: 7 },
        GridLevel { stride: 16, rows: 2, cols: 1 },
        GridLevel { stride: 32, rows: 5, cols: 0 },
        GridLevel { stride: 32, rows: 1, cols: 3 },
    ];
    let total = count_cells(&levels).unwrap();
    assert_eq!(total, 17);
    let mut seen: Vec<CellPos> = Vec::new();
    for k in 0..total {
        let c = cell_at(&levels, k).unwrap();
        let level = levels[c.level];
        assert!(c.row < level.rows && c.col < level.cols);
        let before: usize = levels[..c.level].iter().map(|l| l.rows * l.cols).sum();
        assert_eq!(before + c.row * level.cols + c.col, k);
        assert!(!seen.contains(&c));
        seen.push(c);
    }
    assert_eq!(cell_at(&levels, total), None);
}
