use wonnx_mobile::decode::{decode_one, CellBox};
use wonnx_mobile::fixed::SCALE;
use wonnx_mobile::geometry::BBox;
use wonnx_mobile::grid::GridLevel;
use wonnx_mobile::interpreter::Interpreter;

const ONE: i32 = SCALE as i32;

fn unit_cell() -> CellBox {
    CellBox { tx: 0, ty: 0, sw: ONE, sh: ONE }
}

#[test]
fn single_anchor_round_trip() {
    // Offsets zero and log-sizes zero at stride 8, row 1, column 1: centre
    // (8, 8), size (8, 8).
    let b = decode_one(8, 1, 1, unit_cell());
    assert_eq!(b, BBox { x1: 4 * ONE, y1: 4 * ONE, x2: 12 * ONE, y2: 12 * ONE });
}

#[test]
fn offsets_move_the_centre_by_parts_of_a_cell() {
    let raw = CellBox { tx: ONE / 2, ty: ONE / 4, sw: 2 * ONE, sh: ONE };
    let b = decode_one(16, 3, 2, raw);
    // Centre x = 2.5 * 16 = 40, y = 3.25 * 16 = 52; size 32 by 16.
    assert_eq!(b, BBox { x1: 24 * ONE, y1: 44 * ONE, x2: 56 * ONE, y2: 60 * ONE });
}

#[test]
fn half_extents_round_down() {
    let b = decode_one(1, 0, 0, CellBox { tx: 0, ty: 0, sw: 1, sh: 3 });
    assert_eq!(b, BBox { x1: 0, y1: -1, x2: 0, y2: 1 });
    let b = decode_one(1, 0, 0, CellBox { tx: 0, ty: 0, sw: -1, sh: -3 });
    assert_eq!(b, BBox { x1: 1, y1: 2, x2: -1, y2: -2 });
}

#[test]
fn a_negative_extent_gives_a_reversed_box() {
    let b = decode_one(8, 0, 0, CellBox { tx: 0, ty: 0, sw: -ONE, sh: ONE });
    assert_eq!(b, BBox { x1: 4 * ONE, y1: -4 * ONE, x2: -4 * ONE, y2: 4 * ONE });
}

#[test]
fn coordinates_beyond_the_range_take_its_end() {
    let raw = CellBox { tx: i32::MAX, ty: i32::MIN, sw: 0, sh: 0 };
    let b = decode_one(u32::MAX, 0, 0, raw);
    assert_eq!(b, BBox { x1: i32::MAX, y1: i32::MIN, x2: i32::MAX, y2: i32::MIN });
    let far = decode_one(u32::MAX, usize::MAX, usize::MAX, unit_cell());
    assert_eq!(far.x1, i32::MAX);
    assert_eq!(far.y2, i32::MAX);
    let wide = decode_one(u32::MAX, 0, 0, CellBox { tx: 0, ty: 0, sw: i32::MAX, sh: ONE });
    assert_eq!(wide.x1, i32::MIN);
    assert_eq!(wide.x2, i32::MAX);
}

#[test]
fn locations_follow_the_flat_order_of_the_levels() {
    let levels = [
        GridLevel { stride: 8, rows: 2, cols: 2 },
        GridLevel { stride: 16, rows: 1, cols: 1 },
    ];
    let positions = vec![unit_cell(); 5];
    let locs = Interpreter::calc_locations(&positions, &levels);
    assert_eq!(
        locs,
        vec![
            BBox { x1: -4 * ONE, y1: -4 * ONE, x2: 4 * ONE, y2: 4 * ONE },
            BBox { x1: 4 * ONE, y1: -4 * ONE, x2: 12 * ONE, y2: 4 * ONE },
            BBox { x1: -4 * ONE, y1: 4 * ONE, x2: 4 * ONE, y2: 12 * ONE },
            BBox { x1: 4 * ONE, y1: 4 * ONE, x2: 12 * ONE, y2: 12 * ONE },
            BBox { x1: -8 * ONE, y1: -8 * ONE, x2: 8 * ONE, y2: 8 * ONE },
        ]
    );
}

#[test]
fn locations_skip_levels_without_cells() {
    let levels = [
        GridLevel { stride: 8, rows: 5, cols: 0 },
        GridLevel { stride: 16, rows: 1, cols: 2 },
        GridLevel { stride: 32, rows: 0, cols: 9 },
    ];
    let positions = vec![unit_cell(); 2];
    let locs = Interpreter::calc_locations(&positions, &levels);
    assert_eq!(
        locs,
        vec![
            BBox { x1: -8 * ONE, y1: -8 * ONE, x2: 8 * ONE, y2: 8 * ONE },
            BBox { x1: 8 * ONE, y1: -8 * ONE, x2: 24 * ONE, y2: 8 * ONE },
        ]
    );
    assert_eq!(Interpreter::calc_locations(&[], &[]), Vec::<BBox>::new());
}

#[test]
fn there_are_as_many_locations_as_cells() {
    let levels = [
        GridLevel { stride: 8, rows: 52, cols: 52 },
        GridLevel { stride: 16, rows: 26, cols: 26 },
        GridLevel { stride: 32, rows: 13, cols: 13 },
    ];
    let positions = vec![unit_cell(); 3549];
    let locs = Interpreter::calc_locations(&positions, &levels);
    assert_eq!(locs.len(), 3549);
    // The last cell of the coarsest level: row 12, column 12, stride 32.
    assert_eq!(locs[3548], BBox { x1: 368 * ONE, y1: 368 * ONE, x2: 400 * ONE, y2: 400 * ONE });
    // The first cell of the middle level.
    assert_eq!(locs[2704], BBox { x1: -8 * ONE, y1: -8 * ONE, x2: 8 * ONE, y2: 8 * ONE });
}

#[test]
fn decoding_twice_gives_the_same_boxes() {
    let levels = [
        GridLevel { stride: 8, rows: 2, cols: 3 },
        GridLevel { stride: 16, rows: 1, cols: 2 },
    ];
    let mut positions = Vec::new();
    for k in 0..8 {
        positions.push(CellBox { tx: 137 * k - 400, ty: 9_001 - 77 * k, sw: 3_000 * k, sh: 12_345 });
    }
    let first = Interpreter::calc_locations(&positions, &levels);
    let second = Interpreter::calc_locations(&positions, &levels);
    assert_eq!(first, second);
    for (k, b) in first.iter().enumerate() {
        let (level, row, col) = if k < 6 { (levels[0], k / 3, k % 3) } else { (levels[1], 0, k - 6) };
        assert_eq!(*b, decode_one(level.stride, row, col, positions[k]));
    }
}
