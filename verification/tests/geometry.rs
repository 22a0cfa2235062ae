use wonnx_mobile::geometry::BBox;

fn bx(x1: i32, y1: i32, x2: i32, y2: i32) -> BBox {
    BBox { x1, y1, x2, y2 }
}

#[test]
fn iou_of_identical_boxes_is_one() {
    let b = bx(0, 0, 100_000, 100_000);
    assert_eq!(b.iou(&b), 10_000);
    assert_eq!(b.overlap_fraction(&b), 10_000);
}

#[test]
fn iou_of_half_overlapping_boxes() {
    // Two 10 by 10 boxes that share a 5 by 10 strip: 50 / 150, rounded up.
    let a = bx(0, 0, 100_000, 100_000);
    let b = bx(50_000, 0, 150_000, 100_000);
    assert_eq!(a.iou(&b), 3_334);
    assert_eq!(b.iou(&a), 3_334);
    assert_eq!(a.overlap_fraction(&b), 5_000);
}

#[test]
fn iou_of_disjoint_boxes_is_zero() {
    let a = bx(0, 0, 10, 10);
    let b = bx(10, 0, 20, 10);
    assert_eq!(a.intersection_area(&b), 0);
    assert_eq!(a.iou(&b), 0);
    assert_eq!(a.overlap_fraction(&b), 0);
}

#[test]
fn iou_of_zero_area_boxes_is_zero() {
    let point = bx(5, 5, 5, 5);
    let line = bx(5, 5, 5, 9);
    assert_eq!(point.area(), 0);
    assert_eq!(line.area(), 0);
    assert_eq!(point.iou(&point), 0);
    assert_eq!(line.iou(&line), 0);
    assert_eq!(point.iou(&line), 0);
    assert_eq!(line.overlap_fraction(&line), 0);
}

#[test]
fn the_smallest_overlap_rounds_up_to_one() {
    let a = bx(0, 0, 100_000, 100_000);
    let b = bx(99_999, 99_999, 200_000, 200_000);
    assert_eq!(a.intersection_area(&b), 1);
    assert_eq!(a.iou(&b), 1);
}

#[test]
fn a_reversed_box_has_no_interior() {
    let proper = bx(0, 0, 10, 10);
    let reversed = bx(10, 10, 0, 0);
    assert_eq!(reversed.area(), 100);
    assert_eq!(proper.intersection_area(&reversed), 0);
    assert_eq!(proper.iou(&reversed), 0);
    let flipped = bx(10, 0, 0, 10);
    assert_eq!(flipped.area(), -100);
    assert_eq!(proper.iou(&flipped), 0);
    assert_eq!(flipped.overlap_fraction(&proper), 0);
}

#[test]
fn areas_at_the_ends_of_the_range() {
    let whole = bx(i32::MIN, i32::MIN, i32::MAX, i32::MAX);
    let side = (i32::MAX as i128) - (i32::MIN as i128);
    assert_eq!(whole.area(), side * side);
    assert_eq!(whole.iou(&whole), 10_000);
}

#[test]
fn overlap_fraction_is_relative_to_the_first_box() {
    let big = bx(0, 0, 100_000, 100_000);
    let small = bx(10_000, 10_000, 30_000, 30_000);
    assert_eq!(small.iou(&big), 400);
    assert_eq!(small.overlap_fraction(&big), 10_000);
    assert_eq!(big.overlap_fraction(&small), 400);
}
