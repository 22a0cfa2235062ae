use wonnx_mobile::geometry::BBox;
use wonnx_mobile::interpreter::Interpreter;

fn bx(x1: i32, y1: i32, x2: i32, y2: i32) -> BBox {
    BBox { x1, y1, x2, y2 }
}

fn nms(boxes: &[BBox], scores: &[u16]) -> Vec<(usize, BBox)> {
    Interpreter::non_max_suppression(boxes, scores, 3_000, 4_500)
}

#[test]
fn no_candidates_give_no_clusters() {
    assert_eq!(nms(&[], &[]), vec![]);
}

#[test]
fn a_single_candidate_is_its_own_cluster() {
    let b = bx(-7, 3, 11, 29);
    assert_eq!(nms(&[b], &[9_000]), vec![(0, b)]);
}

#[test]
fn disjoint_boxes_stay_as_they_are() {
    let boxes = [
        bx(0, 0, 100_000, 100_000),
        bx(100_000, 0, 200_000, 100_000),
        bx(-300_000, -300_000, -200_000, -200_000),
        bx(0, 500_000, 1, 500_001),
    ];
    let scores = [5_000, 9_000, 3_000, 7_000];
    let found = nms(&boxes, &scores);
    assert_eq!(found, vec![(1, boxes[1]), (3, boxes[3]), (0, boxes[0]), (2, boxes[2])]);
}

#[test]
fn identical_boxes_merge_into_one() {
    let b = bx(10_000, 20_000, 50_000, 80_000);
    assert_eq!(nms(&[b, b], &[9_000, 5_000]), vec![(0, b)]);
    assert_eq!(nms(&[b, b], &[5_000, 9_000]), vec![(1, b)]);
    assert_eq!(Interpreter::non_max_suppression(&[b, b], &[9_000, 5_000], 3_000, 9_999), vec![(0, b)]);
}

#[test]
fn identical_boxes_stay_apart_at_threshold_one() {
    // Nothing exceeds an intersection over union of one; the copy lies inside
    // the seed and is dropped without a part in its box.
    let b = bx(10_000, 20_000, 50_000, 80_000);
    assert_eq!(Interpreter::non_max_suppression(&[b, b], &[9_000, 5_000], 3_000, 10_000), vec![(0, b)]);
}

#[test]
fn equal_scores_go_to_the_later_candidate() {
    let a = bx(0, 0, 10, 10);
    let b = bx(100, 100, 110, 110);
    let c = bx(200, 200, 210, 210);
    assert_eq!(nms(&[a, b, c], &[5_000, 5_000, 5_000]), vec![(2, c), (1, b), (0, a)]);
}

#[test]
fn low_scores_are_pruned() {
    let a = bx(0, 0, 100_000, 100_000);
    let far = bx(500_000, 500_000, 600_000, 600_000);
    let near = bx(10_000, 0, 110_000, 100_000);
    // The far box stands apart and the near one would merge, but both score
    // below the threshold.
    assert_eq!(nms(&[a, far, near], &[9_000, 2_999, 100]), vec![(0, a)]);
    // At the threshold itself a candidate counts.
    assert_eq!(nms(&[a, far], &[9_000, 3_000]), vec![(0, a), (1, far)]);
}

#[test]
fn the_best_candidate_is_a_seed_even_below_the_threshold() {
    let a = bx(0, 0, 100_000, 100_000);
    let far = bx(500_000, 500_000, 600_000, 600_000);
    assert_eq!(nms(&[a, far], &[1_000, 2_000]), vec![(1, far)]);
    assert_eq!(nms(&[a], &[0]), vec![(0, a)]);
}

#[test]
fn zero_area_boxes_are_not_merged() {
    let z = bx(5, 5, 5, 9);
    assert_eq!(nms(&[z, z], &[9_000, 8_000]), vec![(0, z), (1, z)]);
    let p = bx(0, 0, 0, 0);
    assert_eq!(Interpreter::non_max_suppression(&[p, p, p], &[1, 2, 3], 0, 0), vec![(2, p), (1, p), (0, p)]);
}

#[test]
fn overlapping_boxes_merge_by_weight() {
    // Intersection over union 8 / 12, rounded up to 0.6667. The weights are
    // 9000 * 10000 for the seed and 6000 * 6667 for the other box.
    let a = bx(0, 0, 100_000, 100_000);
    let b = bx(20_000, 0, 120_000, 100_000);
    assert_eq!(nms(&[a, b], &[9_000, 6_000]), vec![(0, bx(6_154, 0, 106_154, 100_000))]);
}

#[test]
fn merged_coordinates_round_down_below_zero() {
    let a = bx(-100_000, -100_000, 0, 0);
    let b = bx(-120_000, -100_000, -20_000, 0);
    assert_eq!(nms(&[a, b], &[9_000, 6_000]), vec![(0, bx(-106_155, -100_000, -6_155, 0))]);
}

#[test]
fn a_box_inside_the_seed_is_dropped_without_weight() {
    let big = bx(0, 0, 100_000, 100_000);
    let small = bx(10_000, 10_000, 30_000, 30_000);
    assert_eq!(nms(&[big, small], &[9_000, 8_000]), vec![(0, big)]);
    // The other way round the big box lies mostly outside the seed.
    assert_eq!(nms(&[big, small], &[8_000, 9_000]), vec![(1, small), (0, big)]);
}

#[test]
fn a_cluster_leaves_the_others_alone() {
    let c1 = bx(0, 0, 100_000, 100_000);
    let c2 = bx(10_000, 0, 110_000, 100_000);
    let c3 = bx(300_000, 300_000, 400_000, 400_000);
    assert_eq!(
        nms(&[c1, c2, c3], &[5_000, 9_000, 7_000]),
        vec![(1, bx(6_874, 0, 106_874, 100_000)), (2, c3)]
    );
}

#[test]
fn weights_of_zero_leave_the_seed_box() {
    let a = bx(0, 0, 100_000, 100_000);
    assert_eq!(Interpreter::non_max_suppression(&[a, a], &[0, 0], 0, 4_500), vec![(1, a)]);
}

#[test]
fn scores_beyond_the_boxes_are_not_read() {
    let a = bx(0, 0, 100_000, 100_000);
    assert_eq!(nms(&[a], &[4_000, 9_000, 9_000]), vec![(0, a)]);
}

#[test]
fn many_copies_at_the_ends_of_the_range_merge_exactly() {
    let b = bx(i32::MIN, i32::MIN, i32::MAX, i32::MAX);
    let boxes = vec![b; 200];
    let scores = vec![u16::MAX; 200];
    assert_eq!(nms(&boxes, &scores), vec![(199, b)]);
}
