use wonnx_mobile::detect::{Detection, ERR_LAYOUT};
use wonnx_mobile::geometry::BBox;
use wonnx_mobile::interpreter::{
    Inference, Interpreter, ERR_LOAD, ERR_NOT_LOADED, ERR_NO_OUTPUT, ERR_OUTPUT_TYPE, ERR_RUN,
    IOU_THRESHOLD, SCORE_THRESHOLD,
};

/// An interpreter for 32 by 32 images: 16 + 4 + 1 cells of one class.
fn small() -> Interpreter {
    let mut interp = Interpreter::new();
    assert_eq!(interp.load("model.onnx", (1, 3, 32, 32), (1, 21, 6, 1), true), Ok(()));
    interp
}

/// A tensor for `small` in which only the cell of the coarsest level scores.
fn quiet_but_last() -> Vec<i32> {
    let mut preds = Vec::new();
    for _ in 0..20 {
        preds.extend_from_slice(&[0, 0, 10_000, 10_000, 50, 10]);
    }
    preds.extend_from_slice(&[5_000, 5_000, 5_000, 5_000, 9_000, 8_000]);
    preds
}

fn centre_detection() -> Vec<Detection> {
    vec![Detection {
        class_id: 0,
        score: 8_000,
        bbox: BBox { x1: 2_500, y1: 2_500, x2: 7_500, y2: 7_500 },
    }]
}

#[test]
fn error_codes_and_thresholds() {
    assert_eq!(
        (ERR_LOAD, ERR_NOT_LOADED, ERR_RUN, ERR_NO_OUTPUT, ERR_OUTPUT_TYPE),
        (-1, -2, -3, -4, -5)
    );
    assert_eq!((SCORE_THRESHOLD, IOU_THRESHOLD), (3_000, 4_500));
}

#[test]
fn a_new_interpreter_has_no_model() {
    let interp = Interpreter::new();
    assert_eq!(interp.prepare(&[1u8, 2, 3]), Err(ERR_NOT_LOADED));
    assert_eq!(interp.predict(Inference::Output(vec![])), Err(ERR_NOT_LOADED));
    assert_eq!(interp.predict(Inference::Failed), Err(ERR_NOT_LOADED));
    // All shapes are zero: no cells, no values.
    assert_eq!(interp.convert_to_channel_first(&[7u8]), Ok(vec![]));
    assert_eq!(interp.post_process(&[]), Err(ERR_LAYOUT));
}

#[test]
fn a_failed_load_changes_nothing() {
    let mut interp = Interpreter::new();
    assert_eq!(interp.load("missing.onnx", (1, 3, 32, 32), (1, 21, 6, 1), false), Err(ERR_LOAD));
    assert_eq!(interp.prepare(&[0u8; 3072]), Err(ERR_NOT_LOADED));
    let mut loaded = small();
    assert_eq!(loaded.load("other.onnx", (1, 1, 8, 8), (1, 1, 6, 1), false), Err(ERR_LOAD));
    // Still the shapes of the first load.
    assert_eq!(loaded.post_process(&quiet_but_last()), Ok(centre_detection()));
}

#[test]
fn a_later_load_replaces_the_shapes() {
    let mut interp = small();
    assert_eq!(interp.load("other.onnx", (1, 1, 8, 8), (1, 1, 7, 1), true), Ok(()));
    assert_eq!(interp.post_process(&quiet_but_last()), Err(ERR_LAYOUT));
    let found = interp.post_process(&[0, 0, 10_000, 10_000, 4_000, 3, 9]).unwrap();
    assert_eq!(
        found,
        vec![Detection {
            class_id: 1,
            score: 9,
            bbox: BBox { x1: -5_000, y1: -5_000, x2: 5_000, y2: 5_000 },
        }]
    );
}

#[test]
fn channel_first_gathers_each_channel() {
    let mut interp = Interpreter::new();
    interp.load("model.onnx", (1, 3, 2, 2), (1, 0, 0, 1), true).unwrap();
    let input: Vec<u32> = (0..12).collect();
    assert_eq!(
        interp.convert_to_channel_first(&input),
        Ok(vec![0, 3, 6, 9, 1, 4, 7, 10, 2, 5, 8, 11])
    );
    assert_eq!(interp.prepare(&input), Ok(vec![0, 3, 6, 9, 1, 4, 7, 10, 2, 5, 8, 11]));
}

#[test]
fn channel_first_places_every_value() {
    let (channels, height, width) = (3usize, 4usize, 5usize);
    let mut interp = Interpreter::new();
    interp.load("model.onnx", (1, channels, height, width), (1, 0, 0, 1), true).unwrap();
    let mut input = Vec::new();
    for h in 0..height {
        for w in 0..width {
            for c in 0..channels {
                input.push((100 * c + 10 * h + w) as f32);
            }
        }
    }
    // Values beyond the image are not read.
    input.push(-1.0);
    let out = interp.convert_to_channel_first(&input).unwrap();
    assert_eq!(out.len(), channels * height * width);
    for c in 0..channels {
        for h in 0..height {
            for w in 0..width {
                assert_eq!(out[c * height * width + h * width + w], (100 * c + 10 * h + w) as f32);
            }
        }
    }
}

#[test]
fn channel_first_of_an_empty_image_is_empty() {
    let mut interp = Interpreter::new();
    interp.load("model.onnx", (1, usize::MAX, 0, usize::MAX), (1, 0, 0, 1), true).unwrap();
    assert_eq!(interp.convert_to_channel_first(&[1i64, 2, 3]), Ok(vec![]));
}

#[test]
fn post_process_finds_the_scoring_cell() {
    let interp = small();
    assert_eq!(interp.post_process(&quiet_but_last()), Ok(centre_detection()));
}

#[test]
fn post_process_refuses_what_does_not_fit() {
    let preds = quiet_but_last();
    assert_eq!(small().post_process(&preds[..125]), Err(ERR_LAYOUT));
    let mut interp = Interpreter::new();
    // One cell too few in the output shape.
    interp.load("model.onnx", (1, 3, 32, 32), (1, 20, 6, 1), true).unwrap();
    assert_eq!(interp.post_process(&preds[..120]), Err(ERR_LAYOUT));
    assert_eq!(interp.post_process(&preds), Err(ERR_LAYOUT));
    // Records without a class.
    interp.load("model.onnx", (1, 3, 32, 32), (1, 21, 5, 1), true).unwrap();
    assert_eq!(interp.post_process(&preds[..105]), Err(ERR_LAYOUT));
    // An image with no room for a cell.
    interp.load("model.onnx", (1, 3, 7, 7), (1, 0, 6, 1), true).unwrap();
    assert_eq!(interp.post_process(&[]), Ok(vec![]));
}

#[test]
fn predict_maps_each_outcome() {
    let interp = small();
    assert_eq!(interp.predict(Inference::Failed), Err(ERR_RUN));
    assert_eq!(interp.predict(Inference::NoOutput), Err(ERR_NO_OUTPUT));
    assert_eq!(interp.predict(Inference::WrongType), Err(ERR_OUTPUT_TYPE));
    assert_eq!(interp.predict(Inference::Output(vec![1, 2, 3])), Err(ERR_LAYOUT));
    assert_eq!(interp.predict(Inference::Output(quiet_but_last())), Ok(centre_detection()));
}

#[test]
fn post_process_merges_neighbouring_cells() {
    // Cells 0 and 1 of the finest level predict the same box, centred between
    // them; the rest is quiet.
    let mut preds = quiet_but_last();
    preds[126 - 6 + 4] = 50;
    preds[0..6].copy_from_slice(&[10_000, 5_000, 20_000, 10_000, 8_000, 7_000]);
    preds[6..12].copy_from_slice(&[0, 5_000, 20_000, 10_000, 6_000, 6_500]);
    let found = small().post_process(&preds).unwrap();
    assert_eq!(
        found,
        vec![Detection {
            class_id: 0,
            score: 7_000,
            bbox: BBox { x1: 0, y1: 0, x2: 5_000, y2: 2_500 },
        }]
    );
}

#[test]
fn an_image_needs_all_its_values() {
    let mut interp = Interpreter::new();
    assert!(interp.holds_image(0));
    assert_eq!(interp.record_len(), 0);
    interp.load("model.onnx", (1, 3, 4, 5), (1, 21, 85, 1), true).unwrap();
    assert_eq!(interp.record_len(), 85);
    assert!(!interp.holds_image(59));
    assert!(interp.holds_image(60));
    assert!(interp.holds_image(61));
    interp.load("model.onnx", (1, 2, usize::MAX, 2), (1, 0, 6, 1), true).unwrap();
    assert!(!interp.holds_image(usize::MAX));
    interp.load("model.onnx", (1, 2, usize::MAX / 2, 1), (1, 0, 6, 1), true).unwrap();
    assert!(!interp.holds_image(usize::MAX - 2));
    assert!(interp.holds_image(usize::MAX - 1));
    interp.load("model.onnx", (1, 0, usize::MAX, usize::MAX), (1, 0, 6, 1), true).unwrap();
    assert!(interp.holds_image(0));
}
