use crate::detect::{detect, detections, layout_ok, Detection, BOX_FIELDS, ERR_LAYOUT};
use crate::grid::{count_cells, level_for, total_cells, GridLevel};
use vstd::arithmetic::div_mod::{
    lemma_fundamental_div_mod, lemma_fundamental_div_mod_converse, lemma_mod_bound,
};
use vstd::prelude::*;

verus! {

/// Error code: the model could not be loaded.
pub const ERR_LOAD: i32 = -1;

/// Error code: no model has been loaded.
pub const ERR_NOT_LOADED: i32 = -2;

/// Error code: the run of the model failed.
pub const ERR_RUN: i32 = -3;

/// Error code: the run gave no tensor named `output`.
pub const ERR_NO_OUTPUT: i32 = -4;

/// Error code: the output tensor does not hold numbers of the expected type.
pub const ERR_OUTPUT_TYPE: i32 = -5;

/// Objectness below which a candidate is noise: 0.3.
pub const SCORE_THRESHOLD: u16 = 3_000;

/// Intersection over union above which a candidate merges into a seed: 0.45.
pub const IOU_THRESHOLD: u32 = 4_500;

/// A four-dimensional tensor shape. For the image tensor it reads batch,
/// channels, height, width; for the prediction tensor batch, cells, values in
/// a cell's record, and one.
pub type Shape = (usize, usize, usize, usize);

/// What a run of the model came to.
pub enum Inference {
    /// The run failed.
    Failed,
    /// The run gave no tensor named `output`.
    NoOutput,
    /// The output tensor holds numbers of another type.
    WrongType,
    /// The prediction tensor, in fixed point, with the extents exponentiated.
    Output(Vec<i32>),
}

/// Configuration and load state of a detector.
///
/// The network itself runs elsewhere. This type holds what the steps before and
/// after a run depend on: the shape of the image tensor that goes in, the shape
/// of the prediction tensor that comes out, and whether a model has been loaded.
pub struct Interpreter {
    model_path: String,
    input_shape: Shape,
    output_shape: Shape,
    loaded: bool,
}

/// The three levels of the detector for an input of `height` by `width`
/// pixels, from the finest: strides 8, 16 and 32.
pub open spec fn pyramid(height: usize, width: usize) -> Seq<GridLevel> {
    seq![
        GridLevel { stride: 8, rows: (height / 8) as usize, cols: (width / 8) as usize },
        GridLevel { stride: 16, rows: (height / 16) as usize, cols: (width / 16) as usize },
        GridLevel { stride: 32, rows: (height / 32) as usize, cols: (width / 32) as usize },
    ]
}

/// A tensor of `planes` planes of `plane` values each, from one that holds for
/// each place of a plane the values of all planes together: the value at place
/// `p` of plane `c` comes from `p * planes + c`.
pub open spec fn channel_first<T>(input: Seq<T>, planes: nat, plane: nat) -> Seq<T> {
    Seq::new(planes * plane, |i: int| input[(i % plane as int) * planes + i / plane as int])
}

/// In a tensor laid out channel first, the value of channel `c` at row `h` and
/// column `w` is the one that the input holds for that pixel and channel.
pub proof fn lemma_channel_first<T>(
    input: Seq<T>,
    channels: nat,
    height: nat,
    width: nat,
    c: int,
    h: int,
    w: int,
)
    requires
        0 <= c < channels,
        0 <= h < height,
        0 <= w < width,
    ensures
        0 <= c * height * width + h * width + w < channels * (height * width),
        channel_first(input, channels, height * width)[c * height * width + h * width + w]
            == input[h * width * channels + w * channels + c],
{
    let plane = (height * width) as int;
    let p = (h * width + w) as int;
    assert(0 <= p < plane) by (nonlinear_arith)
        requires
            0 <= h < height,
            0 <= w < width,
            p == h * width + w,
            plane == height * width,
    ;
    let i = c * plane + p;
    assert(c * height * width == c * plane) by (nonlinear_arith)
        requires
            plane == height * width,
    ;
    assert(0 <= i < channels * plane) by (nonlinear_arith)
        requires
            0 <= c < channels,
            0 <= p < plane,
            i == c * plane + p,
    ;
    lemma_fundamental_div_mod_converse(i, plane, c, p);
    assert(p * channels == h * width * channels + w * channels) by (nonlinear_arith)
        requires
            p == h * width + w,
    ;
}

impl Interpreter {
    /// Path of the model that was loaded last; empty before the first load.
    pub closed spec fn model_path(&self) -> Seq<char> {
        self.model_path@
    }

    /// Shape of the image tensor.
    pub closed spec fn input_shape(&self) -> Shape {
        self.input_shape
    }

    /// Shape of the prediction tensor.
    pub closed spec fn output_shape(&self) -> Shape {
        self.output_shape
    }

    /// Whether a model has been loaded.
    pub closed spec fn loaded(&self) -> bool {
        self.loaded
    }

    /// Number of values of an image tensor.
    pub open spec fn input_len(&self) -> nat {
        (self.input_shape().1 * (self.input_shape().2 * self.input_shape().3)) as nat
    }

    /// What `post_process` makes of a prediction tensor. It is read with the
    /// levels of `pyramid` for the input's height and width, and with the
    /// output shape's number of cells and length of a record; where it fits
    /// them, the result is its detections at the two standard thresholds.
    pub open spec fn post_processed(&self, preds: Seq<i32>) -> Result<Seq<Detection>, i32> {
        let height = self.input_shape().2;
        let width = self.input_shape().3;
        let levels = pyramid(height, width);
        let row_len = self.output_shape().2;
        let classes = (row_len - BOX_FIELDS) as nat;
        if row_len > BOX_FIELDS && total_cells(levels) == self.output_shape().1 && layout_ok(
            preds.len(),
            levels,
            classes,
            width as nat,
            height as nat,
        ) {
            Ok(
                detections(
                    preds,
                    levels,
                    classes,
                    width as nat,
                    height as nat,
                    SCORE_THRESHOLD as int,
                    IOU_THRESHOLD as int,
                ),
            )
        } else {
            Err(ERR_LAYOUT)
        }
    }

    /// What `predict` makes of a run of the model.
    pub open spec fn predicted(&self, inference: Inference) -> Result<Seq<Detection>, i32> {
        if !self.loaded() {
            Err(ERR_NOT_LOADED)
        } else {
            match inference {
                Inference::Failed => Err(ERR_RUN),
                Inference::NoOutput => Err(ERR_NO_OUTPUT),
                Inference::WrongType => Err(ERR_OUTPUT_TYPE),
                Inference::Output(preds) => self.post_processed(preds@),
            }
        }
    }

    /// An interpreter with no model: empty path, all-zero shapes.
    pub fn new() -> (r: Self)
        ensures
            r.model_path() == Seq::<char>::empty(),
            r.input_shape() == (0usize, 0usize, 0usize, 0usize),
            r.output_shape() == (0usize, 0usize, 0usize, 0usize),
            !r.loaded(),
    {
        Self {
            model_path: String::new(),
            input_shape: (0, 0, 0, 0),
            output_shape: (0, 0, 0, 0),
            loaded: false,
        }
    }

    /// Records the outcome of opening the model at `model_path`. Where it was
    /// `opened`, the interpreter takes the path and the two shapes and counts as
    /// loaded; where it was not, the interpreter stays as it was and the result
    /// is `ERR_LOAD`.
    pub fn load(
        &mut self,
        model_path: &str,
        input_shape: Shape,
        output_shape: Shape,
        opened: bool,
    ) -> (r: Result<(), i32>)
        ensures
            opened ==> r == Ok::<(), i32>(()),
            opened ==> final(self).model_path() == model_path@,
            opened ==> final(self).input_shape() == input_shape,
            opened ==> final(self).output_shape() == output_shape,
            opened ==> final(self).loaded(),
            !opened ==> r == Err::<(), i32>(ERR_LOAD) && *final(self) == *old(self),
    {
        if !opened {
            return Err(ERR_LOAD);
        }
        self.model_path = model_path.to_owned();
        self.input_shape = input_shape;
        self.output_shape = output_shape;
        self.loaded = true;
        Ok(())
    }

    /// Whether `len` values hold a whole image of the input shape.
    pub fn holds_image(&self, len: usize) -> (r: bool)
        ensures
            r == (self.input_len() <= len),
    {
        let (_, channels, height, width) = self.input_shape;
        if channels == 0 {
            assert(0 * (height * width) == 0) by (nonlinear_arith);
            return true;
        }
        match height.checked_mul(width) {
            None => {
                assert(channels * (height * width) > usize::MAX) by (nonlinear_arith)
                    requires
                        channels >= 1,
                        height * width > usize::MAX,
                ;
                false
            },
            Some(plane) => match channels.checked_mul(plane) {
                None => false,
                Some(total) => total <= len,
            },
        }
    }

    /// Number of values in the record of one cell of the prediction tensor.
    pub fn record_len(&self) -> (r: usize)
        ensures
            r == self.output_shape().2,
    {
        self.output_shape.2
    }

    /// Rearranges an image from channel last, where the values of a pixel stand
    /// together, to channel first, where each channel is a plane of its own.
    /// Values of `input` beyond the image are not read.
    pub fn convert_to_channel_first<T: Copy>(&self, input: &[T]) -> (r: Result<Vec<T>, i32>)
        requires
            self.input_len() <= input.len(),
        ensures
            r is Ok,
            r->Ok_0@ == channel_first(
                input@,
                self.input_shape().1 as nat,
                (self.input_shape().2 * self.input_shape().3) as nat,
            ),
    {
        let (_, channels, height, width) = self.input_shape;
        let mut out: Vec<T> = Vec::new();
        if channels == 0 || height == 0 || width == 0 {
            assert(channels * (height * width) == 0) by (nonlinear_arith)
                requires
                    channels == 0 || height == 0 || width == 0,
            ;
            assert(out@ =~= channel_first(input@, channels as nat, (height * width) as nat));
            return Ok(out);
        }
        assert(height * width <= channels * (height * width)) by (nonlinear_arith)
            requires
                channels >= 1,
                height >= 1,
                width >= 1,
        ;
        assert(height * width >= 1) by (nonlinear_arith)
            requires
                height >= 1,
                width >= 1,
        ;
        let plane = height * width;
        let total = channels * plane;
        let mut i: usize = 0;
        while i < total
            invariant
                i <= total,
                plane >= 1,
                channels >= 1,
                total == channels * plane,
                total <= input.len(),
                out.len() == i,
                forall|j: int|
                    0 <= j < i ==> out[j] == input@[(j % plane as int) * channels + j
                        / plane as int],
            decreases total - i,
        {
            let c = i / plane;
            let p = i % plane;
            proof {
                lemma_fundamental_div_mod(i as int, plane as int);
                lemma_mod_bound(i as int, plane as int);
                assert(0 <= c < channels && p * channels + c < channels * plane)
                    by (nonlinear_arith)
                    requires
                        i == plane * c + p,
                        0 <= p < plane,
                        0 <= i < channels * plane,
                        0 <= c,
                ;
            }
            out.push(input[p * channels + c]);
            i = i + 1;
        }
        assert(out@ =~= channel_first(input@, channels as nat, plane as nat));
        Ok(out)
    }

    /// The image tensor to run the model on: `input` laid out channel first.
    /// Fails with `ERR_NOT_LOADED` before a model has been loaded.
    pub fn prepare<T: Copy>(&self, input: &[T]) -> (r: Result<Vec<T>, i32>)
        requires
            self.loaded() ==> self.input_len() <= input.len(),
        ensures
            self.loaded() ==> r is Ok && r->Ok_0@ == channel_first(
                input@,
                self.input_shape().1 as nat,
                (self.input_shape().2 * self.input_shape().3) as nat,
            ),
            !self.loaded() ==> r == Err::<Vec<T>, i32>(ERR_NOT_LOADED),
    {
        if !self.loaded {
            return Err(ERR_NOT_LOADED);
        }
        self.convert_to_channel_first(input)
    }

    /// The detections that a run of the model came to: those of its prediction
    /// tensor, or the error that stands for what went wrong. Fails with
    /// `ERR_NOT_LOADED` before a model has been loaded, whatever the run.
    pub fn predict(&self, inference: Inference) -> (r: Result<Vec<Detection>, i32>)
        ensures
            match r {
                Ok(found) => self.predicted(inference) == Ok::<Seq<Detection>, i32>(found@),
                Err(e) => self.predicted(inference) == Err::<Seq<Detection>, i32>(e),
            },
    {
        if !self.loaded {
            return Err(ERR_NOT_LOADED);
        }
        match inference {
            Inference::Failed => Err(ERR_RUN),
            Inference::NoOutput => Err(ERR_NO_OUTPUT),
            Inference::WrongType => Err(ERR_OUTPUT_TYPE),
            Inference::Output(preds) => self.post_process(preds.as_slice()),
        }
    }

    /// Finds the objects in a prediction tensor of the shape that this
    /// interpreter was given. Fails with `ERR_LAYOUT` where the tensor, the
    /// output shape and the levels for the input shape do not fit one another.
    pub fn post_process(&self, preds: &[i32]) -> (r: Result<Vec<Detection>, i32>)
        ensures
            match r {
                Ok(found) => self.post_processed(preds@) == Ok::<Seq<Detection>, i32>(found@),
                Err(e) => self.post_processed(preds@) == Err::<Seq<Detection>, i32>(e),
            },
    {
        let (_, _, height, width) = self.input_shape;
        let (_, cells, row_len, _) = self.output_shape;
        let mut levels: Vec<GridLevel> = Vec::new();
        levels.push(level_for(8, height, width));
        levels.push(level_for(16, height, width));
        levels.push(level_for(32, height, width));
        assert(levels@ =~= pyramid(height, width));
        if row_len <= BOX_FIELDS {
            return Err(ERR_LAYOUT);
        }
        match count_cells(levels.as_slice()) {
            None => {
                return Err(ERR_LAYOUT);
            },
            Some(n) => {
                if n != cells {
                    return Err(ERR_LAYOUT);
                }
            },
        }
        detect(
            preds,
            levels.as_slice(),
            row_len - BOX_FIELDS,
            width,
            height,
            SCORE_THRESHOLD,
            IOU_THRESHOLD,
        )
    }
}

} // verus!
