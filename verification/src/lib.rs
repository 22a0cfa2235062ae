//! Post-processing for a grid-based object detector, in fixed point.
//!
//! A detector of this kind predicts, for every cell of several grids laid over
//! the image, a box, an objectness and a score for each class. This library
//! turns such a prediction tensor into detections: it decodes the boxes of all
//! cells (`decode`), clusters them by weighted cluster suppression
//! (`suppress`), and reads the class of each cluster off its seed (`detect`).
//! `interpreter` holds a detector's configuration and the steps before and
//! after a run of its model; `laws` states what holds of the clusters.
//!
//! All real quantities are integers in units of `1 / fixed::SCALE`: offsets
//! and extents in cells, coordinates in pixels, scores, and ratios of areas.
//! Sums are exact; quotients are rounded as the functions that take them say.

pub mod decode;
pub mod detect;
pub mod fixed;
pub mod geometry;
pub mod grid;
pub mod interpreter;
pub mod laws;
pub mod suppress;
