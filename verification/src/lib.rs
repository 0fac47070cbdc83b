//! Keypoint detection on crops of tree diagrams.
//!
//! A detection model emits a dense grid of scores, one plane for each class
//! of node. This library prepares the model's input from an encoded image
//! and a crop rectangle, and turns the model's output into a short, ranked
//! list of typed nodes in the coordinates of the image:
//!
//! - [`codec`] reads the encoded image,
//! - [`preprocess`] crops, resizes and pads it, and [`tensor`] lays it out,
//! - [`grid`] finds the local maxima of the output, [`ranking`] orders them
//!   and [`decode`] applies the caps and the fallback,
//! - [`nodes`] maps the peaks back into the image and types them, with the
//!   exact arithmetic of [`geometry`],
//! - [`pipeline`] joins these into the two halves of a call, before and after
//!   the model runs,
//! - [`session`] decides where the model is found and when it is loaded.
//!
//! Scores and logits are binary32 values. They are carried as their bit
//! patterns, and [`binary32`] compares them. Running the model is left to
//! the caller, and so is the activation that turns a logit into a score.

pub mod binary32;
pub mod codec;
pub mod config;
pub mod decode;
pub mod error;
pub mod geometry;
pub mod grid;
pub mod nodes;
pub mod pipeline;
pub mod preprocess;
pub mod ranking;
pub mod session;
pub mod tensor;
pub mod trusted;
