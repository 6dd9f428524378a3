//! Settings of the earlier, superpixel-based form of the frame pipeline.
pub use crate::config::{Color, Prediction};
use vstd::prelude::*;

verus! {

#[derive(Debug)]
pub struct Config {
    pub video: ConfigVideo,
    pub pixel: ConfigPixel,
    pub superpixel: ConfigSuperpixel,
    pub structures_root: String,
    pub colors: Vec<Color>,
    pub predictions: usize,
}

#[derive(Clone, Copy, PartialEq, Eq, Debug, Structural)]
pub struct ConfigVideo {
    pub width: usize,
    pub height: usize,
}

#[derive(Clone, Copy, PartialEq, Eq, Debug, Structural)]
pub struct ConfigPixel {
    pub width: usize,
    pub height: usize,
}

#[derive(Clone, Copy, PartialEq, Eq, Debug, Structural)]
pub struct ConfigSuperpixel {
    pub width: usize,
    pub height: usize,
}

} // verus!
