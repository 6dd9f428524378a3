//! Settings of the frame pipeline that surrounds the solver: video and
//! subpixel geometry, the palette, and colour predictions.
use vstd::prelude::*;

verus! {

#[derive(Debug)]
pub struct Config {
    pub video: ConfigVideo,
    pub subpixels: ConfigSubpixels,
    pub frames_root: String,
    pub structures_root: String,
    pub colors: Vec<Color>,
}

#[derive(Clone, Copy, PartialEq, Eq, Debug, Structural)]
pub struct ConfigVideo {
    pub width: usize,
    pub height: usize,
}

#[derive(Debug)]
pub struct ConfigSubpixels {
    pub width: usize,
    pub height: usize,
    pub distribution: Vec<Vec<usize>>,
}

/// A palette colour as red, green and blue.
#[derive(Clone, Copy, PartialEq, Eq, Hash, Debug, Structural)]
pub struct Color(pub u8, pub u8, pub u8);

/// A run of colours and the run predicted to follow it.
#[derive(Debug)]
pub struct Prediction {
    pub from: Vec<Color>,
    pub to: Vec<Color>,
}

} // verus!
