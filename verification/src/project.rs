//! The parts of a project document that hold choices and whole numbers.

use vstd::prelude::*;

verus! {

/// Version of the document format.
pub const PROJECT_FORMAT_VERSION: u32 = 1;

/// How a lens projects.
#[derive(Debug, Clone, Copy, PartialEq, Eq, Structural)]
pub enum LensType {
    Rectilinear,
    FisheyeCircular,
    FisheyeFullframe,
}

/// What a control point says.
#[derive(Debug, Clone, Copy, PartialEq, Eq, Structural)]
pub enum ControlPointKind {
    Normal,
    /// Two points one above the other in the panorama.
    VerticalLine,
    /// Two points level with each other in the panorama.
    HorizontalLine,
}

/// What the optimizer may change.
#[derive(Debug, Clone, Copy, PartialEq, Eq, Structural)]
pub struct OptimizerSettings {
    pub optimize_yaw_pitch_roll: bool,
    pub optimize_hfov: bool,
    pub optimize_distortion: bool,
    pub optimize_shift: bool,
}

impl Default for OptimizerSettings {
    fn default() -> (s: Self)
        ensures
            s == (OptimizerSettings {
                optimize_yaw_pitch_roll: true,
                optimize_hfov: false,
                optimize_distortion: false,
                optimize_shift: false,
            }),
    {
        OptimizerSettings {
            optimize_yaw_pitch_roll: true,
            optimize_hfov: false,
            optimize_distortion: false,
            optimize_shift: false,
        }
    }
}

/// How a panorama is projected.
#[derive(Debug, Clone, Copy, PartialEq, Eq, Structural)]
pub enum Projection {
    Equirectangular,
    Cylindrical,
    Rectilinear,
    Stereographic,
    Mercator,
}

/// A part of a panorama, in pixels.
#[derive(Debug, Clone, Copy, PartialEq, Eq, Structural)]
pub struct CropRect {
    pub x: u32,
    pub y: u32,
    pub width: u32,
    pub height: u32,
}

} // verus!
