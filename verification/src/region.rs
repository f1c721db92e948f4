//! The raw timeline input: rectangular regions over a sequence of still
//! images, and the clamping rule that keeps every crop window inside the
//! source image.

use vstd::prelude::*;

verus! {

/// One user-authored region. Coordinates are fractions of the source image's
/// dimensions carried in ten-thousandths (10000 stands for the full width or
/// height); they are intended to lie in [0, 10000] but nothing guarantees it.
/// `start` is the activation time in milliseconds; a region without one is
/// inactive and never reaches the plan. `label` and `color` are cosmetic and
/// ignored by the pipeline.
pub struct Region {
    pub id: String,
    pub x: i64,
    pub y: i64,
    pub width: i64,
    pub height: i64,
    pub label: String,
    pub color: String,
    pub page_index: u32,
    pub start: Option<i64>,
}

/// A clamped crop window, in ten-thousandths of the source dimensions.
#[derive(Clone, Copy, PartialEq, Eq, Structural, Debug)]
pub struct CropRect {
    pub x: u64,
    pub y: u64,
    pub w: u64,
    pub h: u64,
}

/// `v` forced into [lo, hi] (needs lo <= hi to be a true clamp).
pub open spec fn clamp(v: int, lo: int, hi: int) -> int {
    if v < lo {
        lo
    } else if v > hi {
        hi
    } else {
        v
    }
}

/// The clamped crop window of a region: width and height are forced into
/// [0.001, 1.0] of the source (10 to 10000 ten-thousandths), then the corner
/// is forced to keep the whole window inside the source.
pub open spec fn crop_of(r: Region) -> CropRect {
    let w = clamp(r.width as int, 10, 10000);
    let h = clamp(r.height as int, 10, 10000);
    CropRect {
        x: clamp(r.x as int, 0, 10000 - w) as u64,
        y: clamp(r.y as int, 0, 10000 - h) as u64,
        w: w as u64,
        h: h as u64,
    }
}

/// Every clamped crop window keeps 0.001 <= width, height <= 1.0 and
/// 0 <= x <= 1 - width, 0 <= y <= 1 - height, however far out of range the
/// input was.
pub proof fn lemma_crop_in_bounds(r: Region)
    ensures
        10 <= crop_of(r).w <= 10000,
        10 <= crop_of(r).h <= 10000,
        crop_of(r).x + crop_of(r).w <= 10000,
        crop_of(r).y + crop_of(r).h <= 10000,
{
}

/// Clamp a region's crop window.
pub fn clamp_crop(r: &Region) -> (c: CropRect)
    ensures
        c == crop_of(*r),
{
    let w: i64 = if r.width < 10 {
        10
    } else if r.width > 10000 {
        10000
    } else {
        r.width
    };
    let h: i64 = if r.height < 10 {
        10
    } else if r.height > 10000 {
        10000
    } else {
        r.height
    };
    let x: i64 = if r.x < 0 {
        0
    } else if r.x > 10000 - w {
        10000 - w
    } else {
        r.x
    };
    let y: i64 = if r.y < 0 {
        0
    } else if r.y > 10000 - h {
        10000 - h
    } else {
        r.y
    };
    CropRect { x: x as u64, y: y as u64, w: w as u64, h: h as u64 }
}

} // verus!
