//! Engine constants.

use vstd::prelude::*;

verus! {

/// Uniform acceleration applied to every in-flight block, in millipixels per
/// millisecond squared (equal to 2000 pixels per second squared).
pub const FORCE: u32 = 2;

/// Millipixels per pixel: the animation engine integrates distances in
/// millipixels so that per-frame steps stay exact in integer arithmetic.
pub const MILLIPIXELS_PER_PIXEL: u32 = 1000;

} // verus!
