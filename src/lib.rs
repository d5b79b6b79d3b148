use vstd::prelude::*;

pub mod grid;
pub mod session;
pub mod wrap;

verus! {

/// Half the side of the square patch: patch coordinates run over
/// `[-PATCH_HALF, PATCH_HALF]` on each axis, and the window is
/// `2 * PATCH_HALF` pixels wide and high.
pub const PATCH_HALF: i32 = 500;

/// Number of whole coordinates on one axis of the scan grid, `2 * PATCH_HALF`.
pub const GRID_SIDE: i32 = 1000;

} // verus!
