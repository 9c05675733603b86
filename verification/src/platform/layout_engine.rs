//! The flex layout engine's type. Its single pass computes frames in `f32`
//! arithmetic, which stays with the application.

use vstd::prelude::*;

verus! {

/// Assigns frames to the children of Column, Row and Stack nodes.
pub struct LayoutEngine;

} // verus!
