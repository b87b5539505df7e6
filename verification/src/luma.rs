//! The scanner's input type under its historical names: a luma plane is a
//! grayscale view, validated by the same layout rules.
pub use crate::image::{luma_from_rgba, LumaError};
use crate::image::Gray8View;
use vstd::prelude::*;

verus! {

/// Borrowed view over an 8-bit luma (grayscale) image with row stride: the
/// scanner's only input type, zero-copy over camera Y planes.
pub type LumaView<'a> = Gray8View<'a>;

} // verus!
