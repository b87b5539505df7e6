//! Errors shared by the image-processing operators.
use crate::image::{image_message, ImageError, LumaError};
use vstd::prelude::*;

verus! {

/// Errors produced by image-processing operators.
#[derive(Clone, Copy, Debug, PartialEq, Eq, Structural)]
pub enum ImgProcError {
    /// An underlying image layout or ROI error.
    Image(ImageError),
    /// Source and destination dimensions differ when they must match.
    DimensionMismatch,
    /// Destination width or height is zero.
    InvalidDestinationSize,
    /// Morphological or filter kernel size is invalid.
    InvalidKernel,
    /// Operator configuration is out of range or non-finite.
    InvalidConfiguration,
}

/// Description of an image-processing error.
pub open spec fn imgproc_message(e: ImgProcError) -> Seq<char> {
    match e {
        ImgProcError::Image(error) => image_message(error),
        ImgProcError::DimensionMismatch => "source and destination dimensions do not match"@,
        ImgProcError::InvalidDestinationSize => "destination dimensions must be non-zero"@,
        ImgProcError::InvalidKernel => "kernel size must be odd and at least three"@,
        ImgProcError::InvalidConfiguration => "image-processing configuration is invalid"@,
    }
}

impl ImgProcError {
    /// Human-readable description of the error.
    pub fn message(&self) -> (r: &'static str)
        ensures
            r@ == imgproc_message(*self),
    {
        match self {
            ImgProcError::Image(error) => error.message(),
            ImgProcError::DimensionMismatch => "source and destination dimensions do not match",
            ImgProcError::InvalidDestinationSize => "destination dimensions must be non-zero",
            ImgProcError::InvalidKernel => "kernel size must be odd and at least three",
            ImgProcError::InvalidConfiguration => "image-processing configuration is invalid",
        }
    }
}

impl From<ImageError> for ImgProcError {
    fn from(value: ImageError) -> (r: Self)
        ensures
            r == ImgProcError::Image(value),
    {
        ImgProcError::Image(value)
    }
}

impl vstd::std_specs::convert::FromSpecImpl<ImageError> for ImgProcError {
    open spec fn obeys_from_spec() -> bool {
        true
    }

    open spec fn from_spec(value: ImageError) -> Self {
        ImgProcError::Image(value)
    }
}

impl From<LumaError> for ImgProcError {
    fn from(value: LumaError) -> (r: Self)
        ensures
            r == ImgProcError::Image(ImageError::Layout(value)),
    {
        ImgProcError::Image(ImageError::Layout(value))
    }
}

impl vstd::std_specs::convert::FromSpecImpl<LumaError> for ImgProcError {
    open spec fn obeys_from_spec() -> bool {
        true
    }

    open spec fn from_spec(value: LumaError) -> Self {
        ImgProcError::Image(ImageError::Layout(value))
    }
}

} // verus!
