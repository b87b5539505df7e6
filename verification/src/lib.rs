//! Verified QR-code image-processing and decoding primitives.

pub mod alignment;
pub mod arbitration;
pub mod bitmatrix;
pub mod directional;
pub mod finder;
pub mod image;
pub mod imgproc;
pub mod kernels;
pub mod luma;
pub mod morph;
pub mod qrgen;
pub mod resize;
pub mod scan;
pub mod threshold;
pub mod tile_threshold;
pub mod tiles;
pub mod trace;
pub mod version;
