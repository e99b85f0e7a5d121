//! Conversion between equirectangular panoramas and cubemaps: the geometric
//! projection between the two, plus splitting faces into square tiles and
//! stitching tiles back together.
//!
//! The projection engine works on an exact fixed-point model: unit rays are
//! integer vectors at scale `trig::FP`, angles are integer fractions of a
//! turn at the same scale, and every pixel mapping is integer arithmetic
//! with a stated contract.

pub mod pixel;
pub mod trig;
pub mod geometry;
pub mod tiling;
pub mod projector;

pub use pixel::Image;
pub use pixel::Rgba;
