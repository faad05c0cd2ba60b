//! A ray tracer's scene bookkeeping: the bounding volume hierarchy, the
//! queue of pixels to shade, the frame buffer and the camera controls.
pub mod bvh;
pub mod frame;
pub mod queue;
pub mod input;
pub mod obj;
pub mod primitive;
pub mod report;

pub use report::log_error;
