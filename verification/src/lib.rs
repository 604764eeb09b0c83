//! Conversion of normalized single-precision audio samples to 16-bit PCM,
//! and the sample buffers the conversion works on.
//!
//! Samples are carried as IEEE 754 bit patterns (`u32`), so the conversion
//! is integer arithmetic throughout and gives the same bits on every target.

pub mod binary32;
pub mod buffer;
pub mod convert;
pub mod rounding;

pub use buffer::{alloc_f32, alloc_i16, array_bytes, custom_alloc, dealloc_f32, dealloc_i16};
pub use convert::{convert_lanes, convert_sample, process_audio_simd};
