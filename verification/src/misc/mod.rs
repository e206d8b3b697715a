//! Small fixed-capacity containers and the source of randomness.

pub mod cache;
pub(crate) mod chance;
pub mod text;
pub mod tiny_vec;

pub use tiny_vec::TinyVec;
