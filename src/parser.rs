//! Parsing lines into per-station statistics.

pub mod func;
pub mod line;
pub mod merge_laws;
pub mod models;
pub mod simd_parser;
pub mod sync;
pub mod text;

mod hashable_buffer;
pub use hashable_buffer::LiteHashBuffer;
