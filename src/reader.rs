//! Cutting a byte stream into line-aligned frames.

pub mod func;
pub mod frames;
