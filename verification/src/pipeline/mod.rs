//! The streaming pipeline.

pub mod state_laws;
pub mod stream;
pub mod stream_laws;
pub mod text;
