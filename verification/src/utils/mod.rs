//! Audio decoding, and what to fetch for a model.

pub mod audio;
pub mod cache;
pub mod network;
pub mod pcm;
pub mod wav_laws;
pub mod wav_walk;
