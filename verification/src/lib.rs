//! Streaming speech transcription: WAV parsing, PCM decoding, and the chunked,
//! overlap-deduplicating transcriber that turns a stream of audio into text.

pub mod nn;
pub mod pipeline;
pub mod utils;
