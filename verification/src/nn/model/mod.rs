//! Models.

pub mod moonshine_base;
