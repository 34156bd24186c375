//! Neural networks.

pub mod model;
