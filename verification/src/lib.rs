//! A verified in-process remote-worker pipeline for fuzzing stages, together
//! with the harness logic of the example fuzz targets.

pub mod signals;
pub mod queue;
pub mod stages;
pub mod gcd;
pub mod text;
pub mod solution;
pub mod harness;
pub mod settings;
