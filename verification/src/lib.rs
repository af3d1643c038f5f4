//! Sensor status-line library: resolves named sensor readings from
//! heterogeneous backends, maps them through linear ranges, tracks CPU
//! usage from kernel counter deltas, and renders values into a text
//! template once per poll tick.

pub mod cpu;
pub mod error;
pub mod fixed;
pub mod range;
pub mod render;
pub mod sensor;
pub mod snapshot;
pub mod strutil;
pub mod template;
