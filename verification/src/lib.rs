//! Decoders for the WPILOG and MCAP telemetry-log formats, and the engine
//! that turns a decoded WPILOG record stream into per-entry descriptors,
//! enabled-period intervals and a time-aligned table.

pub mod bytes;
pub mod encode;
pub mod error;
pub mod mcap;
pub mod parser;
pub mod periods;
pub mod sorting;
pub mod table;
pub mod types;
pub mod utils;
