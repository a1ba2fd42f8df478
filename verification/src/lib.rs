//! Streaming pipeline for reconstructing audio sessions out of an
//! interleaved fragment stream, slicing them into inference-ready samples,
//! and driving results toward a persistence sink, with a coordinated,
//! drain-before-exit shutdown protocol.

pub mod channel;
pub mod collector;
pub mod config;
pub mod data;
pub mod inference;
pub mod output;
pub mod pipeline;
pub mod processor;
pub mod shutdown;

pub use config::Config;
