//! A sensor-data ingestion pipeline with accountable delivery semantics.
//!
//! - [`types`]: readings and the events a source emits.
//! - [`pipeline`]: the sequence-number deduplicator with a bounded reorder window.
//! - [`stats`]: delivery counters, one per branch of the pipeline.
//! - [`source`]: the fault-injecting source simulator.
pub mod types;
pub mod pipeline;
pub mod stats;
pub mod source;
