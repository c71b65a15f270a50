//! Report ingestion and regression detection for continuous benchmarking.
//!
//! The library turns the text that a benchmark harness prints into canonical
//! metrics, keeps the versioned history of those metrics, and decides with a
//! configurable statistical test whether a new value is a regression.
pub mod adapter;
pub mod stats;
pub mod store;
pub mod testbed;
