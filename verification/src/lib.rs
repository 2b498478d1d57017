//! A buffered measurement store for scalar sensor readings.
//!
//! Readings arrive per named sensor, accumulate in an in-memory buffer,
//! and are periodically handed off for durable storage. The modules here
//! hold the verified core: the buffers and their bounds, the flush gate
//! that claims at most one flush per interval, and the store that ties
//! the sensor keys, buffers and gate together. All I/O (HTTP, the durable
//! document store) stays outside and exchanges plain values with this crate.

pub mod buffer;
pub mod gate;
pub mod measurement;
pub mod sink;
pub mod response;
pub mod store;
