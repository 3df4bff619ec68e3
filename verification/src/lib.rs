//! An embedded, append-mostly time-series store for fixed-shape samples.
//!
//! The store keeps an ordered in-memory buffer of timestamped samples,
//! persists it as compressed segment blobs once a threshold is reached, and
//! answers range queries that may span both persisted segments and the live
//! buffer.  Statistics (trapezoidal integral, average, extrema) run over any
//! series whose sample type provides the needed arithmetic.

pub mod codec;
pub mod decimal;
pub mod statistics;
pub mod timeseries;
pub mod timeseries_db;
