//! Volume-profile aggregation of executed trades into time buckets.
//!
//! Prices and volumes are integers in units of `10^-8` of the quoted value;
//! timestamps are milliseconds since the Unix epoch.
pub mod aggregator;
pub mod bybit;
pub mod cluster;
pub mod common;
pub mod decimal;
pub mod json_array;
