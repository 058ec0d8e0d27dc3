//! Order-flow charting logic: drawings, footprint analysis, indicators and
//! the sidebar's state, with their contracts proved by Verus.

pub mod units;
pub mod drawing;
pub mod sidebar;
pub mod footprint;
pub mod cvd_divergence;
pub mod kline;
pub mod gwtrade_effort;
pub mod profile;
pub mod config;
pub mod imbalance;
pub mod gex_levels;
pub mod vwap;
pub mod gex_client;
pub mod fetch;
pub mod aggregate;
