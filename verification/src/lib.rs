//! Minute-bar feature tables: page decoding and pagination decisions for the market data
//! client, assembly of per-ticker bars into one table, densification onto a minute grid,
//! null repair, indicator splicing and the trading-session filter.

pub mod text;
pub mod row;
pub mod groups;
pub mod frame;
pub mod features;
pub mod json;
pub mod client;
pub mod assemble;
pub mod densify;
pub mod repair;
pub mod session;
pub mod timestamps;
