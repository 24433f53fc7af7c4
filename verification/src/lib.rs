//! Core engine of a position-tracking service: lifecycle rules for opening
//! and closing directional trades, fixed-point profit-and-loss arithmetic,
//! running unrealized-profit extrema, retrospective extrema correction from
//! historical candles, and per-coin performance aggregation.
//!
//! All monetary quantities are integers. Prices and position sizes are plain
//! units chosen by the caller; computed profit figures are expressed in
//! millionths of one unit (the `SCALE` constant). Transport, persistence and
//! the live price feed are collaborators outside this crate: callers hand in
//! prices, candle series and timestamps as plain values.

pub mod book;
pub mod pnl;
pub mod query;
pub mod report;
pub mod position;
pub mod text;
pub mod track;
