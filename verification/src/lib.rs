//! Verified core of `btc-regime`: calendar days, price-series alignment and
//! de-duplication, rolling-window bookkeeping, and the decision rules that
//! read leverage, lending spreads and correlation crossovers.

pub mod day;
pub mod series;
pub mod data;
pub mod correlation;
pub mod regime;
pub mod report;
pub mod pulse;
pub mod onchain;
