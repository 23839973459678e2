//! A verified core for a snapshot-plus-diff order book, a rolling trade
//! window with volatility estimates, and an adaptive stink-bid strategy.

mod clock;
pub mod events;
pub mod fixed;
pub mod ladder;
pub mod maker;
pub mod order_book;
pub mod trades;
pub mod volume;
