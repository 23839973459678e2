//! Typed events consumed by the core: a depth snapshot, a sequenced depth
//! diff, and trade reports. Prices and sizes are raw fixed-point units (see
//! `fixed`); timestamps are milliseconds since the epoch.

use vstd::prelude::*;

verus! {

use crate::fixed::MAX_UNITS;

/// One price level: a price and the resting size at that price.
#[derive(Clone, Copy, Debug, PartialEq, Eq, Structural)]
pub struct OfferData {
    pub price: u64,
    pub size: u64,
}

/// A level carried by a snapshot or a diff. A zero size in a diff means
/// "delete this level"; the price itself is always positive.
pub open spec fn offer_wf(o: OfferData) -> bool {
    1 <= o.price <= MAX_UNITS && o.size <= MAX_UNITS
}

pub open spec fn offers_wf(s: Seq<OfferData>) -> bool {
    forall|i: int| 0 <= i < s.len() ==> #[trigger] offer_wf(s[i])
}

/// An incremental depth update covering sequence ids
/// `first_update_id ..= final_update_id`.
#[derive(Clone, Debug)]
pub struct DepthUpdate {
    pub event_time: u64,
    pub symbol: String,
    pub first_update_id: u64,
    pub final_update_id: u64,
    pub bids: Vec<OfferData>,
    pub asks: Vec<OfferData>,
}

pub open spec fn update_wf(u: DepthUpdate) -> bool {
    &&& u.first_update_id <= u.final_update_id
    &&& offers_wf(u.bids@)
    &&& offers_wf(u.asks@)
}

/// A full depth snapshot with its sequence watermark.
#[derive(Clone, Debug)]
pub struct DepthSnapshot {
    pub last_update_id: u64,
    pub bids: Vec<OfferData>,
    pub asks: Vec<OfferData>,
}

/// A snapshot level may carry size zero (such levels are skipped), but its
/// price is positive.
pub open spec fn snapshot_wf(s: DepthSnapshot) -> bool {
    offers_wf(s.bids@) && offers_wf(s.asks@)
}

/// A single trade as reported by the feed.
#[derive(Clone, Debug)]
pub struct TradeEventData {
    pub event_time: u64,
    pub symbol: String,
    pub trade_id: u64,
    pub price: u64,
    pub quantity: u64,
    pub trade_time: u64,
    pub buyer_market_maker: bool,
}

/// A batch of trades at one price, reported as one aggregated event.
#[derive(Clone, Debug)]
pub struct AggregateTrade {
    pub event_time: u64,
    pub symbol: String,
    pub aggregate_trade_id: u64,
    pub price: u64,
    pub quantity: u64,
    pub first_trade_id: u64,
    pub last_trade_id: u64,
    pub trade_time: u64,
    pub buyer_market_maker: bool,
}

/// The unified trade record kept by the rolling window.
#[derive(Clone, Copy, Debug)]
pub struct Trade {
    pub price: u64,
    pub quantity: u64,
    pub trade_time: u64,
    pub buyer_market_maker: bool,
    pub num_trades: u64,
}

pub open spec fn trade_wf(t: Trade) -> bool {
    1 <= t.price <= MAX_UNITS && t.quantity <= MAX_UNITS
}

impl Trade {
    /// A single trade counts as one.
    pub fn from_event(e: &TradeEventData) -> (t: Trade)
        ensures
            t.price == e.price,
            t.quantity == e.quantity,
            t.trade_time == e.trade_time,
            t.buyer_market_maker == e.buyer_market_maker,
            t.num_trades == 1,
    {
        Trade {
            price: e.price,
            quantity: e.quantity,
            trade_time: e.trade_time,
            buyer_market_maker: e.buyer_market_maker,
            num_trades: 1,
        }
    }

    /// An aggregated trade implies `last_trade_id - first_trade_id + 1`
    /// underlying trades.
    pub fn from_aggregate(e: &AggregateTrade) -> (t: Trade)
        requires
            e.first_trade_id <= e.last_trade_id,
            e.last_trade_id - e.first_trade_id < u64::MAX,
        ensures
            t.price == e.price,
            t.quantity == e.quantity,
            t.trade_time == e.trade_time,
            t.buyer_market_maker == e.buyer_market_maker,
            t.num_trades == e.last_trade_id - e.first_trade_id + 1,
    {
        Trade {
            price: e.price,
            quantity: e.quantity,
            trade_time: e.trade_time,
            buyer_market_maker: e.buyer_market_maker,
            num_trades: e.last_trade_id - e.first_trade_id + 1,
        }
    }
}

/// Raised when an update does not continue the locally held sequence.
#[derive(Clone, Copy, Debug, PartialEq, Eq, Structural)]
pub enum SyncError {
    /// A forward gap during live processing; the caller must resynchronize.
    SequenceGap { local: u64, first: u64, last: u64 },
    /// A gap while draining the pre-snapshot buffer; startup must restart.
    BootstrapGap,
}

} // verus!
