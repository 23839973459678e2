use marketmakerlib::events::{DepthSnapshot, DepthUpdate, OfferData, SyncError};
use marketmakerlib::order_book::OrderBookState;
use std::collections::VecDeque;

const S: u64 = 1_000_000;

fn offer(price_units: u64, size_units: u64) -> OfferData {
    OfferData { price: price_units * S, size: size_units * S }
}

fn snapshot_p8() -> DepthSnapshot {
    DepthSnapshot {
        last_update_id: 1000,
        bids: vec![offer(100, 1), offer(99, 2)],
        asks: vec![offer(101, 1), offer(102, 2)],
    }
}

fn update(first: u64, last: u64, bids: Vec<OfferData>, asks: Vec<OfferData>) -> DepthUpdate {
    DepthUpdate {
        event_time: 42,
        symbol: String::from("BTCUSDT"),
        first_update_id: first,
        final_update_id: last,
        bids,
        asks,
    }
}

#[test]
fn snapshot_then_delete_scenario() {
    let mut book = OrderBookState::default();
    book.apply_snapshot(snapshot_p8());
    assert_eq!(book.last_update_id, 1000);
    assert_eq!(book.bids.len(), 2);
    assert_eq!(book.asks.len(), 2);

    let u = update(1001, 1001, vec![OfferData { price: 100 * S, size: 0 }], vec![]);
    assert!(book.process_update(u).is_ok());

    assert_eq!(book.bids, vec![offer(99, 2)]);
    assert_eq!(book.best_bid, Some((99 * S, 2 * S)));
    assert_eq!(book.mid_price, Some(100 * S));
    assert_eq!(book.spread, Some(2 * S as i64));
    assert_eq!(book.last_update_id, 1001);
}

#[test]
fn stale_update_is_noop() {
    let mut book = OrderBookState::default();
    book.apply_snapshot(snapshot_p8());
    let bids_before = book.bids.clone();
    let asks_before = book.asks.clone();
    let mid_before = book.mid_price;
    let spread_before = book.spread;

    let u = update(990, 1000, vec![offer(50, 7)], vec![offer(200, 7)]);
    assert!(book.process_update(u).is_ok());

    assert_eq!(book.bids, bids_before);
    assert_eq!(book.asks, asks_before);
    assert_eq!(book.mid_price, mid_before);
    assert_eq!(book.spread, spread_before);
    assert_eq!(book.last_update_id, 1000);
}

#[test]
fn gap_update_fails_and_leaves_book_unchanged() {
    let mut book = OrderBookState::default();
    let snap = DepthSnapshot {
        last_update_id: 100,
        bids: vec![offer(100, 1)],
        asks: vec![offer(101, 1)],
    };
    book.apply_snapshot(snap);
    let bids_before = book.bids.clone();
    let asks_before = book.asks.clone();

    let u = update(102, 103, vec![offer(100, 9)], vec![]);
    let r = book.process_update(u);
    assert_eq!(
        r,
        Err(SyncError::SequenceGap { local: 100, first: 102, last: 103 })
    );
    assert_eq!(book.bids, bids_before);
    assert_eq!(book.asks, asks_before);
    assert_eq!(book.last_update_id, 100);
}

#[test]
fn zero_size_semantics() {
    // A snapshot level with size zero is never inserted.
    let mut book = OrderBookState::default();
    let snap = DepthSnapshot {
        last_update_id: 10,
        bids: vec![offer(100, 1), OfferData { price: 98 * S, size: 0 }],
        asks: vec![offer(101, 1)],
    };
    book.apply_snapshot(snap);
    assert_eq!(book.bids, vec![offer(100, 1)]);

    // A diff entry with size zero removes an existing level.
    let u1 = update(11, 11, vec![OfferData { price: 100 * S, size: 0 }], vec![]);
    assert!(book.process_update(u1).is_ok());
    assert_eq!(book.bids, Vec::<OfferData>::new());

    // For a non-existent price it is a no-op.
    let u2 = update(12, 12, vec![OfferData { price: 55 * S, size: 0 }], vec![]);
    assert!(book.process_update(u2).is_ok());
    assert_eq!(book.bids, Vec::<OfferData>::new());
    assert_eq!(book.asks, vec![offer(101, 1)]);
}

#[test]
fn metric_formulas() {
    let mut book = OrderBookState::default();
    let snap = DepthSnapshot {
        last_update_id: 5,
        bids: vec![offer(100, 3)],
        asks: vec![offer(101, 1)],
    };
    book.apply_snapshot(snap);
    // spread == best ask - best bid
    assert_eq!(book.spread(), Some(S as i64));
    // mid == (best bid + best ask) / 2
    assert_eq!(book.mid_price(), Some((100 * S + 101 * S) / 2));
    // imbalance == (3 - 1) / (3 + 1) == 0.5, positive for buy pressure
    assert_eq!(book.imbalance(), Some(500_000));
    // relative spread == spread / mid
    let mid = (100 * S + 101 * S) / 2;
    assert_eq!(
        book.relative_spread(),
        Some(((S as i128 * S as i128) / mid as i128) as i64)
    );
    assert_eq!(book.best_bid(), Some(100 * S));
    assert_eq!(book.best_ask(), Some(101 * S));
    assert_eq!(book.best_bid_size(), Some(3 * S));
    assert_eq!(book.best_ask_size(), Some(S));
}

#[test]
fn imbalance_sign_and_range() {
    let mut book = OrderBookState::default();
    book.apply_snapshot(DepthSnapshot {
        last_update_id: 5,
        bids: vec![offer(100, 1)],
        asks: vec![offer(101, 3)],
    });
    let v = book.imbalance().unwrap();
    assert!(v < 0);
    assert!(-1_000_000 <= v && v <= 1_000_000);
    assert_eq!(v, -500_000);
}

#[test]
fn depth_metrics_exact_values() {
    let mut book = OrderBookState::default();
    book.apply_snapshot(snapshot_p8());

    // Totals over the top two levels are equal on both sides.
    assert_eq!(book.imbalance_depth(2), Some(0));
    // Depth beyond the ladder is empty, depth zero is degenerate.
    assert_eq!(book.imbalance_depth(3), None);
    assert_eq!(book.imbalance_depth(0), None);

    // Harmonic weights: bids 1*1 + 2*(1/2) = 2, asks 1*1 + 2*(1/2) = 2.
    assert_eq!(book.weighted_relative_imbalance(2), Some(0));

    // Volume-weighted average prices over the top two levels.
    assert_eq!(
        book.relative_imbalance_vwap(2),
        Some((99_333_333, 101_666_666))
    );
    assert_eq!(book.relative_imbalance_vwap(0), None);
    assert_eq!(book.relative_imbalance_vwap(3), None);

    assert_eq!(book.relative_book_imbalance(2), Some(100));
    assert_eq!(book.relative_book_imbalance(1), None);
    assert_eq!(book.relative_mid_price_imbalance(2), Some(2_321_800));
    // At depth one the volume-weighted prices are the best prices.
    assert_eq!(book.relative_imbalance_vwap(1), Some((100 * S, 101 * S)));
    assert_eq!(book.relative_mid_price_imbalance(1), Some(995_100));
}

#[test]
fn batch_equals_one_by_one() {
    let u1 = || update(1001, 1001, vec![offer(98, 5)], vec![]);
    let u2 = || update(1002, 1003, vec![], vec![OfferData { price: 101 * S, size: 0 }]);

    let mut one_by_one = OrderBookState::default();
    one_by_one.apply_snapshot(snapshot_p8());
    assert!(one_by_one.process_update(u1()).is_ok());
    assert!(one_by_one.process_update(u2()).is_ok());

    let mut batch = OrderBookState::default();
    batch.apply_snapshot(snapshot_p8());
    let mut buf = VecDeque::new();
    buf.push_back(u1());
    buf.push_back(u2());
    assert!(batch.process_buffer(buf).is_ok());

    assert_eq!(batch.bids, one_by_one.bids);
    assert_eq!(batch.asks, one_by_one.asks);
    assert_eq!(batch.last_update_id, one_by_one.last_update_id);
    assert_eq!(batch.mid_price, one_by_one.mid_price);
    assert_eq!(batch.spread, one_by_one.spread);
}

#[test]
fn buffer_gap_is_fatal() {
    let mut book = OrderBookState::default();
    book.apply_snapshot(snapshot_p8());
    let mut buf = VecDeque::new();
    buf.push_back(update(1005, 1006, vec![offer(98, 5)], vec![]));
    assert_eq!(book.process_buffer(buf), Err(SyncError::BootstrapGap));
    // The offending update was not applied.
    assert_eq!(book.bids, vec![offer(99, 2), offer(100, 1)]);
    assert_eq!(book.last_update_id, 1000);
}

#[test]
fn buffer_skips_stale_entries() {
    let mut book = OrderBookState::default();
    book.apply_snapshot(snapshot_p8());
    let mut buf = VecDeque::new();
    buf.push_back(update(990, 1000, vec![offer(42, 1)], vec![]));
    buf.push_back(update(1001, 1001, vec![offer(98, 5)], vec![]));
    assert!(book.process_buffer(buf).is_ok());
    assert_eq!(book.bids, vec![offer(98, 5), offer(99, 2), offer(100, 1)]);
    assert_eq!(book.last_update_id, 1001);
}

#[test]
fn empty_book_has_no_metrics() {
    let book = OrderBookState::default();
    assert_eq!(book.spread(), None);
    assert_eq!(book.mid_price(), None);
    assert_eq!(book.relative_spread(), None);
    assert_eq!(book.imbalance(), None);
    assert_eq!(book.imbalance_depth(1), None);
    assert_eq!(book.weighted_relative_imbalance(1), None);
    assert_eq!(book.best_bid(), None);
    assert_eq!(book.best_ask(), None);
}

#[test]
fn weighted_imbalance_decays_harmonically() {
    let mut book = OrderBookState::default();
    book.apply_snapshot(DepthSnapshot {
        last_update_id: 5,
        bids: vec![offer(99, 2), offer(100, 1)],
        asks: vec![offer(101, 3), offer(102, 2)],
    });
    // Bids weigh 1 + 2/2 = 2; asks weigh 3 + 2/2 = 4; skew -1/3, rounded
    // away from zero.
    assert_eq!(book.weighted_relative_imbalance(2), Some(-333_334));
}

#[test]
fn tiny_imbalance_keeps_its_sign() {
    // A one-raw-unit volume edge is below the output resolution, but the
    // away-from-zero rounding still reports its sign.
    let mut book = OrderBookState::default();
    book.apply_snapshot(DepthSnapshot {
        last_update_id: 5,
        bids: vec![OfferData { price: 100 * S, size: 1_000_000_000_000 }],
        asks: vec![OfferData { price: 101 * S, size: 999_999_999_999 }],
    });
    assert_eq!(book.imbalance(), Some(1));
    assert_eq!(book.imbalance, Some(1));
    // Mirrored, the sign flips.
    let mut book2 = OrderBookState::default();
    book2.apply_snapshot(DepthSnapshot {
        last_update_id: 5,
        bids: vec![OfferData { price: 100 * S, size: 999_999_999_999 }],
        asks: vec![OfferData { price: 101 * S, size: 1_000_000_000_000 }],
    });
    assert_eq!(book2.imbalance(), Some(-1));
}
