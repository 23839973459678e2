use marketmakerlib::events::{DepthSnapshot, DepthUpdate, OfferData, SyncError, Trade};
use marketmakerlib::maker::{MarketMaker, MarketMakerConfig, OrderStatus};
use marketmakerlib::order_book::OrderBookState;
use marketmakerlib::trades::RecentTrades;
use marketmakerlib::volume::VolumeProfile;

const S: u64 = 1_000_000;

fn offer(price_units: u64, size_units: u64) -> OfferData {
    OfferData { price: price_units * S, size: size_units * S }
}

fn test_config() -> MarketMakerConfig {
    // The stock policy, but with a tenth of a percent minimum distance so
    // that ordinary books admit placements.
    let mut c = MarketMakerConfig::default();
    c.min_distance_pct = 1_000;
    c
}

fn book_100_101() -> OrderBookState {
    let mut book = OrderBookState::default();
    book.apply_snapshot(DepthSnapshot {
        last_update_id: 1,
        bids: vec![offer(100, 1)],
        asks: vec![offer(101, 1)],
    });
    book
}

fn ready_maker() -> MarketMaker {
    let mut mm = MarketMaker::new(test_config(), book_100_101(), RecentTrades::new(5));
    mm.last_volatility = 20_000;
    mm
}

fn sell_at(price: u64) -> Trade {
    Trade {
        price,
        quantity: S,
        trade_time: 3,
        buyer_market_maker: true,
        num_trades: 1,
    }
}

#[test]
fn placement_computes_expected_price() {
    let mut mm = ready_maker();
    mm.place_stink_bids();
    assert_eq!(mm.active_orders.len(), 1);
    assert_eq!(mm.attempt_count, 1);
    let o = &mm.active_orders[0];
    // k_eff = 0.5 * 1.5; price = mid - k_eff * (vol * mid), well clear of
    // the minimum distance below the best bid.
    assert_eq!(o.k_factor_used, 750_000);
    assert_eq!(o.price, 98_992_500);
    assert_eq!(o.size, 10_000);
    assert_eq!(o.status, OrderStatus::Placed);
    assert_eq!(o.reference_mid, 100_500_000);
    assert_eq!(o.reference_best_bid, 100 * S);
    assert_eq!(o.imbalance_at_placement, 0);
    assert_eq!(o.filled_at, None);
    assert!(o.id.starts_with("order-"));
}

#[test]
fn no_fourth_order_while_three_rest() {
    let mut mm = ready_maker();
    mm.place_stink_bids();
    mm.place_stink_bids();
    mm.place_stink_bids();
    assert_eq!(mm.active_orders.len(), 3);
    assert_eq!(mm.attempt_count, 3);
    mm.place_stink_bids();
    assert_eq!(mm.active_orders.len(), 3);
    assert_eq!(mm.attempt_count, 3);
}

#[test]
fn placement_skipped_in_dead_market() {
    let mut mm = ready_maker();
    mm.last_volatility = 0;
    mm.place_stink_bids();
    assert_eq!(mm.active_orders.len(), 0);
    assert_eq!(mm.attempt_count, 0);
}

#[test]
fn fills_only_on_maker_side_sells() {
    let mut mm = ready_maker();
    mm.place_stink_bids();
    // An aggressive buy (buyer not the maker) never fills a resting bid.
    let mut t = sell_at(98_000_000);
    t.buyer_market_maker = false;
    assert!(mm.handle_trade(t).is_ok());
    assert_eq!(mm.active_orders.len(), 1);
    assert_eq!(mm.filled_orders.len(), 0);
    assert_eq!(mm.successful_fill_count, 0);
}

#[test]
fn fill_requires_price_at_or_below_order() {
    let mut mm = ready_maker();
    mm.place_stink_bids();
    // Above the order's price: no fill.
    assert!(mm.handle_trade(sell_at(99_500_000)).is_ok());
    assert_eq!(mm.active_orders.len(), 1);
    // At or below: filled.
    assert!(mm.handle_trade(sell_at(98_000_000)).is_ok());
    assert_eq!(mm.active_orders.len(), 0);
    assert_eq!(mm.filled_orders.len(), 1);
    assert_eq!(mm.filled_orders[0].status, OrderStatus::Filled);
    assert!(mm.filled_orders[0].filled_at.is_some());
    assert_eq!(mm.successful_fill_count, 1);
}

#[test]
fn fill_strictly_decreases_k() {
    let mut mm = ready_maker();
    mm.place_stink_bids();
    assert_eq!(mm.current_k, 500_000);
    assert!(mm.handle_trade(sell_at(98_000_000)).is_ok());
    // One learning step down: 0.5 * (1 - 0.05).
    assert_eq!(mm.current_k, 475_000);
    assert!(mm.current_k < 500_000);
}

#[test]
fn k_floor_and_cap_hold() {
    let mut mm = ready_maker();
    mm.current_k = 100_000;
    mm.adjust_k_factor(true);
    assert_eq!(mm.current_k, 100_000);
    mm.current_k = 3_000_000;
    mm.adjust_k_factor(false);
    assert_eq!(mm.current_k, 3_000_000);
}

#[test]
fn cancellation_strictly_increases_k() {
    let mut mm = ready_maker();
    mm.last_volatility = 40_000;
    mm.place_stink_bids();
    assert_eq!(mm.active_orders.len(), 1);
    assert_eq!(mm.active_orders[0].price, 97_485_000);
    // The market moves up: the order is now too far below the best bid.
    let u = DepthUpdate {
        event_time: 9,
        symbol: String::from("BTCUSDT"),
        first_update_id: 2,
        final_update_id: 2,
        bids: vec![OfferData { price: 101_500_000, size: S }],
        asks: vec![],
    };
    assert!(mm.order_book.process_update(u).is_ok());
    mm.manage_existing_orders();
    assert_eq!(mm.active_orders.len(), 0);
    assert_eq!(mm.cancelled_orders.len(), 1);
    assert_eq!(mm.cancelled_orders[0].status, OrderStatus::Cancelled);
    // One learning step up: 0.5 * (1 + 0.05).
    assert_eq!(mm.current_k, 525_000);
    assert!(mm.current_k > 500_000);
}

#[test]
fn depth_gap_fails_and_changes_nothing() {
    let mut mm = ready_maker();
    let u = DepthUpdate {
        event_time: 9,
        symbol: String::from("BTCUSDT"),
        first_update_id: 50,
        final_update_id: 51,
        bids: vec![],
        asks: vec![],
    };
    let r = mm.handle_depth_update(u);
    assert_eq!(
        r,
        Err(SyncError::SequenceGap { local: 1, first: 50, last: 51 })
    );
    assert_eq!(mm.active_orders.len(), 0);
    assert_eq!(mm.order_book.last_update_id, 1);
}

#[test]
fn depth_update_refreshes_imbalance_and_places() {
    let mut mm = ready_maker();
    let u = DepthUpdate {
        event_time: 9,
        symbol: String::from("BTCUSDT"),
        first_update_id: 2,
        final_update_id: 2,
        bids: vec![offer(100, 3)],
        asks: vec![],
    };
    assert!(mm.handle_depth_update(u).is_ok());
    // Top of book is now 3 against 1: imbalance one half.
    assert_eq!(mm.last_imbalance, 500_000);
    // Buy pressure above 0.3 makes the strategy very cautious but the
    // discount still lands inside the band, so a bid was placed.
    assert_eq!(mm.active_orders.len(), 1);
    assert_eq!(mm.active_orders[0].k_factor_used, 1_250_000);
}

#[test]
fn statistics_report_counts() {
    let mut mm = ready_maker();
    let s = mm.get_statistics();
    assert!(s.contains("Success Rate: 0/0 (0.00%)"));
    mm.place_stink_bids();
    assert!(mm.handle_trade(sell_at(98_000_000)).is_ok());
    let s2 = mm.get_statistics();
    assert!(s2.contains("Success Rate: 1/1 (100.00%)"));
    assert!(s2.contains("Current K-Factor: 475000"));
    assert!(s2.contains("Total Filled Orders: 1"));
}

#[test]
fn default_config_values() {
    let c = MarketMakerConfig::default();
    assert_eq!(c.base_k, 500_000);
    assert_eq!(c.order_size, 10_000);
    assert_eq!(c.max_active_orders, 3);
    assert_eq!(c.strong_imbalance_threshold, -700_000);
    assert_eq!(c.moderate_imbalance_threshold, -300_000);
    assert_eq!(c.vol_dampening, 800_000);
    assert_eq!(c.learning_rate, 50_000);
    assert_eq!(c.min_distance_pct, 50_000);
}

#[test]
fn trade_updates_dampened_volatility() {
    let mut mm = ready_maker();
    let mk = |p: u64| Trade {
        price: p,
        quantity: S,
        trade_time: 3,
        buyer_market_maker: false,
        num_trades: 1,
    };
    assert!(mm.handle_trade(mk(100 * S)).is_ok());
    // One trade: no volatility yet, the dampened value keeps its old state.
    assert_eq!(mm.last_volatility, 20_000);
    assert!(mm.handle_trade(mk(101 * S)).is_ok());
    // Raw volatility 0.005, dampened by 0.8.
    assert_eq!(mm.recent_trades.volatility, Some(5_000));
    assert_eq!(mm.last_volatility, 4_000);
}

#[test]
fn volume_profile_buckets_accumulate() {
    let mut vp = VolumeProfile::new(S);
    assert_eq!(vp.get_price_bucket(100_500_000), 100 * S);
    assert_eq!(vp.get_price_bucket(100 * S), 100 * S);
    let e = marketmakerlib::events::TradeEventData {
        event_time: 1,
        symbol: String::from("BTCUSDT"),
        trade_id: 9,
        price: 100_500_000,
        quantity: 2 * S,
        trade_time: 2,
        buyer_market_maker: false,
    };
    vp.update_from_trade(&e);
    vp.update_from_trade(&e);
    let d = vp.volume_by_price.get(&(100 * S)).unwrap();
    assert_eq!(d.total_volume, 4 * S);
    assert_eq!(d.buy_volume, 4 * S);
    assert_eq!(d.sell_volume, 0);
    assert_eq!(d.trade_count, 2);

    let u = DepthUpdate {
        event_time: 9,
        symbol: String::from("BTCUSDT"),
        first_update_id: 2,
        final_update_id: 2,
        bids: vec![OfferData { price: 100_250_000, size: 3 * S }],
        asks: vec![OfferData { price: 100_750_000, size: S }],
    };
    vp.update_from_depth(&u);
    let d2 = vp.volume_by_price.get(&(100 * S)).unwrap();
    assert_eq!(d2.bid_volume_delta, 3 * S);
    assert_eq!(d2.ask_volume_delta, S);
}

#[test]
fn volume_profile_aggregated_sells() {
    let mut vp = VolumeProfile::new(S);
    let e = marketmakerlib::events::AggregateTrade {
        event_time: 1,
        symbol: String::from("BTCUSDT"),
        aggregate_trade_id: 4,
        price: 99_100_000,
        quantity: 5 * S,
        first_trade_id: 1,
        last_trade_id: 3,
        trade_time: 2,
        buyer_market_maker: true,
    };
    vp.update_from_agg_trade(&e);
    let d = vp.volume_by_price.get(&(99 * S)).unwrap();
    assert_eq!(d.total_volume, 5 * S);
    assert_eq!(d.sell_volume, 5 * S);
    assert_eq!(d.buy_volume, 0);
    assert_eq!(d.trade_count, 1);
}
