use marketmakerlib::events::{AggregateTrade, Trade, TradeEventData};
use marketmakerlib::trades::RecentTrades;

const S: u64 = 1_000_000;

fn trade_at(price_units: u64) -> Trade {
    Trade {
        price: price_units * S,
        quantity: S,
        trade_time: 7,
        buyer_market_maker: false,
        num_trades: 1,
    }
}

#[test]
fn window_caps_and_evicts_oldest_first() {
    let mut rt = RecentTrades::new(5);
    for p in [100u64, 101, 99, 100, 102] {
        rt.update(trade_at(p));
    }
    assert_eq!(rt.trades.len(), 5);
    rt.update(trade_at(98));
    assert_eq!(rt.trades.len(), 5);
    let newest_to_oldest: Vec<u64> = rt.trades.iter().map(|p| p.0.price / S).collect();
    assert_eq!(newest_to_oldest, vec![98, 102, 100, 99, 101]);
}

#[test]
fn volatility_absent_below_two_trades() {
    let mut rt = RecentTrades::new(5);
    assert_eq!(rt.volatility, None);
    rt.update(trade_at(100));
    assert_eq!(rt.volatility, None);
    rt.update(trade_at(101));
    assert!(rt.volatility.is_some());
}

#[test]
fn identical_prices_give_zero_volatility() {
    let mut rt = RecentTrades::new(8);
    for _ in 0..6 {
        rt.update(trade_at(100));
    }
    assert_eq!(rt.volatility, Some(0));
}

#[test]
fn volatility_exact_value() {
    let mut rt = RecentTrades::new(5);
    rt.update(trade_at(100));
    // Return of the second trade: (101 - 100) / 100 == 0.01.
    rt.update(trade_at(101));
    assert_eq!(rt.trades[0].1, 10_000);
    // Mean 0.005; squared deviations 25 raw each; variance 25 raw;
    // volatility sqrt(25e-6) == 0.005.
    assert_eq!(rt.volatility, Some(5_000));
}

#[test]
fn ewma_volatility_values() {
    let mut rt = RecentTrades::new(5);
    assert_eq!(rt.calculate_ewma_volatility(940_000), None);
    rt.update(trade_at(100));
    assert_eq!(rt.calculate_ewma_volatility(940_000), Some(0));
    rt.update(trade_at(101));
    // Seeded by the oldest return (zero), then one step with the newest:
    // var = 0.94 * 0 + 0.06 * (0.01)^2, truncated in raw units.
    assert_eq!(rt.calculate_ewma_volatility(940_000), Some(2_449));
}

#[test]
fn price_movement_values() {
    let mut rt = RecentTrades::new(5);
    rt.update(trade_at(100));
    rt.update(trade_at(102));
    // (102 - 100) / 100 == 0.02.
    assert_eq!(rt.price_movement(2), Some(20_000));
    assert_eq!(rt.price_movement(1), Some(0));
    assert_eq!(rt.price_movement(3), None);
}

#[test]
fn update_many_applies_in_order() {
    let mut rt = RecentTrades::new(3);
    rt.update_many(vec![trade_at(100), trade_at(101), trade_at(99), trade_at(98)]);
    assert_eq!(rt.trades.len(), 3);
    let newest_to_oldest: Vec<u64> = rt.trades.iter().map(|p| p.0.price / S).collect();
    assert_eq!(newest_to_oldest, vec![98, 99, 101]);
}

#[test]
fn default_window_holds_a_thousand() {
    let rt = RecentTrades::default();
    assert_eq!(rt.window_size, 1000);
    assert_eq!(rt.trades.len(), 0);
    assert_eq!(rt.volatility, None);
}

#[test]
fn trade_from_event_counts_one() {
    let e = TradeEventData {
        event_time: 1,
        symbol: String::from("BTCUSDT"),
        trade_id: 9,
        price: 100 * S,
        quantity: 2 * S,
        trade_time: 2,
        buyer_market_maker: true,
    };
    let t = Trade::from_event(&e);
    assert_eq!(t.price, 100 * S);
    assert_eq!(t.quantity, 2 * S);
    assert!(t.buyer_market_maker);
    assert_eq!(t.num_trades, 1);
}

#[test]
fn trade_from_aggregate_counts_span() {
    let e = AggregateTrade {
        event_time: 1,
        symbol: String::from("BTCUSDT"),
        aggregate_trade_id: 4,
        price: 100 * S,
        quantity: 2 * S,
        first_trade_id: 10,
        last_trade_id: 14,
        trade_time: 2,
        buyer_market_maker: false,
    };
    let t = Trade::from_aggregate(&e);
    assert_eq!(t.num_trades, 5);
    assert!(!t.buyer_market_maker);
}

#[test]
fn volatility_uses_recent_subwindow() {
    // Window of ten: the variance sub-window is ceil(0.3 * 10) == 3 newest
    // returns, while the mean runs over every stored return.
    let mut rt = RecentTrades::new(10);
    for p in [100u64, 110, 100, 110, 100] {
        rt.update(trade_at(p));
    }
    // Returns, newest first: [-90909, 100000, -90909, 100000, 0];
    // mean 3636; squared deviations of the newest three: 8938, 9286, 8938;
    // variance 9054; volatility floor(sqrt(9054e-6)) in raw units.
    assert_eq!(rt.trades[0].1, -90_909);
    assert_eq!(rt.trades[1].1, 100_000);
    assert_eq!(rt.volatility, Some(95_152));
}
