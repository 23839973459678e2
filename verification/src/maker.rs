//! The adaptive stink-bid strategy: it consumes depth updates and trades,
//! keeps a set of synthetic resting buy orders below the market, detects
//! fills, cancels orders the market has left behind, and tunes its
//! aggressiveness factor from that feedback.

use vstd::prelude::*;

verus! {

use crate::clock::now_millis;
use crate::events::DepthUpdate;
use crate::events::SyncError;
use crate::events::Trade;
use crate::events::trade_wf;
use crate::events::update_wf;
use crate::fixed::MAX_UNITS;
use crate::fixed::SCALE;
use crate::fixed::div_fx;
use crate::fixed::fx_div;
use crate::fixed::fx_mul;
use crate::fixed::lemma_div_le;
use crate::fixed::lemma_ratio_bounded;
use crate::fixed::mag;
use crate::fixed::mul_fx;
use crate::fixed::tdiv;
use crate::order_book::OrderBookState;
use crate::order_book::book_unchanged;
use crate::order_book::book_stepped;
use crate::order_book::book_wf;
use crate::order_book::is_gap;
use crate::order_book::is_stale;
use crate::trades::RecentTrades;
use crate::trades::VOL_CAP;
use crate::trades::spec_return;
use crate::trades::trades_wf;

/// Smallest value the adaptive factor can reach.
pub const K_FLOOR: u64 = 100_000;

/// Largest value the adaptive factor can reach.
pub const K_CAP: u64 = 3_000_000;

/// Largest regime-adjusted factor: the cap times two and a half.
pub const K_EFF_CAP: u64 = 7_500_000;

/// Volatility below one raw unit counts as a dead market.
pub const VOL_FLOOR: u64 = 1;

/// Policy parameters of the strategy.
#[derive(Clone, Debug, PartialEq, Eq, Structural)]
pub struct MarketMakerConfig {
    /// Base adaptive factor: how many volatilities below mid a bid rests.
    pub base_k: u64,
    /// Size of each placed order.
    pub order_size: u64,
    /// Most orders allowed to rest at once.
    pub max_active_orders: usize,
    /// Imbalance below this means strong sell pressure.
    pub strong_imbalance_threshold: i64,
    /// Imbalance below this means moderate sell pressure.
    pub moderate_imbalance_threshold: i64,
    /// Factor applied to raw volatility before use.
    pub vol_dampening: u64,
    /// Step of the adaptive factor per fill or cancellation.
    pub learning_rate: u64,
    /// Smallest admitted distance from the best bid, as a fraction.
    pub min_distance_pct: u64,
}

pub open spec fn config_wf(c: MarketMakerConfig) -> bool {
    &&& K_FLOOR <= c.base_k <= K_CAP
    &&& c.order_size <= MAX_UNITS
    &&& c.learning_rate <= SCALE
    &&& c.vol_dampening <= SCALE
    &&& c.min_distance_pct <= SCALE
}

impl Default for MarketMakerConfig {
    /// The stock policy: half a volatility of depth, three resting orders,
    /// five percent learning steps.
    fn default() -> (c: MarketMakerConfig)
        ensures
            c.base_k == 500_000,
            c.order_size == 10_000,
            c.max_active_orders == 3,
            c.strong_imbalance_threshold == -700_000,
            c.moderate_imbalance_threshold == -300_000,
            c.vol_dampening == 800_000,
            c.learning_rate == 50_000,
            c.min_distance_pct == 50_000,
            config_wf(c),
    {
        MarketMakerConfig {
            base_k: 500_000,
            order_size: 10_000,
            max_active_orders: 3,
            strong_imbalance_threshold: -700_000,
            moderate_imbalance_threshold: -300_000,
            vol_dampening: 800_000,
            learning_rate: 50_000,
            min_distance_pct: 50_000,
        }
    }
}

/// Life of an order: accepted candidates rest as `Placed`; `Filled` and
/// `Cancelled` are terminal.
#[derive(Clone, Copy, Debug, PartialEq, Eq, Structural)]
pub enum OrderStatus {
    New,
    Placed,
    Filled,
    Cancelled,
}

#[derive(Clone, Copy, Debug, PartialEq, Eq, Structural)]
pub enum OrderSide {
    Buy,
    Sell,
}

/// A synthetic resting order with the provenance of its placement.
#[derive(Clone, Debug)]
pub struct Order {
    pub id: String,
    pub price: u64,
    pub size: u64,
    pub status: OrderStatus,
    pub created_at: u64,
    pub filled_at: Option<u64>,
    pub reference_mid: u64,
    pub reference_best_bid: u64,
    pub k_factor_used: u64,
    pub imbalance_at_placement: i64,
}

pub open spec fn order_wf(o: Order) -> bool {
    1 <= o.price <= MAX_UNITS && o.size <= MAX_UNITS && o.k_factor_used <= K_EFF_CAP
}

pub open spec fn orders_wf(s: Seq<Order>) -> bool {
    forall|i: int| 0 <= i < s.len() ==> order_wf(#[trigger] s[i])
}

pub open spec fn orders_placed(s: Seq<Order>) -> bool {
    forall|i: int| 0 <= i < s.len() ==> (#[trigger] s[i]).status == OrderStatus::Placed
}

/// A point-in-time view of the market, as the strategy reads it.
#[derive(Clone, Copy, Debug)]
pub struct MarketState {
    pub mid_price: u64,
    pub spread: i64,
    pub relative_spread: i64,
    pub imbalance: i64,
    pub volatility: u64,
    pub book_pressure: i64,
    pub regime: MarketRegime,
}

#[derive(Clone, Copy, Debug, PartialEq, Eq, Structural)]
pub enum MarketRegime {
    Normal,
    HighVolatility,
    TrendingUp,
    TrendingDown,
    LowLiquidity,
}

/// The strategy and everything it owns.
#[derive(Debug)]
pub struct MarketMaker {
    pub config: MarketMakerConfig,
    pub order_book: OrderBookState,
    pub recent_trades: RecentTrades,
    pub active_orders: Vec<Order>,
    pub filled_orders: Vec<Order>,
    pub cancelled_orders: Vec<Order>,
    pub current_k: u64,
    pub successful_fill_count: usize,
    pub attempt_count: usize,
    pub last_imbalance: i64,
    pub last_volatility: u64,
    pub last_update_time: u64,
}

pub open spec fn mm_wf(m: MarketMaker) -> bool {
    &&& config_wf(m.config)
    &&& book_wf(m.order_book)
    &&& trades_wf(m.recent_trades)
    &&& K_FLOOR <= m.current_k <= K_CAP
    &&& mag(m.last_imbalance as int) <= SCALE as int
    &&& m.last_volatility <= VOL_CAP
    &&& orders_wf(m.active_orders@)
    &&& orders_placed(m.active_orders@)
    &&& m.successful_fill_count + m.active_orders@.len() <= m.attempt_count
}

/// Both strategies hold exactly the same observable state.
pub open spec fn mm_unchanged(x: MarketMaker, y: MarketMaker) -> bool {
    &&& y.config == x.config
    &&& book_unchanged(x.order_book, y.order_book)
    &&& y.recent_trades.trades@ == x.recent_trades.trades@
    &&& y.recent_trades.window_size == x.recent_trades.window_size
    &&& y.recent_trades.volatility == x.recent_trades.volatility
    &&& y.active_orders@ == x.active_orders@
    &&& y.filled_orders@ == x.filled_orders@
    &&& y.cancelled_orders@ == x.cancelled_orders@
    &&& y.current_k == x.current_k
    &&& y.successful_fill_count == x.successful_fill_count
    &&& y.attempt_count == x.attempt_count
    &&& y.last_imbalance == x.last_imbalance
    &&& y.last_volatility == x.last_volatility
    &&& y.last_update_time == x.last_update_time
}

/// The factor after a successful fill: one learning step down, floored.
pub open spec fn clamp_down(k: int, lr: int) -> int {
    let t = fx_mul(k, SCALE as int - lr);
    if t < K_FLOOR as int {
        K_FLOOR as int
    } else {
        t
    }
}

/// The factor after a cancellation: one learning step up, capped.
pub open spec fn clamp_up(k: int, lr: int) -> int {
    let t = fx_mul(k, SCALE as int + lr);
    if t > K_CAP as int {
        K_CAP as int
    } else {
        t
    }
}

/// A trade fills a resting order when it is an aggressive sell (the buyer
/// was the maker) at or below the order's price.
pub open spec fn fill_cond(o: Order, t: Trade) -> bool {
    o.status == OrderStatus::Placed && t.price <= o.price
}

pub open spec fn fills_of(s: Seq<Order>, t: Trade) -> Seq<Order> {
    s.filter(|o: Order| fill_cond(o, t))
}

pub open spec fn keeps_after_fill(s: Seq<Order>, t: Trade) -> Seq<Order> {
    s.filter(|o: Order| !fill_cond(o, t))
}

/// `f` is `o` marked filled at some time.
pub open spec fn filled_version(o: Order, f: Order) -> bool {
    f == (Order { status: OrderStatus::Filled, filled_at: f.filled_at, ..o }) && f.filled_at
        is Some
}

/// An order is cancelled when its distance below the best bid, relative to
/// the best bid, leaves the band its factor allows: beyond five factor
/// percent (the market moved away) or below half the minimum distance (too
/// close).
pub open spec fn cancel_cond(o: Order, best_bid: u64, c: MarketMakerConfig) -> bool {
    let pd = fx_div(best_bid - o.price, best_bid as int);
    pd > fx_mul(o.k_factor_used as int, 50_000) || pd < tdiv(c.min_distance_pct as int, 2)
}

pub open spec fn cancels_of(s: Seq<Order>, best_bid: u64, c: MarketMakerConfig) -> Seq<Order> {
    s.filter(|o: Order| cancel_cond(o, best_bid, c))
}

pub open spec fn keeps_after_cancel(s: Seq<Order>, best_bid: u64, c: MarketMakerConfig) -> Seq<
    Order,
> {
    s.filter(|o: Order| !cancel_cond(o, best_bid, c))
}

pub open spec fn cancelled_version(o: Order) -> Order {
    Order { status: OrderStatus::Cancelled, ..o }
}

/// How `check_order_fills` transforms the strategy.
pub open spec fn fills_rel(x: MarketMaker, y: MarketMaker, t: Trade) -> bool {
    if !t.buyer_market_maker {
        mm_unchanged(x, y)
    } else {
        let fills = fills_of(x.active_orders@, t);
        &&& y.active_orders@ == keeps_after_fill(x.active_orders@, t)
        &&& y.filled_orders@.len() == x.filled_orders@.len() + fills.len()
        &&& (forall|i: int|
            0 <= i < x.filled_orders@.len() ==> #[trigger] y.filled_orders@[i]
                == x.filled_orders@[i])
        &&& (forall|i: int|
            0 <= i < fills.len() ==> filled_version(
                #[trigger] fills[i],
                y.filled_orders@[x.filled_orders@.len() + i],
            ))
        &&& y.successful_fill_count == x.successful_fill_count + fills.len()
        &&& (fills.len() > 0 ==> y.current_k as int == clamp_down(
            x.current_k as int,
            x.config.learning_rate as int,
        ))
        &&& (fills.len() == 0 ==> y.current_k == x.current_k)
        &&& y.config == x.config
        &&& book_unchanged(x.order_book, y.order_book)
        &&& y.recent_trades.trades@ == x.recent_trades.trades@
        &&& y.recent_trades.window_size == x.recent_trades.window_size
        &&& y.recent_trades.volatility == x.recent_trades.volatility
        &&& y.cancelled_orders@ == x.cancelled_orders@
        &&& y.attempt_count == x.attempt_count
        &&& y.last_imbalance == x.last_imbalance
        &&& y.last_volatility == x.last_volatility
        &&& y.last_update_time == x.last_update_time
    }
}

/// How `manage_existing_orders` transforms the strategy.
pub open spec fn manage_rel(x: MarketMaker, y: MarketMaker) -> bool {
    match x.order_book.best_bid {
        Option::None => mm_unchanged(x, y),
        Option::Some(bb) => {
            let cs = cancels_of(x.active_orders@, bb.0, x.config);
            &&& y.active_orders@ == keeps_after_cancel(x.active_orders@, bb.0, x.config)
            &&& y.cancelled_orders@ == x.cancelled_orders@ + cs.map_values(
                |o: Order| cancelled_version(o),
            )
            &&& (cs.len() > 0 ==> y.current_k as int == clamp_up(
                x.current_k as int,
                x.config.learning_rate as int,
            ))
            &&& (cs.len() == 0 ==> y.current_k == x.current_k)
            &&& y.config == x.config
            &&& book_unchanged(x.order_book, y.order_book)
            &&& y.recent_trades.trades@ == x.recent_trades.trades@
            &&& y.recent_trades.window_size == x.recent_trades.window_size
            &&& y.recent_trades.volatility == x.recent_trades.volatility
            &&& y.filled_orders@ == x.filled_orders@
            &&& y.successful_fill_count == x.successful_fill_count
            &&& y.attempt_count == x.attempt_count
            &&& y.last_imbalance == x.last_imbalance
            &&& y.last_volatility == x.last_volatility
            &&& y.last_update_time == x.last_update_time
        },
    }
}

/// The regime-adjusted factor: aggressive under strong sell pressure, ever
/// more cautious as pressure turns to buying.
pub open spec fn k_eff_of(m: MarketMaker) -> int {
    if m.last_imbalance < m.config.strong_imbalance_threshold {
        fx_mul(m.current_k as int, 500_000)
    } else if m.last_imbalance < m.config.moderate_imbalance_threshold {
        m.current_k as int
    } else if m.last_imbalance < 300_000 {
        fx_mul(m.current_k as int, 1_500_000)
    } else {
        fx_mul(m.current_k as int, 2_500_000)
    }
}

/// The price `place_stink_bids` would place at, if any: mid minus the
/// factor times the price volatility, held at least the minimum distance
/// below the best bid, accepted only when its discount from mid lies in
/// the band from a hundredth of a percent to five percent.
pub open spec fn place_decision(m: MarketMaker) -> Option<int> {
    if m.active_orders@.len() >= m.config.max_active_orders {
        None
    } else {
        match (m.order_book.mid_price, m.order_book.best_bid, m.order_book.best_ask) {
            (Option::Some(mid), Option::Some(bb), Option::Some(_ba)) => {
                if m.last_volatility < VOL_FLOOR {
                    None
                } else {
                    let pvol = fx_mul(m.last_volatility as int, mid as int);
                    let mdist = fx_mul(bb.0 as int, m.config.min_distance_pct as int);
                    let raw = mid - fx_mul(k_eff_of(m), pvol);
                    let price = if bb.0 - raw < mdist {
                        bb.0 - mdist
                    } else {
                        raw
                    };
                    let pct100 = fx_div(mid - price, mid as int) * 100;
                    if 10_000 <= pct100 <= 5_000_000 {
                        Some(price)
                    } else {
                        None
                    }
                }
            },
            _ => None,
        }
    }
}

/// How `place_stink_bids` transforms the strategy.
pub open spec fn place_rel(x: MarketMaker, y: MarketMaker) -> bool {
    match place_decision(x) {
        Option::None => mm_unchanged(x, y),
        Option::Some(p) => {
            let o = y.active_orders@.last();
            &&& y.active_orders@ == x.active_orders@.push(o)
            &&& o.price == p
            &&& o.size == x.config.order_size
            &&& o.status == OrderStatus::Placed
            &&& o.filled_at is None
            &&& Option::<u64>::Some(o.reference_mid) == x.order_book.mid_price
            &&& match x.order_book.best_bid {
                Option::Some(bb) => o.reference_best_bid == bb.0,
                Option::None => false,
            }
            &&& o.k_factor_used as int == k_eff_of(x)
            &&& o.imbalance_at_placement == x.last_imbalance
            &&& y.attempt_count == x.attempt_count + 1
            &&& y.config == x.config
            &&& book_unchanged(x.order_book, y.order_book)
            &&& y.recent_trades.trades@ == x.recent_trades.trades@
            &&& y.recent_trades.window_size == x.recent_trades.window_size
            &&& y.recent_trades.volatility == x.recent_trades.volatility
            &&& y.filled_orders@ == x.filled_orders@
            &&& y.cancelled_orders@ == x.cancelled_orders@
            &&& y.current_k == x.current_k
            &&& y.successful_fill_count == x.successful_fill_count
            &&& y.last_imbalance == x.last_imbalance
            &&& y.last_volatility == x.last_volatility
            &&& y.last_update_time == x.last_update_time
        },
    }
}

/// How the rolling window and the dampened volatility move on one trade.
pub open spec fn window_stepped(x: MarketMaker, y: MarketMaker, t: Trade) -> bool {
    &&& y.recent_trades.window_size == x.recent_trades.window_size
    &&& y.recent_trades.trades@ == seq![(t, y.recent_trades.trades@[0].1)] + (if x
        .recent_trades.trades@.len() == x.recent_trades.window_size {
        x.recent_trades.trades@.drop_last()
    } else {
        x.recent_trades.trades@
    })
    &&& y.recent_trades.trades@[0].1 as int == spec_return(x.recent_trades.trades@, t)
    &&& y.last_volatility as int == (match y.recent_trades.volatility {
        Option::Some(v) => fx_mul(v as int, x.config.vol_dampening as int),
        Option::None => x.last_volatility as int,
    })
    &&& y.config == x.config
    &&& book_unchanged(x.order_book, y.order_book)
    &&& y.active_orders@ == x.active_orders@
    &&& y.filled_orders@ == x.filled_orders@
    &&& y.cancelled_orders@ == x.cancelled_orders@
    &&& y.current_k == x.current_k
    &&& y.successful_fill_count == x.successful_fill_count
    &&& y.attempt_count == x.attempt_count
    &&& y.last_imbalance == x.last_imbalance
    &&& y.last_update_time == x.last_update_time
}

/// The text std's formatting produces for an order label; a function of the
/// timestamp alone.
pub uninterp spec fn order_label_text(t: u64) -> Seq<char>;

/// The text std's formatting produces for the statistics report; a function
/// of the ten rendered values alone.
pub uninterp spec fn stats_text(
    succ: u64,
    att: u64,
    pct_int: u64,
    pct_frac: u64,
    k: u64,
    active: u64,
    imb: i64,
    vol: u64,
    filled: u64,
    cancelled: u64,
) -> Seq<char>;

/// Relies on std's formatting to render an order label from a timestamp; the
/// result depends on the timestamp alone.
#[verifier::external_body]
fn order_label(t: u64) -> (r: String)
    ensures
        r@ == order_label_text(t),
{
    format!("order-{}", t)
}

/// Relies on std's formatting to render the statistics report; the result
/// depends on the ten rendered values alone.
#[verifier::external_body]
fn render_statistics(
    succ: u64,
    att: u64,
    pct_int: u64,
    pct_frac: u64,
    k: u64,
    active: u64,
    imb: i64,
    vol: u64,
    filled: u64,
    cancelled: u64,
) -> (r: String)
    ensures
        r@ == stats_text(succ, att, pct_int, pct_frac, k, active, imb, vol, filled, cancelled),
{
    format!(
        "Stink Bid Statistics:\n - Success Rate: {}/{} ({}.{:02}%)\n - Current K-Factor: {}\n - Active Orders: {}\n - Last Imbalance: {}\n - Last Volatility: {}\n - Total Filled Orders: {}\n - Total Cancelled Orders: {}",
        succ,
        att,
        pct_int,
        pct_frac,
        k,
        active,
        imb,
        vol,
        filled,
        cancelled,
    )
}

/// One learning step keeps the factor within its floor and cap, and never
/// moves it the wrong way.
proof fn lemma_k_step(k: int, lr: int)
    requires
        K_FLOOR as int <= k <= K_CAP as int,
        0 <= lr <= SCALE as int,
    ensures
        K_FLOOR as int <= clamp_down(k, lr) <= k,
        k <= clamp_up(k, lr) <= K_CAP as int,
{
    let down = fx_mul(k, SCALE as int - lr);
    assert(0 <= k * (SCALE as int - lr)) by (nonlinear_arith)
        requires
            0 <= k,
            0 <= SCALE as int - lr,
    ;
    lemma_ratio_bounded(SCALE as int - lr, SCALE as int, k);
    assert(k * (SCALE as int - lr) == (SCALE as int - lr) * k) by (nonlinear_arith);
    assert(down == (k * (SCALE as int - lr)) / (SCALE as int));
    assert(down <= k);
    let t = k * (SCALE as int + lr);
    assert(0 <= k * (SCALE as int + lr)) by (nonlinear_arith)
        requires
            0 <= k,
            0 <= SCALE as int + lr,
    ;
    assert(k * (SCALE as int) <= k * (SCALE as int + lr)) by (nonlinear_arith)
        requires
            0 <= k,
            0 <= lr,
    ;
    vstd::arithmetic::div_mod::lemma_div_is_ordered(k * (SCALE as int), t, SCALE as int);
    vstd::arithmetic::div_mod::lemma_div_multiples_vanish(k, SCALE as int);
    assert(k * (SCALE as int) == (SCALE as int) * k) by (nonlinear_arith);
    assert(fx_mul(k, SCALE as int + lr) == t / (SCALE as int));
    assert(k <= t / (SCALE as int));
}

/// After a fill the factor strictly falls unless already at its floor;
/// after a cancellation it strictly rises unless already at its cap. This
/// needs a learning rate of at least ten raw units, else one step can
/// vanish in rounding.
pub proof fn lemma_k_strictly_adapts(k: int, lr: int)
    requires
        K_FLOOR as int <= k <= K_CAP as int,
        10 <= lr <= SCALE as int,
    ensures
        k > K_FLOOR as int ==> clamp_down(k, lr) < k,
        k < K_CAP as int ==> clamp_up(k, lr) > k,
        K_FLOOR as int <= clamp_down(k, lr) <= k,
        k <= clamp_up(k, lr) <= K_CAP as int,
{
    lemma_k_step(k, lr);
    assert(k * lr >= SCALE as int) by (nonlinear_arith)
        requires
            k >= 100_000,
            lr >= 10,
    ;
    let a = k * (SCALE as int - lr);
    assert(k * (SCALE as int - lr) <= k * (SCALE as int) - (SCALE as int)) by (nonlinear_arith)
        requires
            k * lr >= SCALE as int,
    ;
    assert(0 <= k * (SCALE as int - lr)) by (nonlinear_arith)
        requires
            0 <= k,
            0 <= SCALE as int - lr,
    ;
    vstd::arithmetic::div_mod::lemma_div_is_ordered(a, (SCALE as int) * (k - 1), SCALE as int);
    vstd::arithmetic::div_mod::lemma_div_multiples_vanish(k - 1, SCALE as int);
    assert(k * (SCALE as int) - (SCALE as int) == (SCALE as int) * (k - 1)) by (nonlinear_arith);
    assert(fx_mul(k, SCALE as int - lr) <= k - 1);
    let b = k * (SCALE as int + lr);
    assert(k * (SCALE as int + lr) >= k * (SCALE as int) + (SCALE as int)) by (nonlinear_arith)
        requires
            k * lr >= SCALE as int,
    ;
    vstd::arithmetic::div_mod::lemma_div_is_ordered((SCALE as int) * (k + 1), b, SCALE as int);
    vstd::arithmetic::div_mod::lemma_div_multiples_vanish(k + 1, SCALE as int);
    assert(k * (SCALE as int) + (SCALE as int) == (SCALE as int) * (k + 1)) by (nonlinear_arith);
    assert(fx_mul(k, SCALE as int + lr) >= k + 1);
}

impl MarketMaker {
    /// A fresh strategy around a book and a trade window.
    pub fn new(
        config: MarketMakerConfig,
        order_book: OrderBookState,
        recent_trades: RecentTrades,
    ) -> (m: MarketMaker)
        requires
            config_wf(config),
            book_wf(order_book),
            trades_wf(recent_trades),
        ensures
            m.config == config,
            book_unchanged(order_book, m.order_book),
            m.recent_trades.trades@ == recent_trades.trades@,
            m.recent_trades.window_size == recent_trades.window_size,
            m.recent_trades.volatility == recent_trades.volatility,
            m.active_orders@.len() == 0,
            m.filled_orders@.len() == 0,
            m.cancelled_orders@.len() == 0,
            m.current_k == config.base_k,
            m.successful_fill_count == 0,
            m.attempt_count == 0,
            m.last_imbalance == 0,
            m.last_volatility == 0,
            mm_wf(m),
    {
        MarketMaker {
            current_k: config.base_k,
            config,
            order_book,
            recent_trades,
            active_orders: Vec::new(),
            filled_orders: Vec::new(),
            cancelled_orders: Vec::new(),
            successful_fill_count: 0,
            attempt_count: 0,
            last_imbalance: 0,
            last_volatility: 0,
            last_update_time: now_millis(),
        }
    }

    /// Moves the factor one learning step: down after a success, up after a
    /// failure, always within the floor and the cap.
    pub fn adjust_k_factor(&mut self, was_successful: bool)
        requires
            config_wf(old(self).config),
            K_FLOOR <= old(self).current_k <= K_CAP,
        ensures
            was_successful ==> final(self).current_k as int == clamp_down(
                old(self).current_k as int,
                old(self).config.learning_rate as int,
            ),
            !was_successful ==> final(self).current_k as int == clamp_up(
                old(self).current_k as int,
                old(self).config.learning_rate as int,
            ),
            K_FLOOR <= final(self).current_k <= K_CAP,
            final(self).config == old(self).config,
            final(self).order_book == old(self).order_book,
            final(self).recent_trades == old(self).recent_trades,
            final(self).active_orders == old(self).active_orders,
            final(self).filled_orders == old(self).filled_orders,
            final(self).cancelled_orders == old(self).cancelled_orders,
            final(self).successful_fill_count == old(self).successful_fill_count,
            final(self).attempt_count == old(self).attempt_count,
            final(self).last_imbalance == old(self).last_imbalance,
            final(self).last_volatility == old(self).last_volatility,
            final(self).last_update_time == old(self).last_update_time,
    {
        proof {
            lemma_k_step(self.current_k as int, self.config.learning_rate as int);
        }
        let k: i128 = self.current_k as i128;
        let lr: i128 = self.config.learning_rate as i128;
        if was_successful {
            proof {
                assert(mag(k as int) * mag((SCALE as i128 - lr) as int) <= i128::MAX as int)
                    by (nonlinear_arith)
                    requires
                        0 <= k as int <= 3_000_000int,
                        0 <= (SCALE as i128 - lr) as int <= 1_000_000int,
                ;
            }
            let t: i128 = mul_fx(k, SCALE as i128 - lr);
            let nk: i128 = if t < K_FLOOR as i128 {
                K_FLOOR as i128
            } else {
                t
            };
            self.current_k = nk as u64;
        } else {
            proof {
                assert(mag(k as int) * mag((SCALE as i128 + lr) as int) <= i128::MAX as int)
                    by (nonlinear_arith)
                    requires
                        0 <= k as int <= 3_000_000int,
                        0 <= (SCALE as i128 + lr) as int <= 2_000_000int,
                ;
            }
            let t: i128 = mul_fx(k, SCALE as i128 + lr);
            let nk: i128 = if t > K_CAP as i128 {
                K_CAP as i128
            } else {
                t
            };
            self.current_k = nk as u64;
        }
    }
}

/// An accepted discount band pins the placed price strictly between zero
/// and the mid price.
proof fn lemma_accepted_price(mid: int, price: int, q: int)
    requires
        1 <= mid <= MAX_UNITS as int,
        q == fx_div(mid - price, mid),
        100 <= q <= 50_000,
    ensures
        1 <= price < mid,
{
    let d = mid - price;
    let n = d * (SCALE as int);
    if d <= 0 {
        assert((mid - price) * (SCALE as int) <= 0) by (nonlinear_arith)
            requires
                mid - price <= 0,
        ;
        assert(q <= 0);
        assert(false);
    }
    assert(d >= 1);
    assert((mid - price) * (SCALE as int) >= 0) by (nonlinear_arith)
        requires
            mid - price >= 0,
    ;
    assert(q == n / mid);
    vstd::arithmetic::div_mod::lemma_fundamental_div_mod(n, mid);
    vstd::arithmetic::div_mod::lemma_mod_bound(n, mid);
    if d >= mid {
        assert((mid - price) * (SCALE as int) >= mid * (SCALE as int)) by (nonlinear_arith)
            requires
                mid - price >= mid,
        ;
        assert(mid * (n / mid) + n % mid < mid * (SCALE as int)) by (nonlinear_arith)
            requires
                n / mid <= 50_000,
                n % mid < mid,
                mid >= 1,
        ;
        assert(false);
    }
    assert(price >= 1);
}

impl MarketMaker {
    /// Appends a freshly placed order carrying its placement provenance.
    fn place_order(
        &mut self,
        price: u64,
        size: u64,
        reference_mid: u64,
        reference_best_bid: u64,
        k_factor_used: u64,
    )
        ensures
            final(self).active_orders@.len() == old(self).active_orders@.len() + 1,
            final(self).active_orders@ == old(self).active_orders@.push(
                final(self).active_orders@.last(),
            ),
            ({
                let o = final(self).active_orders@.last();
                &&& o.price == price
                &&& o.size == size
                &&& o.status == OrderStatus::Placed
                &&& o.filled_at is None
                &&& o.reference_mid == reference_mid
                &&& o.reference_best_bid == reference_best_bid
                &&& o.k_factor_used == k_factor_used
                &&& o.imbalance_at_placement == old(self).last_imbalance
                &&& o.id@ == order_label_text(o.created_at)
            }),
            final(self).config == old(self).config,
            final(self).order_book == old(self).order_book,
            final(self).recent_trades == old(self).recent_trades,
            final(self).filled_orders == old(self).filled_orders,
            final(self).cancelled_orders == old(self).cancelled_orders,
            final(self).current_k == old(self).current_k,
            final(self).successful_fill_count == old(self).successful_fill_count,
            final(self).attempt_count == old(self).attempt_count,
            final(self).last_imbalance == old(self).last_imbalance,
            final(self).last_volatility == old(self).last_volatility,
            final(self).last_update_time == old(self).last_update_time,
    {
        let ts: u64 = now_millis();
        let o = Order {
            id: order_label(ts),
            price,
            size,
            status: OrderStatus::Placed,
            created_at: ts,
            filled_at: None,
            reference_mid,
            reference_best_bid,
            k_factor_used,
            imbalance_at_placement: self.last_imbalance,
        };
        self.active_orders.push(o);
    }

    /// Detects fills: on an aggressive sell, every resting order priced at
    /// or above the trade is filled, the success counter grows by the number
    /// of fills, and one fill moves the factor a step down.
    #[verifier::loop_isolation(false)]
    pub fn check_order_fills(&mut self, trade: &Trade)
        requires
            mm_wf(*old(self)),
        ensures
            fills_rel(*old(self), *final(self), *trade),
            mm_wf(*final(self)),
    {
        if !trade.buyer_market_maker {
            return ;
        }
        let ghost orig = *self;
        let ghost t = *trade;
        let mut olds: Vec<Order> = Vec::new();
        std::mem::swap(&mut olds, &mut self.active_orders);
        let mut fills: usize = 0;
        let ghost mut k: int = 0;
        proof {
            reveal(Seq::filter);
            assert(orig.active_orders@.take(0) =~= Seq::<Order>::empty());
            assert(olds@ =~= orig.active_orders@.skip(0));
        }
        while olds.len() > 0
            invariant
                0 <= k <= orig.active_orders@.len(),
                olds@ == orig.active_orders@.skip(k),
                self.active_orders@ == keeps_after_fill(orig.active_orders@.take(k), t),
                self.filled_orders@.len() == orig.filled_orders@.len() + fills_of(
                    orig.active_orders@.take(k),
                    t,
                ).len(),
                forall|i: int|
                    0 <= i < orig.filled_orders@.len() ==> #[trigger] self.filled_orders@[i]
                        == orig.filled_orders@[i],
                forall|i: int|
                    0 <= i < fills_of(orig.active_orders@.take(k), t).len() ==> filled_version(
                        #[trigger] fills_of(orig.active_orders@.take(k), t)[i],
                        self.filled_orders@[orig.filled_orders@.len() + i],
                    ),
                fills == fills_of(orig.active_orders@.take(k), t).len(),
                fills + self.active_orders@.len() == k,
                orders_wf(self.active_orders@),
                orders_placed(self.active_orders@),
                self.config == orig.config,
                self.order_book == orig.order_book,
                self.recent_trades == orig.recent_trades,
                self.cancelled_orders == orig.cancelled_orders,
                self.current_k == orig.current_k,
                self.successful_fill_count == orig.successful_fill_count,
                self.attempt_count == orig.attempt_count,
                self.last_imbalance == orig.last_imbalance,
                self.last_volatility == orig.last_volatility,
                self.last_update_time == orig.last_update_time,
            decreases olds@.len(),
        {
            let ghost pre_olds = olds@;
            let o: Order = olds.remove(0);
            proof {
                reveal(Seq::filter);
                assert(o == orig.active_orders@[k]);
                assert(olds@ =~= orig.active_orders@.skip(k + 1));
                assert(orig.active_orders@.take(k + 1).drop_last() =~= orig.active_orders@.take(
                    k,
                ));
                assert(orig.active_orders@.take(k + 1).last() == orig.active_orders@[k]);
                assert(order_wf(orig.active_orders@[k]));
            }
            if o.status == OrderStatus::Placed && trade.price <= o.price {
                let ts: u64 = now_millis();
                let mut f: Order = o;
                f.status = OrderStatus::Filled;
                f.filled_at = Some(ts);
                self.filled_orders.push(f);
                fills = fills + 1;
                proof {
                    reveal(Seq::filter);
                    assert(fill_cond(orig.active_orders@[k], t));
                    assert(fills_of(orig.active_orders@.take(k + 1), t) =~= fills_of(
                        orig.active_orders@.take(k),
                        t,
                    ).push(orig.active_orders@[k]));
                    assert(keeps_after_fill(orig.active_orders@.take(k + 1), t) =~=
                        keeps_after_fill(orig.active_orders@.take(k), t));
                    assert(filled_version(orig.active_orders@[k], f));
                    k = k + 1;
                }
            } else {
                self.active_orders.push(o);
                proof {
                    reveal(Seq::filter);
                    assert(!fill_cond(orig.active_orders@[k], t));
                    assert(fills_of(orig.active_orders@.take(k + 1), t) =~= fills_of(
                        orig.active_orders@.take(k),
                        t,
                    ));
                    assert(keeps_after_fill(orig.active_orders@.take(k + 1), t) =~=
                        keeps_after_fill(orig.active_orders@.take(k), t).push(
                        orig.active_orders@[k],
                    ));
                    k = k + 1;
                }
            }
        }
        proof {
            assert(orig.active_orders@.take(k) =~= orig.active_orders@);
        }
        self.successful_fill_count = self.successful_fill_count + fills;
        if fills > 0 {
            self.adjust_k_factor(true);
        }
    }

    /// Cancels every resting order that has drifted out of its distance
    /// band below the best bid; one cancellation moves the factor a step up.
    #[verifier::loop_isolation(false)]
    pub fn manage_existing_orders(&mut self)
        requires
            mm_wf(*old(self)),
        ensures
            manage_rel(*old(self), *final(self)),
            mm_wf(*final(self)),
    {
        let bbo: Option<(u64, u64)> = self.order_book.best_bid;
        match bbo {
            None => {},
            Some((bb, _bs)) => {
                proof {
                    assert(self.order_book.bids@.len() > 0);
                    assert(1 <= self.order_book.bids@.last().price <= MAX_UNITS);
                }
                let ghost orig = *self;
                let mut olds: Vec<Order> = Vec::new();
                std::mem::swap(&mut olds, &mut self.active_orders);
                let mut ccount: usize = 0;
                let ghost mut k: int = 0;
                proof {
                    reveal(Seq::filter);
                    assert(orig.active_orders@.take(0) =~= Seq::<Order>::empty());
                    assert(olds@ =~= orig.active_orders@.skip(0));
                    assert(cancels_of(orig.active_orders@.take(0), bb, orig.config).map_values(
                        |o: Order| cancelled_version(o),
                    ) =~= Seq::<Order>::empty());
                }
                while olds.len() > 0
                    invariant
                        1 <= bb <= MAX_UNITS,
                        0 <= k <= orig.active_orders@.len(),
                        olds@ == orig.active_orders@.skip(k),
                        self.active_orders@ == keeps_after_cancel(
                            orig.active_orders@.take(k),
                            bb,
                            orig.config,
                        ),
                        self.cancelled_orders@ == orig.cancelled_orders@ + cancels_of(
                            orig.active_orders@.take(k),
                            bb,
                            orig.config,
                        ).map_values(|o: Order| cancelled_version(o)),
                        ccount == cancels_of(orig.active_orders@.take(k), bb, orig.config).len(),
                        ccount + self.active_orders@.len() == k,
                        orders_wf(self.active_orders@),
                        orders_placed(self.active_orders@),
                        self.config == orig.config,
                        self.order_book == orig.order_book,
                        self.recent_trades == orig.recent_trades,
                        self.filled_orders == orig.filled_orders,
                        self.current_k == orig.current_k,
                        self.successful_fill_count == orig.successful_fill_count,
                        self.attempt_count == orig.attempt_count,
                        self.last_imbalance == orig.last_imbalance,
                        self.last_volatility == orig.last_volatility,
                        self.last_update_time == orig.last_update_time,
                    decreases olds@.len(),
                {
                    let o: Order = olds.remove(0);
                    proof {
                        reveal(Seq::filter);
                        assert(o == orig.active_orders@[k]);
                        assert(olds@ =~= orig.active_orders@.skip(k + 1));
                        assert(orig.active_orders@.take(k + 1).drop_last()
                            =~= orig.active_orders@.take(k));
                        assert(orig.active_orders@.take(k + 1).last() == orig.active_orders@[k]);
                        assert(order_wf(orig.active_orders@[k]));
                        assert(mag(bb as int - o.price as int) * (SCALE as int) <= i128::MAX
                            as int);
                        assert(mag(o.k_factor_used as int) * mag(50_000int) <= i128::MAX as int)
                            by (nonlinear_arith)
                            requires
                                0 <= o.k_factor_used <= 7_500_000,
                        ;
                    }
                    let pd: i128 = div_fx(bb as i128 - o.price as i128, bb as i128);
                    let th: i128 = mul_fx(o.k_factor_used as i128, 50_000);
                    let half: u64 = self.config.min_distance_pct / 2;
                    let cancel: bool = pd > th || pd < half as i128;
                    proof {
                        assert(half as int == tdiv(orig.config.min_distance_pct as int, 2));
                        assert(cancel == cancel_cond(orig.active_orders@[k], bb, orig.config));
                    }
                    if cancel {
                        let mut c: Order = o;
                        c.status = OrderStatus::Cancelled;
                        self.cancelled_orders.push(c);
                        ccount = ccount + 1;
                        proof {
                            reveal(Seq::filter);
                            assert(c == cancelled_version(orig.active_orders@[k]));
                            assert(cancels_of(orig.active_orders@.take(k + 1), bb, orig.config)
                                =~= cancels_of(orig.active_orders@.take(k), bb, orig.config).push(
                                orig.active_orders@[k],
                            ));
                            assert(keeps_after_cancel(
                                orig.active_orders@.take(k + 1),
                                bb,
                                orig.config,
                            ) =~= keeps_after_cancel(orig.active_orders@.take(k), bb, orig.config));
                            assert(cancels_of(orig.active_orders@.take(k + 1), bb, orig.config)
                                .map_values(|x: Order| cancelled_version(x)) =~= cancels_of(
                                orig.active_orders@.take(k),
                                bb,
                                orig.config,
                            ).map_values(|x: Order| cancelled_version(x)).push(c));
                            k = k + 1;
                        }
                    } else {
                        self.active_orders.push(o);
                        proof {
                            reveal(Seq::filter);
                            assert(cancels_of(orig.active_orders@.take(k + 1), bb, orig.config)
                                =~= cancels_of(orig.active_orders@.take(k), bb, orig.config));
                            assert(cancels_of(orig.active_orders@.take(k + 1), bb, orig.config)
                                .map_values(|x: Order| cancelled_version(x)) =~= cancels_of(
                                orig.active_orders@.take(k),
                                bb,
                                orig.config,
                            ).map_values(|x: Order| cancelled_version(x)));
                            assert(keeps_after_cancel(
                                orig.active_orders@.take(k + 1),
                                bb,
                                orig.config,
                            ) =~= keeps_after_cancel(orig.active_orders@.take(k), bb, orig.config)
                                .push(orig.active_orders@[k]));
                            k = k + 1;
                        }
                    }
                }
                proof {
                    assert(orig.active_orders@.take(k) =~= orig.active_orders@);
                }
                if ccount > 0 {
                    self.adjust_k_factor(false);
                }
            },
        }
    }

    /// Places a new stink bid when fewer than the maximum orders rest, the
    /// market data is present, the market is not dead, and the computed
    /// discount from mid is reasonable.
    pub fn place_stink_bids(&mut self)
        requires
            mm_wf(*old(self)),
            old(self).attempt_count < usize::MAX,
        ensures
            place_rel(*old(self), *final(self)),
            mm_wf(*final(self)),
    {
        let ghost orig = *self;
        if self.active_orders.len() >= self.config.max_active_orders {
            return ;
        }
        let mido: Option<u64> = self.order_book.mid_price;
        let bbo: Option<(u64, u64)> = self.order_book.best_bid;
        let bao: Option<(u64, u64)> = self.order_book.best_ask;
        match (mido, bbo, bao) {
            (Some(mid), Some(bb), Some(_ba)) => {
                if self.last_volatility < VOL_FLOOR {
                    return ;
                }
                proof {
                    assert(self.order_book.bids@.len() > 0 && self.order_book.asks@.len() > 0);
                    assert(1 <= self.order_book.bids@.last().price <= MAX_UNITS);
                    assert(1 <= self.order_book.asks@[0].price <= MAX_UNITS);
                    let bp = self.order_book.bids@.last().price as int;
                    let ap = self.order_book.asks@[0].price as int;
                    assert(mid as int == tdiv(bp + ap, 2));
                    assert(mid as int == (bp + ap) / 2);
                    vstd::arithmetic::div_mod::lemma_div_is_ordered(2, bp + ap, 2);
                    vstd::arithmetic::div_mod::lemma_div_is_ordered(
                        bp + ap,
                        2 * (MAX_UNITS as int),
                        2,
                    );
                    vstd::arithmetic::div_mod::lemma_div_multiples_vanish(MAX_UNITS as int, 2);
                    assert(1 <= mid <= MAX_UNITS);
                    assert(1 <= bb.0 <= MAX_UNITS);
                }
                let k: u64 = self.current_k;
                let keff: i128 = if self.last_imbalance < self.config.strong_imbalance_threshold {
                    proof {
                        lemma_k_eff_bound(k as int, 500_000);
                    }
                    mul_fx(k as i128, 500_000)
                } else if self.last_imbalance < self.config.moderate_imbalance_threshold {
                    k as i128
                } else if self.last_imbalance < 300_000 {
                    proof {
                        lemma_k_eff_bound(k as int, 1_500_000);
                    }
                    mul_fx(k as i128, 1_500_000)
                } else {
                    proof {
                        lemma_k_eff_bound(k as int, 2_500_000);
                    }
                    mul_fx(k as i128, 2_500_000)
                };
                proof {
                    assert(keff as int == k_eff_of(orig));
                    assert(0 <= keff as int <= K_EFF_CAP as int);
                }
                let vol: u64 = self.last_volatility;
                proof {
                    assert(vol <= VOL_CAP);
                    assert(mag(vol as int) * mag(mid as int) <= i128::MAX as int)
                        by (nonlinear_arith)
                        requires
                            0 <= vol as int <= 2_000_000_000_000_000_000int,
                            0 <= mid as int <= 1_000_000_000_000int,
                    ;
                }
                let pvol: i128 = mul_fx(vol as i128, mid as i128);
                proof {
                    assert((vol as int) * (mid as int)
                        <= 2000000000000000000000000000000int) by (nonlinear_arith)
                        requires
                            0 <= vol as int <= 2_000_000_000_000_000_000int,
                            0 <= mid as int <= 1_000_000_000_000int,
                    ;
                    assert(0 <= (vol as int) * (mid as int)) by (nonlinear_arith)
                        requires
                            0 <= vol as int,
                            0 <= mid as int,
                    ;
                    vstd::arithmetic::div_mod::lemma_div_is_ordered(
                        (vol as int) * (mid as int),
                        2000000000000000000000000000000int,
                        SCALE as int,
                    );
                    lemma_div_le((vol as int) * (mid as int), SCALE as int);
                    assert(0 <= pvol as int <= 2000000000000000000000000int);
                    assert(mag(keff as int) * mag(pvol as int) <= i128::MAX as int)
                        by (nonlinear_arith)
                        requires
                            0 <= keff as int <= 7_500_000int,
                            0 <= pvol as int <= 2000000000000000000000000int,
                    ;
                }
                let disc: i128 = mul_fx(keff, pvol);
                proof {
                    assert((keff as int) * (pvol as int)
                        <= 15000000000000000000000000000000int) by (nonlinear_arith)
                        requires
                            0 <= keff as int <= 7_500_000int,
                            0 <= pvol as int <= 2000000000000000000000000int,
                    ;
                    assert(0 <= (keff as int) * (pvol as int)) by (nonlinear_arith)
                        requires
                            0 <= keff as int,
                            0 <= pvol as int,
                    ;
                    vstd::arithmetic::div_mod::lemma_div_is_ordered(
                        (keff as int) * (pvol as int),
                        15000000000000000000000000000000int,
                        SCALE as int,
                    );
                    lemma_div_le((keff as int) * (pvol as int), SCALE as int);
                    assert(0 <= disc as int <= 15000000000000000000000000int);
                    assert(mag(bb.0 as int) * mag(orig.config.min_distance_pct as int)
                        <= i128::MAX as int) by (nonlinear_arith)
                        requires
                            0 <= bb.0 as int <= 1_000_000_000_000int,
                            0 <= orig.config.min_distance_pct as int <= 1_000_000int,
                    ;
                }
                let raw: i128 = mid as i128 - disc;
                let mdist: i128 = mul_fx(bb.0 as i128, self.config.min_distance_pct as i128);
                proof {
                    assert((orig.config.min_distance_pct as int) * (bb.0 as int) == (bb.0 as int)
                        * (orig.config.min_distance_pct as int)) by (nonlinear_arith);
                    lemma_ratio_bounded(
                        orig.config.min_distance_pct as int,
                        SCALE as int,
                        bb.0 as int,
                    );
                    assert(0 <= mdist as int <= bb.0 as int);
                }
                let price: i128 = if (bb.0 as i128) - raw < mdist {
                    bb.0 as i128 - mdist
                } else {
                    raw
                };
                proof {
                    assert(-15000000000000000000000000int <= price as int <= 1_000_000_000_000int);
                    assert(mag(mid as int - price as int) * (SCALE as int) <= i128::MAX as int);
                }
                let pctq: i128 = div_fx(mid as i128 - price, mid as i128);
                proof {
                    assert(mag(pctq as int) <= mag(mid as int - price as int) * (SCALE as int));
                }
                let pct100: i128 = pctq * 100;
                if 10_000 <= pct100 && pct100 <= 5_000_000 {
                    proof {
                        assert(pctq as int == fx_div(mid as int - price as int, mid as int));
                        assert(100 <= pctq as int <= 50_000);
                        lemma_accepted_price(mid as int, price as int, pctq as int);
                    }
                    let sz: u64 = self.config.order_size;
                    self.place_order(price as u64, sz, mid, bb.0, keff as u64);
                    self.attempt_count = self.attempt_count + 1;
                } else {
                }
            },
            _ => {},
        }
    }
}

/// A regime multiplier of at most two and a half keeps the effective factor
/// within its cap.
proof fn lemma_k_eff_bound(k: int, c: int)
    requires
        0 <= k <= K_CAP as int,
        0 <= c <= 2_500_000,
    ensures
        0 <= fx_mul(k, c) <= K_EFF_CAP as int,
        mag(k) * mag(c) <= i128::MAX as int,
{
    assert(k * c <= 7500000000000int) by (nonlinear_arith)
        requires
            0 <= k <= 3_000_000int,
            0 <= c <= 2_500_000int,
    ;
    assert(0 <= k * c) by (nonlinear_arith)
        requires
            0 <= k,
            0 <= c,
    ;
    vstd::arithmetic::div_mod::lemma_div_is_ordered(k * c, 7500000000000int, SCALE as int);
    lemma_div_le(k * c, SCALE as int);
}

/// The state between the book step and the order management inside
/// `handle_depth_update`: the book has absorbed the update (or skipped a
/// stale one) and the cached imbalance, when present, has been copied into
/// the strategy's tracking field; nothing else has moved yet.
pub open spec fn depth_prelude(x: MarketMaker, m1: MarketMaker, u: DepthUpdate) -> bool {
    &&& (is_stale(x.order_book, u) ==> book_unchanged(x.order_book, m1.order_book))
    &&& (!is_stale(x.order_book, u) && !is_gap(x.order_book, u) ==> book_stepped(
        x.order_book,
        m1.order_book,
        u,
    ))
    &&& book_wf(m1.order_book)
    &&& m1.last_imbalance as int == (match m1.order_book.imbalance {
        Option::Some(v) => v as int,
        Option::None => x.last_imbalance as int,
    })
    &&& m1.config == x.config
    &&& m1.recent_trades.trades@ == x.recent_trades.trades@
    &&& m1.recent_trades.window_size == x.recent_trades.window_size
    &&& m1.recent_trades.volatility == x.recent_trades.volatility
    &&& m1.active_orders@ == x.active_orders@
    &&& m1.filled_orders@ == x.filled_orders@
    &&& m1.cancelled_orders@ == x.cancelled_orders@
    &&& m1.current_k == x.current_k
    &&& m1.successful_fill_count == x.successful_fill_count
    &&& m1.attempt_count == x.attempt_count
    &&& m1.last_volatility == x.last_volatility
    &&& m1.last_update_time == x.last_update_time
}

impl MarketMaker {
    /// Feeds a depth update to the book; on success refreshes the tracked
    /// imbalance, then reviews resting orders and places new ones. A gap
    /// fails the call and leaves everything untouched.
    pub fn handle_depth_update(&mut self, update: DepthUpdate) -> (r: Result<(), SyncError>)
        requires
            mm_wf(*old(self)),
            update_wf(update),
            old(self).attempt_count < usize::MAX,
        ensures
            mm_wf(*final(self)),
            !is_stale(old(self).order_book, update) && is_gap(old(self).order_book, update) ==> (r
                == Result::<(), SyncError>::Err(
                SyncError::SequenceGap {
                    local: old(self).order_book.last_update_id,
                    first: update.first_update_id,
                    last: update.final_update_id,
                },
            ) && mm_unchanged(*old(self), *final(self))),
            is_stale(old(self).order_book, update) || !is_gap(old(self).order_book, update) ==> (r
                is Ok && exists|m1: MarketMaker, m2: MarketMaker|
                depth_prelude(*old(self), m1, update) && #[trigger] manage_rel(m1, m2)
                    && #[trigger] place_rel(m2, *final(self))),
    {
        let pr: Result<(), SyncError> = self.order_book.process_update(update);
        match pr {
            Err(e) => {
                return Err(e);
            },
            Ok(_) => {},
        }
        let imbo: Option<i64> = self.order_book.imbalance;
        match imbo {
            Some(imb) => {
                proof {
                    let b = self.order_book.bids@;
                    let a = self.order_book.asks@;
                    assert(b.len() > 0 && a.len() > 0);
                    assert(1 <= b.last().size <= MAX_UNITS);
                    assert(1 <= a[0].size <= MAX_UNITS);
                    crate::fixed::lemma_fx_div_away_bounded(
                        b.last().size - a[0].size,
                        b.last().size + a[0].size,
                    );
                }
                self.last_imbalance = imb;
            },
            None => {},
        }
        let ghost m1 = *self;
        self.manage_existing_orders();
        let ghost m2 = *self;
        self.place_stink_bids();
        proof {
            assert(depth_prelude(*old(self), m1, update));
            assert(manage_rel(m1, m2));
            assert(place_rel(m2, *self));
        }
        Ok(())
    }

    /// Feeds a trade to the rolling window, refreshes the dampened
    /// volatility, and detects fills among resting orders.
    pub fn handle_trade(&mut self, trade: Trade) -> (r: Result<(), SyncError>)
        requires
            mm_wf(*old(self)),
            trade_wf(trade),
        ensures
            mm_wf(*final(self)),
            r is Ok,
            exists|m1: MarketMaker| #[trigger] window_stepped(*old(self), m1, trade) && fills_rel(
                m1,
                *final(self),
                trade,
            ),
    {
        self.recent_trades.update(trade);
        let volo: Option<u64> = self.recent_trades.volatility;
        match volo {
            Some(v) => {
                let damp: u64 = self.config.vol_dampening;
                proof {
                    assert(v <= VOL_CAP);
                    assert(mag(v as int) * mag(damp as int) <= i128::MAX as int)
                        by (nonlinear_arith)
                        requires
                            0 <= v as int <= 2_000_000_000_000_000_000int,
                            0 <= damp as int <= 1_000_000int,
                    ;
                    lemma_ratio_bounded(damp as int, SCALE as int, v as int);
                    assert((v as int) * (damp as int) == (damp as int) * (v as int))
                        by (nonlinear_arith);
                }
                let dv: i128 = mul_fx(v as i128, damp as i128);
                proof {
                    assert(0 <= dv as int <= v as int);
                }
                self.last_volatility = dv as u64;
            },
            None => {},
        }
        let ghost m1 = *self;
        proof {
            assert(window_stepped(*old(self), m1, trade));
        }
        self.check_order_fills(&trade);
        proof {
            assert(fills_rel(m1, *self, trade));
        }
        Ok(())
    }

    /// A multi-line textual report of the strategy's counters and state:
    /// the success rate as a truncated percentage with two decimals (zero
    /// while nothing was attempted), the current factor, the order counts,
    /// and the tracked imbalance and volatility.
    pub fn get_statistics(&self) -> (r: String)
        requires
            mm_wf(*self),
        ensures
            ({
                let num = if self.attempt_count > 0 {
                    (self.successful_fill_count * 10000) / (self.attempt_count as int)
                } else {
                    0
                };
                r@ == stats_text(
                    self.successful_fill_count as u64,
                    self.attempt_count as u64,
                    (num / 100) as u64,
                    (num % 100) as u64,
                    self.current_k,
                    self.active_orders@.len() as u64,
                    self.last_imbalance,
                    self.last_volatility,
                    self.filled_orders@.len() as u64,
                    self.cancelled_orders@.len() as u64,
                )
            }),
    {
        let att: usize = self.attempt_count;
        let succ: usize = self.successful_fill_count;
        let num: u64 = if att > 0 {
            proof {
                assert(succ <= att);
                lemma_ratio_bounded(succ as int, att as int, 10_000);
            }
            (((succ as u128) * 10_000) / (att as u128)) as u64
        } else {
            0
        };
        let pi: u64 = num / 100;
        let pf: u64 = num % 100;
        render_statistics(
            succ as u64,
            att as u64,
            pi,
            pf,
            self.current_k,
            self.active_orders.len() as u64,
            self.last_imbalance,
            self.last_volatility,
            self.filled_orders.len() as u64,
            self.cancelled_orders.len() as u64,
        )
    }
}

/// While the maximum number of orders rest, no further candidate is placed:
/// the placement pass leaves the strategy exactly as it was.
pub proof fn lemma_no_order_beyond_max(x: MarketMaker, y: MarketMaker)
    requires
        place_rel(x, y),
        x.active_orders@.len() >= x.config.max_active_orders,
    ensures
        mm_unchanged(x, y),
{
}

/// A fill happens only on a trade whose buyer was the market maker, and only
/// for resting orders priced at or above the trade; any other trade leaves
/// the strategy untouched by the fill pass.
pub proof fn lemma_fill_conditions(x: MarketMaker, y: MarketMaker, t: Trade)
    requires
        fills_rel(x, y, t),
    ensures
        !t.buyer_market_maker ==> mm_unchanged(x, y),
        t.buyer_market_maker ==> forall|i: int|
            0 <= i < fills_of(x.active_orders@, t).len() ==> t.price <= (#[trigger] fills_of(
                x.active_orders@,
                t,
            )[i]).price && fills_of(x.active_orders@, t)[i].status == OrderStatus::Placed,
{
    if t.buyer_market_maker {
        assert forall|i: int| 0 <= i < fills_of(x.active_orders@, t).len() implies t.price <= (
        #[trigger] fills_of(x.active_orders@, t)[i]).price && fills_of(x.active_orders@, t)[i].status
            == OrderStatus::Placed by {
            x.active_orders@.lemma_filter_pred(|o: Order| fill_cond(o, t), i);
        }
    }
}

} // verus!
