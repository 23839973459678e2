//! A fixed-capacity rolling window of trades and their period returns, with
//! eagerly maintained volatility estimates.
//!
//! The newest entry sits at the front (index zero). Once the window is full,
//! the oldest entry (the back) is evicted before a new one is inserted. Each
//! entry carries the return of its trade relative to the trade that was
//! newest when it arrived, or zero for the first entry.

use vstd::prelude::*;

verus! {

use std::collections::VecDeque;
use crate::events::Trade;
use crate::events::trade_wf;
use crate::fixed::MAX_UNITS;
use crate::fixed::SCALE;
use crate::fixed::div_fx;
use crate::fixed::div_tr;
use crate::fixed::fx_div;
use crate::fixed::fx_mul;
use crate::fixed::is_sqrt;
use crate::fixed::isqrt;
use crate::fixed::lemma_div_add_le;
use crate::fixed::lemma_tdiv_scaled_bound;
use crate::fixed::mag;
use crate::fixed::mul_fx;
use crate::fixed::tdiv;

/// Largest admitted window capacity.
pub const MAX_WINDOW: usize = 1_000_000;

/// Largest magnitude a stored period return can reach: a full price range
/// over the smallest positive price, in raw units.
pub const RET_CAP: i64 = 1_000_000_000_000_000_000;

/// Largest value either volatility estimate can reach.
pub const VOL_CAP: u64 = 2_000_000_000_000_000_000;

/// The period return of `t` against the newest stored trade, or zero when
/// the window is empty.
pub open spec fn spec_return(s: Seq<(Trade, i64)>, t: Trade) -> int {
    if s.len() == 0 {
        0
    } else {
        fx_div(t.price - s[0].0.price, s[0].0.price as int)
    }
}

/// The window's content after one insert: the new pair at the front, the
/// oldest entry dropped first when the window was full.
pub open spec fn window_after_insert(s: Seq<(Trade, i64)>, w: int, t: Trade) -> Seq<(Trade, i64)> {
    seq![(t, spec_return(s, t) as i64)] + (if s.len() == w {
        s.drop_last()
    } else {
        s
    })
}

/// The window's content after a batch of inserts, applied in order: the fold
/// of single inserts.
pub open spec fn window_after_inserts(s: Seq<(Trade, i64)>, w: int, ts: Seq<Trade>) -> Seq<
    (Trade, i64),
>
    decreases ts.len(),
{
    if ts.len() == 0 {
        s
    } else {
        window_after_inserts(window_after_insert(s, w, ts[0]), w, ts.drop_first())
    }
}

/// Sum of the first `n` stored returns (newest first).
pub open spec fn sum_rets(s: Seq<(Trade, i64)>, n: int) -> int
    decreases n,
{
    if n <= 0 {
        0
    } else {
        sum_rets(s, n - 1) + s[n - 1].1
    }
}

/// Mean of all stored returns.
pub open spec fn spec_mean(s: Seq<(Trade, i64)>) -> int
    recommends
        s.len() >= 1,
{
    tdiv(sum_rets(s, s.len() as int), s.len() as int)
}

/// Sum of squared deviations from `m` over the first `n` stored returns.
pub open spec fn sum_sq_dev(s: Seq<(Trade, i64)>, n: int, m: int) -> int
    decreases n,
{
    if n <= 0 {
        0
    } else {
        sum_sq_dev(s, n - 1, m) + fx_mul(s[n - 1].1 - m, s[n - 1].1 - m)
    }
}

/// The variance sub-window: thirty percent of the capacity, rounded up,
/// bounded by the number of entries present.
pub open spec fn recent_count(len: int, w: int) -> int {
    let cap = (3 * w + 9) / 10;
    if len < cap {
        len
    } else {
        cap
    }
}

/// Variance over the recent sub-window, of deviations from the whole-window
/// mean.
pub open spec fn spec_variance(s: Seq<(Trade, i64)>, w: int) -> int
    recommends
        s.len() >= 1,
        w >= 1,
{
    tdiv(sum_sq_dev(s, recent_count(s.len() as int, w), spec_mean(s)), recent_count(
        s.len() as int,
        w,
    ))
}

/// The cached volatility agrees with the window: absent below two entries,
/// else the square root of the variance, in raw units.
pub open spec fn vol_ok(s: Seq<(Trade, i64)>, w: int, vol: Option<u64>) -> bool {
    match vol {
        Option::None => s.len() < 2,
        Option::Some(v) => s.len() >= 2 && is_sqrt(spec_variance(s, w) * (SCALE as int), v as int),
    }
}

/// Exponentially weighted variance, seeded by the oldest return: each newer
/// return `r` updates it as `var = lambda * var + (1 - lambda) * r * r`.
pub open spec fn ewma_rec(s: Seq<(Trade, i64)>, l: int) -> int
    recommends
        s.len() >= 1,
    decreases s.len(),
{
    if s.len() <= 1 {
        fx_mul(s[0].1 as int, s[0].1 as int)
    } else {
        fx_mul(l, ewma_rec(s.drop_first(), l)) + fx_mul(
            SCALE as int - l,
            fx_mul(s[0].1 as int, s[0].1 as int),
        )
    }
}

/// The rolling window itself.
#[derive(Debug)]
pub struct RecentTrades {
    pub trades: VecDeque<(Trade, i64)>,
    pub window_size: usize,
    pub volatility: Option<u64>,
}

/// Structural part of the invariant: capacity in range, never exceeded, and
/// every entry well formed with a bounded return.
pub open spec fn trades_data_wf(rt: RecentTrades) -> bool {
    &&& 1 <= rt.window_size <= MAX_WINDOW
    &&& rt.trades@.len() <= rt.window_size
    &&& forall|i: int|
        0 <= i < rt.trades@.len() ==> trade_wf((#[trigger] rt.trades@[i]).0) && mag(
            rt.trades@[i].1 as int,
        ) <= RET_CAP as int
}

/// Full invariant: structure plus a consistent volatility cache.
pub open spec fn trades_wf(rt: RecentTrades) -> bool {
    trades_data_wf(rt) && vol_ok(rt.trades@, rt.window_size as int, rt.volatility)
}

impl Default for RecentTrades {
    /// A window of a thousand trades.
    fn default() -> (r: RecentTrades)
        ensures
            r.trades@.len() == 0,
            r.window_size == 1000,
            r.volatility is None,
            trades_wf(r),
    {
        RecentTrades { trades: VecDeque::new(), window_size: 1000, volatility: None }
    }
}

impl RecentTrades {
    /// An empty window with the given capacity.
    pub fn new(window_size: usize) -> (r: RecentTrades)
        requires
            1 <= window_size <= MAX_WINDOW,
        ensures
            r.trades@.len() == 0,
            r.window_size == window_size,
            r.volatility is None,
            trades_wf(r),
    {
        RecentTrades { trades: VecDeque::with_capacity(window_size), window_size, volatility: None }
    }

    /// The period return of `t` against the newest stored trade.
    fn calculate_returns(&self, t: &Trade) -> (r: i64)
        requires
            trades_data_wf(*self),
            trade_wf(*t),
        ensures
            r as int == spec_return(self.trades@, *t),
            mag(r as int) <= RET_CAP as int,
    {
        if self.trades.len() > 0 {
            let prev: u64 = self.trades[0].0.price;
            assert(1 <= prev <= MAX_UNITS && 1 <= t.price <= MAX_UNITS);
            let num: i128 = t.price as i128 - prev as i128;
            assert(mag(num as int) * (SCALE as int) <= i128::MAX as int);
            let r: i128 = div_fx(num, prev as i128);
            assert(mag(r as int) <= mag(num as int) * (SCALE as int));
            r as i64
        } else {
            0
        }
    }

    /// Volatility of the window: the square root of the variance of the
    /// recent sub-window's returns around the whole-window mean; absent
    /// below two entries.
    pub fn calculate_volatility(&self) -> (r: Option<u64>)
        requires
            trades_data_wf(*self),
        ensures
            vol_ok(self.trades@, self.window_size as int, r),
            r matches Some(v) ==> v <= VOL_CAP,
    {
        let n: usize = self.trades.len();
        if n < 2 {
            return None;
        }
        let ghost s = self.trades@;
        let mut sum: i128 = 0;
        let mut k: usize = 0;
        while k < n
            invariant
                0 <= k <= n == s.len(),
                s == self.trades@,
                trades_data_wf(*self),
                sum as int == sum_rets(s, k as int),
                mag(sum as int) <= k * 1000000000000000000int,
            decreases n - k,
        {
            proof {
                assert(mag(s[k as int].1 as int) <= RET_CAP as int);
            }
            sum = sum + self.trades[k].1 as i128;
            k = k + 1;
        }
        let mean: i128 = div_tr(sum, n as i128);
        proof {
            lemma_tdiv_scaled_bound(sum as int, n as int, RET_CAP as int);
            assert(mean as int == spec_mean(s));
            assert(mag(mean as int) <= RET_CAP as int);
        }
        let cap: usize = (3 * self.window_size + 9) / 10;
        let recent: usize = if n < cap {
            n
        } else {
            cap
        };
        proof {
            assert(recent as int == recent_count(s.len() as int, self.window_size as int));
            assert(1 <= recent <= n);
        }
        let mut acc: i128 = 0;
        let mut j: usize = 0;
        while j < recent
            invariant
                0 <= j <= recent <= n == s.len(),
                s == self.trades@,
                trades_data_wf(*self),
                mag(mean as int) <= RET_CAP as int,
                acc as int == sum_sq_dev(s, j as int, mean as int),
                0 <= acc as int <= j * 4000000000000000000000000000000int,
            decreases recent - j,
        {
            proof {
                assert(mag(s[j as int].1 as int) <= RET_CAP as int);
            }
            let d: i128 = self.trades[j].1 as i128 - mean;
            proof {
                assert(mag(d as int) <= 2000000000000000000int);
                assert(mag(d as int) * mag(d as int) <= 4000000000000000000000000000000000000int)
                    by (nonlinear_arith)
                    requires
                        mag(d as int) <= 2000000000000000000int,
                ;
                assert(0 <= (d as int) * (d as int)) by (nonlinear_arith);
                crate::fixed::lemma_mag_mul(d as int, d as int);
                vstd::arithmetic::div_mod::lemma_div_is_ordered(
                    (d as int) * (d as int),
                    4000000000000000000000000000000000000int,
                    SCALE as int,
                );
                crate::fixed::lemma_div_le((d as int) * (d as int), SCALE as int);
            }
            let term: i128 = mul_fx(d, d);
            proof {
                assert(0 <= term as int <= 4000000000000000000000000000000int);
            }
            acc = acc + term;
            j = j + 1;
        }
        let var: i128 = div_tr(acc, recent as i128);
        proof {
            lemma_tdiv_scaled_bound(acc as int, recent as int, 4000000000000000000000000000000int);
            assert(var as int == spec_variance(s, self.window_size as int));
            assert(0 <= var as int <= 4000000000000000000000000000000int);
        }
        let x: u128 = (var as u128) * (SCALE as u128);
        proof {
            assert(x as int == (var as int) * (SCALE as int));
            assert((x as int) < (crate::fixed::SQRT_IN_CAP as int) * (crate::fixed::SQRT_IN_CAP
                as int));
        }
        let v: u128 = isqrt(x);
        proof {
            assert(v as int <= 2000000000000000000int) by (nonlinear_arith)
                requires
                    0 <= v as int,
                    (v as int) * (v as int) <= x as int,
                    x as int <= 4000000000000000000000000000000000000int,
            ;
        }
        Some(v as u64)
    }

    /// Inserts a trade: computes its period return, evicts the oldest entry
    /// if the window is full, stores the pair at the front, and refreshes
    /// the cached volatility.
    pub fn update(&mut self, trade: Trade)
        requires
            trades_wf(*old(self)),
            trade_wf(trade),
        ensures
            final(self).window_size == old(self).window_size,
            final(self).trades@ == seq![(trade, final(self).trades@[0].1)] + (if old(
                self,
            ).trades@.len() == old(self).window_size {
                old(self).trades@.drop_last()
            } else {
                old(self).trades@
            }),
            final(self).trades@[0].1 as int == spec_return(old(self).trades@, trade),
            final(self).trades@ == window_after_insert(
                old(self).trades@,
                old(self).window_size as int,
                trade,
            ),
            trades_wf(*final(self)),
            final(self).volatility matches Some(v) ==> v <= VOL_CAP,
            old(self).trades@.len() < old(self).window_size ==> final(self).trades@.len() == old(
                self,
            ).trades@.len() + 1,
            old(self).trades@.len() == old(self).window_size ==> final(self).trades@.len() == old(
                self,
            ).window_size,
    {
        let ret: i64 = self.calculate_returns(&trade);
        let ghost pre = self.trades@;
        if self.trades.len() == self.window_size {
            self.trades.pop_back();
            proof {
                assert(self.trades@ =~= pre.drop_last());
            }
        }
        self.trades.push_front((trade, ret));
        let ghost mid = self.trades@;
        proof {
            assert(mid[0] == (trade, ret));
            assert forall|i: int|
                0 <= i < mid.len() implies trade_wf((#[trigger] mid[i]).0) && mag(mid[i].1 as int)
                <= RET_CAP as int by {
                if i > 0 {
                    assert(mid[i] == pre[i - 1]);
                }
            }
        }
        self.volatility = self.calculate_volatility();
        proof {
            assert(mag(spec_return(pre, trade)) <= RET_CAP as int);
            assert(ret as int == spec_return(pre, trade));
            assert(ret == spec_return(pre, trade) as i64);
            assert(self.trades@ =~= window_after_insert(
                pre,
                self.window_size as int,
                trade,
            ));
        }
    }

    /// Inserts a batch of trades in order; the effect equals that many
    /// single inserts.
    #[verifier::loop_isolation(false)]
    pub fn update_many(&mut self, trades: Vec<Trade>)
        requires
            trades_wf(*old(self)),
            forall|i: int| 0 <= i < trades@.len() ==> trade_wf(#[trigger] trades@[i]),
        ensures
            final(self).window_size == old(self).window_size,
            final(self).trades@ == window_after_inserts(
                old(self).trades@,
                old(self).window_size as int,
                trades@,
            ),
            trades_wf(*final(self)),
    {
        let n: usize = trades.len();
        let mut k: usize = 0;
        let ghost w = old(self).window_size as int;
        proof {
            assert(trades@.skip(0) =~= trades@);
        }
        while k < n
            invariant
                0 <= k <= n == trades@.len(),
                self.window_size == old(self).window_size,
                trades_wf(*self),
                window_after_inserts(old(self).trades@, w, trades@) == window_after_inserts(
                    self.trades@,
                    w,
                    trades@.skip(k as int),
                ),
            decreases n - k,
        {
            proof {
                assert(trade_wf(trades@[k as int]));
                assert(trades@.skip(k as int)[0] == trades@[k as int]);
                assert(trades@.skip(k as int).drop_first() =~= trades@.skip(k as int + 1));
            }
            self.update(trades[k]);
            k = k + 1;
        }
        proof {
            assert(trades@.skip(n as int) =~= Seq::<Trade>::empty());
        }
    }

    /// Exponentially weighted volatility with decay `lambda` (raw units):
    /// the square root of a variance seeded by the oldest return and folded
    /// toward the newest; absent while the window is empty.
    pub fn calculate_ewma_volatility(&self, lambda: u64) -> (r: Option<u64>)
        requires
            trades_data_wf(*self),
            lambda <= SCALE,
        ensures
            r is None <==> self.trades@.len() == 0,
            r matches Some(v) ==> is_sqrt(
                ewma_rec(self.trades@, lambda as int) * (SCALE as int),
                v as int,
            ) && v <= VOL_CAP,
    {
        let n: usize = self.trades.len();
        if n == 0 {
            return None;
        }
        let ghost s = self.trades@;
        let r0: i64 = self.trades[n - 1].1;
        proof {
            assert(mag(s[n - 1].1 as int) <= RET_CAP as int);
            lemma_sq_term_bounds(r0 as int);
            assert(s.skip(n - 1) =~= seq![s[n - 1]]);
        }
        let mut var: i128 = mul_fx(r0 as i128, r0 as i128);
        let mut i: usize = n - 1;
        while i > 0
            invariant
                trades_data_wf(*self),
                s == self.trades@,
                1 <= n == s.len(),
                lambda <= SCALE,
                0 <= i <= n - 1,
                var as int == ewma_rec(s.skip(i as int), lambda as int),
                0 <= var as int <= 1000000000000000000000000000000int,
            decreases i,
        {
            let rv: i64 = self.trades[i - 1].1;
            proof {
                assert(mag(s[i - 1].1 as int) <= RET_CAP as int);
                lemma_sq_term_bounds(rv as int);
            }
            let q: i128 = mul_fx(rv as i128, rv as i128);
            proof {
                lemma_ewma_step_bounds(lambda as int, var as int, q as int);
            }
            let t1: i128 = mul_fx(lambda as i128, var);
            let t2: i128 = mul_fx((SCALE - lambda) as i128, q);
            var = t1 + t2;
            proof {
                assert(s.skip(i - 1).drop_first() =~= s.skip(i as int));
                assert(s.skip(i - 1)[0] == s[i - 1]);
            }
            i = i - 1;
        }
        proof {
            assert(s.skip(0) =~= s);
        }
        let x: u128 = (var as u128) * (SCALE as u128);
        proof {
            assert(x as int == (var as int) * (SCALE as int));
            assert((x as int) < (crate::fixed::SQRT_IN_CAP as int) * (crate::fixed::SQRT_IN_CAP
                as int));
        }
        let v: u128 = isqrt(x);
        proof {
            assert(v as int <= 2000000000000000000int) by (nonlinear_arith)
                requires
                    0 <= v as int,
                    (v as int) * (v as int) <= x as int,
                    x as int <= 1000000000000000000000000000000000000int,
            ;
        }
        Some(v as u64)
    }

    /// Relative price change between the newest trade and the trade `n`
    /// positions back; absent while fewer than `n` trades are stored.
    pub fn price_movement(&self, over_recent_trades: usize) -> (r: Option<i64>)
        requires
            trades_data_wf(*self),
            over_recent_trades >= 1,
        ensures
            self.trades@.len() < over_recent_trades ==> r is None,
            self.trades@.len() >= over_recent_trades ==> (r matches Some(v) && v as int == fx_div(
                self.trades@[0].0.price - self.trades@[over_recent_trades - 1].0.price,
                self.trades@[over_recent_trades - 1].0.price as int,
            )),
    {
        let n: usize = self.trades.len();
        if n < over_recent_trades {
            return None;
        }
        let latest: u64 = self.trades[0].0.price;
        let earlier: u64 = self.trades[over_recent_trades - 1].0.price;
        proof {
            assert(trade_wf(self.trades@[0].0));
            assert(trade_wf(self.trades@[over_recent_trades - 1].0));
        }
        let num: i128 = latest as i128 - earlier as i128;
        proof {
            assert(mag(num as int) * (SCALE as int) <= i128::MAX as int);
        }
        let r: i128 = div_fx(num, earlier as i128);
        proof {
            assert(mag(r as int) <= mag(num as int) * (SCALE as int));
        }
        Some(r as i64)
    }
}

/// A squared return, rescaled, stays within the variance cap.
proof fn lemma_sq_term_bounds(rv: int)
    requires
        mag(rv) <= RET_CAP as int,
    ensures
        0 <= fx_mul(rv, rv) <= 1000000000000000000000000000000int,
        mag(rv) * mag(rv) <= i128::MAX as int,
{
    assert(mag(rv) * mag(rv) <= 1000000000000000000000000000000000000int) by (nonlinear_arith)
        requires
            mag(rv) <= 1000000000000000000int,
    ;
    assert(0 <= rv * rv) by (nonlinear_arith);
    crate::fixed::lemma_mag_mul(rv, rv);
    vstd::arithmetic::div_mod::lemma_div_is_ordered(
        rv * rv,
        1000000000000000000000000000000000000int,
        SCALE as int,
    );
    crate::fixed::lemma_div_le(rv * rv, SCALE as int);
}

/// One exponentially weighted step keeps the variance within its cap.
proof fn lemma_ewma_step_bounds(l: int, v: int, q: int)
    requires
        0 <= l <= SCALE as int,
        0 <= v <= 1000000000000000000000000000000int,
        0 <= q <= 1000000000000000000000000000000int,
    ensures
        0 <= fx_mul(l, v),
        0 <= fx_mul(SCALE as int - l, q),
        fx_mul(l, v) + fx_mul(SCALE as int - l, q) <= 1000000000000000000000000000000int,
        mag(l) * mag(v) <= i128::MAX as int,
        mag(SCALE as int - l) * mag(q) <= i128::MAX as int,
{
    let b = 1000000000000000000000000000000int;
    assert(0 <= l * v <= l * b) by (nonlinear_arith)
        requires
            0 <= l,
            0 <= v <= b,
    ;
    assert(0 <= (SCALE as int - l) * q <= (SCALE as int - l) * b) by (nonlinear_arith)
        requires
            0 <= SCALE as int - l,
            0 <= q <= b,
    ;
    assert(mag(l) == l && mag(v) == v && mag(SCALE as int - l) == SCALE as int - l && mag(q) == q);
    assert(l * v <= 1000000000000000000000000000000000000int) by (nonlinear_arith)
        requires
            0 <= l <= 1000000int,
            0 <= v <= 1000000000000000000000000000000int,
    ;
    assert((SCALE as int - l) * q <= 1000000000000000000000000000000000000int) by (nonlinear_arith)
        requires
            0 <= SCALE as int - l <= 1000000int,
            0 <= q <= 1000000000000000000000000000000int,
    ;
    vstd::arithmetic::div_mod::lemma_div_is_ordered(l * v, l * b, SCALE as int);
    vstd::arithmetic::div_mod::lemma_div_is_ordered(
        (SCALE as int - l) * q,
        (SCALE as int - l) * b,
        SCALE as int,
    );
    lemma_div_add_le(l * b, (SCALE as int - l) * b, SCALE as int);
    assert(l * b + (SCALE as int - l) * b == (SCALE as int) * b) by (nonlinear_arith);
    vstd::arithmetic::div_mod::lemma_div_multiples_vanish(b, SCALE as int);
    assert(fx_mul(l, v) == (l * v) / (SCALE as int)) by {
        assert(0 <= l * v) by (nonlinear_arith)
            requires
                0 <= l,
                0 <= v,
        ;
    }
    assert(fx_mul(SCALE as int - l, q) == ((SCALE as int - l) * q) / (SCALE as int)) by {
        assert(0 <= (SCALE as int - l) * q) by (nonlinear_arith)
            requires
                0 <= SCALE as int - l,
                0 <= q,
        ;
    }
    crate::fixed::lemma_div_le(l * v, SCALE as int);
    crate::fixed::lemma_div_le((SCALE as int - l) * q, SCALE as int);
}

proof fn lemma_zero_sum_rets(s: Seq<(Trade, i64)>, n: int)
    requires
        forall|i: int| 0 <= i < s.len() ==> (#[trigger] s[i]).1 == 0,
        0 <= n <= s.len(),
    ensures
        sum_rets(s, n) == 0,
    decreases n,
{
    if n > 0 {
        lemma_zero_sum_rets(s, n - 1);
    }
}

proof fn lemma_zero_sum_sq_dev(s: Seq<(Trade, i64)>, n: int)
    requires
        forall|i: int| 0 <= i < s.len() ==> (#[trigger] s[i]).1 == 0,
        0 <= n <= s.len(),
    ensures
        sum_sq_dev(s, n, 0) == 0,
    decreases n,
{
    if n > 0 {
        lemma_zero_sum_sq_dev(s, n - 1);
        assert(fx_mul(0, 0) == 0) by {
            crate::fixed::lemma_div_le(0, SCALE as int);
        }
    }
}

/// A window whose stored returns are all zero — as when every trade arrived
/// at one identical price — has zero variance and zero volatility.
pub proof fn lemma_uniform_returns_zero_volatility(s: Seq<(Trade, i64)>, w: int)
    requires
        forall|i: int| 0 <= i < s.len() ==> (#[trigger] s[i]).1 == 0,
        2 <= s.len(),
        1 <= w,
    ensures
        spec_variance(s, w) == 0,
        vol_ok(s, w, Some(0u64)),
{
    let n = s.len() as int;
    let rc = recent_count(n, w);
    assert(1 <= rc <= n);
    lemma_zero_sum_rets(s, n);
    crate::fixed::lemma_div_le(0, n);
    assert(spec_mean(s) == 0);
    lemma_zero_sum_sq_dev(s, rc);
    crate::fixed::lemma_div_le(0, rc);
    assert(spec_variance(s, w) == 0);
    assert(is_sqrt(0, 0));
}

} // verus!
