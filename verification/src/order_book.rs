//! The local order book: two sorted price ladders fed by one snapshot and a
//! strictly sequenced stream of diffs, plus eagerly cached derived metrics.
//!
//! Sequencing rules: a diff whose `final_update_id` is at or below the local
//! watermark is stale and silently skipped; a diff whose `first_update_id`
//! does not continue the watermark is a gap and fails, leaving the book as it
//! was. The cached metrics are recomputed after every successful mutation.

use vstd::prelude::*;

verus! {

use crate::clock::now_millis;
use crate::events::DepthSnapshot;
use crate::events::DepthUpdate;
use crate::events::OfferData;
use crate::events::SyncError;
use crate::events::offers_wf;
use crate::events::snapshot_wf;
use crate::events::update_wf;
use crate::fixed::MAX_UNITS;
use crate::fixed::SCALE;
use crate::fixed::div_fx;
use crate::fixed::div_fx_away;
use crate::fixed::fx_div;
use crate::fixed::fx_div_away;
use crate::fixed::fx_mul;
use crate::fixed::lemma_fx_div_away_bounded;
use crate::fixed::lemma_fx_div_bounded;
use crate::fixed::lemma_ratio_bounded;
use crate::fixed::mag;
use crate::fixed::mul_fx;
use crate::fixed::tdiv;
use crate::ladder::ladder_wf;
use crate::ladder::spec_apply_offers;
use crate::ladder::spec_upsert;
use crate::ladder;

/// An executable option over `i64` agrees with a mathematical option.
pub open spec fn opt_i64_is(o: Option<i64>, s: Option<int>) -> bool {
    match o {
        Option::Some(v) => s == Option::<int>::Some(v as int),
        Option::None => s is None,
    }
}

/// An executable option over `u64` agrees with a mathematical option.
pub open spec fn opt_u64_is(o: Option<u64>, s: Option<int>) -> bool {
    match o {
        Option::Some(v) => s == Option::<int>::Some(v as int),
        Option::None => s is None,
    }
}

/// The best bid is the highest-priced level of the bid ladder.
pub open spec fn spec_best_bid(b: Seq<OfferData>) -> Option<(u64, u64)> {
    if b.len() == 0 {
        None
    } else {
        Some((b.last().price, b.last().size))
    }
}

/// The best ask is the lowest-priced level of the ask ladder.
pub open spec fn spec_best_ask(a: Seq<OfferData>) -> Option<(u64, u64)> {
    if a.len() == 0 {
        None
    } else {
        Some((a[0].price, a[0].size))
    }
}

/// Best ask price minus best bid price.
pub open spec fn spec_spread(b: Seq<OfferData>, a: Seq<OfferData>) -> Option<int> {
    if b.len() == 0 || a.len() == 0 {
        None
    } else {
        Some(a[0].price - b.last().price)
    }
}

/// Midpoint of the best bid and ask prices.
pub open spec fn spec_mid(b: Seq<OfferData>, a: Seq<OfferData>) -> Option<int> {
    if b.len() == 0 || a.len() == 0 {
        None
    } else {
        Some(tdiv(b.last().price + a[0].price, 2))
    }
}

/// Spread divided by the mid price, in raw fixed-point units.
pub open spec fn spec_relative_spread(b: Seq<OfferData>, a: Seq<OfferData>) -> Option<int> {
    if b.len() == 0 || a.len() == 0 {
        None
    } else {
        Some(fx_div(a[0].price - b.last().price, tdiv(b.last().price + a[0].price, 2)))
    }
}

/// Top-of-book imbalance `(bid_size - ask_size) / (bid_size + ask_size)` in
/// raw fixed-point units; positive means buy pressure. The ratio is rounded
/// away from zero, so its sign is exactly the sign of the volume difference
/// even when the ratio is below one raw unit.
pub open spec fn spec_imbalance(b: Seq<OfferData>, a: Seq<OfferData>) -> Option<int> {
    if b.len() == 0 || a.len() == 0 {
        None
    } else {
        Some(fx_div_away(b.last().size - a[0].size, b.last().size + a[0].size))
    }
}

/// The local book with its cached derived metrics.
#[derive(Clone, Debug)]
pub struct OrderBookState {
    pub bids: Vec<OfferData>,
    pub asks: Vec<OfferData>,
    pub last_update_id: u64,
    pub last_update_time: u64,
    pub spread: Option<i64>,
    pub relative_spread: Option<i64>,
    pub mid_price: Option<u64>,
    pub imbalance: Option<i64>,
    pub weighted_imbalance: Option<i64>,
    pub best_bid: Option<(u64, u64)>,
    pub best_ask: Option<(u64, u64)>,
}

/// The cached metrics agree with the ladders.
pub open spec fn caches_ok(bk: OrderBookState) -> bool {
    &&& opt_i64_is(bk.spread, spec_spread(bk.bids@, bk.asks@))
    &&& opt_i64_is(bk.relative_spread, spec_relative_spread(bk.bids@, bk.asks@))
    &&& opt_u64_is(bk.mid_price, spec_mid(bk.bids@, bk.asks@))
    &&& opt_i64_is(bk.imbalance, spec_imbalance(bk.bids@, bk.asks@))
    &&& bk.best_bid == spec_best_bid(bk.bids@)
    &&& bk.best_ask == spec_best_ask(bk.asks@)
}

/// Well-formed book: sorted in-range ladders and consistent caches.
pub open spec fn book_wf(bk: OrderBookState) -> bool {
    ladder_wf(bk.bids@) && ladder_wf(bk.asks@) && caches_ok(bk)
}

/// Everything observable about the book is the same.
pub open spec fn book_unchanged(x: OrderBookState, y: OrderBookState) -> bool {
    &&& y.bids@ == x.bids@
    &&& y.asks@ == x.asks@
    &&& y.last_update_id == x.last_update_id
    &&& y.last_update_time == x.last_update_time
    &&& y.spread == x.spread
    &&& y.relative_spread == x.relative_spread
    &&& y.mid_price == x.mid_price
    &&& y.imbalance == x.imbalance
    &&& y.weighted_imbalance == x.weighted_imbalance
    &&& y.best_bid == x.best_bid
    &&& y.best_ask == x.best_ask
}

/// The update's ids are wholly at or below the watermark of `x`.
pub open spec fn is_stale(x: OrderBookState, u: DepthUpdate) -> bool {
    u.final_update_id <= x.last_update_id
}

/// The update starts beyond the next expected id: a sequence gap.
pub open spec fn is_gap(x: OrderBookState, u: DepthUpdate) -> bool {
    u.first_update_id > x.last_update_id + 1
}

/// `y` is `x` with the diff `u` applied: both ladders folded, the watermark
/// and update time advanced; the cached metrics then follow from `book_wf`.
pub open spec fn book_stepped(x: OrderBookState, y: OrderBookState, u: DepthUpdate) -> bool {
    &&& y.bids@ == spec_apply_offers(x.bids@, u.bids@)
    &&& y.asks@ == spec_apply_offers(x.asks@, u.asks@)
    &&& y.last_update_id == u.final_update_id
    &&& y.last_update_time == u.event_time
    &&& y.weighted_imbalance == x.weighted_imbalance
}

/// A snapshot side folded into a fresh ladder: levels with positive size are
/// set, levels with size zero are never inserted.
pub open spec fn spec_snapshot_side(os: Seq<OfferData>) -> Seq<OfferData>
    decreases os.len(),
{
    if os.len() == 0 {
        Seq::empty()
    } else {
        let t = spec_snapshot_side(os.drop_last());
        if os.last().size > 0 {
            spec_upsert(t, os.last().price, os.last().size)
        } else {
            t
        }
    }
}

/// The whole pre-snapshot buffer drained against a book. The result is
/// (all entries accepted, bids, asks, watermark, update time); draining stops
/// at the first entry that neither is stale nor continues the watermark.
pub open spec fn spec_drain(
    b: Seq<OfferData>,
    a: Seq<OfferData>,
    l: u64,
    t: u64,
    us: Seq<DepthUpdate>,
) -> (bool, Seq<OfferData>, Seq<OfferData>, u64, u64)
    decreases us.len(),
{
    if us.len() == 0 {
        (true, b, a, l, t)
    } else {
        let u = us[0];
        if u.final_update_id <= l {
            spec_drain(b, a, l, t, us.drop_first())
        } else if u.first_update_id <= l + 1 {
            spec_drain(
                spec_apply_offers(b, u.bids@),
                spec_apply_offers(a, u.asks@),
                u.final_update_id,
                u.event_time,
                us.drop_first(),
            )
        } else {
            (false, b, a, l, t)
        }
    }
}

impl Default for OrderBookState {
    /// An empty book before the first snapshot: no levels, no metrics.
    fn default() -> (r: OrderBookState)
        ensures
            r.bids@.len() == 0,
            r.asks@.len() == 0,
            r.last_update_id == 0,
            r.last_update_time == 0,
            r.weighted_imbalance is None,
            book_wf(r),
    {
        OrderBookState {
            bids: Vec::new(),
            asks: Vec::new(),
            last_update_id: 0,
            last_update_time: 0,
            spread: None,
            relative_spread: None,
            mid_price: None,
            imbalance: None,
            weighted_imbalance: None,
            best_bid: None,
            best_ask: None,
        }
    }
}

impl OrderBookState {
    /// Recomputes every cached metric from the ladders.
    fn recompute_caches(&mut self)
        requires
            ladder_wf(old(self).bids@),
            ladder_wf(old(self).asks@),
        ensures
            final(self).bids@ == old(self).bids@,
            final(self).asks@ == old(self).asks@,
            final(self).last_update_id == old(self).last_update_id,
            final(self).last_update_time == old(self).last_update_time,
            final(self).weighted_imbalance == old(self).weighted_imbalance,
            book_wf(*final(self)),
    {
        let nb: usize = self.bids.len();
        let na: usize = self.asks.len();
        if nb > 0 && na > 0 {
            let b: OfferData = self.bids[nb - 1];
            let a: OfferData = self.asks[0];
            assert(1 <= b.price <= MAX_UNITS && 1 <= b.size <= MAX_UNITS);
            assert(1 <= a.price <= MAX_UNITS && 1 <= a.size <= MAX_UNITS);
            let sp: i64 = a.price as i64 - b.price as i64;
            let mid: u64 = (b.price + a.price) / 2;
            assert(mid as int == tdiv(b.price + a.price, 2));
            assert(mid >= 1);
            let rs_num: i128 = a.price as i128 - b.price as i128;
            assert(mag(rs_num as int) * (SCALE as int) <= i128::MAX as int);
            let rs: i128 = div_fx(rs_num, mid as i128);
            assert(mag(rs as int) <= mag(rs_num as int) * (SCALE as int));
            let imb_num: i128 = b.size as i128 - a.size as i128;
            let imb_den: i128 = b.size as i128 + a.size as i128;
            proof {
                lemma_fx_div_away_bounded(imb_num as int, imb_den as int);
                assert(mag(imb_num as int) * (SCALE as int) + mag(imb_den as int) <= i128::MAX
                    as int);
            }
            let imb: i128 = div_fx_away(imb_num, imb_den);
            self.spread = Some(sp);
            self.relative_spread = Some(rs as i64);
            self.mid_price = Some(mid);
            self.imbalance = Some(imb as i64);
            self.best_bid = Some((b.price, b.size));
            self.best_ask = Some((a.price, a.size));
        } else {
            self.spread = None;
            self.relative_spread = None;
            self.mid_price = None;
            self.imbalance = None;
            self.best_bid = if nb > 0 {
                let b: OfferData = self.bids[nb - 1];
                Some((b.price, b.size))
            } else {
                None
            };
            self.best_ask = if na > 0 {
                let a: OfferData = self.asks[0];
                Some((a.price, a.size))
            } else {
                None
            };
        }
    }

    /// Replaces the whole book with a snapshot: both ladders are cleared,
    /// every snapshot level with positive size is inserted, and the watermark
    /// becomes the snapshot's `last_update_id`.
    pub fn apply_snapshot(&mut self, snapshot: DepthSnapshot)
        requires
            snapshot_wf(snapshot),
        ensures
            final(self).bids@ == spec_snapshot_side(snapshot.bids@),
            final(self).asks@ == spec_snapshot_side(snapshot.asks@),
            final(self).last_update_id == snapshot.last_update_id,
            final(self).weighted_imbalance == old(self).weighted_imbalance,
            book_wf(*final(self)),
    {
        self.bids.clear();
        self.asks.clear();
        let nb: usize = snapshot.bids.len();
        let mut k: usize = 0;
        proof {
            assert(snapshot.bids@.take(0) =~= Seq::<OfferData>::empty());
        }
        while k < nb
            invariant
                0 <= k <= nb == snapshot.bids@.len(),
                offers_wf(snapshot.bids@),
                self.bids@ == spec_snapshot_side(snapshot.bids@.take(k as int)),
                ladder_wf(self.bids@),
                self.asks@.len() == 0,
                self.weighted_imbalance == old(self).weighted_imbalance,
            decreases nb - k,
        {
            let o = snapshot.bids[k];
            proof {
                assert(crate::events::offer_wf(snapshot.bids@[k as int]));
                assert(snapshot.bids@.take(k as int + 1).drop_last() =~= snapshot.bids@.take(
                    k as int,
                ));
                assert(snapshot.bids@.take(k as int + 1).last() == snapshot.bids@[k as int]);
            }
            if o.size > 0 {
                ladder::upsert(&mut self.bids, o.price, o.size);
            }
            k = k + 1;
        }
        proof {
            assert(snapshot.bids@.take(nb as int) =~= snapshot.bids@);
        }
        let na: usize = snapshot.asks.len();
        let mut j: usize = 0;
        proof {
            assert(snapshot.asks@.take(0) =~= Seq::<OfferData>::empty());
        }
        while j < na
            invariant
                0 <= j <= na == snapshot.asks@.len(),
                offers_wf(snapshot.asks@),
                self.asks@ == spec_snapshot_side(snapshot.asks@.take(j as int)),
                ladder_wf(self.asks@),
                self.bids@ == spec_snapshot_side(snapshot.bids@),
                ladder_wf(self.bids@),
                self.weighted_imbalance == old(self).weighted_imbalance,
            decreases na - j,
        {
            let o = snapshot.asks[j];
            proof {
                assert(crate::events::offer_wf(snapshot.asks@[j as int]));
                assert(snapshot.asks@.take(j as int + 1).drop_last() =~= snapshot.asks@.take(
                    j as int,
                ));
                assert(snapshot.asks@.take(j as int + 1).last() == snapshot.asks@[j as int]);
            }
            if o.size > 0 {
                ladder::upsert(&mut self.asks, o.price, o.size);
            }
            j = j + 1;
        }
        proof {
            assert(snapshot.asks@.take(na as int) =~= snapshot.asks@);
        }
        self.last_update_id = snapshot.last_update_id;
        self.last_update_time = now_millis();
        self.recompute_caches();
    }

    /// Applies both diff sides, advances the watermark and the update time,
    /// and refreshes the cached metrics.
    fn apply_update_changes(&mut self, update: &DepthUpdate)
        requires
            ladder_wf(old(self).bids@),
            ladder_wf(old(self).asks@),
            offers_wf(update.bids@),
            offers_wf(update.asks@),
        ensures
            final(self).bids@ == spec_apply_offers(old(self).bids@, update.bids@),
            final(self).asks@ == spec_apply_offers(old(self).asks@, update.asks@),
            final(self).last_update_id == update.final_update_id,
            final(self).last_update_time == update.event_time,
            final(self).weighted_imbalance == old(self).weighted_imbalance,
            book_wf(*final(self)),
    {
        ladder::apply_offers(&mut self.bids, &update.bids);
        ladder::apply_offers(&mut self.asks, &update.asks);
        self.last_update_id = update.final_update_id;
        self.last_update_time = update.event_time;
        self.recompute_caches();
    }

    /// Live diff processing. A stale diff is a silent no-op; a forward gap
    /// fails and leaves the book untouched; anything else is applied.
    pub fn process_update(&mut self, update: DepthUpdate) -> (r: Result<(), SyncError>)
        requires
            book_wf(*old(self)),
            update_wf(update),
        ensures
            is_stale(*old(self), update) ==> r is Ok && book_unchanged(*old(self), *final(self)),
            !is_stale(*old(self), update) && is_gap(*old(self), update) ==> r == Result::<
                (),
                SyncError,
            >::Err(
                SyncError::SequenceGap {
                    local: old(self).last_update_id,
                    first: update.first_update_id,
                    last: update.final_update_id,
                },
            ) && book_unchanged(*old(self), *final(self)),
            !is_stale(*old(self), update) && !is_gap(*old(self), update) ==> r is Ok
                && book_stepped(*old(self), *final(self), update),
            book_wf(*final(self)),
    {
        if update.final_update_id <= self.last_update_id {
            return Ok(());
        }
        if update.first_update_id > self.last_update_id && update.first_update_id
            - self.last_update_id > 1 {
            return Err(
                SyncError::SequenceGap {
                    local: self.last_update_id,
                    first: update.first_update_id,
                    last: update.final_update_id,
                },
            );
        }
        self.apply_update_changes(&update);
        Ok(())
    }

    /// Drains the queue of diffs buffered before the snapshot. Stale entries
    /// are skipped; the first entry that does not continue the watermark is a
    /// fatal bootstrap gap, and the book keeps the progress made so far.
    #[verifier::loop_isolation(false)]
    pub fn process_buffer(&mut self, buffer: std::collections::VecDeque<DepthUpdate>) -> (r: Result<
        (),
        SyncError,
    >)
        requires
            book_wf(*old(self)),
            forall|i: int| 0 <= i < buffer@.len() ==> update_wf(#[trigger] buffer@[i]),
        ensures
            ({
                let d = spec_drain(
                    old(self).bids@,
                    old(self).asks@,
                    old(self).last_update_id,
                    old(self).last_update_time,
                    buffer@,
                );
                &&& (d.0 ==> r is Ok)
                &&& (!d.0 ==> r == Result::<(), SyncError>::Err(SyncError::BootstrapGap))
                &&& final(self).bids@ == d.1
                &&& final(self).asks@ == d.2
                &&& final(self).last_update_id == d.3
                &&& final(self).last_update_time == d.4
            }),
            final(self).weighted_imbalance == old(self).weighted_imbalance,
            book_wf(*final(self)),
    {
        let ghost d0 = spec_drain(
            old(self).bids@,
            old(self).asks@,
            old(self).last_update_id,
            old(self).last_update_time,
            buffer@,
        );
        let mut buf = buffer;
        loop
            invariant
                book_wf(*self),
                forall|i: int| 0 <= i < buf@.len() ==> update_wf(#[trigger] buf@[i]),
                d0 == spec_drain(
                    self.bids@,
                    self.asks@,
                    self.last_update_id,
                    self.last_update_time,
                    buf@,
                ),
                self.weighted_imbalance == old(self).weighted_imbalance,
            decreases buf@.len(),
        {
            let ghost pre = buf@;
            let ghost b1 = self.bids@;
            let ghost a1 = self.asks@;
            let ghost l1 = self.last_update_id;
            let ghost t1 = self.last_update_time;
            match buf.pop_front() {
                None => {
                    proof {
                        assert(buf@.len() == 0);
                        assert(d0 == (
                            true,
                            self.bids@,
                            self.asks@,
                            self.last_update_id,
                            self.last_update_time,
                        ));
                    }
                    return Ok(());
                },
                Some(u) => {
                    proof {
                        assert(pre.drop_first() =~= buf@);
                        assert(update_wf(pre[0]));
                    }
                    if u.final_update_id <= self.last_update_id {
                        proof {
                            assert(spec_drain(b1, a1, l1, t1, pre) == spec_drain(
                                b1,
                                a1,
                                l1,
                                t1,
                                buf@,
                            ));
                        }
                    } else if !(u.first_update_id > self.last_update_id && u.first_update_id
                        - self.last_update_id > 1) {
                        self.apply_update_changes(&u);
                        proof {
                            assert(spec_drain(b1, a1, l1, t1, pre) == spec_drain(
                                self.bids@,
                                self.asks@,
                                self.last_update_id,
                                self.last_update_time,
                                buf@,
                            ));
                        }
                    } else {
                        proof {
                            assert(spec_drain(b1, a1, l1, t1, pre) == (false, b1, a1, l1, t1));
                        }
                        return Err(SyncError::BootstrapGap);
                    }
                },
            }
        }
    }

    /// Best ask price minus best bid price; absent while either side is empty.
    pub fn spread(&self) -> (r: Option<i64>)
        requires
            book_wf(*self),
        ensures
            opt_i64_is(r, spec_spread(self.bids@, self.asks@)),
    {
        let nb: usize = self.bids.len();
        let na: usize = self.asks.len();
        if nb > 0 && na > 0 {
            let b: OfferData = self.bids[nb - 1];
            let a: OfferData = self.asks[0];
            Some(a.price as i64 - b.price as i64)
        } else {
            None
        }
    }

    /// Spread relative to the mid price, in raw fixed-point units.
    pub fn relative_spread(&self) -> (r: Option<i64>)
        requires
            book_wf(*self),
        ensures
            opt_i64_is(r, spec_relative_spread(self.bids@, self.asks@)),
    {
        let nb: usize = self.bids.len();
        let na: usize = self.asks.len();
        if nb > 0 && na > 0 {
            let b: OfferData = self.bids[nb - 1];
            let a: OfferData = self.asks[0];
            assert(1 <= b.price <= MAX_UNITS && 1 <= a.price <= MAX_UNITS);
            let mid: u64 = (b.price + a.price) / 2;
            let num: i128 = a.price as i128 - b.price as i128;
            assert(mag(num as int) * (SCALE as int) <= i128::MAX as int);
            let rs: i128 = div_fx(num, mid as i128);
            assert(mag(rs as int) <= mag(num as int) * (SCALE as int));
            Some(rs as i64)
        } else {
            None
        }
    }

    /// Midpoint of the best bid and ask prices.
    pub fn mid_price(&self) -> (r: Option<u64>)
        requires
            book_wf(*self),
        ensures
            opt_u64_is(r, spec_mid(self.bids@, self.asks@)),
    {
        let nb: usize = self.bids.len();
        let na: usize = self.asks.len();
        if nb > 0 && na > 0 {
            let b: OfferData = self.bids[nb - 1];
            let a: OfferData = self.asks[0];
            Some((b.price + a.price) / 2)
        } else {
            None
        }
    }

    /// Top-of-book volume imbalance; positive means buy pressure.
    pub fn imbalance(&self) -> (r: Option<i64>)
        requires
            book_wf(*self),
        ensures
            opt_i64_is(r, spec_imbalance(self.bids@, self.asks@)),
    {
        let nb: usize = self.bids.len();
        let na: usize = self.asks.len();
        if nb > 0 && na > 0 {
            let b: OfferData = self.bids[nb - 1];
            let a: OfferData = self.asks[0];
            assert(1 <= b.size <= MAX_UNITS && 1 <= a.size <= MAX_UNITS);
            let num: i128 = b.size as i128 - a.size as i128;
            let den: i128 = b.size as i128 + a.size as i128;
            proof {
                lemma_fx_div_away_bounded(num as int, den as int);
                assert(mag(num as int) * (SCALE as int) + mag(den as int) <= i128::MAX as int);
            }
            let imb: i128 = div_fx_away(num, den);
            Some(imb as i64)
        } else {
            None
        }
    }

    /// The best bid price, if any bid rests on the book.
    pub fn best_bid(&self) -> (r: Option<u64>)
        ensures
            opt_u64_is(
                r,
                match spec_best_bid(self.bids@) {
                    Some(p) => Some(p.0 as int),
                    None => None,
                },
            ),
    {
        let nb: usize = self.bids.len();
        if nb > 0 {
            Some(self.bids[nb - 1].price)
        } else {
            None
        }
    }

    /// The best ask price, if any ask rests on the book.
    pub fn best_ask(&self) -> (r: Option<u64>)
        ensures
            opt_u64_is(
                r,
                match spec_best_ask(self.asks@) {
                    Some(p) => Some(p.0 as int),
                    None => None,
                },
            ),
    {
        if self.asks.len() > 0 {
            Some(self.asks[0].price)
        } else {
            None
        }
    }

    /// The size resting at the best bid.
    pub fn best_bid_size(&self) -> (r: Option<u64>)
        ensures
            opt_u64_is(
                r,
                match spec_best_bid(self.bids@) {
                    Some(p) => Some(p.1 as int),
                    None => None,
                },
            ),
    {
        let nb: usize = self.bids.len();
        if nb > 0 {
            Some(self.bids[nb - 1].size)
        } else {
            None
        }
    }

    /// The size resting at the best ask.
    pub fn best_ask_size(&self) -> (r: Option<u64>)
        ensures
            opt_u64_is(
                r,
                match spec_best_ask(self.asks@) {
                    Some(p) => Some(p.1 as int),
                    None => None,
                },
            ),
    {
        if self.asks.len() > 0 {
            Some(self.asks[0].size)
        } else {
            None
        }
    }
}

/// Deepest window admitted by the volume-weighted queries. With prices and
/// sizes capped at `MAX_UNITS`, each level contributes at most ten to the
/// twenty-fourth power to a price-volume accumulator, so the 128-bit sums
/// would bear about three hundred trillion levels; the cap stops at a
/// billion — far above any real ladder — because the constant must also fit
/// a 32-bit `usize`.
pub const MAX_DEPTH: usize = 1_000_000_000;

/// Total size over the first `n` levels (the ask side reads best-first).
pub open spec fn sum_sizes_first(s: Seq<OfferData>, n: int) -> int
    decreases n,
{
    if n <= 0 {
        0
    } else {
        sum_sizes_first(s, n - 1) + s[n - 1].size
    }
}

/// Total size over the last `n` levels (the bid side reads best-last).
pub open spec fn sum_sizes_last(s: Seq<OfferData>, n: int) -> int
    decreases n,
{
    if n <= 0 {
        0
    } else {
        sum_sizes_last(s, n - 1) + s[s.len() - n].size
    }
}

/// Harmonically weighted size over the first `n` levels: the level at rank
/// `i` from the best carries weight `1 / (i + 1)`.
pub open spec fn wsum_first(s: Seq<OfferData>, n: int) -> int
    decreases n,
{
    if n <= 0 {
        0
    } else {
        wsum_first(s, n - 1) + fx_mul(s[n - 1].size as int, tdiv(SCALE as int, n))
    }
}

/// Harmonically weighted size over the last `n` levels, best-last.
pub open spec fn wsum_last(s: Seq<OfferData>, n: int) -> int
    decreases n,
{
    if n <= 0 {
        0
    } else {
        wsum_last(s, n - 1) + fx_mul(s[s.len() - n].size as int, tdiv(SCALE as int, n))
    }
}

/// Price-times-size total over the first `n` levels.
pub open spec fn ps_first(s: Seq<OfferData>, n: int) -> int
    decreases n,
{
    if n <= 0 {
        0
    } else {
        ps_first(s, n - 1) + s[n - 1].price * s[n - 1].size
    }
}

/// Price-times-size total over the last `n` levels.
pub open spec fn ps_last(s: Seq<OfferData>, n: int) -> int
    decreases n,
{
    if n <= 0 {
        0
    } else {
        ps_last(s, n - 1) + s[s.len() - n].price * s[s.len() - n].size
    }
}

/// Imbalance summed over the top `n` levels of each side, rounded away from
/// zero like the top-of-book imbalance.
pub open spec fn spec_imbalance_depth(b: Seq<OfferData>, a: Seq<OfferData>, n: int) -> Option<
    int,
> {
    if n == 0 || n > b.len() || n > a.len() {
        None
    } else {
        Some(fx_div_away(sum_sizes_last(b, n) - sum_sizes_first(a, n), sum_sizes_last(b, n)
            + sum_sizes_first(a, n)))
    }
}

/// Harmonically weighted imbalance over the top `n` levels of each side.
pub open spec fn spec_weighted_imbalance(b: Seq<OfferData>, a: Seq<OfferData>, n: int) -> Option<
    int,
> {
    if n == 0 || n > b.len() || n > a.len() {
        None
    } else {
        let wb = wsum_last(b, n);
        let wa = wsum_first(a, n);
        if wb + wa == 0 {
            None
        } else {
            Some(fx_div_away(wb - wa, wb + wa))
        }
    }
}

/// Volume-weighted average price over the top `n` levels of each side.
pub open spec fn spec_vwap(b: Seq<OfferData>, a: Seq<OfferData>, n: int) -> Option<(int, int)> {
    if n == 0 || n > b.len() || n > a.len() {
        None
    } else {
        Some(
            (
                tdiv(ps_last(b, n), sum_sizes_last(b, n)),
                tdiv(ps_first(a, n), sum_sizes_first(a, n)),
            ),
        )
    }
}

/// How far each side's volume-weighted price sits from its best price,
/// normalized by the price range of the window, bid side minus ask side,
/// times one hundred. Undefined below a window of two levels, where the
/// price range is empty.
pub open spec fn spec_rel_book_imbalance(b: Seq<OfferData>, a: Seq<OfferData>, n: int) -> Option<
    int,
> {
    if n < 2 || n > b.len() || n > a.len() {
        None
    } else {
        let bb = b.last().price as int;
        let wb = b[b.len() - n].price as int;
        let ba = a[0].price as int;
        let wa = a[n - 1].price as int;
        let bv = tdiv(ps_last(b, n), sum_sizes_last(b, n));
        let av = tdiv(ps_first(a, n), sum_sizes_first(a, n));
        Some((fx_div(bb - bv, bb - wb) - fx_div(ba - av, ba - wa)) * 100)
    }
}

/// How far each side's volume-weighted price sits from the mid price,
/// normalized by the mid price, bid side minus ask side, times one hundred.
/// The two distances `(mid - bid_vwap)/mid` and `(mid - ask_vwap)/mid` are
/// taken as their single equivalent ratio `(ask_vwap - bid_vwap)/mid`,
/// rounded away from zero, so the result is strictly positive exactly when
/// the ask side's weighted price exceeds the bid side's.
pub open spec fn spec_rel_mid_imbalance(b: Seq<OfferData>, a: Seq<OfferData>, n: int) -> Option<
    int,
> {
    if n == 0 || n > b.len() || n > a.len() {
        None
    } else {
        let m = tdiv(b.last().price + a[0].price, 2);
        let bv = tdiv(ps_last(b, n), sum_sizes_last(b, n));
        let av = tdiv(ps_first(a, n), sum_sizes_first(a, n));
        Some(fx_div_away(av - bv, m) * 100)
    }
}

proof fn lemma_sum_sizes_first_bounds(s: Seq<OfferData>, n: int)
    requires
        crate::ladder::levels_wf(s),
        0 <= n <= s.len(),
    ensures
        n <= sum_sizes_first(s, n) <= n * (MAX_UNITS as int),
    decreases n,
{
    if n > 0 {
        lemma_sum_sizes_first_bounds(s, n - 1);
        assert(1 <= s[n - 1].size <= MAX_UNITS);
    }
}

proof fn lemma_sum_sizes_last_bounds(s: Seq<OfferData>, n: int)
    requires
        crate::ladder::levels_wf(s),
        0 <= n <= s.len(),
    ensures
        n <= sum_sizes_last(s, n) <= n * (MAX_UNITS as int),
    decreases n,
{
    if n > 0 {
        lemma_sum_sizes_last_bounds(s, n - 1);
        assert(1 <= s[s.len() - n].size <= MAX_UNITS);
    }
}

/// One harmonic term stays within the size it weights.
proof fn lemma_wterm_bounds(z: u64, n: int)
    requires
        1 <= n,
        z <= MAX_UNITS,
    ensures
        0 <= fx_mul(z as int, tdiv(SCALE as int, n)) <= z,
{
    let w = tdiv(SCALE as int, n);
    crate::fixed::lemma_div_le(SCALE as int, n);
    assert(0 <= w <= SCALE);
    lemma_ratio_bounded(w, SCALE as int, z as int);
    assert((z as int) * w == w * (z as int)) by (nonlinear_arith);
    assert(0 <= (z as int) * w) by (nonlinear_arith)
        requires
            0 <= z,
            0 <= w,
    ;
    assert(fx_mul(z as int, w) == ((z as int) * w) / (SCALE as int));
}

proof fn lemma_wsum_first_bounds(s: Seq<OfferData>, n: int)
    requires
        crate::ladder::levels_wf(s),
        0 <= n <= s.len(),
    ensures
        0 <= wsum_first(s, n) <= n * (MAX_UNITS as int),
    decreases n,
{
    if n > 0 {
        lemma_wsum_first_bounds(s, n - 1);
        lemma_wterm_bounds(s[n - 1].size, n);
    }
}

proof fn lemma_wsum_last_bounds(s: Seq<OfferData>, n: int)
    requires
        crate::ladder::levels_wf(s),
        0 <= n <= s.len(),
    ensures
        0 <= wsum_last(s, n) <= n * (MAX_UNITS as int),
    decreases n,
{
    if n > 0 {
        lemma_wsum_last_bounds(s, n - 1);
        lemma_wterm_bounds(s[s.len() - n].size, n);
    }
}

proof fn lemma_ps_first_bounds(s: Seq<OfferData>, n: int)
    requires
        crate::ladder::ladder_wf(s),
        1 <= n <= s.len(),
    ensures
        (s[0].price as int) * sum_sizes_first(s, n) <= ps_first(s, n),
        ps_first(s, n) <= (s[n - 1].price as int) * sum_sizes_first(s, n),
        0 <= ps_first(s, n),
    decreases n,
{
    lemma_sum_sizes_first_bounds(s, n);
    if n == 1 {
        assert(ps_first(s, 1) == s[0].price * s[0].size);
        assert(sum_sizes_first(s, 1) == s[0].size);
    } else {
        lemma_ps_first_bounds(s, n - 1);
        lemma_sum_sizes_first_bounds(s, n - 1);
        let lo = s[0].price as int;
        let hi = s[n - 1].price as int;
        let hi0 = s[n - 2].price as int;
        let p = s[n - 1].price as int;
        let z = s[n - 1].size as int;
        let t0 = sum_sizes_first(s, n - 1);
        assert(hi0 <= hi && lo <= p);
        assert(ps_first(s, n) == ps_first(s, n - 1) + p * z);
        assert(sum_sizes_first(s, n) == t0 + z);
        assert(hi0 * t0 + p * z <= hi * (t0 + z)) by (nonlinear_arith)
            requires
                hi0 <= hi,
                p <= hi,
                0 <= t0,
                0 <= z,
        ;
        assert(lo * (t0 + z) <= lo * t0 + p * z) by (nonlinear_arith)
            requires
                lo <= p,
                0 <= t0,
                0 <= z,
                0 <= lo,
        ;
    }
    assert(0 <= (s[0].price as int) * sum_sizes_first(s, n)) by (nonlinear_arith)
        requires
            0 <= s[0].price,
            0 <= sum_sizes_first(s, n),
    ;
}

proof fn lemma_ps_last_bounds(s: Seq<OfferData>, n: int)
    requires
        crate::ladder::ladder_wf(s),
        1 <= n <= s.len(),
    ensures
        (s[s.len() - n].price as int) * sum_sizes_last(s, n) <= ps_last(s, n),
        ps_last(s, n) <= (s[s.len() - 1].price as int) * sum_sizes_last(s, n),
        0 <= ps_last(s, n),
    decreases n,
{
    lemma_sum_sizes_last_bounds(s, n);
    if n == 1 {
        assert(ps_last(s, 1) == s[s.len() - 1].price * s[s.len() - 1].size);
        assert(sum_sizes_last(s, 1) == s[s.len() - 1].size);
    } else {
        lemma_ps_last_bounds(s, n - 1);
        lemma_sum_sizes_last_bounds(s, n - 1);
        let lo = s[s.len() - n].price as int;
        let lo0 = s[s.len() - (n - 1)].price as int;
        let hi = s[s.len() - 1].price as int;
        let p = s[s.len() - n].price as int;
        let z = s[s.len() - n].size as int;
        let t0 = sum_sizes_last(s, n - 1);
        assert(lo <= lo0 && p <= hi);
        assert(ps_last(s, n) == ps_last(s, n - 1) + p * z);
        assert(sum_sizes_last(s, n) == t0 + z);
        assert(lo0 * t0 + p * z >= lo * (t0 + z)) by (nonlinear_arith)
            requires
                lo <= lo0,
                lo <= p,
                0 <= t0,
                0 <= z,
        ;
        assert(hi * t0 + p * z <= hi * (t0 + z)) by (nonlinear_arith)
            requires
                p <= hi,
                0 <= t0,
                0 <= z,
        ;
    }
    assert(0 <= (s[s.len() - n].price as int) * sum_sizes_last(s, n)) by (nonlinear_arith)
        requires
            0 <= s[s.len() - n].price,
            0 <= sum_sizes_last(s, n),
    ;
}

/// A volume-weighted average price lies between the window's lowest and
/// highest prices.
proof fn lemma_vwap_first_range(s: Seq<OfferData>, n: int)
    requires
        crate::ladder::ladder_wf(s),
        1 <= n <= s.len(),
    ensures
        s[0].price <= tdiv(ps_first(s, n), sum_sizes_first(s, n)) <= s[n - 1].price,
    decreases n,
{
    lemma_ps_first_bounds(s, n);
    lemma_sum_sizes_first_bounds(s, n);
    let ps = ps_first(s, n);
    let sz = sum_sizes_first(s, n);
    let lo = s[0].price as int;
    let hi = s[n - 1].price as int;
    vstd::arithmetic::div_mod::lemma_div_is_ordered(lo * sz, ps, sz);
    vstd::arithmetic::div_mod::lemma_div_is_ordered(ps, hi * sz, sz);
    vstd::arithmetic::div_mod::lemma_div_multiples_vanish(lo, sz);
    vstd::arithmetic::div_mod::lemma_div_multiples_vanish(hi, sz);
    assert(lo * sz == sz * lo && hi * sz == sz * hi) by (nonlinear_arith);
    assert(tdiv(ps, sz) == ps / sz);
}

proof fn lemma_vwap_last_range(s: Seq<OfferData>, n: int)
    requires
        crate::ladder::ladder_wf(s),
        1 <= n <= s.len(),
    ensures
        s[s.len() - n].price <= tdiv(ps_last(s, n), sum_sizes_last(s, n)) <= s[s.len() - 1].price,
    decreases n,
{
    lemma_ps_last_bounds(s, n);
    lemma_sum_sizes_last_bounds(s, n);
    let ps = ps_last(s, n);
    let sz = sum_sizes_last(s, n);
    let lo = s[s.len() - n].price as int;
    let hi = s[s.len() - 1].price as int;
    vstd::arithmetic::div_mod::lemma_div_is_ordered(lo * sz, ps, sz);
    vstd::arithmetic::div_mod::lemma_div_is_ordered(ps, hi * sz, sz);
    vstd::arithmetic::div_mod::lemma_div_multiples_vanish(lo, sz);
    vstd::arithmetic::div_mod::lemma_div_multiples_vanish(hi, sz);
    assert(lo * sz == sz * lo && hi * sz == sz * hi) by (nonlinear_arith);
    assert(tdiv(ps, sz) == ps / sz);
}

impl OrderBookState {
    /// Sums the top `depth` bid sizes, best (back) first.
    fn sum_bid_sizes(&self, depth: usize) -> (r: u128)
        requires
            book_wf(*self),
            1 <= depth <= self.bids@.len(),
        ensures
            r as int == sum_sizes_last(self.bids@, depth as int),
            depth <= r as int <= depth * (MAX_UNITS as int),
    {
        proof {
            lemma_sum_sizes_last_bounds(self.bids@, depth as int);
        }
        let nb: usize = self.bids.len();
        let mut acc: u128 = 0;
        let mut k: usize = 0;
        while k < depth
            invariant
                book_wf(*self),
                0 <= k <= depth <= nb == self.bids@.len(),
                acc as int == sum_sizes_last(self.bids@, k as int),
                acc as int <= k * (MAX_UNITS as int),
            decreases depth - k,
        {
            proof {
                assert(1 <= self.bids@[nb - 1 - k as int].size <= MAX_UNITS);
            }
            acc = acc + self.bids[nb - 1 - k].size as u128;
            k = k + 1;
        }
        acc
    }

    /// Sums the top `depth` ask sizes, best (front) first.
    fn sum_ask_sizes(&self, depth: usize) -> (r: u128)
        requires
            book_wf(*self),
            1 <= depth <= self.asks@.len(),
        ensures
            r as int == sum_sizes_first(self.asks@, depth as int),
            depth <= r as int <= depth * (MAX_UNITS as int),
    {
        proof {
            lemma_sum_sizes_first_bounds(self.asks@, depth as int);
        }
        let mut acc: u128 = 0;
        let mut k: usize = 0;
        while k < depth
            invariant
                book_wf(*self),
                0 <= k <= depth <= self.asks@.len(),
                acc as int == sum_sizes_first(self.asks@, k as int),
                acc as int <= k * (MAX_UNITS as int),
            decreases depth - k,
        {
            proof {
                assert(1 <= self.asks@[k as int].size <= MAX_UNITS);
            }
            acc = acc + self.asks[k].size as u128;
            k = k + 1;
        }
        acc
    }

    /// Imbalance of total size over the top `depth` levels per side; absent
    /// when the depth is zero or exceeds either side.
    pub fn imbalance_depth(&self, depth: usize) -> (r: Option<i64>)
        requires
            book_wf(*self),
        ensures
            opt_i64_is(r, spec_imbalance_depth(self.bids@, self.asks@, depth as int)),
    {
        let nb: usize = self.bids.len();
        let na: usize = self.asks.len();
        if depth == 0 || depth > nb || depth > na {
            return None;
        }
        let bsum: u128 = self.sum_bid_sizes(depth);
        let asum: u128 = self.sum_ask_sizes(depth);
        let num: i128 = bsum as i128 - asum as i128;
        let den: i128 = bsum as i128 + asum as i128;
        proof {
            lemma_fx_div_away_bounded(num as int, den as int);
            assert(mag(num as int) * (SCALE as int) + mag(den as int) <= i128::MAX as int);
        }
        let v: i128 = div_fx_away(num, den);
        Some(v as i64)
    }

    /// Harmonically weighted imbalance over the top `depth` levels per side:
    /// the level at rank `i` from the best carries weight `1 / (i + 1)`.
    pub fn weighted_relative_imbalance(&self, depth: usize) -> (r: Option<i64>)
        requires
            book_wf(*self),
        ensures
            opt_i64_is(r, spec_weighted_imbalance(self.bids@, self.asks@, depth as int)),
    {
        let nb: usize = self.bids.len();
        let na: usize = self.asks.len();
        if depth == 0 || depth > nb || depth > na {
            return None;
        }
        proof {
            lemma_wsum_last_bounds(self.bids@, depth as int);
            lemma_wsum_first_bounds(self.asks@, depth as int);
        }
        let mut wb: u128 = 0;
        let mut k: usize = 0;
        while k < depth
            invariant
                book_wf(*self),
                0 <= k <= depth <= nb == self.bids@.len(),
                wb as int == wsum_last(self.bids@, k as int),
                wb as int <= k * (MAX_UNITS as int),
            decreases depth - k,
        {
            let z: u64 = self.bids[nb - 1 - k].size;
            let w: u64 = SCALE / (k as u64 + 1);
            proof {
                assert(1 <= z <= MAX_UNITS);
                assert(w as int == tdiv(SCALE as int, k as int + 1));
                lemma_wterm_bounds(z, k as int + 1);
                assert(mag(z as int) * mag(w as int) <= i128::MAX as int) by (nonlinear_arith)
                    requires
                        0 <= z <= MAX_UNITS,
                        0 <= w <= SCALE,
                ;
            }
            let term: i128 = mul_fx(z as i128, w as i128);
            wb = wb + term as u128;
            k = k + 1;
        }
        let mut wa: u128 = 0;
        let mut j: usize = 0;
        while j < depth
            invariant
                book_wf(*self),
                0 <= j <= depth <= na == self.asks@.len(),
                wa as int == wsum_first(self.asks@, j as int),
                wa as int <= j * (MAX_UNITS as int),
            decreases depth - j,
        {
            let z: u64 = self.asks[j].size;
            let w: u64 = SCALE / (j as u64 + 1);
            proof {
                assert(1 <= z <= MAX_UNITS);
                assert(w as int == tdiv(SCALE as int, j as int + 1));
                lemma_wterm_bounds(z, j as int + 1);
                assert(mag(z as int) * mag(w as int) <= i128::MAX as int) by (nonlinear_arith)
                    requires
                        0 <= z <= MAX_UNITS,
                        0 <= w <= SCALE,
                ;
            }
            let term: i128 = mul_fx(z as i128, w as i128);
            wa = wa + term as u128;
            j = j + 1;
        }
        if wb + wa == 0 {
            return None;
        }
        let num: i128 = wb as i128 - wa as i128;
        let den: i128 = wb as i128 + wa as i128;
        proof {
            lemma_fx_div_away_bounded(num as int, den as int);
            assert(mag(num as int) * (SCALE as int) + mag(den as int) <= i128::MAX as int);
        }
        let v: i128 = div_fx_away(num, den);
        Some(v as i64)
    }

    /// Volume-weighted average price over the top `depth` levels of each
    /// side; absent when the depth is zero or exceeds either side.
    pub fn relative_imbalance_vwap(&self, depth: usize) -> (r: Option<(u64, u64)>)
        requires
            book_wf(*self),
            depth <= MAX_DEPTH,
        ensures
            match r {
                Some(p) => spec_vwap(self.bids@, self.asks@, depth as int) == Some(
                    (p.0 as int, p.1 as int),
                ),
                None => spec_vwap(self.bids@, self.asks@, depth as int) is None,
            },
    {
        let nb: usize = self.bids.len();
        let na: usize = self.asks.len();
        if depth == 0 || depth > nb || depth > na {
            return None;
        }
        proof {
            lemma_ps_last_bounds(self.bids@, depth as int);
            lemma_ps_first_bounds(self.asks@, depth as int);
            lemma_vwap_last_range(self.bids@, depth as int);
            lemma_vwap_first_range(self.asks@, depth as int);
        }
        let bsz: u128 = self.sum_bid_sizes(depth);
        let mut bps: u128 = 0;
        let mut k: usize = 0;
        while k < depth
            invariant
                book_wf(*self),
                0 <= k <= depth <= nb == self.bids@.len(),
                depth <= MAX_DEPTH,
                bps as int == ps_last(self.bids@, k as int),
                bps as int <= k * 1000000000000000000000000int,
            decreases depth - k,
        {
            let o: OfferData = self.bids[nb - 1 - k];
            proof {
                assert(1 <= o.price <= MAX_UNITS && 1 <= o.size <= MAX_UNITS);
                assert((o.price as int) * (o.size as int) <= 1000000000000000000000000int)
                    by (nonlinear_arith)
                    requires
                        0 <= o.price <= 1000000000000int,
                        0 <= o.size <= 1000000000000int,
                ;
                assert(0 <= (o.price as int) * (o.size as int)) by (nonlinear_arith)
                    requires
                        0 <= o.price,
                        0 <= o.size,
                ;
            }
            bps = bps + (o.price as u128) * (o.size as u128);
            k = k + 1;
        }
        let asz: u128 = self.sum_ask_sizes(depth);
        let mut aps: u128 = 0;
        let mut j: usize = 0;
        while j < depth
            invariant
                book_wf(*self),
                0 <= j <= depth <= na == self.asks@.len(),
                depth <= MAX_DEPTH,
                aps as int == ps_first(self.asks@, j as int),
                aps as int <= j * 1000000000000000000000000int,
            decreases depth - j,
        {
            let o: OfferData = self.asks[j];
            proof {
                assert(1 <= o.price <= MAX_UNITS && 1 <= o.size <= MAX_UNITS);
                assert((o.price as int) * (o.size as int) <= 1000000000000000000000000int)
                    by (nonlinear_arith)
                    requires
                        0 <= o.price <= 1000000000000int,
                        0 <= o.size <= 1000000000000int,
                ;
                assert(0 <= (o.price as int) * (o.size as int)) by (nonlinear_arith)
                    requires
                        0 <= o.price,
                        0 <= o.size,
                ;
            }
            aps = aps + (o.price as u128) * (o.size as u128);
            j = j + 1;
        }
        let bv: u128 = bps / bsz;
        let av: u128 = aps / asz;
        proof {
            assert(bv as int == tdiv(ps_last(self.bids@, depth as int), sum_sizes_last(self.bids@, depth as int)));
            assert(av as int == tdiv(ps_first(self.asks@, depth as int), sum_sizes_first(self.asks@, depth as int)));
            assert(bv <= MAX_UNITS);
            assert(av <= MAX_UNITS);
        }
        Some((bv as u64, av as u64))
    }

    /// See `spec_rel_book_imbalance`: distance of each side's
    /// volume-weighted price from its best price, normalized by the window's
    /// price range, bid minus ask, times one hundred.
    pub fn relative_book_imbalance(&self, depth: usize) -> (r: Option<i64>)
        requires
            book_wf(*self),
            depth <= MAX_DEPTH,
        ensures
            opt_i64_is(r, spec_rel_book_imbalance(self.bids@, self.asks@, depth as int)),
    {
        let nb: usize = self.bids.len();
        let na: usize = self.asks.len();
        if depth < 2 || depth > nb || depth > na {
            return None;
        }
        proof {
            lemma_vwap_last_range(self.bids@, depth as int);
            lemma_vwap_first_range(self.asks@, depth as int);
        }
        let vw = self.relative_imbalance_vwap(depth);
        match vw {
            None => {
                proof {
                    assert(false);
                }
                None
            },
            Some((bv, av)) => {
                let bb: u64 = self.bids[nb - 1].price;
                let wb: u64 = self.bids[nb - depth].price;
                let ba: u64 = self.asks[0].price;
                let wa: u64 = self.asks[depth - 1].price;
                proof {
                    assert(wb < bb);
                    assert(ba < wa);
                    assert(wb <= bv <= bb);
                    assert(ba <= av <= wa);
                    lemma_fx_div_bounded(bb as int - bv as int, bb as int - wb as int);
                    lemma_fx_div_bounded(ba as int - av as int, ba as int - wa as int);
                    assert(mag(bb as int - bv as int) * (SCALE as int) <= i128::MAX as int);
                    assert(mag(ba as int - av as int) * (SCALE as int) <= i128::MAX as int);
                }
                let bw: i128 = div_fx(bb as i128 - bv as i128, bb as i128 - wb as i128);
                let aw: i128 = div_fx(ba as i128 - av as i128, ba as i128 - wa as i128);
                let v: i128 = (bw - aw) * 100;
                Some(v as i64)
            },
        }
    }

    /// See `spec_rel_mid_imbalance`: distance of each side's volume-weighted
    /// price from the mid price, normalized by the mid price, bid minus ask,
    /// times one hundred.
    pub fn relative_mid_price_imbalance(&self, depth: usize) -> (r: Option<i128>)
        requires
            book_wf(*self),
            depth <= MAX_DEPTH,
        ensures
            match r {
                Some(v) => spec_rel_mid_imbalance(self.bids@, self.asks@, depth as int) == Some(
                    v as int,
                ),
                None => spec_rel_mid_imbalance(self.bids@, self.asks@, depth as int) is None,
            },
    {
        let nb: usize = self.bids.len();
        let na: usize = self.asks.len();
        if depth == 0 || depth > nb || depth > na {
            return None;
        }
        proof {
            lemma_vwap_last_range(self.bids@, depth as int);
            lemma_vwap_first_range(self.asks@, depth as int);
        }
        let vw = self.relative_imbalance_vwap(depth);
        match vw {
            None => {
                proof {
                    assert(false);
                }
                None
            },
            Some((bv, av)) => {
                let bb: u64 = self.bids[nb - 1].price;
                let ba: u64 = self.asks[0].price;
                let m: u64 = (bb + ba) / 2;
                proof {
                    assert(1 <= m);
                    assert(m as int == tdiv(bb as int + ba as int, 2));
                    assert(mag(av as int - bv as int) * (SCALE as int) + mag(m as int)
                        <= i128::MAX as int);
                }
                let q: i128 = div_fx_away(av as i128 - bv as i128, m as i128);
                proof {
                    assert(mag(q as int) <= mag(av as int - bv as int) * (SCALE as int));
                }
                let v: i128 = q * 100;
                Some(v)
            },
        }
    }
}

/// The updates continue the watermark `l` seamlessly: each starts right
/// after the previous one ended.
pub open spec fn contiguous(l: u64, us: Seq<DepthUpdate>) -> bool
    decreases us.len(),
{
    if us.len() == 0 {
        true
    } else {
        &&& us[0].first_update_id as int == l as int + 1
        &&& us[0].first_update_id <= us[0].final_update_id
        &&& contiguous(us[0].final_update_id, us.drop_first())
    }
}

/// Every update applied in order, unconditionally: the state reached by
/// feeding the updates one by one to live processing when none is stale and
/// none gaps.
pub open spec fn seq_apply(b: Seq<OfferData>, a: Seq<OfferData>, us: Seq<DepthUpdate>) -> (
    Seq<OfferData>,
    Seq<OfferData>,
)
    decreases us.len(),
{
    if us.len() == 0 {
        (b, a)
    } else {
        seq_apply(
            spec_apply_offers(b, us[0].bids@),
            spec_apply_offers(a, us[0].asks@),
            us.drop_first(),
        )
    }
}

/// Batch and one-by-one processing agree. For a contiguous stream of
/// updates, draining them as one buffer accepts every entry and yields
/// exactly the ladders of applying them one by one — the state that repeated
/// `process_update` calls produce, each of which steps by `spec_apply_offers`
/// on both sides — with the watermark and time of the last update.
pub proof fn lemma_batch_equals_one_by_one(
    b: Seq<OfferData>,
    a: Seq<OfferData>,
    l: u64,
    t: u64,
    us: Seq<DepthUpdate>,
)
    requires
        contiguous(l, us),
    ensures
        ({
            let d = spec_drain(b, a, l, t, us);
            &&& d.0
            &&& (d.1, d.2) == seq_apply(b, a, us)
            &&& us.len() > 0 ==> d.3 == us.last().final_update_id && d.4 == us.last().event_time
            &&& us.len() == 0 ==> d.3 == l && d.4 == t
        }),
    decreases us.len(),
{
    if us.len() > 0 {
        let u = us[0];
        assert(u.final_update_id as int >= l as int + 1);
        lemma_batch_equals_one_by_one(
            spec_apply_offers(b, u.bids@),
            spec_apply_offers(a, u.asks@),
            u.final_update_id,
            u.event_time,
            us.drop_first(),
        );
        if us.len() > 1 {
            assert(us.drop_first().last() == us.last());
        }
    }
}

/// The top-of-book imbalance stays within one unit either way, and its sign
/// equals the sign of the volume difference exactly.
pub proof fn lemma_imbalance_range(b: Seq<OfferData>, a: Seq<OfferData>)
    requires
        ladder_wf(b),
        ladder_wf(a),
        b.len() > 0,
        a.len() > 0,
    ensures
        ({
            let v = spec_imbalance(b, a)->Some_0;
            &&& spec_imbalance(b, a) is Some
            &&& -(SCALE as int) <= v <= SCALE as int
            &&& v > 0 <==> b.last().size > a[0].size
            &&& v < 0 <==> b.last().size < a[0].size
            &&& v == 0 <==> b.last().size == a[0].size
        }),
{
    assert(1 <= b.last().size <= MAX_UNITS);
    assert(1 <= a[0].size <= MAX_UNITS);
    lemma_fx_div_away_bounded(b.last().size - a[0].size, b.last().size + a[0].size);
}

} // verus!
