//! A volume profile: traded and quoted volume accumulated per price bucket.
//! Prices are rounded down to a multiple of the bucket size; totals saturate
//! at the top of their range rather than wrap.

use vstd::prelude::*;

verus! {

broadcast use vstd::std_specs::btree::group_btree_axioms, vstd::laws_cmp::group_laws_cmp;

use std::collections::BTreeMap;
use crate::events::AggregateTrade;
use crate::events::DepthUpdate;
use crate::events::TradeEventData;

/// Volume accumulated in one price bucket.
#[derive(Clone, Copy, Debug, PartialEq, Eq, Structural)]
pub struct VolumeData {
    pub total_volume: u64,
    pub buy_volume: u64,
    pub sell_volume: u64,
    pub trade_count: u64,
    pub bid_volume_delta: u64,
    pub ask_volume_delta: u64,
}

impl Default for VolumeData {
    /// An empty bucket.
    fn default() -> (d: VolumeData)
        ensures
            d == vd_zero(),
    {
        VolumeData {
            total_volume: 0,
            buy_volume: 0,
            sell_volume: 0,
            trade_count: 0,
            bid_volume_delta: 0,
            ask_volume_delta: 0,
        }
    }
}

pub open spec fn vd_zero() -> VolumeData {
    VolumeData {
        total_volume: 0,
        buy_volume: 0,
        sell_volume: 0,
        trade_count: 0,
        bid_volume_delta: 0,
        ask_volume_delta: 0,
    }
}

/// Addition that stops at the top of the range instead of wrapping.
pub open spec fn sat_add(a: int, b: int) -> int {
    if a + b > u64::MAX as int {
        u64::MAX as int
    } else {
        a + b
    }
}

fn sat_add_u64(a: u64, b: u64) -> (r: u64)
    ensures
        r as int == sat_add(a as int, b as int),
{
    if a > u64::MAX - b {
        u64::MAX
    } else {
        a + b
    }
}

/// The price rounded down to a multiple of the bucket size.
pub open spec fn spec_bucket(price: int, bucket_size: int) -> int
    recommends
        bucket_size >= 1,
{
    (price / bucket_size) * bucket_size
}

/// A bucket after absorbing one trade of the given quantity and side.
pub open spec fn vd_after_trade(d: VolumeData, quantity: u64, buyer_market_maker: bool) -> VolumeData {
    VolumeData {
        total_volume: sat_add(d.total_volume as int, quantity as int) as u64,
        buy_volume: if buyer_market_maker {
            d.buy_volume
        } else {
            sat_add(d.buy_volume as int, quantity as int) as u64
        },
        sell_volume: if buyer_market_maker {
            sat_add(d.sell_volume as int, quantity as int) as u64
        } else {
            d.sell_volume
        },
        trade_count: sat_add(d.trade_count as int, 1) as u64,
        ..d
    }
}

/// The bucket currently held for a price, or the empty bucket.
pub open spec fn bucket_of(m: Map<u64, VolumeData>, b: u64) -> VolumeData {
    if m.contains_key(b) {
        m[b]
    } else {
        vd_zero()
    }
}

/// Volume per price bucket, keyed by the bucket's lowest price.
#[derive(Debug)]
pub struct VolumeProfile {
    pub volume_by_price: BTreeMap<u64, VolumeData>,
    pub bucket_size: u64,
}

pub open spec fn vp_wf(v: VolumeProfile) -> bool {
    v.bucket_size >= 1
}

/// One diff side folded into the profile, each level's size added to its
/// bucket's quoted-volume delta (`on_bids` picks which delta).
pub open spec fn spec_apply_depth_side(
    m: Map<u64, VolumeData>,
    os: Seq<crate::events::OfferData>,
    bucket_size: u64,
    on_bids: bool,
) -> Map<u64, VolumeData>
    decreases os.len(),
{
    if os.len() == 0 {
        m
    } else {
        let t = spec_apply_depth_side(m, os.drop_last(), bucket_size, on_bids);
        let o = os.last();
        let b = spec_bucket(o.price as int, bucket_size as int) as u64;
        let d = bucket_of(t, b);
        let nd = if on_bids {
            VolumeData { bid_volume_delta: sat_add(d.bid_volume_delta as int, o.size as int) as u64, ..d }
        } else {
            VolumeData { ask_volume_delta: sat_add(d.ask_volume_delta as int, o.size as int) as u64, ..d }
        };
        t.insert(b, nd)
    }
}

impl VolumeProfile {
    /// An empty profile with the given bucket size.
    pub fn new(bucket_size: u64) -> (v: VolumeProfile)
        requires
            bucket_size >= 1,
        ensures
            v.volume_by_price@ == Map::<u64, VolumeData>::empty(),
            v.bucket_size == bucket_size,
            vp_wf(v),
    {
        VolumeProfile { volume_by_price: BTreeMap::new(), bucket_size }
    }

    /// The bucket a price falls into.
    pub fn get_price_bucket(&self, price: u64) -> (b: u64)
        requires
            vp_wf(*self),
        ensures
            b as int == spec_bucket(price as int, self.bucket_size as int),
    {
        proof {
            vstd::arithmetic::div_mod::lemma_fundamental_div_mod(
                price as int,
                self.bucket_size as int,
            );
            vstd::arithmetic::div_mod::lemma_mod_bound(price as int, self.bucket_size as int);
            assert((price as int / self.bucket_size as int) * (self.bucket_size as int) == (
            self.bucket_size as int) * (price as int / self.bucket_size as int))
                by (nonlinear_arith);
        }
        (price / self.bucket_size) * self.bucket_size
    }

    /// Reads the bucket for a price, or the empty bucket.
    fn bucket_at(&self, b: u64) -> (d: VolumeData)
        ensures
            d == bucket_of(self.volume_by_price@, b),
    {
        match self.volume_by_price.get(&b) {
            Some(d) => *d,
            None => VolumeData::default(),
        }
    }

    /// Accumulates one aggregated trade into its bucket.
    pub fn update_from_agg_trade(&mut self, trade: &AggregateTrade)
        requires
            vp_wf(*old(self)),
        ensures
            ({
                let b = spec_bucket(trade.price as int, old(self).bucket_size as int) as u64;
                final(self).volume_by_price@ == old(self).volume_by_price@.insert(
                    b,
                    vd_after_trade(
                        bucket_of(old(self).volume_by_price@, b),
                        trade.quantity,
                        trade.buyer_market_maker,
                    ),
                )
            }),
            final(self).bucket_size == old(self).bucket_size,
            vp_wf(*final(self)),
    {
        let b: u64 = self.get_price_bucket(trade.price);
        let d: VolumeData = self.bucket_at(b);
        let nd = VolumeData {
            total_volume: sat_add_u64(d.total_volume, trade.quantity),
            buy_volume: if trade.buyer_market_maker {
                d.buy_volume
            } else {
                sat_add_u64(d.buy_volume, trade.quantity)
            },
            sell_volume: if trade.buyer_market_maker {
                sat_add_u64(d.sell_volume, trade.quantity)
            } else {
                d.sell_volume
            },
            trade_count: sat_add_u64(d.trade_count, 1),
            ..d
        };
        self.volume_by_price.insert(b, nd);
    }

    /// Accumulates one plain trade into its bucket.
    pub fn update_from_trade(&mut self, trade: &TradeEventData)
        requires
            vp_wf(*old(self)),
        ensures
            ({
                let b = spec_bucket(trade.price as int, old(self).bucket_size as int) as u64;
                final(self).volume_by_price@ == old(self).volume_by_price@.insert(
                    b,
                    vd_after_trade(
                        bucket_of(old(self).volume_by_price@, b),
                        trade.quantity,
                        trade.buyer_market_maker,
                    ),
                )
            }),
            final(self).bucket_size == old(self).bucket_size,
            vp_wf(*final(self)),
    {
        let b: u64 = self.get_price_bucket(trade.price);
        let d: VolumeData = self.bucket_at(b);
        let nd = VolumeData {
            total_volume: sat_add_u64(d.total_volume, trade.quantity),
            buy_volume: if trade.buyer_market_maker {
                d.buy_volume
            } else {
                sat_add_u64(d.buy_volume, trade.quantity)
            },
            sell_volume: if trade.buyer_market_maker {
                sat_add_u64(d.sell_volume, trade.quantity)
            } else {
                d.sell_volume
            },
            trade_count: sat_add_u64(d.trade_count, 1),
            ..d
        };
        self.volume_by_price.insert(b, nd);
    }

    /// Accumulates a depth diff: each level's size is added to the quoted
    /// bid or ask delta of the level's bucket.
    #[verifier::loop_isolation(false)]
    pub fn update_from_depth(&mut self, update: &DepthUpdate)
        requires
            vp_wf(*old(self)),
        ensures
            final(self).volume_by_price@ == spec_apply_depth_side(
                spec_apply_depth_side(
                    old(self).volume_by_price@,
                    update.bids@,
                    old(self).bucket_size,
                    true,
                ),
                update.asks@,
                old(self).bucket_size,
                false,
            ),
            final(self).bucket_size == old(self).bucket_size,
            vp_wf(*final(self)),
    {
        let ghost m0 = self.volume_by_price@;
        let nb: usize = update.bids.len();
        let mut k: usize = 0;
        proof {
            assert(update.bids@.take(0) =~= Seq::<crate::events::OfferData>::empty());
        }
        while k < nb
            invariant
                0 <= k <= nb == update.bids@.len(),
                self.volume_by_price@ == spec_apply_depth_side(
                    m0,
                    update.bids@.take(k as int),
                    old(self).bucket_size,
                    true,
                ),
                self.bucket_size == old(self).bucket_size,
            decreases nb - k,
        {
            proof {
                assert(update.bids@.take(k as int + 1).drop_last() =~= update.bids@.take(k as int));
                assert(update.bids@.take(k as int + 1).last() == update.bids@[k as int]);
            }
            let o = update.bids[k];
            let b: u64 = self.get_price_bucket(o.price);
            let d: VolumeData = self.bucket_at(b);
            let nd = VolumeData { bid_volume_delta: sat_add_u64(d.bid_volume_delta, o.size), ..d };
            self.volume_by_price.insert(b, nd);
            k = k + 1;
        }
        proof {
            assert(update.bids@.take(nb as int) =~= update.bids@);
        }
        let ghost m1 = self.volume_by_price@;
        let na: usize = update.asks.len();
        let mut j: usize = 0;
        proof {
            assert(update.asks@.take(0) =~= Seq::<crate::events::OfferData>::empty());
        }
        while j < na
            invariant
                0 <= j <= na == update.asks@.len(),
                self.volume_by_price@ == spec_apply_depth_side(
                    m1,
                    update.asks@.take(j as int),
                    old(self).bucket_size,
                    false,
                ),
                self.bucket_size == old(self).bucket_size,
            decreases na - j,
        {
            proof {
                assert(update.asks@.take(j as int + 1).drop_last() =~= update.asks@.take(j as int));
                assert(update.asks@.take(j as int + 1).last() == update.asks@[j as int]);
            }
            let o = update.asks[j];
            let b: u64 = self.get_price_bucket(o.price);
            let d: VolumeData = self.bucket_at(b);
            let nd = VolumeData { ask_volume_delta: sat_add_u64(d.ask_volume_delta, o.size), ..d };
            self.volume_by_price.insert(b, nd);
            j = j + 1;
        }
        proof {
            assert(update.asks@.take(na as int) =~= update.asks@);
        }
    }
}

} // verus!
