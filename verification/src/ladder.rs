//! One side of the book: a price ladder kept as a vector of levels sorted by
//! strictly increasing price. Bids read their best level at the back, asks at
//! the front.

use vstd::prelude::*;

verus! {

use crate::events::OfferData;
use crate::events::offer_wf;
use crate::events::offers_wf;
use crate::fixed::MAX_UNITS;

/// Prices strictly increase along the ladder, so each price occurs once.
pub open spec fn sorted(s: Seq<OfferData>) -> bool {
    forall|i: int, j: int| 0 <= i < j < s.len() ==> s[i].price < s[j].price
}

/// Every stored level has a positive price, a positive size, and both within
/// the admitted range.
pub open spec fn levels_wf(s: Seq<OfferData>) -> bool {
    forall|i: int|
        0 <= i < s.len() ==> 1 <= (#[trigger] s[i]).price <= MAX_UNITS && 1 <= s[i].size
            <= MAX_UNITS
}

pub open spec fn ladder_wf(s: Seq<OfferData>) -> bool {
    sorted(s) && levels_wf(s)
}

/// How many levels sit strictly below price `p`.
pub open spec fn count_below(s: Seq<OfferData>, p: u64) -> int
    decreases s.len(),
{
    if s.len() == 0 {
        0
    } else {
        (if s[0].price < p {
            1int
        } else {
            0int
        }) + count_below(s.drop_first(), p)
    }
}

/// Whether the ladder holds a level at price `p`.
pub open spec fn has_price(s: Seq<OfferData>, p: u64) -> bool {
    exists|i: int| 0 <= i < s.len() && s[i].price == p
}

/// The ladder after setting price `p` to size `z` (an upsert).
pub open spec fn spec_upsert(s: Seq<OfferData>, p: u64, z: u64) -> Seq<OfferData> {
    let c = count_below(s, p);
    if c < s.len() && s[c].price == p {
        s.update(c, OfferData { price: p, size: z })
    } else {
        s.insert(c, OfferData { price: p, size: z })
    }
}

/// The ladder after deleting price `p`, if present.
pub open spec fn spec_remove(s: Seq<OfferData>, p: u64) -> Seq<OfferData> {
    let c = count_below(s, p);
    if c < s.len() && s[c].price == p {
        s.remove(c)
    } else {
        s
    }
}

/// One diff entry: a positive size upserts the level, a zero size deletes it.
pub open spec fn spec_apply_offer(s: Seq<OfferData>, o: OfferData) -> Seq<OfferData> {
    if o.size > 0 {
        spec_upsert(s, o.price, o.size)
    } else {
        spec_remove(s, o.price)
    }
}

/// A whole diff side applied in order.
pub open spec fn spec_apply_offers(s: Seq<OfferData>, os: Seq<OfferData>) -> Seq<OfferData>
    decreases os.len(),
{
    if os.len() == 0 {
        s
    } else {
        spec_apply_offer(spec_apply_offers(s, os.drop_last()), os.last())
    }
}

proof fn lemma_count_below_all_at_or_above(s: Seq<OfferData>, p: u64)
    requires
        forall|j: int| 0 <= j < s.len() ==> (#[trigger] s[j]).price >= p,
    ensures
        count_below(s, p) == 0,
    decreases s.len(),
{
    if s.len() > 0 {
        assert(forall|j: int|
            0 <= j < s.drop_first().len() ==> (#[trigger] s.drop_first()[j]).price >= p);
        lemma_count_below_all_at_or_above(s.drop_first(), p);
    }
}

/// In a sorted ladder, `count_below` is the boundary index: everything before
/// it is below `p`, everything from it on is at or above `p`.
pub proof fn lemma_boundary(s: Seq<OfferData>, p: u64)
    requires
        sorted(s),
    ensures
        0 <= count_below(s, p) <= s.len(),
        forall|j: int| 0 <= j < count_below(s, p) ==> (#[trigger] s[j]).price < p,
        forall|j: int| count_below(s, p) <= j < s.len() ==> (#[trigger] s[j]).price >= p,
    decreases s.len(),
{
    if s.len() > 0 {
        let t = s.drop_first();
        assert(sorted(t)) by {
            assert(forall|i: int, j: int|
                0 <= i < j < t.len() ==> (#[trigger] t[i]).price < (#[trigger] t[j]).price) by {
                assert(forall|i: int, j: int|
                    0 <= i < j < t.len() ==> t[i] == s[i + 1] && t[j] == s[j + 1]);
            }
        }
        if s[0].price < p {
            lemma_boundary(t, p);
            let c = count_below(s, p);
            assert(c == 1 + count_below(t, p));
            assert forall|j: int| 0 <= j < c implies (#[trigger] s[j]).price < p by {
                if j > 0 {
                    assert(s[j] == t[j - 1]);
                }
            }
            assert forall|j: int| c <= j < s.len() implies (#[trigger] s[j]).price >= p by {
                assert(s[j] == t[j - 1]);
            }
        } else {
            assert(forall|j: int| 0 <= j < s.len() ==> (#[trigger] s[j]).price >= p) by {
                assert(forall|j: int| 0 < j < s.len() ==> s[0].price < (#[trigger] s[j]).price);
            }
            lemma_count_below_all_at_or_above(s, p);
        }
    }
}

/// The boundary index is the only index with the boundary's two properties.
pub proof fn lemma_boundary_unique(s: Seq<OfferData>, p: u64, i: int)
    requires
        sorted(s),
        0 <= i <= s.len(),
        forall|j: int| 0 <= j < i ==> (#[trigger] s[j]).price < p,
        i < s.len() ==> s[i].price >= p,
    ensures
        i == count_below(s, p),
{
    lemma_boundary(s, p);
    let c = count_below(s, p);
    if i < c {
        assert(s[i].price < p);
    } else if c < i {
        assert(s[c].price < p);
        assert(s[c].price >= p);
    }
}

/// Finds the boundary index for price `p` by a forward scan.
fn find_pos(v: &Vec<OfferData>, p: u64) -> (i: usize)
    requires
        sorted(v@),
    ensures
        i == count_below(v@, p),
        i <= v@.len(),
        forall|j: int| 0 <= j < i ==> (#[trigger] v@[j]).price < p,
        i < v@.len() ==> v@[i as int].price >= p,
{
    let n: usize = v.len();
    let mut i: usize = 0;
    while i < n && v[i].price < p
        invariant
            0 <= i <= n == v@.len(),
            forall|j: int| 0 <= j < i ==> (#[trigger] v@[j]).price < p,
        decreases n - i,
    {
        i = i + 1;
    }
    proof {
        lemma_boundary_unique(v@, p, i as int);
    }
    i
}

/// Sets price `p` to size `z`, inserting the level if it is new.
pub fn upsert(v: &mut Vec<OfferData>, p: u64, z: u64)
    requires
        ladder_wf(old(v)@),
        1 <= p <= MAX_UNITS,
        1 <= z <= MAX_UNITS,
    ensures
        final(v)@ == spec_upsert(old(v)@, p, z),
        ladder_wf(final(v)@),
{
    let i: usize = find_pos(v, p);
    let ghost s = v@;
    let o = OfferData { price: p, size: z };
    if i < v.len() && v[i].price == p {
        v[i] = o;
        proof {
            let t = s.update(i as int, o);
            assert forall|a: int, b: int| 0 <= a < b < t.len() implies t[a].price < t[b].price by {
                assert(s[a].price < s[b].price);
            }
        }
    } else {
        v.insert(i, o);
        proof {
            let t = s.insert(i as int, o);
            assert forall|a: int, b: int| 0 <= a < b < t.len() implies t[a].price < t[b].price by {
                if a < i && b > i {
                    assert(t[a] == s[a] && t[b] == s[b - 1]);
                    assert(s[a].price < p);
                    assert(s[b - 1].price >= p);
                    assert(s[b - 1].price != p);
                } else if b == i {
                    assert(t[a] == s[a]);
                } else if a == i {
                    assert(t[b] == s[b - 1]);
                    assert(s[b - 1].price >= p);
                    assert(s[b - 1].price != p);
                } else if b < i {
                    assert(t[a] == s[a] && t[b] == s[b]);
                } else {
                    assert(t[a] == s[a - 1] && t[b] == s[b - 1]);
                }
            }
            assert forall|a: int| 0 <= a < t.len() implies 1 <= (#[trigger] t[a]).price <= MAX_UNITS
                && 1 <= t[a].size <= MAX_UNITS by {
                if a < i {
                    assert(t[a] == s[a]);
                } else if a > i {
                    assert(t[a] == s[a - 1]);
                }
            }
        }
    }
}

/// Deletes price `p`; absence is not an error.
pub fn remove_level(v: &mut Vec<OfferData>, p: u64)
    requires
        ladder_wf(old(v)@),
    ensures
        final(v)@ == spec_remove(old(v)@, p),
        ladder_wf(final(v)@),
{
    let i: usize = find_pos(v, p);
    let ghost s = v@;
    if i < v.len() && v[i].price == p {
        v.remove(i);
        proof {
            let t = s.remove(i as int);
            assert forall|a: int, b: int| 0 <= a < b < t.len() implies t[a].price < t[b].price by {
                if b < i {
                    assert(t[a] == s[a] && t[b] == s[b]);
                } else if a >= i {
                    assert(t[a] == s[a + 1] && t[b] == s[b + 1]);
                } else {
                    assert(t[a] == s[a] && t[b] == s[b + 1]);
                }
            }
            assert forall|a: int| 0 <= a < t.len() implies 1 <= (#[trigger] t[a]).price <= MAX_UNITS
                && 1 <= t[a].size <= MAX_UNITS by {
                if a < i {
                    assert(t[a] == s[a]);
                } else {
                    assert(t[a] == s[a + 1]);
                }
            }
        }
    }
}

/// Applies a whole diff side, entry by entry.
pub fn apply_offers(v: &mut Vec<OfferData>, os: &Vec<OfferData>)
    requires
        ladder_wf(old(v)@),
        offers_wf(os@),
    ensures
        final(v)@ == spec_apply_offers(old(v)@, os@),
        ladder_wf(final(v)@),
{
    let ghost s0 = v@;
    let n: usize = os.len();
    let mut k: usize = 0;
    proof {
        assert(os@.take(0) =~= Seq::<OfferData>::empty());
    }
    while k < n
        invariant
            0 <= k <= n == os@.len(),
            offers_wf(os@),
            v@ == spec_apply_offers(s0, os@.take(k as int)),
            ladder_wf(v@),
        decreases n - k,
    {
        let o = os[k];
        proof {
            assert(offer_wf(os@[k as int]));
            assert(os@.take(k as int + 1).drop_last() =~= os@.take(k as int));
            assert(os@.take(k as int + 1).last() == os@[k as int]);
        }
        if o.size > 0 {
            upsert(v, o.price, o.size);
        } else {
            remove_level(v, o.price);
        }
        k = k + 1;
    }
    proof {
        assert(os@.take(n as int) =~= os@);
    }
}

/// Well-formedness carries through one applied diff entry.
pub proof fn lemma_apply_offer_wf(s: Seq<OfferData>, o: OfferData)
    requires
        ladder_wf(s),
        offer_wf(o),
    ensures
        ladder_wf(spec_apply_offer(s, o)),
{
    lemma_boundary(s, o.price);
    let c = count_below(s, o.price);
    if o.size > 0 {
        let t = spec_upsert(s, o.price, o.size);
        if c < s.len() && s[c].price == o.price {
            assert forall|a: int, b: int| 0 <= a < b < t.len() implies t[a].price < t[b].price by {
                assert(s[a].price < s[b].price);
            }
        } else {
            assert forall|a: int, b: int| 0 <= a < b < t.len() implies t[a].price < t[b].price by {
                if a < c && b > c {
                    assert(t[a] == s[a] && t[b] == s[b - 1]);
                    assert(s[b - 1].price >= o.price && s[b - 1].price != o.price);
                } else if b == c {
                    assert(t[a] == s[a]);
                } else if a == c {
                    assert(t[b] == s[b - 1]);
                    assert(s[b - 1].price >= o.price && s[b - 1].price != o.price);
                } else if b < c {
                    assert(t[a] == s[a] && t[b] == s[b]);
                } else {
                    assert(t[a] == s[a - 1] && t[b] == s[b - 1]);
                }
            }
            assert forall|a: int| 0 <= a < t.len() implies 1 <= (#[trigger] t[a]).price <= MAX_UNITS
                && 1 <= t[a].size <= MAX_UNITS by {
                if a < c {
                    assert(t[a] == s[a]);
                } else if a > c {
                    assert(t[a] == s[a - 1]);
                }
            }
        }
    } else {
        let t = spec_remove(s, o.price);
        if c < s.len() && s[c].price == o.price {
            assert forall|a: int, b: int| 0 <= a < b < t.len() implies t[a].price < t[b].price by {
                if b < c {
                    assert(t[a] == s[a] && t[b] == s[b]);
                } else if a >= c {
                    assert(t[a] == s[a + 1] && t[b] == s[b + 1]);
                } else {
                    assert(t[a] == s[a] && t[b] == s[b + 1]);
                }
            }
            assert forall|a: int| 0 <= a < t.len() implies 1 <= (#[trigger] t[a]).price <= MAX_UNITS
                && 1 <= t[a].size <= MAX_UNITS by {
                if a < c {
                    assert(t[a] == s[a]);
                } else {
                    assert(t[a] == s[a + 1]);
                }
            }
        }
    }
}

/// The size stored at price `p`, if the ladder holds that price.
pub open spec fn level_at(s: Seq<OfferData>, p: u64) -> Option<u64> {
    let c = count_below(s, p);
    if c < s.len() && s[c].price == p {
        Some(s[c].size)
    } else {
        None
    }
}

/// In a sorted ladder, an entry's index determines the lookup at its price.
pub proof fn lemma_found_level(s: Seq<OfferData>, i: int)
    requires
        sorted(s),
        0 <= i < s.len(),
    ensures
        level_at(s, s[i].price) == Some(s[i].size),
{
    assert(forall|j: int| 0 <= j < i ==> (#[trigger] s[j]).price < s[i].price);
    lemma_boundary_unique(s, s[i].price, i);
}

/// A price that no entry carries looks up to nothing.
pub proof fn lemma_absent_level(s: Seq<OfferData>, p: u64)
    requires
        sorted(s),
        !has_price(s, p),
    ensures
        level_at(s, p) is None,
{
    lemma_boundary(s, p);
}

/// Prices other than the touched one keep their stored size through one
/// applied diff entry.
#[verifier::rlimit(60)]
proof fn lemma_apply_offer_other_prices(s: Seq<OfferData>, o: OfferData, q: u64)
    requires
        ladder_wf(s),
        offer_wf(o),
        q != o.price,
    ensures
        level_at(spec_apply_offer(s, o), q) == level_at(s, q),
{
    lemma_boundary(s, o.price);
    lemma_apply_offer_wf(s, o);
    let p = o.price;
    let c = count_below(s, p);
    let t = spec_apply_offer(s, o);
    let found = c < s.len() && s[c].price == p;
    lemma_boundary(t, q);
    lemma_boundary(s, q);
    if has_price(t, q) {
        let i = choose|i: int| 0 <= i < t.len() && t[i].price == q;
        lemma_found_level(t, i);
        let i2: int = if o.size > 0 {
            if found {
                i
            } else {
                if i < c {
                    i
                } else {
                    i - 1
                }
            }
        } else {
            if found {
                if i < c {
                    i
                } else {
                    i + 1
                }
            } else {
                i
            }
        };
        assert(0 <= i2 < s.len() && s[i2] == t[i]);
        lemma_found_level(s, i2);
    } else {
        lemma_absent_level(t, q);
        if has_price(s, q) {
            let i = choose|i: int| 0 <= i < s.len() && s[i].price == q;
            let i2: int = if o.size > 0 {
                if found {
                    i
                } else {
                    if i < c {
                        i
                    } else {
                        i + 1
                    }
                }
            } else {
                if found {
                    if i < c {
                        i
                    } else {
                        i - 1
                    }
                } else {
                    i
                }
            };
            assert(0 <= i2 < t.len() && t[i2] == s[i]);
            assert(has_price(t, q));
        }
        lemma_absent_level(s, q);
    }
}

/// Zero-size semantics, stated over lookups: a positive-size diff entry sets
/// exactly its own price; a zero-size entry deletes exactly its own price,
/// and is a no-op when the price is absent. Every other price keeps its
/// stored size.
#[verifier::rlimit(60)]
pub proof fn lemma_apply_offer_level_at(s: Seq<OfferData>, o: OfferData)
    requires
        ladder_wf(s),
        offer_wf(o),
    ensures
        o.size > 0 ==> level_at(spec_apply_offer(s, o), o.price) == Some(o.size),
        o.size == 0 ==> level_at(spec_apply_offer(s, o), o.price) is None,
        o.size == 0 && !has_price(s, o.price) ==> spec_apply_offer(s, o) == s,
        forall|q: u64|
            q != o.price ==> #[trigger] level_at(spec_apply_offer(s, o), q) == level_at(s, q),
{
    lemma_boundary(s, o.price);
    lemma_apply_offer_wf(s, o);
    let p = o.price;
    let c = count_below(s, p);
    let t = spec_apply_offer(s, o);
    let found = c < s.len() && s[c].price == p;
    if o.size > 0 {
        if found {
            lemma_found_level(t, c);
        } else {
            lemma_found_level(t, c);
        }
    } else {
        if found {
            assert forall|j: int| 0 <= j < t.len() implies (#[trigger] t[j]).price != p by {
                if j < c {
                    assert(t[j] == s[j]);
                } else {
                    assert(t[j] == s[j + 1]);
                    assert(s[c].price < s[j + 1].price);
                }
            }
            assert(!has_price(t, p));
            lemma_absent_level(t, p);
        } else {
            assert(!has_price(s, p)) by {
                assert(forall|j: int|
                    0 <= j < c ==> (#[trigger] s[j]).price < p);
                assert(forall|j: int|
                    c <= j < s.len() ==> (#[trigger] s[j]).price >= p);
                assert(forall|j: int|
                    c < j < s.len() ==> c < s.len() && (#[trigger] s[j]).price > s[c].price);
            }
            lemma_absent_level(s, p);
        }
    }
    assert forall|q: u64| q != p implies #[trigger] level_at(t, q) == level_at(s, q) by {
        lemma_apply_offer_other_prices(s, o, q);
    }
}

} // verus!
