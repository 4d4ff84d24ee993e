//! Snapshot+delta venue: the stateful book reconciler and its feed state
//! machine.
//!
//! This venue pushes one authoritative snapshot and then keyed deltas.
//! The reconciler keeps a private price-keyed mapping per side, applies a
//! delta's deletes, then updates, then inserts — exactly in that order —
//! and re-derives the published top-N view after every message.  A
//! snapshot discards all prior state.  The mapping is rebuilt from
//! nothing on every fresh connection.

use vstd::prelude::*;

use crate::fixed::{fixed_of, parse_fixed, FIXED_MAX};
use crate::text::str_eq;
use crate::types::{
    asc_by_price, book_wf, desc_by_price, levels_bounded, Exchange, Level, OrderBook, PdxBookData,
    PdxLevel, MAX_BOOK_DEPTH,
};

verus! {

// ─── Spec model of wire entries ─────────────────────────────────────────

/// The book key a wire entry denotes: its price in ticks.
pub open spec fn pdx_key(l: PdxLevel) -> u64 {
    fixed_of(l.price@)
}

/// The size a wire entry denotes, in ticks.
pub open spec fn pdx_size(l: PdxLevel) -> u64 {
    fixed_of(l.size@)
}

/// Entries with side "BUY" go to the bid mapping; all others to the asks.
pub open spec fn pdx_is_buy(l: PdxLevel) -> bool {
    l.side@ == "BUY"@
}

/// One side-mapping after upserting the matching entries of `ls` in order.
pub open spec fn upsert_side(m: Map<u64, u64>, ls: Seq<PdxLevel>, buy: bool) -> Map<u64, u64>
    decreases ls.len(),
{
    if ls.len() == 0 {
        m
    } else {
        let m1 = if pdx_is_buy(ls[0]) == buy {
            m.insert(pdx_key(ls[0]), pdx_size(ls[0]))
        } else {
            m
        };
        upsert_side(m1, ls.drop_first(), buy)
    }
}

/// One side-mapping after removing the prices of the matching entries of
/// `ls` in order; removing an absent price changes nothing.
pub open spec fn delete_side(m: Map<u64, u64>, ls: Seq<PdxLevel>, buy: bool) -> Map<u64, u64>
    decreases ls.len(),
{
    if ls.len() == 0 {
        m
    } else {
        let m1 = if pdx_is_buy(ls[0]) == buy {
            m.remove(pdx_key(ls[0]))
        } else {
            m
        };
        delete_side(m1, ls.drop_first(), buy)
    }
}

/// A side after a snapshot: the insert list upserted into an empty mapping.
pub open spec fn snapshot_side(data: PdxBookData, buy: bool) -> Map<u64, u64> {
    upsert_side(Map::empty(), data.inserts@, buy)
}

/// A side after a delta: deletes, then updates, then inserts.
pub open spec fn delta_side(m: Map<u64, u64>, data: PdxBookData, buy: bool) -> Map<u64, u64> {
    upsert_side(
        upsert_side(delete_side(m, data.deletes@, buy), data.updates@, buy),
        data.inserts@,
        buy,
    )
}

/// A snapshot message fully replaces a side; a delta edits it; anything
/// else leaves it unchanged.
pub open spec fn side_after_message(m: Map<u64, u64>, data: PdxBookData, buy: bool) -> Map<
    u64,
    u64,
> {
    if data.update_type@ == "s"@ {
        snapshot_side(data, buy)
    } else if data.update_type@ == "d"@ {
        delta_side(m, data, buy)
    } else {
        m
    }
}

proof fn lemma_upsert_side_push(m: Map<u64, u64>, ls: Seq<PdxLevel>, l: PdxLevel, buy: bool)
    ensures
        upsert_side(m, ls.push(l), buy) == if pdx_is_buy(l) == buy {
            upsert_side(m, ls, buy).insert(pdx_key(l), pdx_size(l))
        } else {
            upsert_side(m, ls, buy)
        },
    decreases ls.len(),
{
    reveal_with_fuel(upsert_side, 3);
    if ls.len() == 0 {
        assert(ls.push(l)[0] == l);
        assert(ls.push(l).drop_first() =~= Seq::<PdxLevel>::empty());
    } else {
        assert(ls.push(l)[0] == ls[0]);
        assert(ls.push(l).drop_first() =~= ls.drop_first().push(l));
        let m1 = if pdx_is_buy(ls[0]) == buy {
            m.insert(pdx_key(ls[0]), pdx_size(ls[0]))
        } else {
            m
        };
        lemma_upsert_side_push(m1, ls.drop_first(), l, buy);
    }
}

proof fn lemma_delete_side_push(m: Map<u64, u64>, ls: Seq<PdxLevel>, l: PdxLevel, buy: bool)
    ensures
        delete_side(m, ls.push(l), buy) == if pdx_is_buy(l) == buy {
            delete_side(m, ls, buy).remove(pdx_key(l))
        } else {
            delete_side(m, ls, buy)
        },
    decreases ls.len(),
{
    reveal_with_fuel(delete_side, 3);
    if ls.len() == 0 {
        assert(ls.push(l)[0] == l);
        assert(ls.push(l).drop_first() =~= Seq::<PdxLevel>::empty());
    } else {
        assert(ls.push(l)[0] == ls[0]);
        assert(ls.push(l).drop_first() =~= ls.drop_first().push(l));
        let m1 = if pdx_is_buy(ls[0]) == buy {
            m.remove(pdx_key(ls[0]))
        } else {
            m
        };
        lemma_delete_side_push(m1, ls.drop_first(), l, buy);
    }
}

// ─── Sorted pair vectors and their map view ─────────────────────────────

pub open spec fn seq_has_key(s: Seq<(u64, u64)>, k: u64) -> bool {
    exists|i: int| 0 <= i < s.len() && (#[trigger] s[i]).0 == k
}

pub open spec fn seq_key_at(s: Seq<(u64, u64)>, k: u64) -> int {
    choose|i: int| 0 <= i < s.len() && (#[trigger] s[i]).0 == k
}

/// The mapping a pair sequence with unique keys represents.
pub open spec fn pairs_map(s: Seq<(u64, u64)>) -> Map<u64, u64> {
    Map::new(|k: u64| seq_has_key(s, k), |k: u64| s[seq_key_at(s, k)].1)
}

pub open spec fn pairs_unique(s: Seq<(u64, u64)>) -> bool {
    forall|i: int, j: int| 0 <= i < j < s.len() ==> (#[trigger] s[i]).0 != (#[trigger] s[j]).0
}

pub open spec fn pairs_desc(s: Seq<(u64, u64)>) -> bool {
    forall|i: int, j: int| 0 <= i < j < s.len() ==> (#[trigger] s[i]).0 > (#[trigger] s[j]).0
}

pub open spec fn pairs_asc(s: Seq<(u64, u64)>) -> bool {
    forall|i: int, j: int| 0 <= i < j < s.len() ==> (#[trigger] s[i]).0 < (#[trigger] s[j]).0
}

pub open spec fn pairs_bounded(s: Seq<(u64, u64)>) -> bool {
    forall|i: int|
        0 <= i < s.len() ==> (#[trigger] s[i]).0 <= FIXED_MAX && s[i].1 <= FIXED_MAX
}

proof fn lemma_pairs_lookup(s: Seq<(u64, u64)>, k: u64, i: int)
    requires
        pairs_unique(s),
        0 <= i < s.len(),
        s[i].0 == k,
    ensures
        pairs_map(s).dom().contains(k),
        pairs_map(s)[k] == s[i].1,
{
    assert(seq_has_key(s, k));
    let j = seq_key_at(s, k);
    assert(0 <= j < s.len() && s[j].0 == k);
    if i != j {
        assert(false);
    }
}

proof fn lemma_pairs_map_empty()
    ensures
        pairs_map(Seq::<(u64, u64)>::empty()) == Map::<u64, u64>::empty(),
{
    assert(pairs_map(Seq::<(u64, u64)>::empty()) =~= Map::<u64, u64>::empty());
}

proof fn lemma_pairs_map_insert(s: Seq<(u64, u64)>, p: int, x: (u64, u64))
    requires
        pairs_unique(s),
        0 <= p <= s.len(),
        !seq_has_key(s, x.0),
    ensures
        pairs_unique(s.insert(p, x)),
        pairs_map(s.insert(p, x)) == pairs_map(s).insert(x.0, x.1),
{
    let t = s.insert(p, x);
    assert forall|i: int, j: int| 0 <= i < j < t.len() implies (#[trigger] t[i]).0 != (
    #[trigger] t[j]).0 by {
        if i == p {
            if j > p {
                assert(t[j] == s[j - 1]);
                assert(s[j - 1].0 != x.0);
            }
        } else if j == p {
            assert(t[i] == s[i]);
            assert(s[i].0 != x.0);
        } else {
            let si = if i < p { i } else { i - 1 };
            let sj = if j < p { j } else { j - 1 };
            assert(t[i] == s[si] && t[j] == s[sj]);
        }
    }
    assert forall|k: u64| true implies #[trigger] pairs_map(t).dom().contains(k)
        == pairs_map(s).insert(x.0, x.1).dom().contains(k) by {
        if k == x.0 {
            assert(t[p].0 == k);
            assert(seq_has_key(t, k));
        } else {
            if seq_has_key(s, k) {
                let i = seq_key_at(s, k);
                let ti = if i < p { i } else { i + 1 };
                assert(t[ti] == s[i]);
                assert(seq_has_key(t, k));
            }
            if seq_has_key(t, k) {
                let i = seq_key_at(t, k);
                if i < p {
                    assert(s[i] == t[i]);
                    assert(seq_has_key(s, k));
                } else if i > p {
                    assert(s[i - 1] == t[i]);
                    assert(seq_has_key(s, k));
                }
            }
        }
    }
    assert forall|k: u64| pairs_map(t).dom().contains(k) implies #[trigger] pairs_map(t)[k]
        == pairs_map(s).insert(x.0, x.1)[k] by {
        if k == x.0 {
            lemma_pairs_lookup(t, k, p);
        } else {
            assert(seq_has_key(s, k));
            let i = seq_key_at(s, k);
            assert(0 <= i < s.len() && s[i].0 == k);
            let ti = if i < p { i } else { i + 1 };
            assert(t[ti] == s[i]);
            lemma_pairs_lookup(t, k, ti);
            lemma_pairs_lookup(s, k, i);
        }
    }
    assert(pairs_map(t) =~= pairs_map(s).insert(x.0, x.1));
}

proof fn lemma_pairs_map_remove(s: Seq<(u64, u64)>, p: int)
    requires
        pairs_unique(s),
        0 <= p < s.len(),
    ensures
        pairs_unique(s.remove(p)),
        pairs_map(s.remove(p)) == pairs_map(s).remove(s[p].0),
{
    let t = s.remove(p);
    let k0 = s[p].0;
    assert forall|i: int, j: int| 0 <= i < j < t.len() implies (#[trigger] t[i]).0 != (
    #[trigger] t[j]).0 by {
        let si = if i < p { i } else { i + 1 };
        let sj = if j < p { j } else { j + 1 };
        assert(t[i] == s[si] && t[j] == s[sj]);
    }
    assert forall|k: u64| true implies #[trigger] pairs_map(t).dom().contains(k)
        == pairs_map(s).remove(k0).dom().contains(k) by {
        if seq_has_key(t, k) {
            let i = seq_key_at(t, k);
            let si = if i < p { i } else { i + 1 };
            assert(t[i] == s[si]);
            assert(seq_has_key(s, k));
            if k == k0 {
                assert(s[si].0 == s[p].0 && si != p);
                assert(false);
            }
        }
        if seq_has_key(s, k) && k != k0 {
            let i = seq_key_at(s, k);
            assert(0 <= i < s.len() && s[i].0 == k);
            assert(i != p);
            let ti = if i < p { i } else { i - 1 };
            assert(t[ti] == s[i]);
            assert(seq_has_key(t, k));
        }
    }
    assert forall|k: u64| pairs_map(t).dom().contains(k) implies #[trigger] pairs_map(t)[k]
        == pairs_map(s).remove(k0)[k] by {
        let i = seq_key_at(t, k);
        assert(0 <= i < t.len() && t[i].0 == k);
        let si = if i < p { i } else { i + 1 };
        assert(t[i] == s[si]);
        lemma_pairs_lookup(t, k, i);
        lemma_pairs_lookup(s, k, si);
    }
    assert(pairs_map(t) =~= pairs_map(s).remove(k0));
}

proof fn lemma_pairs_map_absent(s: Seq<(u64, u64)>, k: u64)
    requires
        !seq_has_key(s, k),
    ensures
        !pairs_map(s).dom().contains(k),
        pairs_map(s).remove(k) == pairs_map(s),
{
    assert(pairs_map(s).remove(k) =~= pairs_map(s));
}

proof fn lemma_desc_insert_at(s: Seq<(u64, u64)>, p: int, x: (u64, u64))
    requires
        pairs_desc(s),
        0 <= p <= s.len(),
        forall|j: int| 0 <= j < p ==> (#[trigger] s[j]).0 > x.0,
        forall|j: int| p <= j < s.len() ==> (#[trigger] s[j]).0 < x.0,
    ensures
        pairs_desc(s.insert(p, x)),
{
    let t = s.insert(p, x);
    assert forall|a: int, b: int| 0 <= a < b < t.len() implies (#[trigger] t[a]).0 > (
    #[trigger] t[b]).0 by {
        if a < p {
            assert(t[a] == s[a]);
        } else if a > p {
            assert(t[a] == s[a - 1]);
        }
        if b < p {
            assert(t[b] == s[b]);
        } else if b > p {
            assert(t[b] == s[b - 1]);
        }
    }
}

proof fn lemma_asc_insert_at(s: Seq<(u64, u64)>, p: int, x: (u64, u64))
    requires
        pairs_asc(s),
        0 <= p <= s.len(),
        forall|j: int| 0 <= j < p ==> (#[trigger] s[j]).0 < x.0,
        forall|j: int| p <= j < s.len() ==> (#[trigger] s[j]).0 > x.0,
    ensures
        pairs_asc(s.insert(p, x)),
{
    let t = s.insert(p, x);
    assert forall|a: int, b: int| 0 <= a < b < t.len() implies (#[trigger] t[a]).0 < (
    #[trigger] t[b]).0 by {
        if a < p {
            assert(t[a] == s[a]);
        } else if a > p {
            assert(t[a] == s[a - 1]);
        }
        if b < p {
            assert(t[b] == s[b]);
        } else if b > p {
            assert(t[b] == s[b - 1]);
        }
    }
}

proof fn lemma_sorted_pairs_unique(s: Seq<(u64, u64)>)
    requires
        pairs_desc(s) || pairs_asc(s),
    ensures
        pairs_unique(s),
{
}

/// Upsert `key -> val` into a strictly descending pair vector.
fn upsert_desc(v: &mut Vec<(u64, u64)>, key: u64, val: u64)
    requires
        pairs_desc(old(v)@),
        pairs_bounded(old(v)@),
        key <= FIXED_MAX,
        val <= FIXED_MAX,
    ensures
        pairs_desc(final(v)@),
        pairs_bounded(final(v)@),
        pairs_map(final(v)@) == pairs_map(old(v)@).insert(key, val),
{
    let ghost s = old(v)@;
    proof {
        lemma_sorted_pairs_unique(s);
    }
    let mut i: usize = 0;
    while i < v.len() && v[i].0 > key
        invariant
            v@ == s,
            i <= s.len(),
            forall|j: int| 0 <= j < i ==> (#[trigger] s[j]).0 > key,
        decreases s.len() - i,
    {
        i += 1;
    }
    if i < v.len() && v[i].0 == key {
        v.remove(i);
        v.insert(i, (key, val));
        proof {
            lemma_pairs_map_remove(s, i as int);
            let s1 = s.remove(i as int);
            assert forall|j: int| 0 <= j < i implies (#[trigger] s1[j]).0 > key by {
                assert(s1[j] == s[j]);
            }
            assert forall|j: int| i <= j < s1.len() implies (#[trigger] s1[j]).0 < key by {
                assert(s1[j] == s[j + 1]);
            }
            assert(!seq_has_key(s1, key));
            lemma_pairs_map_insert(s1, i as int, (key, val));
            lemma_desc_insert_at(s1, i as int, (key, val));
            assert(pairs_map(s).remove(key).insert(key, val) =~= pairs_map(s).insert(key, val));
            assert forall|j: int| 0 <= j < v@.len() implies (#[trigger] v@[j]).0 <= FIXED_MAX
                && v@[j].1 <= FIXED_MAX by {
                if j < i {
                    assert(v@[j] == s[j]);
                } else if j > i {
                    assert(v@[j] == s[j]);
                }
            }
        }
    } else {
        v.insert(i, (key, val));
        proof {
            assert forall|j: int| i <= j < s.len() implies (#[trigger] s[j]).0 < key by {
                assert(s[i as int].0 < key);
            }
            assert(!seq_has_key(s, key));
            lemma_pairs_map_insert(s, i as int, (key, val));
            lemma_desc_insert_at(s, i as int, (key, val));
            assert forall|j: int| 0 <= j < v@.len() implies (#[trigger] v@[j]).0 <= FIXED_MAX
                && v@[j].1 <= FIXED_MAX by {
                if j < i {
                    assert(v@[j] == s[j]);
                } else if j > i {
                    assert(v@[j] == s[j - 1]);
                }
            }
        }
    }
}

/// Upsert `key -> val` into a strictly ascending pair vector.
fn upsert_asc(v: &mut Vec<(u64, u64)>, key: u64, val: u64)
    requires
        pairs_asc(old(v)@),
        pairs_bounded(old(v)@),
        key <= FIXED_MAX,
        val <= FIXED_MAX,
    ensures
        pairs_asc(final(v)@),
        pairs_bounded(final(v)@),
        pairs_map(final(v)@) == pairs_map(old(v)@).insert(key, val),
{
    let ghost s = old(v)@;
    proof {
        lemma_sorted_pairs_unique(s);
    }
    let mut i: usize = 0;
    while i < v.len() && v[i].0 < key
        invariant
            v@ == s,
            i <= s.len(),
            forall|j: int| 0 <= j < i ==> (#[trigger] s[j]).0 < key,
        decreases s.len() - i,
    {
        i += 1;
    }
    if i < v.len() && v[i].0 == key {
        v.remove(i);
        v.insert(i, (key, val));
        proof {
            lemma_pairs_map_remove(s, i as int);
            let s1 = s.remove(i as int);
            assert forall|j: int| 0 <= j < i implies (#[trigger] s1[j]).0 < key by {
                assert(s1[j] == s[j]);
            }
            assert forall|j: int| i <= j < s1.len() implies (#[trigger] s1[j]).0 > key by {
                assert(s1[j] == s[j + 1]);
            }
            assert(!seq_has_key(s1, key));
            lemma_pairs_map_insert(s1, i as int, (key, val));
            lemma_asc_insert_at(s1, i as int, (key, val));
            assert(pairs_map(s).remove(key).insert(key, val) =~= pairs_map(s).insert(key, val));
            assert forall|j: int| 0 <= j < v@.len() implies (#[trigger] v@[j]).0 <= FIXED_MAX
                && v@[j].1 <= FIXED_MAX by {
                if j < i {
                    assert(v@[j] == s[j]);
                } else if j > i {
                    assert(v@[j] == s[j]);
                }
            }
        }
    } else {
        v.insert(i, (key, val));
        proof {
            assert forall|j: int| i <= j < s.len() implies (#[trigger] s[j]).0 > key by {
                assert(s[i as int].0 > key);
            }
            assert(!seq_has_key(s, key));
            lemma_pairs_map_insert(s, i as int, (key, val));
            lemma_asc_insert_at(s, i as int, (key, val));
            assert forall|j: int| 0 <= j < v@.len() implies (#[trigger] v@[j]).0 <= FIXED_MAX
                && v@[j].1 <= FIXED_MAX by {
                if j < i {
                    assert(v@[j] == s[j]);
                } else if j > i {
                    assert(v@[j] == s[j - 1]);
                }
            }
        }
    }
}

/// Remove `key` from a sorted pair vector; absent keys are a no-op.
fn remove_key(v: &mut Vec<(u64, u64)>, key: u64)
    requires
        pairs_desc(old(v)@) || pairs_asc(old(v)@),
        pairs_bounded(old(v)@),
    ensures
        pairs_desc(old(v)@) ==> pairs_desc(final(v)@),
        pairs_asc(old(v)@) ==> pairs_asc(final(v)@),
        pairs_bounded(final(v)@),
        pairs_map(final(v)@) == pairs_map(old(v)@).remove(key),
{
    let ghost s = old(v)@;
    proof {
        lemma_sorted_pairs_unique(s);
    }
    let mut i: usize = 0;
    while i < v.len() && v[i].0 != key
        invariant
            v@ == s,
            i <= s.len(),
            forall|j: int| 0 <= j < i ==> (#[trigger] s[j]).0 != key,
        decreases s.len() - i,
    {
        i += 1;
    }
    if i < v.len() {
        v.remove(i);
        proof {
            lemma_pairs_map_remove(s, i as int);
            assert forall|j: int| 0 <= j < v@.len() implies (#[trigger] v@[j]).0 <= FIXED_MAX
                && v@[j].1 <= FIXED_MAX by {
                if j < i {
                    assert(v@[j] == s[j]);
                } else {
                    assert(v@[j] == s[j + 1]);
                }
            }
            if pairs_desc(s) {
                assert forall|a: int, b: int| 0 <= a < b < v@.len() implies (#[trigger] v@[a]).0
                    > (#[trigger] v@[b]).0 by {
                    let sa = if a < i { a } else { a + 1 };
                    let sb = if b < i { b } else { b + 1 };
                    assert(v@[a] == s[sa] && v@[b] == s[sb]);
                }
            }
            if pairs_asc(s) {
                assert forall|a: int, b: int| 0 <= a < b < v@.len() implies (#[trigger] v@[a]).0
                    < (#[trigger] v@[b]).0 by {
                    let sa = if a < i { a } else { a + 1 };
                    let sb = if b < i { b } else { b + 1 };
                    assert(v@[a] == s[sa] && v@[b] == s[sb]);
                }
            }
        }
    } else {
        proof {
            lemma_pairs_map_absent(s, key);
        }
    }
}

// ─── The published top-N view ───────────────────────────────────────────

/// `levels` is exactly the best `depth` entries of mapping `m`, highest
/// price first: sorted strictly descending, every row a pair of `m`, and
/// every key of `m` either listed or worse than the last listed row.
pub open spec fn top_of_side_desc(levels: Seq<Level>, m: Map<u64, u64>, depth: int) -> bool {
    &&& levels.len() <= depth
    &&& desc_by_price(levels)
    &&& forall|i: int|
        0 <= i < levels.len() ==> m.contains_pair((#[trigger] levels[i]).price, levels[i].size)
            && levels[i].count == 0
    &&& forall|k: u64|
        #[trigger] m.dom().contains(k) ==> (exists|i: int|
            0 <= i < levels.len() && (#[trigger] levels[i]).price == k) || (levels.len() == depth
            && (depth <= 0 || k < levels[depth - 1].price))
}

/// `levels` is exactly the best `depth` entries of mapping `m`, lowest
/// price first.
pub open spec fn top_of_side_asc(levels: Seq<Level>, m: Map<u64, u64>, depth: int) -> bool {
    &&& levels.len() <= depth
    &&& asc_by_price(levels)
    &&& forall|i: int|
        0 <= i < levels.len() ==> m.contains_pair((#[trigger] levels[i]).price, levels[i].size)
            && levels[i].count == 0
    &&& forall|k: u64|
        #[trigger] m.dom().contains(k) ==> (exists|i: int|
            0 <= i < levels.len() && (#[trigger] levels[i]).price == k) || (levels.len() == depth
            && (depth <= 0 || k > levels[depth - 1].price))
}

// ─── The reconciler state ───────────────────────────────────────────────

/// Price-keyed side mappings kept across the messages of one connection,
/// stored sorted so the published top-N view can be read off directly.
pub struct LocalBook {
    bids: Vec<(u64, u64)>,  // strictly descending by price
    asks: Vec<(u64, u64)>,  // strictly ascending by price
}

impl LocalBook {
    /// The bid side as a price-to-size mapping.
    pub closed spec fn bids_map(&self) -> Map<u64, u64> {
        pairs_map(self.bids@)
    }

    /// The ask side as a price-to-size mapping.
    pub closed spec fn asks_map(&self) -> Map<u64, u64> {
        pairs_map(self.asks@)
    }

    /// Internal invariant: both sides sorted and within range.
    pub closed spec fn wf(&self) -> bool {
        &&& pairs_desc(self.bids@)
        &&& pairs_asc(self.asks@)
        &&& pairs_bounded(self.bids@)
        &&& pairs_bounded(self.asks@)
    }

    /// Empty reconciliation state, as every fresh connection starts with.
    pub fn new() -> (r: LocalBook)
        ensures
            r.wf(),
            r.bids_map() == Map::<u64, u64>::empty(),
            r.asks_map() == Map::<u64, u64>::empty(),
    {
        proof {
            lemma_pairs_map_empty();
        }
        LocalBook { bids: Vec::new(), asks: Vec::new() }
    }

    /// Upsert one wire entry into the side its `side` field names.
    pub fn apply_insert(&mut self, lvl: &PdxLevel)
        requires
            old(self).wf(),
        ensures
            final(self).wf(),
            pdx_is_buy(*lvl) ==> final(self).bids_map() == old(self).bids_map().insert(
                pdx_key(*lvl),
                pdx_size(*lvl),
            ) && final(self).asks_map() == old(self).asks_map(),
            !pdx_is_buy(*lvl) ==> final(self).asks_map() == old(self).asks_map().insert(
                pdx_key(*lvl),
                pdx_size(*lvl),
            ) && final(self).bids_map() == old(self).bids_map(),
    {
        let key = parse_fixed(lvl.price.as_str());
        let val = parse_fixed(lvl.size.as_str());
        if str_eq(lvl.side.as_str(), "BUY") {
            upsert_desc(&mut self.bids, key, val);
        } else {
            upsert_asc(&mut self.asks, key, val);
        }
    }

    /// Remove one wire entry's price from the side its `side` field
    /// names; an absent price is a no-op, not an error.
    pub fn remove(&mut self, lvl: &PdxLevel)
        requires
            old(self).wf(),
        ensures
            final(self).wf(),
            pdx_is_buy(*lvl) ==> final(self).bids_map() == old(self).bids_map().remove(
                pdx_key(*lvl),
            ) && final(self).asks_map() == old(self).asks_map(),
            !pdx_is_buy(*lvl) ==> final(self).asks_map() == old(self).asks_map().remove(
                pdx_key(*lvl),
            ) && final(self).bids_map() == old(self).bids_map(),
    {
        let key = parse_fixed(lvl.price.as_str());
        if str_eq(lvl.side.as_str(), "BUY") {
            remove_key(&mut self.bids, key);
        } else {
            remove_key(&mut self.asks, key);
        }
    }

    /// Apply a snapshot: clear both sides, then upsert every entry of the
    /// insert list.  Nothing of the prior state survives.
    pub fn apply_snapshot(&mut self, data: &PdxBookData)
        requires
            old(self).wf(),
        ensures
            final(self).wf(),
            final(self).bids_map() == snapshot_side(*data, true),
            final(self).asks_map() == snapshot_side(*data, false),
    {
        self.bids = Vec::new();
        self.asks = Vec::new();
        proof {
            lemma_pairs_map_empty();
            assert(data.inserts@.take(0) =~= Seq::<PdxLevel>::empty());
        }
        let n = data.inserts.len();
        let mut i: usize = 0;
        while i < n
            invariant
                self.wf(),
                i <= n == data.inserts@.len(),
                self.bids_map() == upsert_side(
                    Map::<u64, u64>::empty(),
                    data.inserts@.take(i as int),
                    true,
                ),
                self.asks_map() == upsert_side(
                    Map::<u64, u64>::empty(),
                    data.inserts@.take(i as int),
                    false,
                ),
            decreases n - i,
        {
            proof {
                assert(data.inserts@.take(i + 1) =~= data.inserts@.take(i as int).push(
                    data.inserts@[i as int],
                ));
                lemma_upsert_side_push(
                    Map::<u64, u64>::empty(),
                    data.inserts@.take(i as int),
                    data.inserts@[i as int],
                    true,
                );
                lemma_upsert_side_push(
                    Map::<u64, u64>::empty(),
                    data.inserts@.take(i as int),
                    data.inserts@[i as int],
                    false,
                );
            }
            self.apply_insert(&data.inserts[i]);
            i += 1;
        }
        proof {
            assert(data.inserts@.take(n as int) =~= data.inserts@);
        }
    }

    /// Apply a delta: every delete, then every update, then every insert,
    /// in exactly that order; updates and inserts are both upserts.
    pub fn apply_delta(&mut self, data: &PdxBookData)
        requires
            old(self).wf(),
        ensures
            final(self).wf(),
            final(self).bids_map() == delta_side(old(self).bids_map(), *data, true),
            final(self).asks_map() == delta_side(old(self).asks_map(), *data, false),
    {
        let ghost b0 = old(self).bids_map();
        let ghost a0 = old(self).asks_map();
        proof {
            assert(data.deletes@.take(0) =~= Seq::<PdxLevel>::empty());
        }
        let nd = data.deletes.len();
        let mut i: usize = 0;
        while i < nd
            invariant
                self.wf(),
                i <= nd == data.deletes@.len(),
                self.bids_map() == delete_side(b0, data.deletes@.take(i as int), true),
                self.asks_map() == delete_side(a0, data.deletes@.take(i as int), false),
            decreases nd - i,
        {
            proof {
                assert(data.deletes@.take(i + 1) =~= data.deletes@.take(i as int).push(
                    data.deletes@[i as int],
                ));
                lemma_delete_side_push(b0, data.deletes@.take(i as int), data.deletes@[i as int], true);
                lemma_delete_side_push(a0, data.deletes@.take(i as int), data.deletes@[i as int], false);
            }
            self.remove(&data.deletes[i]);
            i += 1;
        }
        proof {
            assert(data.deletes@.take(nd as int) =~= data.deletes@);
            assert(data.updates@.take(0) =~= Seq::<PdxLevel>::empty());
        }
        let ghost b1 = delete_side(b0, data.deletes@, true);
        let ghost a1 = delete_side(a0, data.deletes@, false);
        let nu = data.updates.len();
        let mut i: usize = 0;
        while i < nu
            invariant
                self.wf(),
                i <= nu == data.updates@.len(),
                self.bids_map() == upsert_side(b1, data.updates@.take(i as int), true),
                self.asks_map() == upsert_side(a1, data.updates@.take(i as int), false),
            decreases nu - i,
        {
            proof {
                assert(data.updates@.take(i + 1) =~= data.updates@.take(i as int).push(
                    data.updates@[i as int],
                ));
                lemma_upsert_side_push(b1, data.updates@.take(i as int), data.updates@[i as int], true);
                lemma_upsert_side_push(a1, data.updates@.take(i as int), data.updates@[i as int], false);
            }
            self.apply_insert(&data.updates[i]);
            i += 1;
        }
        proof {
            assert(data.updates@.take(nu as int) =~= data.updates@);
            assert(data.inserts@.take(0) =~= Seq::<PdxLevel>::empty());
        }
        let ghost b2 = upsert_side(b1, data.updates@, true);
        let ghost a2 = upsert_side(a1, data.updates@, false);
        let ni = data.inserts.len();
        let mut i: usize = 0;
        while i < ni
            invariant
                self.wf(),
                i <= ni == data.inserts@.len(),
                self.bids_map() == upsert_side(b2, data.inserts@.take(i as int), true),
                self.asks_map() == upsert_side(a2, data.inserts@.take(i as int), false),
            decreases ni - i,
        {
            proof {
                assert(data.inserts@.take(i + 1) =~= data.inserts@.take(i as int).push(
                    data.inserts@[i as int],
                ));
                lemma_upsert_side_push(b2, data.inserts@.take(i as int), data.inserts@[i as int], true);
                lemma_upsert_side_push(a2, data.inserts@.take(i as int), data.inserts@[i as int], false);
            }
            self.apply_insert(&data.inserts[i]);
            i += 1;
        }
        proof {
            assert(data.inserts@.take(ni as int) =~= data.inserts@);
        }
    }

    /// Materialize the published view: the best `depth` bids (highest
    /// first) and asks (lowest first).
    pub fn to_levels(&self, depth: usize) -> (r: (Vec<Level>, Vec<Level>))
        requires
            self.wf(),
        ensures
            top_of_side_desc(r.0@, self.bids_map(), depth as int),
            top_of_side_asc(r.1@, self.asks_map(), depth as int),
            levels_bounded(r.0@),
            levels_bounded(r.1@),
    {
        proof {
            lemma_sorted_pairs_unique(self.bids@);
            lemma_sorted_pairs_unique(self.asks@);
        }
        let mut bids: Vec<Level> = Vec::new();
        let nb = if depth < self.bids.len() {
            depth
        } else {
            self.bids.len()
        };
        let mut i: usize = 0;
        while i < nb
            invariant
                i <= nb <= self.bids@.len(),
                bids@.len() == i,
                forall|j: int|
                    0 <= j < i ==> (#[trigger] bids@[j]).price == self.bids@[j].0 && bids@[j].size
                        == self.bids@[j].1 && bids@[j].count == 0,
            decreases nb - i,
        {
            let pair = self.bids[i];
            bids.push(Level { price: pair.0, size: pair.1, count: 0 });
            i += 1;
        }
        let mut asks: Vec<Level> = Vec::new();
        let na = if depth < self.asks.len() {
            depth
        } else {
            self.asks.len()
        };
        let mut i: usize = 0;
        while i < na
            invariant
                i <= na <= self.asks@.len(),
                asks@.len() == i,
                forall|j: int|
                    0 <= j < i ==> (#[trigger] asks@[j]).price == self.asks@[j].0 && asks@[j].size
                        == self.asks@[j].1 && asks@[j].count == 0,
            decreases na - i,
        {
            let pair = self.asks[i];
            asks.push(Level { price: pair.0, size: pair.1, count: 0 });
            i += 1;
        }
        proof {
            assert forall|j: int| 0 <= j < bids@.len() implies self.bids_map().contains_pair(
                (#[trigger] bids@[j]).price,
                bids@[j].size,
            ) by {
                lemma_pairs_lookup(self.bids@, self.bids@[j].0, j);
            }
            assert forall|k: u64| #[trigger] self.bids_map().dom().contains(k) implies (exists|
                i: int,
            |
                0 <= i < bids@.len() && (#[trigger] bids@[i]).price == k) || (bids@.len()
                == depth && (depth <= 0 || k < bids@[depth - 1].price)) by {
                assert(seq_has_key(self.bids@, k));
                let j = seq_key_at(self.bids@, k);
                if j < nb {
                    assert(bids@[j].price == k);
                } else {
                    assert(nb == depth);
                    if depth > 0 {
                        assert(self.bids@[nb - 1].0 > self.bids@[j].0);
                        assert(bids@[nb - 1].price == self.bids@[nb - 1].0);
                    }
                }
            }
            assert forall|j: int| 0 <= j < asks@.len() implies self.asks_map().contains_pair(
                (#[trigger] asks@[j]).price,
                asks@[j].size,
            ) by {
                lemma_pairs_lookup(self.asks@, self.asks@[j].0, j);
            }
            assert forall|k: u64| #[trigger] self.asks_map().dom().contains(k) implies (exists|
                i: int,
            |
                0 <= i < asks@.len() && (#[trigger] asks@[i]).price == k) || (asks@.len()
                == depth && (depth <= 0 || k > asks@[depth - 1].price)) by {
                assert(seq_has_key(self.asks@, k));
                let j = seq_key_at(self.asks@, k);
                if j < na {
                    assert(asks@[j].price == k);
                } else {
                    assert(na == depth);
                    if depth > 0 {
                        assert(self.asks@[na - 1].0 < self.asks@[j].0);
                        assert(asks@[na - 1].price == self.asks@[na - 1].0);
                    }
                }
            }
        }
        (bids, asks)
    }
}


// ─── The feed state machine ─────────────────────────────────────────────

/// A decoded inbound frame, as the transport loop hands it over: which
/// JSON-RPC fields were present, and the book payload when one was
/// carried and decoded.
pub struct RpcFrame {
    pub has_error: bool,
    pub has_result: bool,
    pub method: Option<String>,
    pub data: Option<PdxBookData>,
}

/// A frame that carries a book update: a subscription push with a
/// payload, and neither an error nor a result field.
pub open spec fn is_book_push(f: RpcFrame) -> bool {
    &&& !f.has_error
    &&& !f.has_result
    &&& match f.method {
        Some(m) => m@ == "subscription"@,
        None => false,
    }
    &&& f.data is Some
}

/// A frame the reconciler applies: a book push whose payload is a
/// snapshot or a delta.
pub open spec fn frame_applies(f: RpcFrame) -> bool {
    &&& is_book_push(f)
    &&& (f.data->Some_0.update_type@ == "s"@ || f.data->Some_0.update_type@ == "d"@)
}

/// One venue feed: the published book and the private reconciliation
/// state of the current connection.
pub struct PdxFeed {
    pub book: OrderBook,
    pub local: LocalBook,
}

impl PdxFeed {
    /// The private bid-side mapping of the current connection.
    pub closed spec fn bids_state(&self) -> Map<u64, u64> {
        self.local.bids_map()
    }

    /// The private ask-side mapping of the current connection.
    pub closed spec fn asks_state(&self) -> Map<u64, u64> {
        self.local.asks_map()
    }

    pub closed spec fn wf(&self) -> bool {
        &&& book_wf(self.book)
        &&& self.local.wf()
    }

    /// A fresh feed for one market: empty book, not connected.
    pub fn new(market: &str) -> (r: PdxFeed)
        ensures
            r.wf(),
            book_wf(r.book),
            r.book.exchange == Exchange::Paradex,
            r.book.coin@ == market@,
            r.book.bids@ == Seq::<Level>::empty(),
            r.book.asks@ == Seq::<Level>::empty(),
            r.book.last_update_ms == 0,
            r.book.connected == false,
            r.book.message_count == 0,
            r.bids_state() == Map::<u64, u64>::empty(),
            r.asks_state() == Map::<u64, u64>::empty(),
    {
        PdxFeed { book: OrderBook::new(Exchange::Paradex, market), local: LocalBook::new() }
    }

    /// A fresh transport is up: mark the book live and start from empty
    /// reconciliation state — nothing carries over from an earlier
    /// connection.  The published book keeps its last contents until the
    /// first new message arrives.
    pub fn on_connect(&mut self)
        requires
            old(self).wf(),
        ensures
            final(self).wf(),
            book_wf(final(self).book),
            final(self).book.connected == true,
            final(self).book.exchange == old(self).book.exchange,
            final(self).book.coin == old(self).book.coin,
            final(self).book.bids == old(self).book.bids,
            final(self).book.asks == old(self).book.asks,
            final(self).book.last_update_ms == old(self).book.last_update_ms,
            final(self).book.message_count == old(self).book.message_count,
            final(self).bids_state() == Map::<u64, u64>::empty(),
            final(self).asks_state() == Map::<u64, u64>::empty(),
    {
        self.book.connected = true;
        self.local = LocalBook::new();
    }

    /// The transport failed or closed: mark the book stale.  Book
    /// contents stay as published — stale but present — until a fresh
    /// connection delivers new data.
    pub fn on_disconnect(&mut self)
        requires
            old(self).wf(),
        ensures
            final(self).wf(),
            book_wf(final(self).book),
            final(self).book.connected == false,
            final(self).book.exchange == old(self).book.exchange,
            final(self).book.coin == old(self).book.coin,
            final(self).book.bids == old(self).book.bids,
            final(self).book.asks == old(self).book.asks,
            final(self).book.last_update_ms == old(self).book.last_update_ms,
            final(self).book.message_count == old(self).book.message_count,
            final(self).bids_state() == old(self).bids_state(),
            final(self).asks_state() == old(self).asks_state(),
    {
        self.book.connected = false;
    }

    /// Apply one inbound frame.  Anything that is not a book push with a
    /// known update type — a frame that failed to decode (`None`), an
    /// error report, an acknowledgement, an unknown method or update
    /// type — leaves every part of the state unchanged.
    pub fn handle_frame(&mut self, frame: Option<&RpcFrame>) -> (applied: bool)
        requires
            old(self).wf(),
        ensures
            final(self).wf(),
            book_wf(final(self).book),
            match frame {
                None => *final(self) == *old(self) && !applied,
                Some(f) => if frame_applies(*f) {
                    let d = f.data->Some_0;
                    &&& applied
                    &&& final(self).bids_state() == side_after_message(
                        old(self).bids_state(),
                        d,
                        true,
                    )
                    &&& final(self).asks_state() == side_after_message(
                        old(self).asks_state(),
                        d,
                        false,
                    )
                    &&& top_of_side_desc(
                        final(self).book.bids@,
                        final(self).bids_state(),
                        MAX_BOOK_DEPTH as int,
                    )
                    &&& top_of_side_asc(
                        final(self).book.asks@,
                        final(self).asks_state(),
                        MAX_BOOK_DEPTH as int,
                    )
                    &&& final(self).book.last_update_ms == d.last_updated_at / 1000
                    &&& final(self).book.message_count == (if old(self).book.message_count
                        < u64::MAX {
                        old(self).book.message_count + 1
                    } else {
                        u64::MAX as int
                    })
                    &&& final(self).book.exchange == old(self).book.exchange
                    &&& final(self).book.coin == old(self).book.coin
                    &&& final(self).book.connected == old(self).book.connected
                } else {
                    *final(self) == *old(self) && !applied
                },
            },
    {
        let f = match frame {
            Some(f) => f,
            None => {
                return false;
            },
        };
        if f.has_error {
            return false;
        }
        if f.has_result {
            return false;
        }
        let is_sub = match &f.method {
            Some(m) => str_eq(m.as_str(), "subscription"),
            None => false,
        };
        if !is_sub {
            return false;
        }
        let data = match &f.data {
            Some(d) => d,
            None => {
                return false;
            },
        };
        let is_snap = str_eq(data.update_type.as_str(), "s");
        let is_delta = str_eq(data.update_type.as_str(), "d");
        if !is_snap && !is_delta {
            return false;
        }
        if is_snap {
            self.local.apply_snapshot(data);
        } else {
            self.local.apply_delta(data);
        }
        let (bids, asks) = self.local.to_levels(MAX_BOOK_DEPTH);
        self.book.bids = bids;
        self.book.asks = asks;
        self.book.last_update_ms = data.last_updated_at / 1000;
        if self.book.message_count < u64::MAX {
            self.book.message_count = self.book.message_count + 1;
        }
        true
    }
}

/// The order-book channel name for a market, at the venue's fixed
/// snapshot depth and cadence.
pub fn pdx_book_channel(market: &str) -> (r: String)
    ensures
        r@ == "order_book."@ + market@ + ".snapshot@15@100ms"@,
{
    let mut s = String::from_str("order_book.");
    s.append(market);
    s.append(".snapshot@15@100ms");
    s
}

// ─── Reconciliation laws ────────────────────────────────────────────────

/// Within one delta that deletes price p, then updates it, then inserts
/// size s' at it, the side ends with p mapped to s': deletes, updates and
/// inserts are applied in exactly that order, so the insert wins.
pub proof fn lemma_delta_insert_wins(m: Map<u64, u64>, data: PdxBookData, buy: bool)
    requires
        data.deletes@.len() == 1,
        data.updates@.len() == 1,
        data.inserts@.len() == 1,
        pdx_is_buy(data.deletes@[0]) == buy,
        pdx_is_buy(data.updates@[0]) == buy,
        pdx_is_buy(data.inserts@[0]) == buy,
        pdx_key(data.deletes@[0]) == pdx_key(data.inserts@[0]),
        pdx_key(data.updates@[0]) == pdx_key(data.inserts@[0]),
    ensures
        delta_side(m, data, buy).dom().contains(pdx_key(data.inserts@[0])),
        delta_side(m, data, buy)[pdx_key(data.inserts@[0])] == pdx_size(data.inserts@[0]),
{
    reveal_with_fuel(upsert_side, 2);
    reveal_with_fuel(delete_side, 2);
    assert(data.deletes@.drop_first() =~= Seq::<PdxLevel>::empty());
    assert(data.updates@.drop_first() =~= Seq::<PdxLevel>::empty());
    assert(data.inserts@.drop_first() =~= Seq::<PdxLevel>::empty());
}

/// A snapshot is authoritative: after snapshot S1 and then snapshot S2,
/// a side holds exactly what S2 alone builds from empty state — no entry
/// of S1 survives.
pub proof fn lemma_snapshot_discards(
    m0: Map<u64, u64>,
    s1: PdxBookData,
    s2: PdxBookData,
    buy: bool,
)
    requires
        s1.update_type@ == "s"@,
        s2.update_type@ == "s"@,
    ensures
        side_after_message(side_after_message(m0, s1, buy), s2, buy) == side_after_message(
            Map::<u64, u64>::empty(),
            s2,
            buy,
        ),
{
}

} // verus!
