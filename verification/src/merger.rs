//! Merge two venue books into one depth-truncated view and compute
//! cross-venue signals.
//!
//! Merging concatenates both venues' levels on a side — the first venue's
//! first — and stable-sorts them by price, so rows at exactly equal price
//! keep their concatenation order: the first venue's levels precede the
//! second's.  Signals that are ratios are exact fractions of tick
//! quantities; notional totals are exact products, so one tick of
//! notional is one tick of price times one tick of size.

use vstd::prelude::*;

use crate::fixed::FIXED_MAX;
use crate::types::{
    asc_by_price, book_wf, desc_by_price, levels_bounded, spec_best_ask, spec_best_bid, Exchange,
    Level, OrderBook, Ratio, MAX_BOOK_DEPTH,
};

verus! {

/// A single level in the merged book, tagged with its source venue.
#[derive(Clone, Copy, Debug, PartialEq, Eq, Structural)]
pub struct MergedLevel {
    pub price: u64,
    pub size: u64,
    pub exchange: Exchange,
}

pub open spec fn merged_desc(s: Seq<MergedLevel>) -> bool {
    forall|i: int, j: int|
        0 <= i < j < s.len() ==> (#[trigger] s[i]).price >= (#[trigger] s[j]).price
}

pub open spec fn merged_asc(s: Seq<MergedLevel>) -> bool {
    forall|i: int, j: int|
        0 <= i < j < s.len() ==> (#[trigger] s[i]).price <= (#[trigger] s[j]).price
}

pub open spec fn merged_bounded(s: Seq<MergedLevel>) -> bool {
    forall|i: int|
        0 <= i < s.len() ==> (#[trigger] s[i]).price <= FIXED_MAX && s[i].size <= FIXED_MAX
}

/// A venue's levels tagged with their source.
pub open spec fn tag_levels(ls: Seq<Level>, ex: Exchange) -> Seq<MergedLevel> {
    ls.map(|i: int, l: Level| MergedLevel { price: l.price, size: l.size, exchange: ex })
}

/// Stable insertion into a price-descending list: the new row goes after
/// every row at the same or a better price.
pub open spec fn insert_desc(s: Seq<MergedLevel>, x: MergedLevel) -> Seq<MergedLevel>
    decreases s.len(),
{
    if s.len() == 0 {
        seq![x]
    } else if s[0].price < x.price {
        seq![x] + s
    } else {
        seq![s[0]] + insert_desc(s.drop_first(), x)
    }
}

/// Stable sort, price descending: rows at equal price keep their input
/// order.
pub open spec fn sort_desc(s: Seq<MergedLevel>) -> Seq<MergedLevel>
    decreases s.len(),
{
    if s.len() == 0 {
        Seq::empty()
    } else {
        insert_desc(sort_desc(s.drop_last()), s.last())
    }
}

/// Stable insertion into a price-ascending list.
pub open spec fn insert_asc(s: Seq<MergedLevel>, x: MergedLevel) -> Seq<MergedLevel>
    decreases s.len(),
{
    if s.len() == 0 {
        seq![x]
    } else if s[0].price > x.price {
        seq![x] + s
    } else {
        seq![s[0]] + insert_asc(s.drop_first(), x)
    }
}

/// Stable sort, price ascending.
pub open spec fn sort_asc(s: Seq<MergedLevel>) -> Seq<MergedLevel>
    decreases s.len(),
{
    if s.len() == 0 {
        Seq::empty()
    } else {
        insert_asc(sort_asc(s.drop_last()), s.last())
    }
}

/// The merged bid side: both venues' levels, first venue first, stable
/// sorted descending, truncated to `depth`.
pub open spec fn merged_side_desc(
    a: Seq<Level>,
    ea: Exchange,
    b: Seq<Level>,
    eb: Exchange,
    depth: int,
) -> Seq<MergedLevel> {
    let all = sort_desc(tag_levels(a, ea) + tag_levels(b, eb));
    all.take(
        if all.len() <= depth {
            all.len() as int
        } else {
            depth
        },
    )
}

/// The merged ask side: as the bids, sorted ascending.
pub open spec fn merged_side_asc(
    a: Seq<Level>,
    ea: Exchange,
    b: Seq<Level>,
    eb: Exchange,
    depth: int,
) -> Seq<MergedLevel> {
    let all = sort_asc(tag_levels(a, ea) + tag_levels(b, eb));
    all.take(
        if all.len() <= depth {
            all.len() as int
        } else {
            depth
        },
    )
}

// ─── Sorting lemmas ─────────────────────────────────────────────────────

proof fn lemma_insert_desc_len(s: Seq<MergedLevel>, x: MergedLevel)
    ensures
        insert_desc(s, x).len() == s.len() + 1,
    decreases s.len(),
{
    if s.len() > 0 && s[0].price >= x.price {
        lemma_insert_desc_len(s.drop_first(), x);
    }
}

proof fn lemma_insert_asc_len(s: Seq<MergedLevel>, x: MergedLevel)
    ensures
        insert_asc(s, x).len() == s.len() + 1,
    decreases s.len(),
{
    if s.len() > 0 && s[0].price <= x.price {
        lemma_insert_asc_len(s.drop_first(), x);
    }
}

proof fn lemma_sort_desc_len(s: Seq<MergedLevel>)
    ensures
        sort_desc(s).len() == s.len(),
    decreases s.len(),
{
    if s.len() > 0 {
        lemma_sort_desc_len(s.drop_last());
        lemma_insert_desc_len(sort_desc(s.drop_last()), s.last());
    }
}

proof fn lemma_sort_asc_len(s: Seq<MergedLevel>)
    ensures
        sort_asc(s).len() == s.len(),
    decreases s.len(),
{
    if s.len() > 0 {
        lemma_sort_asc_len(s.drop_last());
        lemma_insert_asc_len(sort_asc(s.drop_last()), s.last());
    }
}

/// Every row of an insertion is the inserted row or a row of the input.
proof fn lemma_insert_desc_elems(s: Seq<MergedLevel>, x: MergedLevel)
    ensures
        forall|i: int|
            0 <= i < insert_desc(s, x).len() ==> #[trigger] insert_desc(s, x)[i] == x || exists|
                j: int,
            | 0 <= j < s.len() && insert_desc(s, x)[i] == s[j],
    decreases s.len(),
{
    let r = insert_desc(s, x);
    if s.len() == 0 {
    } else if s[0].price < x.price {
        assert forall|i: int| 0 <= i < r.len() implies #[trigger] r[i] == x || exists|j: int|
            0 <= j < s.len() && r[i] == s[j] by {
            if i > 0 {
                assert(r[i] == s[i - 1]);
            }
        }
    } else {
        let t = s.drop_first();
        lemma_insert_desc_elems(t, x);
        let rt = insert_desc(t, x);
        assert forall|i: int| 0 <= i < r.len() implies #[trigger] r[i] == x || exists|j: int|
            0 <= j < s.len() && r[i] == s[j] by {
            if i == 0 {
                assert(r[0] == s[0]);
            } else {
                assert(r[i] == rt[i - 1]);
                if rt[i - 1] != x {
                    let j = choose|j: int| 0 <= j < t.len() && rt[i - 1] == t[j];
                    assert(r[i] == s[j + 1]);
                }
            }
        }
    }
}

proof fn lemma_insert_asc_elems(s: Seq<MergedLevel>, x: MergedLevel)
    ensures
        forall|i: int|
            0 <= i < insert_asc(s, x).len() ==> #[trigger] insert_asc(s, x)[i] == x || exists|
                j: int,
            | 0 <= j < s.len() && insert_asc(s, x)[i] == s[j],
    decreases s.len(),
{
    let r = insert_asc(s, x);
    if s.len() == 0 {
    } else if s[0].price > x.price {
        assert forall|i: int| 0 <= i < r.len() implies #[trigger] r[i] == x || exists|j: int|
            0 <= j < s.len() && r[i] == s[j] by {
            if i > 0 {
                assert(r[i] == s[i - 1]);
            }
        }
    } else {
        let t = s.drop_first();
        lemma_insert_asc_elems(t, x);
        let rt = insert_asc(t, x);
        assert forall|i: int| 0 <= i < r.len() implies #[trigger] r[i] == x || exists|j: int|
            0 <= j < s.len() && r[i] == s[j] by {
            if i == 0 {
                assert(r[0] == s[0]);
            } else {
                assert(r[i] == rt[i - 1]);
                if rt[i - 1] != x {
                    let j = choose|j: int| 0 <= j < t.len() && rt[i - 1] == t[j];
                    assert(r[i] == s[j + 1]);
                }
            }
        }
    }
}

proof fn lemma_insert_desc_sorted(s: Seq<MergedLevel>, x: MergedLevel)
    requires
        merged_desc(s),
    ensures
        merged_desc(insert_desc(s, x)),
    decreases s.len(),
{
    let r = insert_desc(s, x);
    if s.len() == 0 {
    } else if s[0].price < x.price {
        assert forall|i: int, j: int| 0 <= i < j < r.len() implies (#[trigger] r[i]).price >= (
        #[trigger] r[j]).price by {
            if i > 0 {
                assert(r[i] == s[i - 1] && r[j] == s[j - 1]);
            } else {
                assert(r[j] == s[j - 1]);
                if j - 1 > 0 {
                    assert(s[0].price >= s[j - 1].price);
                }
            }
        }
    } else {
        let t = s.drop_first();
        lemma_insert_desc_sorted(t, x);
        lemma_insert_desc_elems(t, x);
        lemma_insert_desc_len(t, x);
        let rt = insert_desc(t, x);
        assert forall|i: int, j: int| 0 <= i < j < r.len() implies (#[trigger] r[i]).price >= (
        #[trigger] r[j]).price by {
            if i == 0 {
                assert(r[j] == rt[j - 1]);
                if rt[j - 1] == x {
                    assert(s[0].price >= x.price);
                } else {
                    let k = choose|k: int| 0 <= k < t.len() && rt[j - 1] == t[k];
                    assert(s[0].price >= s[k + 1].price);
                }
            } else {
                assert(r[i] == rt[i - 1] && r[j] == rt[j - 1]);
            }
        }
    }
}

proof fn lemma_insert_asc_sorted(s: Seq<MergedLevel>, x: MergedLevel)
    requires
        merged_asc(s),
    ensures
        merged_asc(insert_asc(s, x)),
    decreases s.len(),
{
    let r = insert_asc(s, x);
    if s.len() == 0 {
    } else if s[0].price > x.price {
        assert forall|i: int, j: int| 0 <= i < j < r.len() implies (#[trigger] r[i]).price <= (
        #[trigger] r[j]).price by {
            if i > 0 {
                assert(r[i] == s[i - 1] && r[j] == s[j - 1]);
            } else {
                assert(r[j] == s[j - 1]);
                if j - 1 > 0 {
                    assert(s[0].price <= s[j - 1].price);
                }
            }
        }
    } else {
        let t = s.drop_first();
        lemma_insert_asc_sorted(t, x);
        lemma_insert_asc_elems(t, x);
        lemma_insert_asc_len(t, x);
        let rt = insert_asc(t, x);
        assert forall|i: int, j: int| 0 <= i < j < r.len() implies (#[trigger] r[i]).price <= (
        #[trigger] r[j]).price by {
            if i == 0 {
                assert(r[j] == rt[j - 1]);
                if rt[j - 1] == x {
                    assert(s[0].price <= x.price);
                } else {
                    let k = choose|k: int| 0 <= k < t.len() && rt[j - 1] == t[k];
                    assert(s[0].price <= s[k + 1].price);
                }
            } else {
                assert(r[i] == rt[i - 1] && r[j] == rt[j - 1]);
            }
        }
    }
}

proof fn lemma_sort_desc_sorted(s: Seq<MergedLevel>)
    ensures
        merged_desc(sort_desc(s)),
    decreases s.len(),
{
    if s.len() > 0 {
        lemma_sort_desc_sorted(s.drop_last());
        lemma_insert_desc_sorted(sort_desc(s.drop_last()), s.last());
    }
}

proof fn lemma_sort_asc_sorted(s: Seq<MergedLevel>)
    ensures
        merged_asc(sort_asc(s)),
    decreases s.len(),
{
    if s.len() > 0 {
        lemma_sort_asc_sorted(s.drop_last());
        lemma_insert_asc_sorted(sort_asc(s.drop_last()), s.last());
    }
}

proof fn lemma_sort_desc_bounded(s: Seq<MergedLevel>)
    requires
        merged_bounded(s),
    ensures
        merged_bounded(sort_desc(s)),
    decreases s.len(),
{
    if s.len() > 0 {
        lemma_sort_desc_bounded(s.drop_last());
        lemma_insert_desc_elems(sort_desc(s.drop_last()), s.last());
        lemma_insert_desc_len(sort_desc(s.drop_last()), s.last());
        let r = sort_desc(s);
        assert forall|i: int| 0 <= i < r.len() implies (#[trigger] r[i]).price <= FIXED_MAX
            && r[i].size <= FIXED_MAX by {
            if r[i] != s.last() {
                let j = choose|j: int|
                    0 <= j < sort_desc(s.drop_last()).len() && r[i] == sort_desc(s.drop_last())[j];
            }
        }
    }
}

proof fn lemma_sort_asc_bounded(s: Seq<MergedLevel>)
    requires
        merged_bounded(s),
    ensures
        merged_bounded(sort_asc(s)),
    decreases s.len(),
{
    if s.len() > 0 {
        lemma_sort_asc_bounded(s.drop_last());
        lemma_insert_asc_elems(sort_asc(s.drop_last()), s.last());
        lemma_insert_asc_len(sort_asc(s.drop_last()), s.last());
        let r = sort_asc(s);
        assert forall|i: int| 0 <= i < r.len() implies (#[trigger] r[i]).price <= FIXED_MAX
            && r[i].size <= FIXED_MAX by {
            if r[i] != s.last() {
                let j = choose|j: int|
                    0 <= j < sort_asc(s.drop_last()).len() && r[i] == sort_asc(s.drop_last())[j];
            }
        }
    }
}

/// Where the stable insertion lands: right before the first row at a
/// strictly worse price.
proof fn lemma_insert_desc_at(s: Seq<MergedLevel>, x: MergedLevel, k: int)
    requires
        0 <= k <= s.len(),
        forall|j: int| 0 <= j < k ==> (#[trigger] s[j]).price >= x.price,
        k < s.len() ==> s[k].price < x.price,
    ensures
        insert_desc(s, x) == s.take(k) + seq![x] + s.skip(k),
    decreases s.len(),
{
    if s.len() == 0 {
        assert(s.take(0) + seq![x] + s.skip(0) =~= seq![x]);
    } else if s[0].price < x.price {
        assert(k == 0);
        assert(s.take(0) + seq![x] + s.skip(0) =~= seq![x] + s);
    } else {
        assert(k >= 1);
        let t = s.drop_first();
        assert forall|j: int| 0 <= j < k - 1 implies (#[trigger] t[j]).price >= x.price by {
            assert(t[j] == s[j + 1]);
        }
        lemma_insert_desc_at(t, x, k - 1);
        assert(seq![s[0]] + (t.take(k - 1) + seq![x] + t.skip(k - 1)) =~= s.take(k) + seq![x]
            + s.skip(k));
    }
}

proof fn lemma_insert_asc_at(s: Seq<MergedLevel>, x: MergedLevel, k: int)
    requires
        0 <= k <= s.len(),
        forall|j: int| 0 <= j < k ==> (#[trigger] s[j]).price <= x.price,
        k < s.len() ==> s[k].price > x.price,
    ensures
        insert_asc(s, x) == s.take(k) + seq![x] + s.skip(k),
    decreases s.len(),
{
    if s.len() == 0 {
        assert(s.take(0) + seq![x] + s.skip(0) =~= seq![x]);
    } else if s[0].price > x.price {
        assert(k == 0);
        assert(s.take(0) + seq![x] + s.skip(0) =~= seq![x] + s);
    } else {
        assert(k >= 1);
        let t = s.drop_first();
        assert forall|j: int| 0 <= j < k - 1 implies (#[trigger] t[j]).price <= x.price by {
            assert(t[j] == s[j + 1]);
        }
        lemma_insert_asc_at(t, x, k - 1);
        assert(seq![s[0]] + (t.take(k - 1) + seq![x] + t.skip(k - 1)) =~= s.take(k) + seq![x]
            + s.skip(k));
    }
}

/// Sorting an already sorted sequence returns it unchanged.
proof fn lemma_sort_desc_of_sorted(s: Seq<MergedLevel>)
    requires
        merged_desc(s),
    ensures
        sort_desc(s) == s,
    decreases s.len(),
{
    if s.len() > 0 {
        let t = s.drop_last();
        lemma_sort_desc_of_sorted(t);
        lemma_insert_desc_at(t, s.last(), t.len() as int);
        assert(t.take(t.len() as int) + seq![s.last()] + t.skip(t.len() as int) =~= s);
    }
}

proof fn lemma_sort_asc_of_sorted(s: Seq<MergedLevel>)
    requires
        merged_asc(s),
    ensures
        sort_asc(s) == s,
    decreases s.len(),
{
    if s.len() > 0 {
        let t = s.drop_last();
        lemma_sort_asc_of_sorted(t);
        lemma_insert_asc_at(t, s.last(), t.len() as int);
        assert(t.take(t.len() as int) + seq![s.last()] + t.skip(t.len() as int) =~= s);
    }
}


// ─── Executable merge ───────────────────────────────────────────────────

fn push_sorted_desc(v: &mut Vec<MergedLevel>, x: MergedLevel)
    ensures
        final(v)@ == insert_desc(old(v)@, x),
{
    let ghost s = old(v)@;
    let mut j: usize = 0;
    while j < v.len() && v[j].price >= x.price
        invariant
            v@ == s,
            j <= s.len(),
            forall|k: int| 0 <= k < j ==> (#[trigger] s[k]).price >= x.price,
        decreases s.len() - j,
    {
        j += 1;
    }
    v.insert(j, x);
    proof {
        lemma_insert_desc_at(s, x, j as int);
        assert(s.insert(j as int, x) =~= s.take(j as int) + seq![x] + s.skip(j as int));
    }
}

fn push_sorted_asc(v: &mut Vec<MergedLevel>, x: MergedLevel)
    ensures
        final(v)@ == insert_asc(old(v)@, x),
{
    let ghost s = old(v)@;
    let mut j: usize = 0;
    while j < v.len() && v[j].price <= x.price
        invariant
            v@ == s,
            j <= s.len(),
            forall|k: int| 0 <= k < j ==> (#[trigger] s[k]).price <= x.price,
        decreases s.len() - j,
    {
        j += 1;
    }
    v.insert(j, x);
    proof {
        lemma_insert_asc_at(s, x, j as int);
        assert(s.insert(j as int, x) =~= s.take(j as int) + seq![x] + s.skip(j as int));
    }
}

/// Merge two bid lists: both venues' rows, the first venue's rows first,
/// sorted by price descending with concatenation order kept on equal
/// prices, truncated to `depth`.
pub fn merge_bids(
    a_levels: &Vec<Level>,
    a_ex: &Exchange,
    b_levels: &Vec<Level>,
    b_ex: &Exchange,
    depth: usize,
) -> (r: Vec<MergedLevel>)
    requires
        a_levels@.len() <= MAX_BOOK_DEPTH,
        b_levels@.len() <= MAX_BOOK_DEPTH,
    ensures
        r@ == merged_side_desc(a_levels@, *a_ex, b_levels@, *b_ex, depth as int),
        merged_desc(r@),
        r@.len() <= depth,
        r@.len() <= a_levels@.len() + b_levels@.len(),
        levels_bounded(a_levels@) && levels_bounded(b_levels@) ==> merged_bounded(r@),
{
    let ghost ta = tag_levels(a_levels@, *a_ex);
    let ghost tb = tag_levels(b_levels@, *b_ex);
    let ghost concat = ta + tb;
    let mut all: Vec<MergedLevel> = Vec::new();
    proof {
        assert(concat.take(0) =~= Seq::<MergedLevel>::empty());
    }
    let na = a_levels.len();
    let mut i: usize = 0;
    while i < na
        invariant
            i <= na == a_levels@.len(),
            ta == tag_levels(a_levels@, *a_ex),
            tb == tag_levels(b_levels@, *b_ex),
            concat == ta + tb,
            all@ == sort_desc(concat.take(i as int)),
        decreases na - i,
    {
        let l = a_levels[i];
        let x = MergedLevel { price: l.price, size: l.size, exchange: *a_ex };
        proof {
            assert(ta[i as int] == x);
            assert(concat[i as int] == ta[i as int]);
            assert(concat.take(i + 1).drop_last() =~= concat.take(i as int));
            assert(concat.take(i + 1).last() == x);
        }
        push_sorted_desc(&mut all, x);
        i += 1;
    }
    let nb = b_levels.len();
    let mut i: usize = 0;
    while i < nb
        invariant
            i <= nb == b_levels@.len(),
            na == a_levels@.len(),
            ta == tag_levels(a_levels@, *a_ex),
            tb == tag_levels(b_levels@, *b_ex),
            concat == ta + tb,
            all@ == sort_desc(concat.take(na + i)),
        decreases nb - i,
    {
        let l = b_levels[i];
        let x = MergedLevel { price: l.price, size: l.size, exchange: *b_ex };
        proof {
            assert(tb[i as int] == x);
            assert(concat[na + i] == tb[i as int]);
            assert(concat.take(na + i + 1).drop_last() =~= concat.take(na + i));
            assert(concat.take(na + i + 1).last() == x);
        }
        push_sorted_desc(&mut all, x);
        i += 1;
    }
    proof {
        assert(concat.take(na + nb) =~= concat);
        lemma_sort_desc_sorted(concat);
        lemma_sort_desc_len(concat);
        if levels_bounded(a_levels@) && levels_bounded(b_levels@) {
            assert(merged_bounded(concat));
            lemma_sort_desc_bounded(concat);
        }
    }
    if all.len() > depth {
        all.truncate(depth);
        proof {
            assert(all@ =~= sort_desc(concat).take(depth as int));
        }
    } else {
        proof {
            assert(all@ =~= sort_desc(concat).take(all@.len() as int));
        }
    }
    all
}

/// Merge two ask lists: as the bids, sorted by price ascending.
pub fn merge_asks(
    a_levels: &Vec<Level>,
    a_ex: &Exchange,
    b_levels: &Vec<Level>,
    b_ex: &Exchange,
    depth: usize,
) -> (r: Vec<MergedLevel>)
    requires
        a_levels@.len() <= MAX_BOOK_DEPTH,
        b_levels@.len() <= MAX_BOOK_DEPTH,
    ensures
        r@ == merged_side_asc(a_levels@, *a_ex, b_levels@, *b_ex, depth as int),
        merged_asc(r@),
        r@.len() <= depth,
        r@.len() <= a_levels@.len() + b_levels@.len(),
        levels_bounded(a_levels@) && levels_bounded(b_levels@) ==> merged_bounded(r@),
{
    let ghost ta = tag_levels(a_levels@, *a_ex);
    let ghost tb = tag_levels(b_levels@, *b_ex);
    let ghost concat = ta + tb;
    let mut all: Vec<MergedLevel> = Vec::new();
    proof {
        assert(concat.take(0) =~= Seq::<MergedLevel>::empty());
    }
    let na = a_levels.len();
    let mut i: usize = 0;
    while i < na
        invariant
            i <= na == a_levels@.len(),
            ta == tag_levels(a_levels@, *a_ex),
            tb == tag_levels(b_levels@, *b_ex),
            concat == ta + tb,
            all@ == sort_asc(concat.take(i as int)),
        decreases na - i,
    {
        let l = a_levels[i];
        let x = MergedLevel { price: l.price, size: l.size, exchange: *a_ex };
        proof {
            assert(ta[i as int] == x);
            assert(concat[i as int] == ta[i as int]);
            assert(concat.take(i + 1).drop_last() =~= concat.take(i as int));
            assert(concat.take(i + 1).last() == x);
        }
        push_sorted_asc(&mut all, x);
        i += 1;
    }
    let nb = b_levels.len();
    let mut i: usize = 0;
    while i < nb
        invariant
            i <= nb == b_levels@.len(),
            na == a_levels@.len(),
            ta == tag_levels(a_levels@, *a_ex),
            tb == tag_levels(b_levels@, *b_ex),
            concat == ta + tb,
            all@ == sort_asc(concat.take(na + i)),
        decreases nb - i,
    {
        let l = b_levels[i];
        let x = MergedLevel { price: l.price, size: l.size, exchange: *b_ex };
        proof {
            assert(tb[i as int] == x);
            assert(concat[na + i] == tb[i as int]);
            assert(concat.take(na + i + 1).drop_last() =~= concat.take(na + i));
            assert(concat.take(na + i + 1).last() == x);
        }
        push_sorted_asc(&mut all, x);
        i += 1;
    }
    proof {
        assert(concat.take(na + nb) =~= concat);
        lemma_sort_asc_sorted(concat);
        lemma_sort_asc_len(concat);
        if levels_bounded(a_levels@) && levels_bounded(b_levels@) {
            assert(merged_bounded(concat));
            lemma_sort_asc_bounded(concat);
        }
    }
    if all.len() > depth {
        all.truncate(depth);
        proof {
            assert(all@ =~= sort_asc(concat).take(depth as int));
        }
    } else {
        proof {
            assert(all@ =~= sort_asc(concat).take(all@.len() as int));
        }
    }
    all
}


// ─── Signals ────────────────────────────────────────────────────────────

/// Computed signals derived from the two books and the merged view.
#[derive(Clone, Copy, Debug, PartialEq, Eq, Structural)]
pub struct Signals {
    /// Best ask across both venues minus best bid across both venues, in
    /// ticks; negative when the venues cross (an arbitrage condition).
    pub cross_spread: Option<i64>,
    /// The spread over the mid price, as an exact fraction of one
    /// percent: 200·(ask − bid) / (ask + bid).  Zero, not absent, when
    /// both quotes exist but the mid price is not positive.
    pub cross_spread_pct: Option<Ratio>,
    /// Which venue holds the better bid; ties go to the first venue.
    pub best_bid_exchange: Option<Exchange>,
    /// Which venue holds the better ask; ties go to the first venue.
    pub best_ask_exchange: Option<Exchange>,
    /// (bid − ask) / (bid + ask) over the merged top-N notionals, an
    /// exact fraction in [-1, 1]; absent when both totals are zero.
    pub liquidity_imbalance: Option<Ratio>,
    /// Total bid notional over the merged top-N, in price·size ticks.
    pub total_bid_usd: u128,
    /// Total ask notional over the merged top-N, in price·size ticks.
    pub total_ask_usd: u128,
}

/// The higher of two optional prices: the overall best bid.
pub open spec fn spec_max_opt(a: Option<u64>, b: Option<u64>) -> Option<u64> {
    match (a, b) {
        (Some(x), Some(y)) => Some(if x >= y { x } else { y }),
        (Some(x), None) => Some(x),
        (None, Some(y)) => Some(y),
        (None, None) => None,
    }
}

/// The lower of two optional prices: the overall best ask.
pub open spec fn spec_min_opt(a: Option<u64>, b: Option<u64>) -> Option<u64> {
    match (a, b) {
        (Some(x), Some(y)) => Some(if x <= y { x } else { y }),
        (Some(x), None) => Some(x),
        (None, Some(y)) => Some(y),
        (None, None) => None,
    }
}

/// Which venue holds the better bid, given each venue's best bid; a
/// missing side defers to the other venue, an exact tie goes to the
/// first venue.
pub open spec fn spec_best_bid_exchange(h: Option<u64>, p: Option<u64>) -> Option<Exchange> {
    match (h, p) {
        (Some(hb), Some(pb)) => Some(
            if hb >= pb {
                Exchange::Hyperliquid
            } else {
                Exchange::Paradex
            },
        ),
        (Some(_), None) => Some(Exchange::Hyperliquid),
        (None, Some(_)) => Some(Exchange::Paradex),
        (None, None) => None,
    }
}

/// Which venue holds the better ask; ties go to the first venue.
pub open spec fn spec_best_ask_exchange(h: Option<u64>, p: Option<u64>) -> Option<Exchange> {
    match (h, p) {
        (Some(ha), Some(pa)) => Some(
            if ha <= pa {
                Exchange::Hyperliquid
            } else {
                Exchange::Paradex
            },
        ),
        (Some(_), None) => Some(Exchange::Hyperliquid),
        (None, Some(_)) => Some(Exchange::Paradex),
        (None, None) => None,
    }
}

/// Total notional of a merged side, in price·size ticks.
pub open spec fn notional_sum(ls: Seq<MergedLevel>) -> int
    decreases ls.len(),
{
    if ls.len() == 0 {
        0
    } else {
        notional_sum(ls.drop_last()) + ls.last().price * ls.last().size
    }
}

/// Cross spread in ticks: overall best ask minus overall best bid, when
/// both sides exist somewhere.
pub open spec fn spec_cross_spread(bid: Option<u64>, ask: Option<u64>) -> Option<i64> {
    match (bid, ask) {
        (Some(b), Some(a)) => Some((a - b) as i64),
        _ => None,
    }
}

/// Cross spread over mid price as an exact fraction of one percent.
pub open spec fn spec_cross_spread_pct(bid: Option<u64>, ask: Option<u64>) -> Option<Ratio> {
    match (bid, ask) {
        (Some(b), Some(a)) => Some(
            if b + a > 0 {
                Ratio { num: (200 * ((a as int) - (b as int))) as i128, den: (b + a) as i128 }
            } else {
                Ratio { num: 0, den: 1 }
            },
        ),
        _ => None,
    }
}

/// Liquidity imbalance (bid − ask) / (bid + ask) over merged notionals;
/// absent when there is no notional at all.
pub open spec fn spec_liquidity_imbalance(bid_usd: int, ask_usd: int) -> Option<Ratio> {
    if bid_usd + ask_usd > 0 {
        Some(Ratio { num: (bid_usd - ask_usd) as i128, den: (bid_usd + ask_usd) as i128 })
    } else {
        None
    }
}

proof fn lemma_notional_take_succ(ls: Seq<MergedLevel>, i: int)
    requires
        0 <= i < ls.len(),
    ensures
        notional_sum(ls.take(i + 1)) == notional_sum(ls.take(i)) + ls[i].price * ls[i].size,
{
    assert(ls.take(i + 1).drop_last() =~= ls.take(i));
    assert(ls.take(i + 1).last() == ls[i]);
}

/// Sum the notional of a merged side.
fn sum_notional(ls: &Vec<MergedLevel>) -> (r: u128)
    requires
        ls@.len() <= 2 * MAX_BOOK_DEPTH,
        merged_bounded(ls@),
    ensures
        r as int == notional_sum(ls@),
        r <= 40 * 0x1000000000000000000000000000000,
{
    let ghost bound: int = 0x1000000000000000000000000000000;  // above FIXED_MAX squared
    let mut acc: u128 = 0;
    let mut i: usize = 0;
    proof {
        assert(ls@.take(0) =~= Seq::<MergedLevel>::empty());
    }
    while i < ls.len()
        invariant
            i <= ls@.len() <= 2 * MAX_BOOK_DEPTH,
            merged_bounded(ls@),
            acc as int == notional_sum(ls@.take(i as int)),
            acc as int <= i * bound,
            bound == 0x1000000000000000000000000000000,
        decreases ls@.len() - i,
    {
        let l = ls[i];
        proof {
            lemma_notional_take_succ(ls@, i as int);
            assert((l.price as int) * (l.size as int) <= bound) by (nonlinear_arith)
                requires
                    l.price <= FIXED_MAX,
                    l.size <= FIXED_MAX,
                    FIXED_MAX == 1_000_000_000_000_000_000,
                    bound == 0x1000000000000000000000000000000,
            ;
        }
        acc = acc + (l.price as u128) * (l.size as u128);
        i += 1;
    }
    proof {
        assert(ls@.take(ls@.len() as int) =~= ls@);
    }
    acc
}

fn max_opt(a: Option<u64>, b: Option<u64>) -> (r: Option<u64>)
    ensures
        r == spec_max_opt(a, b),
{
    match (a, b) {
        (Some(x), Some(y)) => Some(
            if x >= y {
                x
            } else {
                y
            },
        ),
        (Some(x), None) => Some(x),
        (None, Some(y)) => Some(y),
        (None, None) => None,
    }
}

fn min_opt(a: Option<u64>, b: Option<u64>) -> (r: Option<u64>)
    ensures
        r == spec_min_opt(a, b),
{
    match (a, b) {
        (Some(x), Some(y)) => Some(
            if x <= y {
                x
            } else {
                y
            },
        ),
        (Some(x), None) => Some(x),
        (None, Some(y)) => Some(y),
        (None, None) => None,
    }
}

/// Compute every signal from the two venue books and the merged sides.
pub fn compute_signals(
    hl: &OrderBook,
    pdx: &OrderBook,
    merged_bids: &Vec<MergedLevel>,
    merged_asks: &Vec<MergedLevel>,
) -> (s: Signals)
    requires
        book_wf(*hl),
        book_wf(*pdx),
        merged_bids@.len() <= 2 * MAX_BOOK_DEPTH,
        merged_asks@.len() <= 2 * MAX_BOOK_DEPTH,
        merged_bounded(merged_bids@),
        merged_bounded(merged_asks@),
    ensures
        s.best_bid_exchange == spec_best_bid_exchange(spec_best_bid(*hl), spec_best_bid(*pdx)),
        s.best_ask_exchange == spec_best_ask_exchange(spec_best_ask(*hl), spec_best_ask(*pdx)),
        s.cross_spread == spec_cross_spread(
            spec_max_opt(spec_best_bid(*hl), spec_best_bid(*pdx)),
            spec_min_opt(spec_best_ask(*hl), spec_best_ask(*pdx)),
        ),
        s.cross_spread_pct == spec_cross_spread_pct(
            spec_max_opt(spec_best_bid(*hl), spec_best_bid(*pdx)),
            spec_min_opt(spec_best_ask(*hl), spec_best_ask(*pdx)),
        ),
        s.total_bid_usd as int == notional_sum(merged_bids@),
        s.total_ask_usd as int == notional_sum(merged_asks@),
        s.liquidity_imbalance == spec_liquidity_imbalance(
            notional_sum(merged_bids@),
            notional_sum(merged_asks@),
        ),
{
    let hl_best_bid = hl.best_bid();
    let hl_best_ask = hl.best_ask();
    let pdx_best_bid = pdx.best_bid();
    let pdx_best_ask = pdx.best_ask();

    let best_bid = max_opt(hl_best_bid, pdx_best_bid);
    let best_ask = min_opt(hl_best_ask, pdx_best_ask);

    let best_bid_exchange = match (hl_best_bid, pdx_best_bid) {
        (Some(h), Some(p)) => Some(
            if h >= p {
                Exchange::Hyperliquid
            } else {
                Exchange::Paradex
            },
        ),
        (Some(_), None) => Some(Exchange::Hyperliquid),
        (None, Some(_)) => Some(Exchange::Paradex),
        (None, None) => None,
    };
    let best_ask_exchange = match (hl_best_ask, pdx_best_ask) {
        (Some(h), Some(p)) => Some(
            if h <= p {
                Exchange::Hyperliquid
            } else {
                Exchange::Paradex
            },
        ),
        (Some(_), None) => Some(Exchange::Hyperliquid),
        (None, Some(_)) => Some(Exchange::Paradex),
        (None, None) => None,
    };

    let (cross_spread, cross_spread_pct) = match (best_bid, best_ask) {
        (Some(b), Some(a)) => {
            let spread = a as i64 - b as i64;
            let pct = if b as u128 + a as u128 > 0 {
                Ratio { num: 200 * (a as i128 - b as i128), den: b as i128 + a as i128 }
            } else {
                Ratio { num: 0, den: 1 }
            };
            (Some(spread), Some(pct))
        },
        _ => (None, None),
    };

    let total_bid_usd = sum_notional(merged_bids);
    let total_ask_usd = sum_notional(merged_asks);

    let liquidity_imbalance = if total_bid_usd > 0 || total_ask_usd > 0 {
        Some(
            Ratio {
                num: total_bid_usd as i128 - total_ask_usd as i128,
                den: (total_bid_usd + total_ask_usd) as i128,
            },
        )
    } else {
        None
    };

    Signals {
        cross_spread,
        cross_spread_pct,
        best_bid_exchange,
        best_ask_exchange,
        liquidity_imbalance,
        total_bid_usd,
        total_ask_usd,
    }
}

// ─── The merged book ────────────────────────────────────────────────────

/// The merged cross-venue view: top-N rows per side and the signals of
/// one merge call.
#[derive(Debug)]
pub struct MergedBook {
    pub bids: Vec<MergedLevel>,  // top N, price descending
    pub asks: Vec<MergedLevel>,  // top N, price ascending
    pub signals: Signals,
}

impl MergedBook {
    /// Build a merged book from two venue snapshots, keeping the top
    /// `depth` rows per side.  A pure function of its inputs: no state is
    /// kept between calls.
    pub fn build(hl: &OrderBook, pdx: &OrderBook, depth: usize) -> (r: MergedBook)
        requires
            book_wf(*hl),
            book_wf(*pdx),
        ensures
            r.bids@ == merged_side_desc(hl.bids@, hl.exchange, pdx.bids@, pdx.exchange, depth as int),
            r.asks@ == merged_side_asc(hl.asks@, hl.exchange, pdx.asks@, pdx.exchange, depth as int),
            merged_desc(r.bids@),
            merged_asc(r.asks@),
            r.bids@.len() <= depth,
            r.asks@.len() <= depth,
            r.signals.best_bid_exchange == spec_best_bid_exchange(
                spec_best_bid(*hl),
                spec_best_bid(*pdx),
            ),
            r.signals.best_ask_exchange == spec_best_ask_exchange(
                spec_best_ask(*hl),
                spec_best_ask(*pdx),
            ),
            r.signals.cross_spread == spec_cross_spread(
                spec_max_opt(spec_best_bid(*hl), spec_best_bid(*pdx)),
                spec_min_opt(spec_best_ask(*hl), spec_best_ask(*pdx)),
            ),
            r.signals.cross_spread_pct == spec_cross_spread_pct(
                spec_max_opt(spec_best_bid(*hl), spec_best_bid(*pdx)),
                spec_min_opt(spec_best_ask(*hl), spec_best_ask(*pdx)),
            ),
            r.signals.total_bid_usd as int == notional_sum(r.bids@),
            r.signals.total_ask_usd as int == notional_sum(r.asks@),
            r.signals.liquidity_imbalance == spec_liquidity_imbalance(
                notional_sum(r.bids@),
                notional_sum(r.asks@),
            ),
    {
        let bids = merge_bids(&hl.bids, &hl.exchange, &pdx.bids, &pdx.exchange, depth);
        let asks = merge_asks(&hl.asks, &hl.exchange, &pdx.asks, &pdx.exchange, depth);
        let signals = compute_signals(hl, pdx, &bids, &asks);
        MergedBook { bids, asks, signals }
    }
}

// ─── Merge laws ─────────────────────────────────────────────────────────

/// Merging a sorted bid list with an empty side yields exactly that
/// list, depth-truncated and tagged with its own venue.
pub proof fn lemma_merge_empty_side_desc(a: Seq<Level>, ea: Exchange, eb: Exchange, depth: int)
    requires
        desc_by_price(a),
        depth >= 0,
    ensures
        merged_side_desc(a, ea, Seq::<Level>::empty(), eb, depth) == tag_levels(a, ea).take(
            if a.len() <= depth {
                a.len() as int
            } else {
                depth
            },
        ),
{
    let ta = tag_levels(a, ea);
    assert(ta + tag_levels(Seq::<Level>::empty(), eb) =~= ta);
    assert(merged_desc(ta));
    lemma_sort_desc_of_sorted(ta);
}

/// Merging a sorted ask list with an empty side yields exactly that
/// list, depth-truncated and tagged with its own venue.
pub proof fn lemma_merge_empty_side_asc(a: Seq<Level>, ea: Exchange, eb: Exchange, depth: int)
    requires
        asc_by_price(a),
        depth >= 0,
    ensures
        merged_side_asc(a, ea, Seq::<Level>::empty(), eb, depth) == tag_levels(a, ea).take(
            if a.len() <= depth {
                a.len() as int
            } else {
                depth
            },
        ),
{
    let ta = tag_levels(a, ea);
    assert(ta + tag_levels(Seq::<Level>::empty(), eb) =~= ta);
    assert(merged_asc(ta));
    lemma_sort_asc_of_sorted(ta);
}

} // verus!
