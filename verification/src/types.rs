//! Shared data shapes: the two venues, wire-level messages, the normalized
//! price level and the per-venue order book.
//!
//! Wire messages carry prices and sizes as decimal text, exactly as
//! received; a normalized [`Level`] holds them as fixed-point ticks (see
//! [`crate::fixed`]).  A book side never exceeds [`MAX_BOOK_DEPTH`] levels
//! and is kept sorted by price: bids descending, asks ascending.

use vstd::prelude::*;

use crate::fixed::{fixed_of, parse_fixed, FIXED_MAX};

verus! {

/// Most levels a published book side may hold.
pub const MAX_BOOK_DEPTH: usize = 20;

/// The two venues.
#[derive(Clone, Copy, Debug, PartialEq, Eq, Structural)]
pub enum Exchange {
    Hyperliquid,
    Paradex,
}

impl Exchange {
    pub fn label(&self) -> (r: &'static str)
        ensures
            *self is Hyperliquid ==> r@ == "Hyperliquid"@,
            *self is Paradex ==> r@ == "Paradex"@,
    {
        match self {
            Exchange::Hyperliquid => "Hyperliquid",
            Exchange::Paradex => "Paradex",
        }
    }

    pub fn short(&self) -> (r: &'static str)
        ensures
            *self is Hyperliquid ==> r@ == "HL"@,
            *self is Paradex ==> r@ == "PDX"@,
    {
        match self {
            Exchange::Hyperliquid => "HL",
            Exchange::Paradex => "PDX",
        }
    }
}

// ─── First venue wire shapes (full-replace book channel) ────────────────

/// Outbound request on the full-replace venue's socket.
#[derive(Clone, Debug)]
pub enum OutboundMsg {
    Subscribe { subscription: Subscription },
    Unsubscribe { subscription: Subscription },
    Ping,
}

/// Channel selector inside a subscribe request.
#[derive(Clone, Debug)]
pub enum Subscription {
    L2Book { coin: String },
}

/// One price level as the full-replace venue sends it.
#[derive(Clone, Debug)]
pub struct WsLevel {
    pub px: String,
    pub sz: String,
    pub n: u32,
}

/// A full book message from the full-replace venue: complete level lists
/// for both sides, as of `time` (milliseconds).
#[derive(Debug)]
pub struct WsBook {
    pub coin: String,
    pub levels: (Vec<WsLevel>, Vec<WsLevel>),  // (bids, asks)
    pub time: u64,
}

// ─── Second venue wire shapes (snapshot + delta channel) ────────────────

/// One book entry from the snapshot+delta venue.
#[derive(Clone, Debug)]
pub struct PdxLevel {
    pub price: String,
    pub side: String,  // "BUY" | "SELL"
    pub size: String,
}

/// The data payload of a snapshot+delta subscription push.
#[derive(Clone, Debug)]
pub struct PdxBookData {
    pub inserts: Vec<PdxLevel>,
    pub deletes: Vec<PdxLevel>,
    pub updates: Vec<PdxLevel>,
    pub last_updated_at: u64,  // microseconds
    pub market: String,
    /// "s" = snapshot, "d" = delta
    pub update_type: String,
}

// ─── Normalized price level ─────────────────────────────────────────────

/// Canonical price level stored in [`OrderBook`]: price and size in
/// fixed-point ticks, and the venue-reported resting-order count (0 when
/// the venue does not report one).
#[derive(Clone, Copy, Debug, PartialEq, Eq, Structural)]
pub struct Level {
    pub price: u64,
    pub size: u64,
    pub count: u32,
}

/// Prices and sizes stay within the fixed-point range.
pub open spec fn level_bounded(l: Level) -> bool {
    l.price <= FIXED_MAX && l.size <= FIXED_MAX
}

pub open spec fn levels_bounded(s: Seq<Level>) -> bool {
    forall|i: int| 0 <= i < s.len() ==> level_bounded(#[trigger] s[i])
}

/// An exact fraction with positive denominator, for derived values that
/// are ratios of tick quantities.
#[derive(Clone, Copy, Debug, PartialEq, Eq, Structural)]
pub struct Ratio {
    pub num: i128,
    pub den: i128,
}

/// Strictly descending by price: the bid-side order.
pub open spec fn desc_by_price(s: Seq<Level>) -> bool {
    forall|i: int, j: int| 0 <= i < j < s.len() ==> s[i].price > s[j].price
}

/// Strictly ascending by price: the ask-side order.
pub open spec fn asc_by_price(s: Seq<Level>) -> bool {
    forall|i: int, j: int| 0 <= i < j < s.len() ==> s[i].price < s[j].price
}

impl Level {
    pub fn from_hl(l: &WsLevel) -> (r: Level)
        ensures
            r.price == fixed_of(l.px@),
            r.size == fixed_of(l.sz@),
            r.count == l.n,
            level_bounded(r),
    {
        Level { price: parse_fixed(l.px.as_str()), size: parse_fixed(l.sz.as_str()), count: l.n }
    }

    pub fn from_pdx(l: &PdxLevel) -> (r: Level)
        ensures
            r.price == fixed_of(l.price@),
            r.size == fixed_of(l.size@),
            r.count == 0,
            level_bounded(r),
    {
        Level { price: parse_fixed(l.price.as_str()), size: parse_fixed(l.size.as_str()), count: 0 }
    }
}

// ─── Normalized order book ──────────────────────────────────────────────

/// Per-venue normalized book state.
#[derive(Clone, Debug)]
pub struct OrderBook {
    pub exchange: Exchange,
    pub coin: String,
    pub bids: Vec<Level>,
    pub asks: Vec<Level>,
    pub last_update_ms: u64,
    pub connected: bool,
    pub message_count: u64,
}

/// The book invariant: both sides depth-bounded, sorted by price and
/// within the fixed-point range.
pub open spec fn book_wf(b: OrderBook) -> bool {
    &&& b.bids@.len() <= MAX_BOOK_DEPTH
    &&& b.asks@.len() <= MAX_BOOK_DEPTH
    &&& desc_by_price(b.bids@)
    &&& asc_by_price(b.asks@)
    &&& levels_bounded(b.bids@)
    &&& levels_bounded(b.asks@)
}

pub open spec fn spec_best_bid(b: OrderBook) -> Option<u64> {
    if b.bids@.len() > 0 {
        Some(b.bids@[0].price)
    } else {
        None
    }
}

pub open spec fn spec_best_ask(b: OrderBook) -> Option<u64> {
    if b.asks@.len() > 0 {
        Some(b.asks@[0].price)
    } else {
        None
    }
}

impl OrderBook {
    /// A fresh book: empty sides, not yet connected, no message applied.
    pub fn new(exchange: Exchange, coin: &str) -> (r: OrderBook)
        ensures
            r.exchange == exchange,
            r.coin@ == coin@,
            r.bids@ == Seq::<Level>::empty(),
            r.asks@ == Seq::<Level>::empty(),
            r.last_update_ms == 0,
            r.connected == false,
            r.message_count == 0,
            book_wf(r),
    {
        OrderBook {
            exchange,
            coin: coin.to_owned(),
            bids: Vec::new(),
            asks: Vec::new(),
            last_update_ms: 0,
            connected: false,
            message_count: 0,
        }
    }

    /// Top-of-book bid price, when any bid rests.
    pub fn best_bid(&self) -> (r: Option<u64>)
        ensures
            r == spec_best_bid(*self),
    {
        if self.bids.len() > 0 {
            Some(self.bids[0].price)
        } else {
            None
        }
    }

    /// Top-of-book ask price, when any ask rests.
    pub fn best_ask(&self) -> (r: Option<u64>)
        ensures
            r == spec_best_ask(*self),
    {
        if self.asks.len() > 0 {
            Some(self.asks[0].price)
        } else {
            None
        }
    }

    /// Midpoint of the best quotes, in ticks, rounded down.
    pub fn mid(&self) -> (r: Option<u64>)
        requires
            book_wf(*self),
        ensures
            match (spec_best_bid(*self), spec_best_ask(*self)) {
                (Some(b), Some(a)) => r == Some(((b + a) / 2) as u64),
                _ => r is None,
            },
    {
        match (self.best_bid(), self.best_ask()) {
            (Some(b), Some(a)) => Some((b + a) / 2),
            _ => None,
        }
    }

    /// Best ask minus best bid, in ticks; negative when the book crosses.
    pub fn spread(&self) -> (r: Option<i64>)
        requires
            book_wf(*self),
        ensures
            match (spec_best_bid(*self), spec_best_ask(*self)) {
                (Some(b), Some(a)) => r == Some((a - b) as i64),
                _ => r is None,
            },
    {
        match (self.best_bid(), self.best_ask()) {
            (Some(b), Some(a)) => Some(a as i64 - b as i64),
            _ => None,
        }
    }

    /// Spread over mid price as an exact fraction of one percent:
    /// 200·(ask − bid) / (ask + bid); absent unless both quotes exist and
    /// the mid price is positive.
    pub fn spread_pct(&self) -> (r: Option<Ratio>)
        requires
            book_wf(*self),
        ensures
            match (spec_best_bid(*self), spec_best_ask(*self)) {
                (Some(b), Some(a)) => if b + a > 0 {
                    r == Some(
                        Ratio { num: (200 * ((a as int) - (b as int))) as i128, den: (b + a) as i128 },
                    )
                } else {
                    r is None
                },
                _ => r is None,
            },
    {
        match (self.best_bid(), self.best_ask()) {
            (Some(b), Some(a)) => {
                if (b as u128) + (a as u128) > 0 {
                    Some(Ratio { num: 200 * (a as i128 - b as i128), den: b as i128 + a as i128 })
                } else {
                    None
                }
            },
            _ => None,
        }
    }

    /// Runtime check of the book invariant, for callers outside the
    /// verified world.
    pub fn check_wf(&self) -> (r: bool)
        ensures
            r == book_wf(*self),
    {
        if self.bids.len() > MAX_BOOK_DEPTH || self.asks.len() > MAX_BOOK_DEPTH {
            return false;
        }
        let mut i: usize = 0;
        while i < self.bids.len()
            invariant
                i <= self.bids@.len(),
                forall|k: int| 0 <= k < i ==> level_bounded(#[trigger] self.bids@[k]),
                forall|k: int| 0 < k < i ==> self.bids@[k - 1].price > (#[trigger] self.bids@[k]).price,
            decreases self.bids@.len() - i,
        {
            let l = self.bids[i];
            if l.price > FIXED_MAX || l.size > FIXED_MAX {
                return false;
            }
            if i > 0 && self.bids[i - 1].price <= l.price {
                return false;
            }
            i += 1;
        }
        let mut i: usize = 0;
        while i < self.asks.len()
            invariant
                i <= self.asks@.len(),
                forall|k: int| 0 <= k < i ==> level_bounded(#[trigger] self.asks@[k]),
                forall|k: int| 0 < k < i ==> self.asks@[k - 1].price < (#[trigger] self.asks@[k]).price,
            decreases self.asks@.len() - i,
        {
            let l = self.asks[i];
            if l.price > FIXED_MAX || l.size > FIXED_MAX {
                return false;
            }
            if i > 0 && self.asks[i - 1].price >= l.price {
                return false;
            }
            i += 1;
        }
        proof {
            lemma_desc_from_adjacent(self.bids@);
            lemma_asc_from_adjacent(self.asks@);
        }
        true
    }
}

/// Adjacent strict descent gives strict descent between any two indices.
pub proof fn lemma_desc_from_adjacent(s: Seq<Level>)
    requires
        forall|k: int| 0 < k < s.len() ==> s[k - 1].price > (#[trigger] s[k]).price,
    ensures
        desc_by_price(s),
{
    assert forall|i: int, j: int| 0 <= i < j < s.len() implies s[i].price > s[j].price by {
        lemma_desc_pair(s, i, j);
    }
}

proof fn lemma_desc_pair(s: Seq<Level>, i: int, j: int)
    requires
        forall|k: int| 0 < k < s.len() ==> s[k - 1].price > (#[trigger] s[k]).price,
        0 <= i < j < s.len(),
    ensures
        s[i].price > s[j].price,
    decreases j - i,
{
    if i + 1 < j {
        lemma_desc_pair(s, i + 1, j);
    }
}

/// Adjacent strict ascent gives strict ascent between any two indices.
pub proof fn lemma_asc_from_adjacent(s: Seq<Level>)
    requires
        forall|k: int| 0 < k < s.len() ==> s[k - 1].price < (#[trigger] s[k]).price,
    ensures
        asc_by_price(s),
{
    assert forall|i: int, j: int| 0 <= i < j < s.len() implies s[i].price < s[j].price by {
        lemma_asc_pair(s, i, j);
    }
}

proof fn lemma_asc_pair(s: Seq<Level>, i: int, j: int)
    requires
        forall|k: int| 0 < k < s.len() ==> s[k - 1].price < (#[trigger] s[k]).price,
        0 <= i < j < s.len(),
    ensures
        s[i].price < s[j].price,
    decreases j - i,
{
    if i + 1 < j {
        lemma_asc_pair(s, i + 1, j);
    }
}

} // verus!
