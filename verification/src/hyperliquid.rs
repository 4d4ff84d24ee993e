//! Full-replace venue: stateless reconciliation and its feed state
//! machine.
//!
//! Every book message from this venue carries the complete current book,
//! so the reconciler keeps no state between messages: it truncates each
//! incoming side to the top-N depth, normalizes the levels, and replaces
//! the published sides outright.  A message whose truncated sides are not
//! strictly price-ordered is treated as malformed and dropped, which
//! keeps the published book's ordering invariant.

use vstd::prelude::*;

use crate::fixed::fixed_of;
use crate::text::{contains_seq, contains_str, str_eq};
use crate::types::{
    asc_by_price, book_wf, desc_by_price, lemma_asc_from_adjacent, lemma_desc_from_adjacent,
    level_bounded, Exchange, Level, OrderBook, OutboundMsg, Subscription, WsBook, WsLevel,
    MAX_BOOK_DEPTH,
};

verus! {

/// The normalized level a wire level denotes.
pub open spec fn hl_level(l: WsLevel) -> Level {
    Level { price: fixed_of(l.px@), size: fixed_of(l.sz@), count: l.n }
}

/// One wire side truncated to `depth` and normalized; a side shorter than
/// `depth` is published exactly as received, without padding.
pub open spec fn hl_side(ls: Seq<WsLevel>, depth: int) -> Seq<Level> {
    ls.take(
        if ls.len() <= depth {
            ls.len() as int
        } else {
            depth
        },
    ).map(|i: int, l: WsLevel| hl_level(l))
}

/// The wire is trusted to send each side in price order; a message whose
/// truncated sides are not strictly ordered is malformed.
pub open spec fn hl_book_ok(b: WsBook, depth: int) -> bool {
    &&& desc_by_price(hl_side(b.levels.0@, depth))
    &&& asc_by_price(hl_side(b.levels.1@, depth))
}

/// A decoded inbound envelope: the channel name, and the book payload
/// when the frame carried one that decoded.
pub struct InboundEnvelope {
    pub channel: String,
    pub book: Option<WsBook>,
}

/// An envelope that carries a book update.
pub open spec fn is_book_frame(e: InboundEnvelope) -> bool {
    &&& e.channel@ == "l2Book"@
    &&& e.book is Some
}

/// One venue feed: just the published book — this venue's reconciler is
/// stateless.
pub struct HlFeed {
    pub book: OrderBook,
}

impl HlFeed {
    pub open spec fn wf(&self) -> bool {
        book_wf(self.book)
    }

    /// A fresh feed for one coin: empty book, not connected.
    pub fn new(coin: &str) -> (r: HlFeed)
        ensures
            r.wf(),
            r.book.exchange == Exchange::Hyperliquid,
            r.book.coin@ == coin@,
            r.book.bids@ == Seq::<Level>::empty(),
            r.book.asks@ == Seq::<Level>::empty(),
            r.book.last_update_ms == 0,
            r.book.connected == false,
            r.book.message_count == 0,
    {
        HlFeed { book: OrderBook::new(Exchange::Hyperliquid, coin) }
    }

    /// A fresh transport is up: mark the book live.  The published book
    /// keeps its last contents until the first new message arrives.
    pub fn on_connect(&mut self)
        requires
            old(self).wf(),
        ensures
            final(self).wf(),
            final(self).book.connected == true,
            final(self).book.exchange == old(self).book.exchange,
            final(self).book.coin == old(self).book.coin,
            final(self).book.bids == old(self).book.bids,
            final(self).book.asks == old(self).book.asks,
            final(self).book.last_update_ms == old(self).book.last_update_ms,
            final(self).book.message_count == old(self).book.message_count,
    {
        self.book.connected = true;
    }

    /// The transport failed or closed: mark the book stale.  Book
    /// contents stay as published until a fresh connection delivers new
    /// data.
    pub fn on_disconnect(&mut self)
        requires
            old(self).wf(),
        ensures
            final(self).wf(),
            final(self).book.connected == false,
            final(self).book.exchange == old(self).book.exchange,
            final(self).book.coin == old(self).book.coin,
            final(self).book.bids == old(self).book.bids,
            final(self).book.asks == old(self).book.asks,
            final(self).book.last_update_ms == old(self).book.last_update_ms,
            final(self).book.message_count == old(self).book.message_count,
    {
        self.book.connected = false;
    }

    /// Replace the published book with one full-replace message: each
    /// side truncated to the top-N depth and normalized.  A message whose
    /// sides are not price-ordered is dropped whole.
    pub fn apply_book(&mut self, msg: &WsBook) -> (applied: bool)
        requires
            old(self).wf(),
        ensures
            final(self).wf(),
            final(self).book.exchange == old(self).book.exchange,
            final(self).book.coin == old(self).book.coin,
            final(self).book.connected == old(self).book.connected,
            applied == hl_book_ok(*msg, MAX_BOOK_DEPTH as int),
            applied ==> final(self).book.bids@ == hl_side(msg.levels.0@, MAX_BOOK_DEPTH as int)
                && final(self).book.asks@ == hl_side(msg.levels.1@, MAX_BOOK_DEPTH as int)
                && final(self).book.last_update_ms == msg.time && final(self).book.message_count
                == (if old(self).book.message_count < u64::MAX {
                old(self).book.message_count + 1
            } else {
                u64::MAX as int
            }),
            !applied ==> *final(self) == *old(self),
    {
        let ghost gbids = hl_side(msg.levels.0@, MAX_BOOK_DEPTH as int);
        let ghost gasks = hl_side(msg.levels.1@, MAX_BOOK_DEPTH as int);
        let nb = if msg.levels.0.len() < MAX_BOOK_DEPTH {
            msg.levels.0.len()
        } else {
            MAX_BOOK_DEPTH
        };
        proof {
            assert(gbids.len() == nb);
        }
        let mut bids: Vec<Level> = Vec::new();
        let mut i: usize = 0;
        while i < nb
            invariant
                *self == *old(self),
                old(self).wf(),
                i <= nb <= msg.levels.0@.len(),
                gbids == hl_side(msg.levels.0@, MAX_BOOK_DEPTH as int),
                gbids.len() == nb,
                bids@.len() == i,
                forall|j: int| 0 <= j < i ==> #[trigger] bids@[j] == gbids[j],
                forall|j: int| 0 <= j < i ==> level_bounded(#[trigger] bids@[j]),
                forall|j: int| 0 < j < i ==> bids@[j - 1].price > (#[trigger] bids@[j]).price,
            decreases nb - i,
        {
            let l = Level::from_hl(&msg.levels.0[i]);
            proof {
                assert(gbids[i as int] == hl_level(msg.levels.0@[i as int]));
            }
            if i > 0 {
                let prev = bids[i - 1];
                if prev.price <= l.price {
                    proof {
                        assert(gbids[i - 1].price <= gbids[i as int].price);
                        assert(!desc_by_price(gbids));
                    }
                    return false;
                }
            }
            bids.push(l);
            i += 1;
        }
        let na = if msg.levels.1.len() < MAX_BOOK_DEPTH {
            msg.levels.1.len()
        } else {
            MAX_BOOK_DEPTH
        };
        proof {
            assert(gasks.len() == na);
        }
        let mut asks: Vec<Level> = Vec::new();
        let mut i: usize = 0;
        while i < na
            invariant
                *self == *old(self),
                old(self).wf(),
                i <= na <= msg.levels.1@.len(),
                gasks == hl_side(msg.levels.1@, MAX_BOOK_DEPTH as int),
                gasks.len() == na,
                asks@.len() == i,
                forall|j: int| 0 <= j < i ==> #[trigger] asks@[j] == gasks[j],
                forall|j: int| 0 <= j < i ==> level_bounded(#[trigger] asks@[j]),
                forall|j: int| 0 < j < i ==> asks@[j - 1].price < (#[trigger] asks@[j]).price,
            decreases na - i,
        {
            let l = Level::from_hl(&msg.levels.1[i]);
            proof {
                assert(gasks[i as int] == hl_level(msg.levels.1@[i as int]));
            }
            if i > 0 {
                let prev = asks[i - 1];
                if prev.price >= l.price {
                    proof {
                        assert(gasks[i - 1].price >= gasks[i as int].price);
                        assert(!asc_by_price(gasks));
                    }
                    return false;
                }
            }
            asks.push(l);
            i += 1;
        }
        proof {
            assert(bids@ =~= gbids);
            assert(asks@ =~= gasks);
            lemma_desc_from_adjacent(bids@);
            lemma_asc_from_adjacent(asks@);
        }
        self.book.bids = bids;
        self.book.asks = asks;
        self.book.last_update_ms = msg.time;
        if self.book.message_count < u64::MAX {
            self.book.message_count = self.book.message_count + 1;
        }
        true
    }

    /// Apply one decoded envelope.  Anything that is not a well-formed
    /// book frame — a frame that failed to decode (`None`), an
    /// acknowledgement, an unknown channel, an unordered book — leaves
    /// the state unchanged.
    pub fn handle_envelope(&mut self, env: Option<&InboundEnvelope>) -> (applied: bool)
        requires
            old(self).wf(),
        ensures
            final(self).wf(),
            match env {
                None => *final(self) == *old(self) && !applied,
                Some(e) => if is_book_frame(*e) && hl_book_ok(
                    e.book->Some_0,
                    MAX_BOOK_DEPTH as int,
                ) {
                    let b = e.book->Some_0;
                    &&& applied
                    &&& final(self).book.bids@ == hl_side(b.levels.0@, MAX_BOOK_DEPTH as int)
                    &&& final(self).book.asks@ == hl_side(b.levels.1@, MAX_BOOK_DEPTH as int)
                    &&& final(self).book.last_update_ms == b.time
                    &&& final(self).book.message_count == (if old(self).book.message_count
                        < u64::MAX {
                        old(self).book.message_count + 1
                    } else {
                        u64::MAX as int
                    })
                    &&& final(self).book.exchange == old(self).book.exchange
                    &&& final(self).book.coin == old(self).book.coin
                    &&& final(self).book.connected == old(self).book.connected
                } else {
                    *final(self) == *old(self) && !applied
                },
            },
    {
        let e = match env {
            Some(e) => e,
            None => {
                return false;
            },
        };
        if !str_eq(e.channel.as_str(), "l2Book") {
            return false;
        }
        let b = match &e.book {
            Some(b) => b,
            None => {
                return false;
            },
        };
        self.apply_book(b)
    }
}

/// The venue's keep-alive acknowledgement, detected by a literal
/// substring match rather than full parsing.
pub fn is_pong_frame(text: &str) -> (r: bool)
    ensures
        r == contains_seq(text@, "\"pong\""@),
{
    contains_str(text, "\"pong\"")
}

/// The subscribe request for a coin's book channel.
pub fn subscribe_l2(coin: &str) -> (r: OutboundMsg)
    ensures
        match r {
            OutboundMsg::Subscribe { subscription: Subscription::L2Book { coin: c } } => c@
                == coin@,
            _ => false,
        },
{
    OutboundMsg::Subscribe { subscription: Subscription::L2Book { coin: coin.to_owned() } }
}

/// The fixed keep-alive frame sent on the heartbeat interval.
pub fn ping_text() -> (r: String)
    ensures
        r@ == "{\"method\":\"ping\"}"@,
{
    String::from_str("{\"method\":\"ping\"}")
}

} // verus!
