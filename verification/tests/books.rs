use bookmerge::fixed::FRAC_SCALE;
use bookmerge::hyperliquid::{is_pong_frame, ping_text, subscribe_l2, HlFeed, InboundEnvelope};
use bookmerge::types::{Exchange, Level, OrderBook, OutboundMsg, Subscription, WsBook, WsLevel};

fn ws_level(px: &str, sz: &str, n: u32) -> WsLevel {
    WsLevel { px: px.to_string(), sz: sz.to_string(), n }
}

fn ws_book(bids: Vec<WsLevel>, asks: Vec<WsLevel>, time: u64) -> WsBook {
    WsBook { coin: "BTC".to_string(), levels: (bids, asks), time }
}

#[test]
fn new_book_is_empty_and_offline() {
    let b = OrderBook::new(Exchange::Hyperliquid, "BTC");
    assert_eq!(b.coin, "BTC");
    assert!(b.bids.is_empty());
    assert!(b.asks.is_empty());
    assert!(!b.connected);
    assert_eq!(b.message_count, 0);
    assert_eq!(b.last_update_ms, 0);
    assert_eq!(b.best_bid(), None);
    assert_eq!(b.best_ask(), None);
    assert_eq!(b.mid(), None);
    assert_eq!(b.spread(), None);
    assert_eq!(b.spread_pct(), None);
    assert!(b.check_wf());
}

#[test]
fn exchange_labels() {
    assert_eq!(Exchange::Hyperliquid.label(), "Hyperliquid");
    assert_eq!(Exchange::Paradex.label(), "Paradex");
    assert_eq!(Exchange::Hyperliquid.short(), "HL");
    assert_eq!(Exchange::Paradex.short(), "PDX");
}

#[test]
fn level_conversion_parses_text() {
    let l = Level::from_hl(&ws_level("100.5", "2", 3));
    assert_eq!(l.price, 100 * FRAC_SCALE + 50_000_000);
    assert_eq!(l.size, 2 * FRAC_SCALE);
    assert_eq!(l.count, 3);

    let p = Level::from_pdx(&bookmerge::types::PdxLevel {
        price: "99".to_string(),
        side: "BUY".to_string(),
        size: "0.25".to_string(),
    });
    assert_eq!(p.price, 99 * FRAC_SCALE);
    assert_eq!(p.size, 25_000_000);
    assert_eq!(p.count, 0);
}

#[test]
fn full_replace_overwrites_book() {
    let mut feed = HlFeed::new("BTC");
    feed.on_connect();
    assert!(feed.book.connected);

    let msg = ws_book(
        vec![ws_level("101", "1", 2), ws_level("100", "2", 1)],
        vec![ws_level("102", "1", 1), ws_level("103", "5", 4)],
        1_700_000_000_000,
    );
    assert!(feed.apply_book(&msg));
    assert_eq!(feed.book.bids.len(), 2);
    assert_eq!(feed.book.bids[0].price, 101 * FRAC_SCALE);
    assert_eq!(feed.book.bids[1].price, 100 * FRAC_SCALE);
    assert_eq!(feed.book.asks[0].price, 102 * FRAC_SCALE);
    assert_eq!(feed.book.asks[1].count, 4);
    assert_eq!(feed.book.last_update_ms, 1_700_000_000_000);
    assert_eq!(feed.book.message_count, 1);

    // the next message replaces everything, shorter sides are not padded
    let msg2 = ws_book(vec![ws_level("99", "1", 1)], vec![], 1_700_000_000_500);
    assert!(feed.apply_book(&msg2));
    assert_eq!(feed.book.bids.len(), 1);
    assert_eq!(feed.book.bids[0].price, 99 * FRAC_SCALE);
    assert!(feed.book.asks.is_empty());
    assert_eq!(feed.book.message_count, 2);
}

#[test]
fn full_replace_truncates_to_depth() {
    let mut feed = HlFeed::new("BTC");
    feed.on_connect();
    let mut bids = Vec::new();
    for i in 0..25u32 {
        bids.push(ws_level(&format!("{}", 1000 - i), "1", 1));
    }
    let msg = ws_book(bids, vec![], 7);
    assert!(feed.apply_book(&msg));
    assert_eq!(feed.book.bids.len(), 20);
    assert_eq!(feed.book.bids[0].price, 1000 * FRAC_SCALE);
    assert_eq!(feed.book.bids[19].price, 981 * FRAC_SCALE);
}

#[test]
fn unordered_message_is_dropped_whole() {
    let mut feed = HlFeed::new("BTC");
    feed.on_connect();
    let good = ws_book(vec![ws_level("101", "1", 1)], vec![], 1);
    assert!(feed.apply_book(&good));
    let before_bids = feed.book.bids.clone();

    // bids must be strictly descending; this one ascends
    let bad = ws_book(vec![ws_level("100", "1", 1), ws_level("101", "1", 1)], vec![], 2);
    assert!(!feed.apply_book(&bad));
    assert_eq!(feed.book.message_count, 1);
    assert_eq!(feed.book.bids.len(), before_bids.len());
    assert_eq!(feed.book.bids[0], before_bids[0]);
    assert_eq!(feed.book.last_update_ms, 1);
}

#[test]
fn malformed_envelope_changes_nothing() {
    let mut feed = HlFeed::new("BTC");
    feed.on_connect();
    let msg = ws_book(vec![ws_level("101", "1", 1)], vec![ws_level("102", "1", 1)], 5);
    let env = InboundEnvelope { channel: "l2Book".to_string(), book: Some(msg) };
    assert!(feed.handle_envelope(Some(&env)));
    assert_eq!(feed.book.message_count, 1);

    // an undecodable frame must not touch the book or its counter
    assert!(!feed.handle_envelope(None));
    assert_eq!(feed.book.message_count, 1);
    assert_eq!(feed.book.bids[0].price, 101 * FRAC_SCALE);

    // an acknowledgement is ignored
    let ack = InboundEnvelope { channel: "subscriptionResponse".to_string(), book: None };
    assert!(!feed.handle_envelope(Some(&ack)));
    assert_eq!(feed.book.message_count, 1);
}

#[test]
fn reconnect_keeps_stale_book() {
    let mut feed = HlFeed::new("BTC");
    feed.on_connect();
    let msg = ws_book(vec![ws_level("101", "1", 1)], vec![ws_level("102", "1", 1)], 5);
    assert!(feed.apply_book(&msg));

    feed.on_disconnect();
    assert!(!feed.book.connected);
    assert_eq!(feed.book.bids[0].price, 101 * FRAC_SCALE);
    assert_eq!(feed.book.message_count, 1);

    feed.on_connect();
    assert!(feed.book.connected);
    // stale-but-present until the first fresh update
    assert_eq!(feed.book.bids[0].price, 101 * FRAC_SCALE);

    let msg2 = ws_book(vec![ws_level("105", "1", 1)], vec![], 9);
    assert!(feed.apply_book(&msg2));
    assert_eq!(feed.book.bids[0].price, 105 * FRAC_SCALE);
}

#[test]
fn getters_on_populated_book() {
    let mut feed = HlFeed::new("BTC");
    feed.on_connect();
    let msg = ws_book(vec![ws_level("100", "1", 1)], vec![ws_level("101", "1", 1)], 5);
    assert!(feed.apply_book(&msg));
    let b = &feed.book;
    assert_eq!(b.best_bid(), Some(100 * FRAC_SCALE));
    assert_eq!(b.best_ask(), Some(101 * FRAC_SCALE));
    assert_eq!(b.mid(), Some(100 * FRAC_SCALE + 50_000_000));
    assert_eq!(b.spread(), Some(FRAC_SCALE as i64));
    let pct = b.spread_pct().unwrap();
    assert_eq!(pct.num, 200 * FRAC_SCALE as i128);
    assert_eq!(pct.den, 201 * FRAC_SCALE as i128);
    assert!(b.check_wf());
}

#[test]
fn pong_frames_are_recognized() {
    assert!(is_pong_frame(r#"{"channel":"pong"}"#));
    assert!(!is_pong_frame(r#"{"channel":"l2Book","data":{}}"#));
    assert!(!is_pong_frame("pong"));
}

#[test]
fn outbound_messages() {
    assert_eq!(ping_text(), r#"{"method":"ping"}"#);
    match subscribe_l2("BTC") {
        OutboundMsg::Subscribe { subscription: Subscription::L2Book { coin } } => {
            assert_eq!(coin, "BTC");
        }
        _ => panic!("expected a subscribe request"),
    }
}

#[test]
fn unparsable_level_text_degrades_to_zero() {
    // a full-replace message with one unparsable price keeps the level,
    // priced at zero, rather than dropping the message
    let mut feed = HlFeed::new("BTC");
    feed.on_connect();
    let msg = ws_book(vec![ws_level("100", "1", 1), ws_level("junk", "2", 1)], vec![], 3);
    assert!(feed.apply_book(&msg));
    assert_eq!(feed.book.bids.len(), 2);
    assert_eq!(feed.book.bids[1].price, 0);
    assert_eq!(feed.book.bids[1].size, 2 * FRAC_SCALE);

    // two unparsable prices collide at zero and break the strict order,
    // so that message is treated as malformed
    let msg2 = ws_book(vec![ws_level("x", "1", 1), ws_level("y", "1", 1)], vec![], 4);
    assert!(!feed.apply_book(&msg2));
    assert_eq!(feed.book.message_count, 1);
}
