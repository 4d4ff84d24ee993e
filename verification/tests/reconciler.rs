use bookmerge::fixed::FRAC_SCALE;
use bookmerge::paradex::{pdx_book_channel, LocalBook, PdxFeed, RpcFrame};
use bookmerge::types::{PdxBookData, PdxLevel};

fn entry(price: &str, side: &str, size: &str) -> PdxLevel {
    PdxLevel { price: price.to_string(), side: side.to_string(), size: size.to_string() }
}

fn data(
    update_type: &str,
    inserts: Vec<PdxLevel>,
    deletes: Vec<PdxLevel>,
    updates: Vec<PdxLevel>,
    at_us: u64,
) -> PdxBookData {
    PdxBookData {
        inserts,
        deletes,
        updates,
        last_updated_at: at_us,
        market: "BTC-USD-PERP".to_string(),
        update_type: update_type.to_string(),
    }
}

fn book_frame(d: PdxBookData) -> RpcFrame {
    RpcFrame {
        has_error: false,
        has_result: false,
        method: Some("subscription".to_string()),
        data: Some(d),
    }
}

#[test]
fn snapshot_builds_sorted_sides() {
    let mut lb = LocalBook::new();
    lb.apply_snapshot(&data(
        "s",
        vec![
            entry("100", "BUY", "1"),
            entry("102", "BUY", "2"),
            entry("101", "BUY", "3"),
            entry("103", "SELL", "4"),
            entry("105", "SELL", "5"),
            entry("104", "SELL", "6"),
        ],
        vec![],
        vec![],
        1,
    ));
    let (bids, asks) = lb.to_levels(20);
    let bid_prices: Vec<u64> = bids.iter().map(|l| l.price / FRAC_SCALE).collect();
    let ask_prices: Vec<u64> = asks.iter().map(|l| l.price / FRAC_SCALE).collect();
    assert_eq!(bid_prices, vec![102, 101, 100]);
    assert_eq!(ask_prices, vec![103, 104, 105]);
    assert_eq!(bids[0].size, 2 * FRAC_SCALE);
    assert!(bids.iter().all(|l| l.count == 0));
}

#[test]
fn delta_sequences_keep_sides_sorted_and_bounded() {
    let mut lb = LocalBook::new();
    let mut inserts = Vec::new();
    for i in 0..30u32 {
        inserts.push(entry(&format!("{}", 1000 + i), "BUY", "1"));
        inserts.push(entry(&format!("{}", 2000 + i), "SELL", "1"));
    }
    lb.apply_snapshot(&data("s", inserts, vec![], vec![], 1));
    // a few deltas: inserts, deletes, updates mixed
    lb.apply_delta(&data(
        "d",
        vec![entry("1500", "BUY", "9"), entry("1999", "SELL", "9")],
        vec![entry("1029", "BUY", "0"), entry("2000", "SELL", "0")],
        vec![entry("1000", "BUY", "7")],
        2,
    ));
    lb.apply_delta(&data(
        "d",
        vec![entry("999.5", "BUY", "1")],
        vec![entry("1500", "BUY", "0")],
        vec![],
        3,
    ));
    let (bids, asks) = lb.to_levels(20);
    assert_eq!(bids.len(), 20);
    assert_eq!(asks.len(), 20);
    for w in bids.windows(2) {
        assert!(w[0].price > w[1].price);
    }
    for w in asks.windows(2) {
        assert!(w[0].price < w[1].price);
    }
    // the deleted top ask is gone, the inserted one leads
    assert_eq!(asks[0].price, 1999 * FRAC_SCALE);
    // the best 20 bids of 1000..=1029 minus the deleted 1029
    assert_eq!(bids[0].price, 1028 * FRAC_SCALE);
}

#[test]
fn delete_update_insert_order_lets_insert_win() {
    let mut lb = LocalBook::new();
    lb.apply_snapshot(&data("s", vec![entry("100", "BUY", "1")], vec![], vec![], 1));
    // one delta that deletes, updates and inserts the same price
    lb.apply_delta(&data(
        "d",
        vec![entry("100", "BUY", "5")],   // insert: size 5
        vec![entry("100", "BUY", "0")],   // delete
        vec![entry("100", "BUY", "3")],   // update: size 3
        2,
    ));
    let (bids, _) = lb.to_levels(20);
    assert_eq!(bids.len(), 1);
    assert_eq!(bids[0].size, 5 * FRAC_SCALE);
}

#[test]
fn snapshot_discards_all_prior_state() {
    let mut lb = LocalBook::new();
    lb.apply_snapshot(&data(
        "s",
        vec![entry("100", "BUY", "1"), entry("101", "SELL", "1")],
        vec![],
        vec![],
        1,
    ));
    lb.apply_snapshot(&data(
        "s",
        vec![entry("200", "BUY", "2"), entry("201", "SELL", "2")],
        vec![],
        vec![],
        2,
    ));
    let (bids, asks) = lb.to_levels(20);
    assert_eq!(bids.len(), 1);
    assert_eq!(asks.len(), 1);
    assert_eq!(bids[0].price, 200 * FRAC_SCALE);
    assert_eq!(asks[0].price, 201 * FRAC_SCALE);
}

#[test]
fn deleting_an_absent_price_is_a_no_op() {
    let mut lb = LocalBook::new();
    lb.apply_snapshot(&data("s", vec![entry("100", "BUY", "1")], vec![], vec![], 1));
    lb.apply_delta(&data("d", vec![], vec![entry("555", "BUY", "0")], vec![], 2));
    let (bids, _) = lb.to_levels(20);
    assert_eq!(bids.len(), 1);
    assert_eq!(bids[0].price, 100 * FRAC_SCALE);
}

#[test]
fn feed_applies_book_pushes() {
    let mut feed = PdxFeed::new("BTC-USD-PERP");
    feed.on_connect();
    assert!(feed.book.connected);
    let applied = feed.handle_frame(Some(&book_frame(data(
        "s",
        vec![entry("100", "BUY", "1"), entry("101", "SELL", "2")],
        vec![],
        vec![],
        1_700_000_000_123_456,
    ))));
    assert!(applied);
    assert_eq!(feed.book.bids[0].price, 100 * FRAC_SCALE);
    assert_eq!(feed.book.asks[0].price, 101 * FRAC_SCALE);
    // the venue stamps microseconds; the book keeps milliseconds
    assert_eq!(feed.book.last_update_ms, 1_700_000_000_123);
    assert_eq!(feed.book.message_count, 1);
    assert_eq!(feed.book.bids[0].count, 0);
}

#[test]
fn non_book_frames_change_nothing() {
    let mut feed = PdxFeed::new("BTC-USD-PERP");
    feed.on_connect();
    assert!(feed.handle_frame(Some(&book_frame(data(
        "s",
        vec![entry("100", "BUY", "1")],
        vec![],
        vec![],
        1_000_000,
    )))));
    assert_eq!(feed.book.message_count, 1);

    // a frame that failed to decode
    assert!(!feed.handle_frame(None));
    // an error report
    assert!(!feed.handle_frame(Some(&RpcFrame {
        has_error: true,
        has_result: false,
        method: None,
        data: None,
    })));
    // a request acknowledgement
    assert!(!feed.handle_frame(Some(&RpcFrame {
        has_error: false,
        has_result: true,
        method: None,
        data: None,
    })));
    // an unknown update type
    assert!(!feed.handle_frame(Some(&book_frame(data(
        "x",
        vec![entry("999", "BUY", "1")],
        vec![],
        vec![],
        2_000_000,
    )))));
    // an unknown method
    assert!(!feed.handle_frame(Some(&RpcFrame {
        has_error: false,
        has_result: false,
        method: Some("ping".to_string()),
        data: None,
    })));

    assert_eq!(feed.book.message_count, 1);
    assert_eq!(feed.book.bids.len(), 1);
    assert_eq!(feed.book.bids[0].price, 100 * FRAC_SCALE);
    assert_eq!(feed.book.last_update_ms, 1_000);
}

#[test]
fn reconnect_resets_local_state_but_keeps_book() {
    let mut feed = PdxFeed::new("BTC-USD-PERP");
    feed.on_connect();
    assert!(feed.handle_frame(Some(&book_frame(data(
        "s",
        vec![entry("100", "BUY", "1")],
        vec![],
        vec![],
        1_000,
    )))));
    feed.on_disconnect();
    assert!(!feed.book.connected);
    assert_eq!(feed.book.bids[0].price, 100 * FRAC_SCALE);

    feed.on_connect();
    assert!(feed.book.connected);
    // published book is stale-but-present
    assert_eq!(feed.book.bids[0].price, 100 * FRAC_SCALE);

    // the reconciliation state was rebuilt from nothing: a delta now
    // edits an empty book, so only its own insert appears
    assert!(feed.handle_frame(Some(&book_frame(data(
        "d",
        vec![entry("200", "BUY", "2")],
        vec![],
        vec![],
        2_000,
    )))));
    assert_eq!(feed.book.bids.len(), 1);
    assert_eq!(feed.book.bids[0].price, 200 * FRAC_SCALE);
}

#[test]
fn sizes_replace_on_upsert() {
    let mut lb = LocalBook::new();
    lb.apply_snapshot(&data("s", vec![entry("100", "BUY", "1")], vec![], vec![], 1));
    lb.apply_delta(&data("d", vec![], vec![], vec![entry("100", "BUY", "8")], 2));
    let (bids, _) = lb.to_levels(20);
    assert_eq!(bids.len(), 1);
    assert_eq!(bids[0].size, 8 * FRAC_SCALE);
}

#[test]
fn channel_name_is_parameterized_by_market() {
    assert_eq!(pdx_book_channel("BTC-USD-PERP"), "order_book.BTC-USD-PERP.snapshot@15@100ms");
    assert_eq!(pdx_book_channel("ETH-USD-PERP"), "order_book.ETH-USD-PERP.snapshot@15@100ms");
}

#[test]
fn unparsable_price_text_degrades_to_a_zero_level() {
    // an unparsable price or size denotes zero rather than rejecting the
    // whole message, which can surface as a phantom zero row
    let mut lb = LocalBook::new();
    lb.apply_snapshot(&data(
        "s",
        vec![entry("100", "BUY", "1"), entry("garbage", "BUY", "2")],
        vec![],
        vec![],
        1,
    ));
    let (bids, _) = lb.to_levels(20);
    assert_eq!(bids.len(), 2);
    assert_eq!(bids[0].price, 100 * FRAC_SCALE);
    assert_eq!(bids[1].price, 0);
    assert_eq!(bids[1].size, 2 * FRAC_SCALE);

    // an unparsable size likewise becomes zero on an otherwise good level
    lb.apply_delta(&data("d", vec![], vec![], vec![entry("100", "BUY", "oops")], 2));
    let (bids, _) = lb.to_levels(20);
    assert_eq!(bids[0].price, 100 * FRAC_SCALE);
    assert_eq!(bids[0].size, 0);
}
