use bookmerge::fixed::FRAC_SCALE;
use bookmerge::merger::{MergedBook, MergedLevel};
use bookmerge::types::{Exchange, Level, OrderBook};

fn level(price_units: u64, size_units: u64) -> Level {
    Level { price: price_units * FRAC_SCALE, size: size_units * FRAC_SCALE, count: 0 }
}

fn book(exchange: Exchange, bids: Vec<Level>, asks: Vec<Level>) -> OrderBook {
    OrderBook {
        exchange,
        coin: "BTC".to_string(),
        bids,
        asks,
        last_update_ms: 0,
        connected: true,
        message_count: 1,
    }
}

fn prices(levels: &[MergedLevel]) -> Vec<u64> {
    levels.iter().map(|l| l.price / FRAC_SCALE).collect()
}

#[test]
fn merge_interleaves_both_venues() {
    let hl = book(
        Exchange::Hyperliquid,
        vec![level(103, 1), level(101, 1)],
        vec![level(104, 1), level(106, 1)],
    );
    let pdx = book(
        Exchange::Paradex,
        vec![level(102, 2), level(100, 2)],
        vec![level(105, 2), level(107, 2)],
    );
    let m = MergedBook::build(&hl, &pdx, 10);
    assert_eq!(prices(&m.bids), vec![103, 102, 101, 100]);
    assert_eq!(prices(&m.asks), vec![104, 105, 106, 107]);
    assert_eq!(m.bids[0].exchange, Exchange::Hyperliquid);
    assert_eq!(m.bids[1].exchange, Exchange::Paradex);
}

#[test]
fn merge_truncates_to_depth() {
    let hl = book(
        Exchange::Hyperliquid,
        vec![level(109, 1), level(107, 1), level(105, 1)],
        vec![],
    );
    let pdx = book(
        Exchange::Paradex,
        vec![level(108, 1), level(106, 1), level(104, 1)],
        vec![],
    );
    let m = MergedBook::build(&hl, &pdx, 4);
    assert_eq!(prices(&m.bids), vec![109, 108, 107, 106]);
    assert!(m.asks.is_empty());
}

#[test]
fn equal_prices_keep_first_venue_first() {
    let hl = book(Exchange::Hyperliquid, vec![level(100, 1)], vec![level(101, 1)]);
    let pdx = book(Exchange::Paradex, vec![level(100, 2)], vec![level(101, 2)]);
    let m = MergedBook::build(&hl, &pdx, 10);
    assert_eq!(m.bids.len(), 2);
    assert_eq!(m.bids[0].exchange, Exchange::Hyperliquid);
    assert_eq!(m.bids[1].exchange, Exchange::Paradex);
    assert_eq!(m.asks[0].exchange, Exchange::Hyperliquid);
    assert_eq!(m.asks[1].exchange, Exchange::Paradex);
}

#[test]
fn one_sided_merge_is_the_other_venues_book() {
    let hl = book(
        Exchange::Hyperliquid,
        vec![level(103, 1), level(102, 1), level(101, 1)],
        vec![level(104, 1)],
    );
    let pdx = book(Exchange::Paradex, vec![], vec![]);
    let m = MergedBook::build(&hl, &pdx, 2);
    assert_eq!(prices(&m.bids), vec![103, 102]);
    assert_eq!(prices(&m.asks), vec![104]);
    assert!(m.bids.iter().all(|l| l.exchange == Exchange::Hyperliquid));
    assert!(m.asks.iter().all(|l| l.exchange == Exchange::Hyperliquid));
}

#[test]
fn crossed_venues_give_negative_spread() {
    let hl = book(Exchange::Hyperliquid, vec![level(100, 1)], vec![level(101, 1)]);
    let pdx = book(Exchange::Paradex, vec![level(102, 1)], vec![level(103, 1)]);
    let m = MergedBook::build(&hl, &pdx, 10);
    let s = &m.signals;
    // overall best bid 102 (second venue), best ask 101 (first venue)
    assert_eq!(s.cross_spread, Some(-(FRAC_SCALE as i64)));
    assert_eq!(s.best_bid_exchange, Some(Exchange::Paradex));
    assert_eq!(s.best_ask_exchange, Some(Exchange::Hyperliquid));
    let pct = s.cross_spread_pct.unwrap();
    // 200·(101 − 102) / (102 + 101), in ticks
    assert_eq!(pct.num, -200 * FRAC_SCALE as i128);
    assert_eq!(pct.den, 203 * FRAC_SCALE as i128);
}

#[test]
fn tied_quotes_go_to_the_first_venue() {
    let hl = book(Exchange::Hyperliquid, vec![level(100, 1)], vec![level(101, 1)]);
    let pdx = book(Exchange::Paradex, vec![level(100, 1)], vec![level(101, 1)]);
    let m = MergedBook::build(&hl, &pdx, 10);
    assert_eq!(m.signals.best_bid_exchange, Some(Exchange::Hyperliquid));
    assert_eq!(m.signals.best_ask_exchange, Some(Exchange::Hyperliquid));
}

#[test]
fn one_venue_missing_defers_attribution() {
    let hl = book(Exchange::Hyperliquid, vec![], vec![level(101, 1)]);
    let pdx = book(Exchange::Paradex, vec![level(100, 1)], vec![]);
    let m = MergedBook::build(&hl, &pdx, 10);
    assert_eq!(m.signals.best_bid_exchange, Some(Exchange::Paradex));
    assert_eq!(m.signals.best_ask_exchange, Some(Exchange::Hyperliquid));
    assert_eq!(m.signals.cross_spread, Some(FRAC_SCALE as i64));
}

#[test]
fn liquidity_imbalance_example() {
    // merged bid notional 300,000; ask notional 100,000
    let hl = book(
        Exchange::Hyperliquid,
        vec![Level { price: 100 * FRAC_SCALE, size: 3000 * FRAC_SCALE, count: 0 }],
        vec![Level { price: 100 * FRAC_SCALE, size: 1000 * FRAC_SCALE, count: 0 }],
    );
    let pdx = book(Exchange::Paradex, vec![], vec![]);
    let m = MergedBook::build(&hl, &pdx, 10);
    let s = &m.signals;
    let imb = s.liquidity_imbalance.unwrap();
    // (300000 − 100000) / 400000 = 0.5
    assert_eq!(2 * imb.num, imb.den);
    assert_eq!(imb.num as f64 / imb.den as f64, 0.5);
    assert_eq!(s.total_bid_usd, 3 * s.total_ask_usd);
    // the totals are exact notionals in squared ticks
    let tick2 = (FRAC_SCALE as u128) * (FRAC_SCALE as u128);
    assert_eq!(s.total_bid_usd, 300_000 * tick2);
    assert_eq!(s.total_ask_usd, 100_000 * tick2);
}

#[test]
fn empty_books_yield_no_signals() {
    let hl = book(Exchange::Hyperliquid, vec![], vec![]);
    let pdx = book(Exchange::Paradex, vec![], vec![]);
    let m = MergedBook::build(&hl, &pdx, 10);
    let s = &m.signals;
    assert_eq!(s.cross_spread, None);
    assert_eq!(s.cross_spread_pct, None);
    assert_eq!(s.best_bid_exchange, None);
    assert_eq!(s.best_ask_exchange, None);
    assert_eq!(s.liquidity_imbalance, None);
    assert_eq!(s.total_bid_usd, 0);
    assert_eq!(s.total_ask_usd, 0);
}

#[test]
fn spread_absent_when_one_side_is_empty_everywhere() {
    let hl = book(Exchange::Hyperliquid, vec![level(100, 1)], vec![]);
    let pdx = book(Exchange::Paradex, vec![level(99, 1)], vec![]);
    let m = MergedBook::build(&hl, &pdx, 10);
    assert_eq!(m.signals.cross_spread, None);
    assert_eq!(m.signals.cross_spread_pct, None);
    assert_eq!(m.signals.best_bid_exchange, Some(Exchange::Hyperliquid));
    assert_eq!(m.signals.best_ask_exchange, None);
    // imbalance still reflects the one-sided notional
    let imb = m.signals.liquidity_imbalance.unwrap();
    assert_eq!(imb.num, imb.den);
}
