use flash_arb::aggregator::PriceAggregator;
use flash_arb::detector::{ArbitrageDetector, ArbitrageOpportunity, MAX_DATA_AGE_MS};
use flash_arb::exchanges::{Exchange, MarketBook};

const USD: u64 = 100_000_000;
const NOW: u64 = 1_700_000_000_000;

fn book(bid: u64, ask: u64, bid_size: u64, ask_size: u64, timestamp: u64) -> MarketBook {
    MarketBook { bid, ask, bid_size, ask_size, timestamp }
}

fn btc_books(ts_a: u64, ts_b: u64) -> Vec<(String, Vec<(Exchange, MarketBook)>)> {
    vec![(
        "BTC-USDT".to_string(),
        vec![
            (Exchange::Binance, book(100 * USD, 10_010_000_000, 5 * USD, 5 * USD, ts_a)),
            (Exchange::Bybit, book(10_050_000_000, 10_060_000_000, 5 * USD, 5 * USD, ts_b)),
        ],
    )]
}

fn detector() -> ArbitrageDetector {
    ArbitrageDetector::new(PriceAggregator::new())
}

fn same(a: &ArbitrageOpportunity, b: &ArbitrageOpportunity) -> bool {
    a.symbol == b.symbol
        && a.buy_exchange == b.buy_exchange
        && a.sell_exchange == b.sell_exchange
        && a.buy_price == b.buy_price
        && a.sell_price == b.sell_price
        && a.spread_ppm == b.spread_ppm
        && a.total_fees_ppm == b.total_fees_ppm
        && a.net_profit_ppm == b.net_profit_ppm
        && a.net_profit_usd == b.net_profit_usd
        && a.max_tradeable_qty == b.max_tradeable_qty
        && a.max_tradeable_usd == b.max_tradeable_usd
        && a.liquidity_bottleneck == b.liquidity_bottleneck
        && a.data_age_ms == b.data_age_ms
        && a.timestamp == b.timestamp
        && a.created_at == b.created_at
}

#[test]
fn fresh_cross_gives_one_opportunity() {
    let r = detector().scan_snapshot(&btc_books(NOW, NOW), NOW);
    assert_eq!(r.len(), 1);
    let o = &r[0];
    assert_eq!(o.symbol, "BTC-USDT");
    assert_eq!(o.buy_exchange, Exchange::Binance);
    assert_eq!(o.buy_price, 10_010_000_000);
    assert_eq!(o.sell_exchange, Exchange::Bybit);
    assert_eq!(o.sell_price, 10_050_000_000);
    assert_eq!(o.max_tradeable_qty, 5 * USD);
    assert_eq!(o.max_tradeable_usd, 50_050_000_000);
    // cost 500.75025, revenue 502.1985 after 0.05% and 0.06% taker fees
    assert_eq!(o.net_profit_usd, 144_825_000);
    assert_eq!(o.net_profit_ppm, 2892);
    assert_eq!(o.spread_ppm, 3996);
    assert_eq!(o.total_fees_ppm, 1100);
    assert_eq!(o.liquidity_bottleneck, Exchange::Bybit);
    assert_eq!(o.data_age_ms, 0);
    assert_eq!(o.timestamp, NOW);
    assert_eq!(o.created_at, NOW);
}

#[test]
fn stale_quote_gives_nothing() {
    let r = detector().scan_snapshot(&btc_books(NOW, NOW - 10_000), NOW);
    assert!(r.is_empty());
}

#[test]
fn staleness_bound_is_inclusive() {
    let r = detector().scan_snapshot(&btc_books(NOW, NOW - MAX_DATA_AGE_MS), NOW);
    assert_eq!(r.len(), 1);
    assert_eq!(r[0].data_age_ms, MAX_DATA_AGE_MS);
    let r = detector().scan_snapshot(&btc_books(NOW - MAX_DATA_AGE_MS - 1, NOW), NOW);
    assert!(r.is_empty());
}

#[test]
fn future_timestamp_counts_as_fresh() {
    let r = detector().scan_snapshot(&btc_books(NOW + 50, NOW), NOW);
    assert_eq!(r.len(), 1);
    assert_eq!(r[0].data_age_ms, 0);
}

#[test]
fn thin_liquidity_is_excluded() {
    // 0.05 units at 100 USD: 5 USD of liquidity, under the 10 USD floor
    let snap = vec![(
        "BTC-USDT".to_string(),
        vec![
            (Exchange::Binance, book(100 * USD, 100 * USD, 5_000_000, 5_000_000, NOW)),
            (Exchange::Bybit, book(110 * USD, 111 * USD, 5_000_000, 5_000_000, NOW)),
        ],
    )];
    assert!(detector().scan_snapshot(&snap, NOW).is_empty());
}

#[test]
fn fees_can_erase_a_spread() {
    // 0.05% spread against 0.11% of taker fees
    let snap = vec![(
        "ETH-USDT".to_string(),
        vec![
            (Exchange::Binance, book(2000 * USD, 2000 * USD, USD, USD, NOW)),
            (Exchange::Bybit, book(200_100_000_000, 200_200_000_000, USD, USD, NOW)),
        ],
    )];
    assert!(detector().scan_snapshot(&snap, NOW).is_empty());
}

#[test]
fn single_venue_and_empty_snapshot_give_nothing() {
    let d = detector();
    assert!(d.scan_snapshot(&Vec::new(), NOW).is_empty());
    let snap = vec![(
        "SOL-USDT".to_string(),
        vec![(Exchange::Binance, book(110 * USD, 100 * USD, USD, USD, NOW))],
    )];
    assert!(d.scan_snapshot(&snap, NOW).is_empty());
}

fn multi_symbol_snapshot() -> Vec<(String, Vec<(Exchange, MarketBook)>)> {
    vec![
        (
            "SOL-USDT".to_string(),
            vec![
                (Exchange::Hyperliquid, book(150 * USD, 150 * USD, 10 * USD, 10 * USD, NOW)),
                (Exchange::Extended, book(152 * USD, 153 * USD, 10 * USD, 10 * USD, NOW)),
            ],
        ),
        (
            "ETH-USDT".to_string(),
            vec![
                (Exchange::Binance, book(2000 * USD, 2000 * USD, USD, USD, NOW)),
                (Exchange::Bybit, book(2030 * USD, 2031 * USD, USD, USD, NOW)),
                (Exchange::Hyperliquid, book(2010 * USD, 2011 * USD, USD, USD, NOW)),
            ],
        ),
    ]
}

#[test]
fn opportunities_are_sound_and_ranked() {
    let r = detector().scan_snapshot(&multi_symbol_snapshot(), NOW);
    assert!(r.len() >= 3);
    for o in &r {
        assert!(o.buy_price < o.sell_price);
        assert!(o.net_profit_usd > 0);
        assert!(o.max_tradeable_usd >= 10 * USD as u128);
        assert!(o.data_age_ms <= MAX_DATA_AGE_MS);
        assert_ne!(o.buy_exchange, o.sell_exchange);
    }
    for w in r.windows(2) {
        assert!(w[0].net_profit_usd >= w[1].net_profit_usd);
    }
    assert_eq!(r[0].symbol, "ETH-USDT");
    assert_eq!(r[0].buy_exchange, Exchange::Binance);
    assert_eq!(r[0].sell_exchange, Exchange::Bybit);
}

#[test]
fn scanning_twice_gives_the_same_list() {
    let d = detector();
    let snap = multi_symbol_snapshot();
    let a = d.scan_snapshot(&snap, NOW);
    let b = d.scan_snapshot(&snap, NOW);
    assert_eq!(a.len(), b.len());
    for (x, y) in a.iter().zip(b.iter()) {
        assert!(same(x, y));
    }
}

#[test]
fn equal_profits_keep_snapshot_order() {
    let pair = |name: &str| {
        (
            name.to_string(),
            vec![
                (Exchange::Binance, book(100 * USD, 100 * USD, 5 * USD, 5 * USD, NOW)),
                (Exchange::Bybit, book(101 * USD, 102 * USD, 5 * USD, 5 * USD, NOW)),
            ],
        )
    };
    let r = detector().scan_snapshot(&vec![pair("AAA-USDT"), pair("BBB-USDT")], NOW);
    assert_eq!(r.len(), 2);
    assert_eq!(r[0].net_profit_usd, r[1].net_profit_usd);
    assert_eq!(r[0].symbol, "AAA-USDT");
    assert_eq!(r[1].symbol, "BBB-USDT");
}

#[test]
fn detector_reads_the_live_store() {
    let store = PriceAggregator::new();
    let d = ArbitrageDetector::new(store.clone());
    let now = std::time::SystemTime::now()
        .duration_since(std::time::UNIX_EPOCH)
        .unwrap()
        .as_millis() as u64;
    store.update(
        "BTC-USDT".to_string(),
        Exchange::Binance,
        book(100 * USD, 10_010_000_000, 5 * USD, 5 * USD, now),
    );
    store.update(
        "BTC-USDT".to_string(),
        Exchange::Bybit,
        book(10_050_000_000, 10_060_000_000, 5 * USD, 5 * USD, now),
    );
    let r = d.detect_opportunities();
    assert_eq!(r.len(), 1);
    assert_eq!(r[0].net_profit_usd, 144_825_000);
    assert!(r[0].timestamp >= now);
}

#[test]
fn equal_profits_follow_symbol_order_whatever_the_snapshot_order() {
    let pair = |name: &str| {
        (
            name.to_string(),
            vec![
                (Exchange::Binance, book(100 * USD, 100 * USD, 5 * USD, 5 * USD, NOW)),
                (Exchange::Bybit, book(101 * USD, 102 * USD, 5 * USD, 5 * USD, NOW)),
            ],
        )
    };
    let r = detector().scan_snapshot(&vec![pair("BBB-USDT"), pair("AAA-USDT"), pair("AA-USDT")], NOW);
    assert_eq!(r.len(), 3);
    assert_eq!(r[0].symbol, "AA-USDT");
    assert_eq!(r[1].symbol, "AAA-USDT");
    assert_eq!(r[2].symbol, "BBB-USDT");
}

#[test]
fn equal_profits_follow_venue_order() {
    // Binance and Extended charge the same taker fee, so buying on either
    // and selling on the other venue pays the same
    let quotes = |first: Exchange, second: Exchange| {
        vec![(
            "ETH-USDT".to_string(),
            vec![
                (first, book(101 * USD, 100 * USD, 5 * USD, 5 * USD, NOW)),
                (second, book(101 * USD, 100 * USD, 5 * USD, 5 * USD, NOW)),
            ],
        )]
    };
    for snap in [quotes(Exchange::Extended, Exchange::Binance), quotes(Exchange::Binance, Exchange::Extended)] {
        let r = detector().scan_snapshot(&snap, NOW);
        assert_eq!(r.len(), 2);
        assert_eq!(r[0].net_profit_usd, r[1].net_profit_usd);
        assert_eq!(r[0].buy_exchange, Exchange::Binance);
        assert_eq!(r[1].buy_exchange, Exchange::Extended);
    }
}
