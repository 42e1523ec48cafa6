use flash_arb::aggregator::PriceAggregator;
use flash_arb::exchanges::{BookUpdate, Exchange, MarketBook};
use flash_arb::fees::FeeConfig;

fn book(bid: u64, ts: u64) -> MarketBook {
    MarketBook { bid, ask: bid + 1, bid_size: 7, ask_size: 9, timestamp: ts }
}

#[test]
fn last_write_wins() {
    let store = PriceAggregator::new();
    for i in 0..20u64 {
        store.update("BTC-USDT".to_string(), Exchange::Binance, book(100 + i, i));
    }
    let books = store.get_books("BTC-USDT").unwrap();
    assert_eq!(books, vec![(Exchange::Binance, book(119, 19))]);
}

#[test]
fn snapshot_lists_each_venue_once() {
    let store = PriceAggregator::new();
    store.update("ETH-USDT".to_string(), Exchange::Binance, book(1, 1));
    store.update("ETH-USDT".to_string(), Exchange::Bybit, book(2, 2));
    store.update("ETH-USDT".to_string(), Exchange::Binance, book(3, 3));
    store.update("SOL-USDT".to_string(), Exchange::Extended, book(4, 4));
    let mut books = store.get_books("ETH-USDT").unwrap();
    books.sort_by_key(|(e, _)| e.as_str());
    assert_eq!(books, vec![(Exchange::Binance, book(3, 3)), (Exchange::Bybit, book(2, 2))]);
    assert_eq!(store.get_exchange_count("ETH-USDT"), 2);
    assert_eq!(store.get_exchange_count("SOL-USDT"), 1);
    let mut symbols = store.get_all_symbols();
    symbols.sort();
    assert_eq!(symbols, vec!["ETH-USDT".to_string(), "SOL-USDT".to_string()]);
}

#[test]
fn unknown_symbol_is_empty() {
    let store = PriceAggregator::new();
    assert!(store.get_books("DOGE-USDT").is_none());
    assert_eq!(store.get_exchange_count("DOGE-USDT"), 0);
    assert!(store.get_all_symbols().is_empty());
}

#[test]
fn snapshot_is_a_copy() {
    let store = PriceAggregator::new();
    store.update("BTC-USDT".to_string(), Exchange::Binance, book(1, 1));
    let before = store.get_books("BTC-USDT").unwrap();
    store.update("BTC-USDT".to_string(), Exchange::Binance, book(2, 2));
    assert_eq!(before, vec![(Exchange::Binance, book(1, 1))]);
}

#[test]
fn clones_share_the_store() {
    let store = PriceAggregator::new();
    let writers: Vec<PriceAggregator> = (0..4).map(|_| store.clone()).collect();
    let venues = [Exchange::Binance, Exchange::Bybit, Exchange::Hyperliquid, Exchange::Extended];
    for i in 0..100u64 {
        for (w, ex) in writers.iter().zip(venues) {
            w.update("BTC-USDT".to_string(), ex, book(i, i));
        }
    }
    let books = store.get_books("BTC-USDT").unwrap();
    assert_eq!(books.len(), 4);
    for (_, b) in books {
        assert_eq!(b, book(99, 99));
    }
}

#[test]
fn book_from_update_drops_the_key() {
    let u = BookUpdate {
        symbol: "BTC-USDT".to_string(),
        exchange: Exchange::Bybit,
        bid: 10,
        ask: 11,
        bid_size: 12,
        ask_size: 13,
        timestamp: 14,
    };
    let b = MarketBook::from(u);
    assert_eq!(b, MarketBook { bid: 10, ask: 11, bid_size: 12, ask_size: 13, timestamp: 14 });
}

#[test]
fn exchange_names() {
    assert_eq!(Exchange::Binance.as_str(), "Binance");
    assert_eq!(Exchange::Hyperliquid.as_str(), "Hyperliquid");
    assert_eq!(Exchange::Bybit.as_str(), "Bybit");
    assert_eq!(Exchange::Extended.as_str(), "Extended");
}

#[test]
fn fee_schedule() {
    let f = FeeConfig::default();
    assert_eq!(f.get_taker_fee(Exchange::Binance), 500);
    assert_eq!(f.get_taker_fee(Exchange::Hyperliquid), 250);
    assert_eq!(f.get_taker_fee(Exchange::Bybit), 600);
    assert_eq!(f.get_taker_fee(Exchange::Extended), 500);
    assert_eq!(f.get_maker_fee(Exchange::Binance), 200);
    assert_eq!(f.get_maker_fee(Exchange::Hyperliquid), 0);
    assert_eq!(f.get_maker_fee(Exchange::Bybit), 200);
    assert_eq!(f.get_maker_fee(Exchange::Extended), 500);
}
