use flash_arb::symbols::{base_of, binance_book_stream, dashed, undashed, usd_quoted};

#[test]
fn dashes_are_removed() {
    assert_eq!(undashed("BTC-USDT"), "BTCUSDT");
    assert_eq!(undashed("A-B-C"), "ABC");
    assert_eq!(undashed(""), "");
}

#[test]
fn usdt_pairs_are_dashed() {
    assert_eq!(dashed("BTCUSDT"), "BTC-USDT");
    assert_eq!(dashed("1000PEPEUSDT"), "1000PEPE-USDT");
    assert_eq!(dashed("BTCUSD"), "BTCUSD");
    assert_eq!(dashed("USD"), "USD");
}

#[test]
fn base_asset_precedes_the_dash() {
    assert_eq!(base_of("BTC-USDT"), "BTC");
    assert_eq!(base_of("BTC"), "BTC");
    assert_eq!(base_of("-X"), "");
}

#[test]
fn usd_quoted_markets() {
    assert_eq!(usd_quoted("BTC-USDT"), "BTC-USD");
    assert_eq!(usd_quoted("USDT-USDT"), "USD-USD");
    assert_eq!(usd_quoted("BTC-USDC"), "BTC-USDC");
    assert_eq!(usd_quoted("USDTX"), "USDTX");
}

#[test]
fn binance_stream_names() {
    assert_eq!(binance_book_stream("BTC-USDT"), "btcusdt@bookTicker");
    assert_eq!(binance_book_stream("1000PEPE-USDT"), "1000pepeusdt@bookTicker");
}
