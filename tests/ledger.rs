use flash_arb::exchanges::Exchange;
use flash_arb::execution::{ExecutionSimulator, HISTORY_LEN};
use flash_arb::ledger::{
    decimal_string, digits_string, exchange_from_name, history_from_ledger, ledger_fields,
    parse_decimal_units, parse_row, split_at_commas,
};

const HEADER: &str = "Timestamp,Symbol,BuyEx,SellEx,BuyPrice,SellPrice,Profit,Balance,Note";

fn row(i: u32) -> String {
    format!("10:00:{:02},BTC-USDT,Binance,Bybit,100.025,100.97,1.5,20001.5,Tokio Sim (Fric: {}bps)", i, i)
}

#[test]
fn fields_split_at_every_comma() {
    assert_eq!(split_at_commas("a,b,,c"), vec!["a", "b", "", "c"]);
    assert_eq!(split_at_commas(""), vec![""]);
    assert_eq!(split_at_commas(",x,"), vec!["", "x", ""]);
}

#[test]
fn decimals_become_fixed_point() {
    assert_eq!(parse_decimal_units("100.10"), Some(10_010_000_000));
    assert_eq!(parse_decimal_units("5"), Some(500_000_000));
    assert_eq!(parse_decimal_units("5."), Some(500_000_000));
    assert_eq!(parse_decimal_units("0.00000001"), Some(1));
    assert_eq!(parse_decimal_units("0.123456789"), Some(12_345_678));
    assert_eq!(parse_decimal_units("007.5"), Some(750_000_000));
}

#[test]
fn malformed_decimals_are_rejected() {
    for s in ["", ".5", "1.2.3", "abc", "1e3", "-1", "+1", " 1", "1,5"] {
        assert_eq!(parse_decimal_units(s), None, "{}", s);
    }
}

#[test]
fn decimal_range_ends_at_u128() {
    assert_eq!(parse_decimal_units("3402823669209384634633746074317.68211455"), Some(u128::MAX));
    assert_eq!(parse_decimal_units("3402823669209384634633746074317.68211456"), None);
    assert_eq!(parse_decimal_units("99999999999999999999999999999999999999999"), None);
}

#[test]
fn venue_names_round_trip() {
    for ex in [Exchange::Binance, Exchange::Hyperliquid, Exchange::Bybit, Exchange::Extended] {
        assert_eq!(exchange_from_name(ex.as_str()), Some(ex));
    }
    assert_eq!(exchange_from_name("binance"), None);
    assert_eq!(exchange_from_name(""), None);
}

#[test]
fn row_is_read_field_by_field() {
    let t = parse_row(&row(7)).unwrap();
    assert_eq!(t.timestamp, "10:00:07");
    assert_eq!(t.symbol, "BTC-USDT");
    assert_eq!(t.buy_exchange, Exchange::Binance);
    assert_eq!(t.sell_exchange, Exchange::Bybit);
    assert_eq!(t.buy_price, 10_002_500_000);
    assert_eq!(t.sell_price, 10_097_000_000);
    assert_eq!(t.profit_usd, 150_000_000);
    assert_eq!(t.balance_after, 2_000_150_000_000);
    assert_eq!(t.note, "Tokio Sim (Fric: 7bps)");
}

#[test]
fn corrupt_rows_are_skipped() {
    assert!(parse_row("10:00:00,BTC-USDT,Binance,Bybit,1,2,3").is_none());
    assert!(parse_row("10:00:00,BTC-USDT,Kraken,Bybit,1,2,3,4,5").is_none());
    assert!(parse_row("10:00:00,BTC-USDT,Binance,Bybit,oops,2,3,4").is_none());
    assert!(parse_row("10:00:00,BTC-USDT,Binance,Bybit,1,2,3,").is_none());
    assert!(parse_row(",,Bybit,Bybit,x,,,").is_none());
    let t = parse_row("10:00:00,BTC-USDT,Binance,Bybit,1,2,3,4").unwrap();
    assert_eq!(t.buy_price, 100_000_000);
    assert_eq!(t.note, "");
    let t = parse_row("10:00:00,BTC-USDT,Binance,Bybit,1,2,3,4,a text note").unwrap();
    assert_eq!(t.note, "a text note");
}

#[test]
fn corrupt_rows_leave_the_history() {
    let lines = vec![
        HEADER.to_string(),
        row(1),
        "10:00:02,BTC-USDT,Binance,Bybit,x,1,1,1,1".to_string(),
        row(3),
    ];
    let h = history_from_ledger(&lines);
    assert_eq!(h.len(), 2);
    assert_eq!(h[0].timestamp, "10:00:03");
    assert_eq!(h[1].timestamp, "10:00:01");
}

#[test]
fn history_keeps_newest_readable_rows_first() {
    let mut lines = vec![HEADER.to_string()];
    for i in 0..12 {
        lines.push(row(i));
        lines.push("garbage".to_string());
    }
    let h = history_from_ledger(&lines);
    assert_eq!(h.len(), HISTORY_LEN);
    assert_eq!(h[0].timestamp, "10:00:11");
    assert_eq!(h[HISTORY_LEN - 1].timestamp, "10:00:02");
}

#[test]
fn short_ledgers_seed_short_histories() {
    assert!(history_from_ledger(&Vec::new()).is_empty());
    assert!(history_from_ledger(&vec![HEADER.to_string()]).is_empty());
    // the first line is a header even when it reads as a trade
    let h = history_from_ledger(&vec![row(0), row(1), row(2)]);
    assert_eq!(h.len(), 2);
    assert_eq!(h[0].timestamp, "10:00:02");
    assert_eq!(h[1].timestamp, "10:00:01");
}

#[test]
fn simulator_resumes_with_a_history() {
    let lines = vec![HEADER.to_string(), row(1), row(2)];
    let sim = ExecutionSimulator::with_history(history_from_ledger(&lines));
    assert_eq!(sim.trade_count(), 0);
    assert_eq!(sim.recent_trades().len(), 2);
    assert_eq!(sim.recent_trades()[0].timestamp, "10:00:02");
    assert_eq!(sim.total_balance(), ExecutionSimulator::new().total_balance());
}

#[test]
fn amounts_are_written_with_eight_decimals() {
    assert_eq!(decimal_string(10_002_500_000), "100.02500000");
    assert_eq!(decimal_string(0), "0.00000000");
    assert_eq!(decimal_string(1), "0.00000001");
    assert_eq!(decimal_string(u128::MAX), "3402823669209384634633746074317.68211455");
    assert_eq!(digits_string(0), "0");
    assert_eq!(digits_string(250), "250");
}

#[test]
fn written_rows_read_back() {
    let t = parse_row(&row(9)).unwrap();
    let fields = ledger_fields(&t);
    assert_eq!(
        fields,
        vec![
            "10:00:09", "BTC-USDT", "Binance", "Bybit", "100.02500000", "100.97000000",
            "1.50000000", "20001.50000000", "Tokio Sim (Fric: 9bps)",
        ]
    );
    let back = parse_row(&fields.join(",")).unwrap();
    assert_eq!(back.timestamp, t.timestamp);
    assert_eq!(back.symbol, t.symbol);
    assert_eq!(back.buy_exchange, t.buy_exchange);
    assert_eq!(back.sell_exchange, t.sell_exchange);
    assert_eq!(back.buy_price, t.buy_price);
    assert_eq!(back.sell_price, t.sell_price);
    assert_eq!(back.profit_usd, t.profit_usd);
    assert_eq!(back.balance_after, t.balance_after);
    assert_eq!(back.note, t.note);
}
