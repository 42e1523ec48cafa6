use flash_arb::detector::ArbitrageOpportunity;
use flash_arb::exchanges::Exchange;
use flash_arb::execution::{
    plan_trade, ExecutionSimulator, TradePlan, VenueBalances, HISTORY_LEN,
    INITIAL_VENUE_BALANCE_USD,
};

const USD: u128 = 100_000_000;

fn opportunity(buy: Exchange, sell: Exchange, buy_price: u64, sell_price: u64, max_usd: u128) -> ArbitrageOpportunity {
    ArbitrageOpportunity {
        symbol: "BTC-USDT".to_string(),
        buy_exchange: buy,
        buy_price,
        sell_exchange: sell,
        sell_price,
        spread_ppm: 0,
        total_fees_ppm: 0,
        net_profit_ppm: 0,
        net_profit_usd: 1,
        max_tradeable_qty: 0,
        max_tradeable_usd: max_usd,
        liquidity_bottleneck: sell,
        data_age_ms: 0,
        timestamp: 0,
        created_at: 0,
    }
}

fn balances(each: u128) -> VenueBalances {
    VenueBalances { binance: each, hyperliquid: each, bybit: each, extended: each }
}

#[test]
fn underfunded_buy_venue_rejects() {
    let mut sim = ExecutionSimulator::with_balances(balances(500 * USD));
    let before = sim.balances();
    // 1000 USD of liquidity, so 1000 USD of capital against a 500 USD balance
    let op = opportunity(Exchange::Binance, Exchange::Bybit, 100 * 100_000_000, 102 * 100_000_000, 1000 * USD);
    assert!(sim.execute(&op, "12:00:00".to_string()).is_none());
    assert_eq!(sim.balances(), before);
    assert_eq!(sim.trade_count(), 0);
    assert!(sim.recent_trades().is_empty());
}

#[test]
fn plan_applies_friction_and_fees() {
    let op = opportunity(Exchange::Binance, Exchange::Bybit, 100 * 100_000_000, 101 * 100_000_000, 3000 * USD);
    let plan = plan_trade(&op, &balances(5000 * USD)).unwrap();
    assert_eq!(
        plan,
        TradePlan {
            capital: 2000 * USD,
            friction_ppm: 250,
            buy_price: 10_002_500_000,
            sell_price: 10_097_475_000,
            profit: 1_657_885_827,
        }
    );
}

#[test]
fn accepted_trade_conserves_balance() {
    let mut sim = ExecutionSimulator::new();
    let total_before = sim.total_balance();
    assert_eq!(total_before, 4 * INITIAL_VENUE_BALANCE_USD);
    let op = opportunity(Exchange::Binance, Exchange::Bybit, 100 * 100_000_000, 101 * 100_000_000, 3000 * USD);
    let t = sim.execute(&op, "09:30:00".to_string()).unwrap();
    assert_eq!(t.profit_usd, 1_657_885_827);
    assert_eq!(sim.total_balance(), total_before + t.profit_usd);
    assert_eq!(t.balance_after, sim.total_balance());
    let b = sim.balances();
    assert_eq!(b.binance, INITIAL_VENUE_BALANCE_USD - 2000 * USD);
    assert_eq!(b.bybit, INITIAL_VENUE_BALANCE_USD + 2000 * USD + 1_657_885_827);
    assert_eq!(b.hyperliquid, INITIAL_VENUE_BALANCE_USD);
    assert_eq!(b.extended, INITIAL_VENUE_BALANCE_USD);
    assert_eq!(sim.trade_count(), 1);
    assert_eq!(t.timestamp, "09:30:00");
    assert_eq!(t.symbol, "BTC-USDT");
    assert_eq!(t.buy_price, 10_002_500_000);
    assert_eq!(t.sell_price, 10_097_475_000);
    assert_eq!(t.note, "simulated (friction: 250 ppm)");
    assert_eq!(sim.recent_trades().len(), 1);
    assert_eq!(sim.recent_trades()[0].profit_usd, t.profit_usd);
}

#[test]
fn capital_below_minimum_rejects() {
    let mut sim = ExecutionSimulator::new();
    let op = opportunity(Exchange::Binance, Exchange::Bybit, 100 * 100_000_000, 150 * 100_000_000, 9 * USD);
    assert!(sim.execute(&op, "t".to_string()).is_none());
    assert_eq!(sim.trade_count(), 0);
}

#[test]
fn capital_at_minimum_is_allowed() {
    let op = opportunity(Exchange::Binance, Exchange::Bybit, 100 * 100_000_000, 150 * 100_000_000, 10 * USD);
    let plan = plan_trade(&op, &balances(5000 * USD)).unwrap();
    assert_eq!(plan.capital, 10 * USD);
}

#[test]
fn friction_can_erase_a_thin_margin() {
    let mut sim = ExecutionSimulator::new();
    // 0.1% spread: below friction plus two 0.06% legs
    let op = opportunity(Exchange::Binance, Exchange::Bybit, 1000 * 100_000_000, 1001 * 100_000_000, 3000 * USD);
    assert!(sim.execute(&op, "t".to_string()).is_none());
    assert_eq!(sim.total_balance(), 4 * INITIAL_VENUE_BALANCE_USD);
}

#[test]
fn empty_list_is_a_no_op() {
    let mut sim = ExecutionSimulator::new();
    assert!(sim.execute_best(&Vec::new(), "t".to_string()).is_none());
    assert!(sim.run_cycle(&Vec::new()).is_none());
    assert_eq!(sim.trade_count(), 0);
}

#[test]
fn cycle_trades_the_first_opportunity() {
    let mut sim = ExecutionSimulator::new();
    let ops = vec![
        opportunity(Exchange::Hyperliquid, Exchange::Extended, 100 * 100_000_000, 101 * 100_000_000, 3000 * USD),
        opportunity(Exchange::Binance, Exchange::Bybit, 100 * 100_000_000, 110 * 100_000_000, 3000 * USD),
    ];
    let t = sim.run_cycle(&ops).unwrap();
    assert_eq!(t.buy_exchange, Exchange::Hyperliquid);
    assert_eq!(t.sell_exchange, Exchange::Extended);
    assert_eq!(t.timestamp.len(), 8);
    assert_eq!(sim.balances().binance, INITIAL_VENUE_BALANCE_USD);
}

#[test]
fn history_keeps_the_newest_ten() {
    let mut sim = ExecutionSimulator::new();
    for i in 0..(HISTORY_LEN as u64 + 3) {
        let (buy, sell) = if i % 2 == 0 {
            (Exchange::Binance, Exchange::Bybit)
        } else {
            (Exchange::Bybit, Exchange::Binance)
        };
        let op = opportunity(buy, sell, 100 * 100_000_000, 101 * 100_000_000 + i, 3000 * USD);
        assert!(sim.execute(&op, format!("{}", i)).is_some());
    }
    assert_eq!(sim.trade_count(), HISTORY_LEN as u64 + 3);
    let h = sim.recent_trades();
    assert_eq!(h.len(), HISTORY_LEN);
    assert_eq!(h[0].timestamp, "12");
    assert_eq!(h[HISTORY_LEN - 1].timestamp, "3");
}
