//! The execution simulator: paper-trades the best opportunity of each cycle
//! against one USD balance per venue, after a slippage and market-impact
//! friction model, and keeps a bounded history of the trades it made.

use crate::clock::local_time_of_day;
use crate::detector::{ArbitrageOpportunity, OpportunityView, MIN_TRADE_USD};
use crate::exchanges::Exchange;
use crate::ledger::{digits_of, digits_string};
use crate::units::{add_rate, remove_rate, PPM};
use vstd::prelude::*;
use vstd::string::*;

verus! {

/// Side of an order.
#[derive(Clone, Copy, Debug, PartialEq, Eq, Structural)]
pub enum Side {
    Buy,
    Sell,
}

/// An order executor that fills everything; it only stands in for a real
/// venue connection.
pub struct MockExecutor;

/// Largest capital committed to one trade: 2000 USD.
pub const MAX_TRADE_CAPITAL_USD: u128 = 200_000_000_000;

/// Fixed slippage on each leg, in ppm (half a basis point).
pub const SLIPPAGE_PPM: u128 = 50;

/// Price impact of consuming all the available liquidity, in ppm.
pub const FULL_IMPACT_PPM: u128 = 300;

/// Trading fee charged on each leg of a simulated trade, in ppm.
pub const BASE_FEE_PPM: u128 = 600;

/// A simulated trade must realize more than this: 0.0001 USD.
pub const MIN_REALIZED_PROFIT_USD: u128 = 10_000;

/// Starting balance of every venue: 5000 USD.
pub const INITIAL_VENUE_BALANCE_USD: u128 = 500_000_000_000;

/// Number of trades kept in the recent history.
pub const HISTORY_LEN: usize = 10;

/// One USD balance per venue, in money units.
#[derive(Clone, Copy, Debug, PartialEq, Eq, Structural)]
pub struct VenueBalances {
    pub binance: u128,
    pub hyperliquid: u128,
    pub bybit: u128,
    pub extended: u128,
}

impl VenueBalances {
    /// Balance of `ex`.
    pub open spec fn of(self, ex: Exchange) -> int {
        match ex {
            Exchange::Binance => self.binance as int,
            Exchange::Hyperliquid => self.hyperliquid as int,
            Exchange::Bybit => self.bybit as int,
            Exchange::Extended => self.extended as int,
        }
    }

    /// Sum of all venues' balances.
    pub open spec fn total(self) -> int {
        self.binance + self.hyperliquid + self.bybit + self.extended
    }

    /// These balances with `ex`'s replaced by `v`.
    pub open spec fn with(self, ex: Exchange, v: u128) -> VenueBalances {
        match ex {
            Exchange::Binance => VenueBalances { binance: v, ..self },
            Exchange::Hyperliquid => VenueBalances { hyperliquid: v, ..self },
            Exchange::Bybit => VenueBalances { bybit: v, ..self },
            Exchange::Extended => VenueBalances { extended: v, ..self },
        }
    }

    /// Balance of `ex`.
    pub fn get(&self, ex: Exchange) -> (r: u128)
        ensures
            r == self.of(ex),
    {
        match ex {
            Exchange::Binance => self.binance,
            Exchange::Hyperliquid => self.hyperliquid,
            Exchange::Bybit => self.bybit,
            Exchange::Extended => self.extended,
        }
    }

    fn set(&mut self, ex: Exchange, v: u128)
        ensures
            *final(self) == old(self).with(ex, v),
    {
        match ex {
            Exchange::Binance => self.binance = v,
            Exchange::Hyperliquid => self.hyperliquid = v,
            Exchange::Bybit => self.bybit = v,
            Exchange::Extended => self.extended = v,
        }
    }

    /// Sum of all venues' balances.
    pub fn total_usd(&self) -> (r: u128)
        requires
            self.total() <= u128::MAX,
        ensures
            r == self.total(),
    {
        self.binance + self.hyperliquid + self.bybit + self.extended
    }
}

/// Every venue at its starting balance.
pub open spec fn initial_balances() -> VenueBalances {
    VenueBalances {
        binance: INITIAL_VENUE_BALANCE_USD,
        hyperliquid: INITIAL_VENUE_BALANCE_USD,
        bybit: INITIAL_VENUE_BALANCE_USD,
        extended: INITIAL_VENUE_BALANCE_USD,
    }
}

/// Balances after moving `capital` out of `buy` and `capital + profit` into `sell`.
pub open spec fn settled(b: VenueBalances, buy: Exchange, sell: Exchange, capital: int, profit: int) -> VenueBalances {
    let debited = b.with(buy, (b.of(buy) - capital) as u128);
    debited.with(sell, (debited.of(sell) + capital + profit) as u128)
}

/// How a simulated trade would execute.
#[derive(Clone, Copy, Debug, PartialEq, Eq, Structural)]
pub struct TradePlan {
    /// Capital committed on the buy venue.
    pub capital: u128,
    /// Combined slippage and impact, in ppm.
    pub friction_ppm: u64,
    /// Buy price after friction.
    pub buy_price: u128,
    /// Sell price after friction.
    pub sell_price: u128,
    /// Net result after both legs' fees.
    pub profit: u128,
}

/// Capital a trade commits: the liquidity the scanner measured, up to the cap.
pub open spec fn planned_capital(o: OpportunityView) -> int {
    if o.max_tradeable_usd <= MAX_TRADE_CAPITAL_USD { o.max_tradeable_usd } else { MAX_TRADE_CAPITAL_USD as int }
}

/// Friction of committing `capital` against `available` liquidity: the fixed
/// slippage plus an impact proportional to the share consumed.
pub open spec fn friction_for(capital: int, available: int) -> int {
    SLIPPAGE_PPM + capital * (FULL_IMPACT_PPM as int) / available
}

/// Net result of spending `capital` at `buy_price` and selling what it
/// bought at `sell_price`, each leg paying the base fee.
pub open spec fn realized_profit(capital: int, buy_price: int, sell_price: int) -> int {
    remove_rate(capital * sell_price / buy_price, BASE_FEE_PPM as int) - add_rate(capital, BASE_FEE_PPM as int)
}

/// The trade that `o` would give against `balances`, if none of the
/// rejections applies: capital below the minimum trade size, a buy venue
/// that cannot fund it, or a realized profit not above the minimum.
pub open spec fn plan_for(o: OpportunityView, balances: VenueBalances) -> Option<TradePlan> {
    let capital = planned_capital(o);
    let friction = friction_for(capital, o.max_tradeable_usd);
    let buy_price = add_rate(o.buy_price, friction);
    let sell_price = remove_rate(o.sell_price, friction);
    let profit = realized_profit(capital, buy_price, sell_price);
    if capital < MIN_TRADE_USD || balances.of(o.buy_exchange) < capital || profit <= MIN_REALIZED_PROFIT_USD {
        None
    } else {
        Some(
            TradePlan {
                capital: capital as u128,
                friction_ppm: friction as u64,
                buy_price: buy_price as u128,
                sell_price: sell_price as u128,
                profit: profit as u128,
            },
        )
    }
}

/// Works out the trade that `opp` would give against `balances`.
pub fn plan_trade(opp: &ArbitrageOpportunity, balances: &VenueBalances) -> (r: Option<TradePlan>)
    requires
        opp.buy_price > 0,
    ensures
        r == plan_for(opp@, *balances),
{
    let capital: u128 = if opp.max_tradeable_usd <= MAX_TRADE_CAPITAL_USD {
        opp.max_tradeable_usd
    } else {
        MAX_TRADE_CAPITAL_USD
    };
    if capital < MIN_TRADE_USD {
        return None;
    }
    if balances.get(opp.buy_exchange) < capital {
        return None;
    }
    let available = opp.max_tradeable_usd;
    proof {
        let (c, a) = (capital as int, available as int);
        assert(c * 300 / a <= 300) by (nonlinear_arith)
            requires 0 < c <= a;
        assert(c * 300 <= 300 * 200_000_000_000) by (nonlinear_arith)
            requires 0 <= c <= 200_000_000_000;
    }
    let friction: u128 = SLIPPAGE_PPM + capital * FULL_IMPACT_PPM / available;
    let ppm = PPM as u128;
    proof {
        let (p, f) = (opp.buy_price as int, friction as int);
        assert(p * (1_000_000 + f) <= 0xFFFF_FFFF_FFFF_FFFF * 2_000_000) by (nonlinear_arith)
            requires 0 <= p <= 0xFFFF_FFFF_FFFF_FFFF, 0 <= f <= 350;
        assert(p * (1_000_000 + f) / 1_000_000 >= p) by (nonlinear_arith)
            requires 0 <= p, 0 <= f;
        let s = opp.sell_price as int;
        assert(s * (1_000_000 - f) <= s * 1_000_000) by (nonlinear_arith)
            requires 0 <= s, 0 <= f <= 350;
    }
    let buy_price: u128 = (opp.buy_price as u128) * (ppm + friction) / ppm;
    let sell_price: u128 = (opp.sell_price as u128) * (ppm - friction) / ppm;
    proof {
        let (c, sp, bp) = (capital as int, sell_price as int, buy_price as int);
        assert(sp <= 0xFFFF_FFFF_FFFF_FFFF) by (nonlinear_arith)
            requires sp == (opp.sell_price as int) * (1_000_000 - friction) / 1_000_000,
                0 <= friction <= 350, opp.sell_price <= 0xFFFF_FFFF_FFFF_FFFFu64;
        assert(c * sp <= 200_000_000_000 * 0xFFFF_FFFF_FFFF_FFFF) by (nonlinear_arith)
            requires 0 <= c <= 200_000_000_000, 0 <= sp <= 0xFFFF_FFFF_FFFF_FFFF;
        assert(c * sp / bp <= c * sp) by (nonlinear_arith)
            requires c * sp >= 0, bp >= 1;
        assert(c * 1_000_600 <= 200_000_000_000 * 1_000_600) by (nonlinear_arith)
            requires 0 <= c <= 200_000_000_000;
    }
    let proceeds: u128 = capital * sell_price / buy_price;
    let revenue: u128 = proceeds * (ppm - BASE_FEE_PPM) / ppm;
    let cost: u128 = capital * (ppm + BASE_FEE_PPM) / ppm;
    if revenue <= cost || revenue - cost <= MIN_REALIZED_PROFIT_USD {
        return None;
    }
    Some(TradePlan { capital, friction_ppm: friction as u64, buy_price, sell_price, profit: revenue - cost })
}

/// An audit record of one simulated trade. Prices are the executed ones,
/// after friction; `balance_after` is the total over all venues.
#[derive(Clone, Debug)]
pub struct TradeRecord {
    /// Local time of day, `HH:MM:SS`.
    pub timestamp: String,
    pub symbol: String,
    pub buy_exchange: Exchange,
    pub sell_exchange: Exchange,
    pub buy_price: u128,
    pub sell_price: u128,
    pub profit_usd: u128,
    pub balance_after: u128,
    /// Free text on how the trade was made.
    pub note: String,
}

/// A trade record as a mathematical value.
pub struct TradeRecordView {
    pub timestamp: Seq<char>,
    pub symbol: Seq<char>,
    pub buy_exchange: Exchange,
    pub sell_exchange: Exchange,
    pub buy_price: u128,
    pub sell_price: u128,
    pub profit_usd: u128,
    pub balance_after: u128,
    pub note: Seq<char>,
}

impl View for TradeRecord {
    type V = TradeRecordView;

    open spec fn view(&self) -> TradeRecordView {
        TradeRecordView {
            timestamp: self.timestamp@,
            symbol: self.symbol@,
            buy_exchange: self.buy_exchange,
            sell_exchange: self.sell_exchange,
            buy_price: self.buy_price,
            sell_price: self.sell_price,
            profit_usd: self.profit_usd,
            balance_after: self.balance_after,
            note: self.note@,
        }
    }
}

impl TradeRecord {
    /// An equal record.
    pub fn duplicate(&self) -> (r: TradeRecord)
        ensures
            r@ == self@,
    {
        TradeRecord {
            timestamp: self.timestamp.clone(),
            symbol: self.symbol.clone(),
            buy_exchange: self.buy_exchange,
            sell_exchange: self.sell_exchange,
            buy_price: self.buy_price,
            sell_price: self.sell_price,
            profit_usd: self.profit_usd,
            balance_after: self.balance_after,
            note: self.note.clone(),
        }
    }
}

/// The note of a simulated trade: the friction that it paid.
pub open spec fn friction_note(friction_ppm: u64) -> Seq<char> {
    "simulated (friction: "@ + digits_of(friction_ppm as nat) + " ppm)"@
}

/// The note of a simulated trade, as `friction_note` says.
pub fn friction_text(friction_ppm: u64) -> (r: String)
    ensures
        r@ == friction_note(friction_ppm),
{
    let mut r = String::from_str("simulated (friction: ");
    let digits = digits_string(friction_ppm as u128);
    r.append(digits.as_str());
    r.append(" ppm)");
    r
}

/// The record of executing `plan` for `o` at `timestamp`, leaving `balances`.
pub open spec fn record_of(
    o: OpportunityView,
    plan: TradePlan,
    timestamp: Seq<char>,
    balances: VenueBalances,
) -> TradeRecordView {
    TradeRecordView {
        timestamp,
        symbol: o.symbol,
        buy_exchange: o.buy_exchange,
        sell_exchange: o.sell_exchange,
        buy_price: plan.buy_price,
        sell_price: plan.sell_price,
        profit_usd: plan.profit,
        balance_after: balances.total() as u128,
        note: friction_note(plan.friction_ppm),
    }
}

/// The views of a sequence of trade records.
pub open spec fn record_views(s: Seq<TradeRecord>) -> Seq<TradeRecordView> {
    s.map_values(|t: TradeRecord| t@)
}

/// `history` with `newest` in front, cut to the history length.
pub open spec fn pushed_front(newest: TradeRecordView, history: Seq<TradeRecordView>) -> Seq<TradeRecordView> {
    let h = seq![newest] + history;
    if h.len() <= HISTORY_LEN { h } else { h.subrange(0, HISTORY_LEN as int) }
}

/// The paper-trading state: venue balances, the number of trades made, and
/// the most recent trades, newest first. The balances' total always fits in
/// a `u128`, and at most `HISTORY_LEN` trades are kept.
pub struct ExecutionSimulator {
    balances: VenueBalances,
    trade_count: u64,
    recent_trades: Vec<TradeRecord>,
}

impl ExecutionSimulator {
    #[verifier::type_invariant]
    spec fn well_formed(self) -> bool {
        &&& self.balances.total() <= u128::MAX
        &&& self.recent_trades@.len() <= HISTORY_LEN
    }

    /// Current balances.
    pub closed spec fn balances_spec(&self) -> VenueBalances {
        self.balances
    }

    /// Number of trades made.
    pub closed spec fn count_spec(&self) -> u64 {
        self.trade_count
    }

    /// Recent trades, newest first.
    pub closed spec fn history(&self) -> Seq<TradeRecordView> {
        record_views(self.recent_trades@)
    }

    /// Whether a trade of `plan` can be recorded without leaving the range of
    /// the counters: the new total and the trade count must stay representable.
    pub open spec fn can_record(&self, plan: TradePlan) -> bool {
        &&& self.balances_spec().total() + plan.profit <= u128::MAX
        &&& self.count_spec() < u64::MAX
    }

    /// Every venue at its starting balance, no trade made.
    pub fn new() -> (r: ExecutionSimulator)
        ensures
            r.balances_spec() == initial_balances(),
            r.count_spec() == 0,
            r.history().len() == 0,
    {
        ExecutionSimulator::with_balances(
            VenueBalances {
                binance: INITIAL_VENUE_BALANCE_USD,
                hyperliquid: INITIAL_VENUE_BALANCE_USD,
                bybit: INITIAL_VENUE_BALANCE_USD,
                extended: INITIAL_VENUE_BALANCE_USD,
            },
        )
    }

    /// The given balances, no trade made.
    pub fn with_balances(balances: VenueBalances) -> (r: ExecutionSimulator)
        requires
            balances.total() <= u128::MAX,
        ensures
            r.balances_spec() == balances,
            r.count_spec() == 0,
            r.history().len() == 0,
    {
        let r = ExecutionSimulator { balances, trade_count: 0, recent_trades: Vec::new() };
        proof {
            assert(record_views(r.recent_trades@) =~= Seq::<TradeRecordView>::empty());
        }
        r
    }

    /// Every venue at its starting balance, no trade made this session, and
    /// `history` (newest first) as the recent trades.
    pub fn with_history(history: Vec<TradeRecord>) -> (r: ExecutionSimulator)
        requires
            history@.len() <= HISTORY_LEN,
        ensures
            r.balances_spec() == initial_balances(),
            r.count_spec() == 0,
            r.history() == record_views(history@),
    {
        let mut r = ExecutionSimulator::new();
        r.recent_trades = history;
        r
    }

    /// Current balances.
    pub fn balances(&self) -> (r: VenueBalances)
        ensures
            r == self.balances_spec(),
    {
        self.balances
    }

    /// Sum of all venues' balances.
    pub fn total_balance(&self) -> (r: u128)
        ensures
            r == self.balances_spec().total(),
    {
        proof {
            use_type_invariant(self);
        }
        self.balances.total_usd()
    }

    /// Number of trades made.
    pub fn trade_count(&self) -> (r: u64)
        ensures
            r == self.count_spec(),
    {
        self.trade_count
    }

    /// Recent trades, newest first.
    pub fn recent_trades(&self) -> (r: &Vec<TradeRecord>)
        ensures
            record_views(r@) == self.history(),
    {
        &self.recent_trades
    }

    /// Simulates trading `opp`. When `plan_for` rejects it, or recording it
    /// would leave the counters' range, nothing changes and `None` is
    /// returned. Otherwise the capital leaves the buy venue, capital plus
    /// profit reach the sell venue, the trade count grows by one, and the
    /// trade's record, stamped `timestamp`, is returned and put in front of
    /// the history.
    pub fn execute(&mut self, opp: &ArbitrageOpportunity, timestamp: String) -> (r: Option<TradeRecord>)
        requires
            opp.buy_price > 0,
        ensures
            match plan_for(opp@, old(self).balances_spec()) {
                Some(plan) if old(self).can_record(plan) => {
                    let after = settled(
                        old(self).balances_spec(),
                        opp.buy_exchange,
                        opp.sell_exchange,
                        plan.capital as int,
                        plan.profit as int,
                    );
                    let record = record_of(opp@, plan, timestamp@, after);
                    &&& final(self).balances_spec() == after
                    &&& final(self).balances_spec().total() == old(self).balances_spec().total() + plan.profit
                    &&& final(self).count_spec() == old(self).count_spec() + 1
                    &&& r matches Some(t) && t@ == record
                    &&& final(self).history() == pushed_front(record, old(self).history())
                },
                _ => {
                    &&& r is None
                    &&& final(self).balances_spec() == old(self).balances_spec()
                    &&& final(self).count_spec() == old(self).count_spec()
                    &&& final(self).history() == old(self).history()
                },
            },
    {
        proof {
            use_type_invariant(&*self);
        }
        let plan = match plan_trade(opp, &self.balances) {
            Some(p) => p,
            None => return None,
        };
        let total = self.balances.total_usd();
        if total > u128::MAX - plan.profit || self.trade_count == u64::MAX {
            return None;
        }
        let ghost before = self.balances;
        proof {
            lemma_trade_conserves_balance(before, opp.buy_exchange, opp.sell_exchange, plan.capital as int, plan.profit as int);
        }
        let mut balances = self.balances;
        let debited = balances.get(opp.buy_exchange) - plan.capital;
        balances.set(opp.buy_exchange, debited);
        let credited = balances.get(opp.sell_exchange) + plan.capital + plan.profit;
        balances.set(opp.sell_exchange, credited);
        let balance_after = balances.total_usd();
        let record = TradeRecord {
            timestamp,
            symbol: opp.symbol.clone(),
            buy_exchange: opp.buy_exchange,
            sell_exchange: opp.sell_exchange,
            buy_price: plan.buy_price,
            sell_price: plan.sell_price,
            profit_usd: plan.profit,
            balance_after,
            note: friction_text(plan.friction_ppm),
        };
        let ghost old_history = record_views(self.recent_trades@);
        let mut history = Vec::new();
        history.push(record.duplicate());
        let mut k: usize = 0;
        while k < self.recent_trades.len() && history.len() < HISTORY_LEN
            invariant
                k <= self.recent_trades@.len(),
                self.recent_trades@.len() <= HISTORY_LEN,
                old_history == record_views(self.recent_trades@),
                history@.len() == k + 1,
                k + 1 <= HISTORY_LEN,
                record_views(history@) == (seq![record@] + old_history).subrange(0, k + 1),
            decreases self.recent_trades@.len() - k,
        {
            history.push(self.recent_trades[k].duplicate());
            proof {
                assert(record_views(history@) =~= (seq![record@] + old_history).subrange(0, k + 2));
            }
            k = k + 1;
        }
        proof {
            let h = seq![record@] + old_history;
            if h.len() <= HISTORY_LEN {
                assert(h.subrange(0, h.len() as int) =~= h);
            }
            assert(record_views(history@) =~= pushed_front(record@, old_history));
        }
        *self = ExecutionSimulator { balances, trade_count: self.trade_count + 1, recent_trades: history };
        Some(record)
    }

    /// One decision of the cycle: simulates the first, most profitable, of
    /// `opportunities`, as `execute` does; does nothing on an empty list.
    pub fn execute_best(&mut self, opportunities: &Vec<ArbitrageOpportunity>, timestamp: String) -> (r: Option<TradeRecord>)
        requires
            opportunities@.len() > 0 ==> opportunities@[0].buy_price > 0,
        ensures
            opportunities@.len() == 0 ==> r is None && *final(self) == *old(self),
            opportunities@.len() > 0 ==> match plan_for(opportunities@[0]@, old(self).balances_spec()) {
                Some(plan) if old(self).can_record(plan) => {
                    let after = settled(
                        old(self).balances_spec(),
                        opportunities@[0].buy_exchange,
                        opportunities@[0].sell_exchange,
                        plan.capital as int,
                        plan.profit as int,
                    );
                    let record = record_of(opportunities@[0]@, plan, timestamp@, after);
                    &&& final(self).balances_spec() == after
                    &&& final(self).count_spec() == old(self).count_spec() + 1
                    &&& r matches Some(t) && t@ == record
                    &&& final(self).history() == pushed_front(record, old(self).history())
                },
                _ => {
                    &&& r is None
                    &&& final(self).balances_spec() == old(self).balances_spec()
                    &&& final(self).count_spec() == old(self).count_spec()
                    &&& final(self).history() == old(self).history()
                },
            },
    {
        if opportunities.len() == 0 {
            return None;
        }
        self.execute(&opportunities[0], timestamp)
    }

    /// `execute_best`, stamped with the local time of day.
    pub fn run_cycle(&mut self, opportunities: &Vec<ArbitrageOpportunity>) -> (r: Option<TradeRecord>)
        requires
            opportunities@.len() > 0 ==> opportunities@[0].buy_price > 0,
        ensures
            opportunities@.len() == 0 ==> r is None && *final(self) == *old(self),
            opportunities@.len() > 0 ==> match plan_for(opportunities@[0]@, old(self).balances_spec()) {
                Some(plan) if old(self).can_record(plan) => {
                    let after = settled(
                        old(self).balances_spec(),
                        opportunities@[0].buy_exchange,
                        opportunities@[0].sell_exchange,
                        plan.capital as int,
                        plan.profit as int,
                    );
                    &&& final(self).balances_spec() == after
                    &&& final(self).count_spec() == old(self).count_spec() + 1
                    &&& r matches Some(t) && t@ == record_of(opportunities@[0]@, plan, t.timestamp@, after)
                        && final(self).history() == pushed_front(t@, old(self).history())
                },
                _ => {
                    &&& r is None
                    &&& final(self).balances_spec() == old(self).balances_spec()
                    &&& final(self).count_spec() == old(self).count_spec()
                    &&& final(self).history() == old(self).history()
                },
            },
    {
        let timestamp = local_time_of_day();
        self.execute_best(opportunities, timestamp)
    }
}

/// A simulated trade neither creates nor destroys capital beyond its
/// realized profit: when the buy venue can fund `capital`, settling the
/// trade raises the total balance by exactly `profit`.
pub proof fn lemma_trade_conserves_balance(
    b: VenueBalances,
    buy: Exchange,
    sell: Exchange,
    capital: int,
    profit: int,
)
    requires
        0 <= capital <= b.of(buy),
        0 <= profit,
        b.total() + profit <= u128::MAX,
    ensures
        settled(b, buy, sell, capital, profit).total() == b.total() + profit,
        settled(b, buy, sell, capital, profit).of(sell) <= u128::MAX,
{
    let debited = b.with(buy, (b.of(buy) - capital) as u128);
    assert(debited.total() == b.total() - capital);
    assert(debited.of(sell) + capital + profit <= b.total() + profit);
}

} // verus!
