//! The arbitrage scanner: every directed pair of venues of every symbol,
//! filtered by staleness, price, liquidity and fee-adjusted profit, ranked
//! by absolute net profit.

use crate::aggregator::PriceAggregator;
use crate::clock::now_millis;
use crate::exchanges::{Exchange, MarketBook};
use crate::fees::FeeConfig;
use crate::order::{
    lemma_text_before_asym, lemma_text_before_total, lemma_text_before_trans, text_before,
    text_precedes, venue_position, venue_rank,
};
use crate::units::{add_rate, ratio_ppm, remove_rate, usd_value, PPM, PRICE_SCALE};
use vstd::prelude::*;

verus! {

/// Quotes older than this, in milliseconds, never make an opportunity.
pub const MAX_DATA_AGE_MS: u64 = 5000;

/// Smallest tradeable notional worth acting on: 10 USD.
pub const MIN_TRADE_USD: u128 = 1_000_000_000;

/// Net profit must exceed this to count: 0.001 USD.
pub const MIN_NET_PROFIT_USD: u128 = 100_000;

/// A fee-adjusted cross-venue opportunity: buy at `buy_exchange`'s ask, sell
/// at `sell_exchange`'s bid. Units are those of [`crate::units`].
#[derive(Clone, Debug)]
pub struct ArbitrageOpportunity {
    pub symbol: String,
    pub buy_exchange: Exchange,
    pub buy_price: u64,
    pub sell_exchange: Exchange,
    pub sell_price: u64,
    /// (sell - buy) / buy, in ppm.
    pub spread_ppm: u128,
    /// Sum of both venues' taker rates, in ppm.
    pub total_fees_ppm: u64,
    /// Net profit over cost, in ppm.
    pub net_profit_ppm: u128,
    pub net_profit_usd: u128,
    /// The smaller of the buy side's ask size and the sell side's bid size.
    pub max_tradeable_qty: u64,
    /// `max_tradeable_qty` valued at the buy price.
    pub max_tradeable_usd: u128,
    /// The venue whose size bounds the quantity.
    pub liquidity_bottleneck: Exchange,
    /// Age of the older of the two quotes, in milliseconds.
    pub data_age_ms: u64,
    pub timestamp: u64,
    pub created_at: u64,
}

/// An opportunity as a mathematical value.
pub struct OpportunityView {
    pub symbol: Seq<char>,
    pub buy_exchange: Exchange,
    pub buy_price: int,
    pub sell_exchange: Exchange,
    pub sell_price: int,
    pub spread_ppm: int,
    pub total_fees_ppm: int,
    pub net_profit_ppm: int,
    pub net_profit_usd: int,
    pub max_tradeable_qty: int,
    pub max_tradeable_usd: int,
    pub liquidity_bottleneck: Exchange,
    pub data_age_ms: int,
    pub timestamp: int,
    pub created_at: int,
}

impl View for ArbitrageOpportunity {
    type V = OpportunityView;

    open spec fn view(&self) -> OpportunityView {
        OpportunityView {
            symbol: self.symbol@,
            buy_exchange: self.buy_exchange,
            buy_price: self.buy_price as int,
            sell_exchange: self.sell_exchange,
            sell_price: self.sell_price as int,
            spread_ppm: self.spread_ppm as int,
            total_fees_ppm: self.total_fees_ppm as int,
            net_profit_ppm: self.net_profit_ppm as int,
            net_profit_usd: self.net_profit_usd as int,
            max_tradeable_qty: self.max_tradeable_qty as int,
            max_tradeable_usd: self.max_tradeable_usd as int,
            liquidity_bottleneck: self.liquidity_bottleneck,
            data_age_ms: self.data_age_ms as int,
            timestamp: self.timestamp as int,
            created_at: self.created_at as int,
        }
    }
}

/// The views of a sequence of opportunities.
pub open spec fn views(s: Seq<ArbitrageOpportunity>) -> Seq<OpportunityView> {
    s.map_values(|o: ArbitrageOpportunity| o@)
}

/// The view of an optional opportunity.
pub open spec fn option_view(o: Option<ArbitrageOpportunity>) -> Option<OpportunityView> {
    match o {
        Some(x) => Some(x@),
        None => None,
    }
}

/// How long ago `ts` was at `now`, zero for a time in the future.
pub open spec fn age_ms(now: u64, ts: u64) -> int {
    if now >= ts { now - ts } else { 0 }
}

/// Age of the older of two quotes.
pub open spec fn data_age(now: u64, buy: MarketBook, sell: MarketBook) -> int {
    let a = age_ms(now, buy.timestamp);
    let b = age_ms(now, sell.timestamp);
    if a >= b { a } else { b }
}

/// Quantity both sides can absorb: the buy side's ask size or the sell
/// side's bid size, whichever is smaller.
pub open spec fn tradeable_qty(buy: MarketBook, sell: MarketBook) -> int {
    if buy.ask_size <= sell.bid_size { buy.ask_size as int } else { sell.bid_size as int }
}

/// The opportunity of buying `symbol` on `eb` (quote `bb`) and selling it on
/// `es` (quote `bs`) at time `now`, if the pair survives every filter.
pub open spec fn opportunity_for(
    symbol: Seq<char>,
    eb: Exchange,
    bb: MarketBook,
    es: Exchange,
    bs: MarketBook,
    now: u64,
    fees: FeeConfig,
) -> Option<OpportunityView> {
    let age = data_age(now, bb, bs);
    let qty = tradeable_qty(bb, bs);
    let usd = usd_value(qty, bb.ask as int);
    let fee_buy = fees.taker_spec(eb) as int;
    let fee_sell = fees.taker_spec(es) as int;
    let cost = add_rate(usd, fee_buy);
    let revenue = remove_rate(usd_value(qty, bs.bid as int), fee_sell);
    let net = revenue - cost;
    if eb == es || age > MAX_DATA_AGE_MS || bs.bid <= bb.ask || usd < MIN_TRADE_USD
        || net <= MIN_NET_PROFIT_USD {
        None
    } else {
        Some(
            OpportunityView {
                symbol,
                buy_exchange: eb,
                buy_price: bb.ask as int,
                sell_exchange: es,
                sell_price: bs.bid as int,
                spread_ppm: ratio_ppm(bs.bid - bb.ask, bb.ask as int),
                total_fees_ppm: fee_buy + fee_sell,
                net_profit_ppm: ratio_ppm(net, cost),
                net_profit_usd: net,
                max_tradeable_qty: qty,
                max_tradeable_usd: usd,
                liquidity_bottleneck: if bb.ask_size < bs.bid_size { eb } else { es },
                data_age_ms: age,
                timestamp: now as int,
                created_at: now as int,
            },
        )
    }
}

/// Opportunities of buying on `books[i]` and selling on each of
/// `books[0..n]`, in that order.
pub open spec fn row_candidates(
    symbol: Seq<char>,
    books: Seq<(Exchange, MarketBook)>,
    i: int,
    n: int,
    now: u64,
    fees: FeeConfig,
) -> Seq<OpportunityView>
    decreases n,
{
    if n <= 0 {
        Seq::empty()
    } else {
        let prev = row_candidates(symbol, books, i, n - 1, now, fees);
        match opportunity_for(symbol, books[i].0, books[i].1, books[n - 1].0, books[n - 1].1, now, fees) {
            Some(o) => prev.push(o),
            None => prev,
        }
    }
}

/// Opportunities of `symbol` whose buy side is one of `books[0..m]`, buy
/// side first, then sell side, in the order of `books`.
pub open spec fn symbol_candidates(
    symbol: Seq<char>,
    books: Seq<(Exchange, MarketBook)>,
    m: int,
    now: u64,
    fees: FeeConfig,
) -> Seq<OpportunityView>
    decreases m,
{
    if m <= 0 {
        Seq::empty()
    } else {
        symbol_candidates(symbol, books, m - 1, now, fees) + row_candidates(
            symbol,
            books,
            m - 1,
            books.len() as int,
            now,
            fees,
        )
    }
}

/// A snapshot of the book store: each symbol with its venues' quotes.
pub type Snapshot = Vec<(String, Vec<(Exchange, MarketBook)>)>;

/// A snapshot as a mathematical value.
pub open spec fn snapshot_view(s: Seq<(String, Vec<(Exchange, MarketBook)>)>) -> Seq<
    (Seq<char>, Seq<(Exchange, MarketBook)>),
> {
    s.map_values(|e: (String, Vec<(Exchange, MarketBook)>)| (e.0@, e.1@))
}

/// Every opportunity of the first `k` symbols of a snapshot, in the order
/// in which they are found.
pub open spec fn candidates(
    snap: Seq<(Seq<char>, Seq<(Exchange, MarketBook)>)>,
    k: int,
    now: u64,
    fees: FeeConfig,
) -> Seq<OpportunityView>
    decreases k,
{
    if k <= 0 {
        Seq::empty()
    } else {
        candidates(snap, k - 1, now, fees) + symbol_candidates(
            snap[k - 1].0,
            snap[k - 1].1,
            snap[k - 1].1.len() as int,
            now,
            fees,
        )
    }
}

/// Whether `x` is listed before `y` among equally profitable opportunities:
/// by symbol in character order, then by buy venue, then by sell venue.
pub open spec fn key_before(x: OpportunityView, y: OpportunityView) -> bool {
    ||| text_before(x.symbol, y.symbol)
    ||| x.symbol == y.symbol && venue_rank(x.buy_exchange) < venue_rank(y.buy_exchange)
    ||| x.symbol == y.symbol && x.buy_exchange == y.buy_exchange && venue_rank(x.sell_exchange)
        < venue_rank(y.sell_exchange)
}

/// Whether `x` ranks strictly ahead of `y`: more net profit, or as much and
/// an earlier key.
pub open spec fn ranks_ahead(x: OpportunityView, y: OpportunityView) -> bool {
    x.net_profit_usd > y.net_profit_usd || (x.net_profit_usd == y.net_profit_usd && key_before(x, y))
}

/// `s` with `o` placed after every element that `o` does not rank ahead of,
/// and before the rest.
pub open spec fn insert_ranked(s: Seq<OpportunityView>, o: OpportunityView) -> Seq<OpportunityView>
    decreases s.len(),
{
    if s.len() == 0 {
        seq![o]
    } else if !ranks_ahead(o, s.last()) {
        s.push(o)
    } else {
        insert_ranked(s.drop_last(), o).push(s.last())
    }
}

/// `c` sorted by net profit, most profitable first; equal profits by
/// symbol, buy venue and sell venue; opportunities equal in all of these
/// keep the order of `c`.
pub open spec fn ranked(c: Seq<OpportunityView>) -> Seq<OpportunityView>
    decreases c.len(),
{
    if c.len() == 0 {
        c
    } else {
        insert_ranked(ranked(c.drop_last()), c.last())
    }
}

/// What a scan of `snap` at time `now` returns.
pub open spec fn scan_result(
    snap: Seq<(Seq<char>, Seq<(Exchange, MarketBook)>)>,
    fees: FeeConfig,
    now: u64,
) -> Seq<OpportunityView> {
    ranked(candidates(snap, snap.len() as int, now, fees))
}

/// The guarantees that every emitted opportunity carries.
pub open spec fn sound_opportunity(o: OpportunityView) -> bool {
    &&& o.buy_exchange != o.sell_exchange
    &&& 0 < o.buy_price < o.sell_price
    &&& o.net_profit_usd > 0
    &&& o.max_tradeable_usd >= MIN_TRADE_USD
    &&& o.data_age_ms <= MAX_DATA_AGE_MS
}

/// No element ranks ahead of one listed before it.
pub open spec fn in_rank_order(s: Seq<OpportunityView>) -> bool {
    forall|i: int, j: int| 0 <= i < j < s.len() ==> !ranks_ahead(#[trigger] s[j], #[trigger] s[i])
}

/// Whether two opportunities trade the same symbol on the same two venues.
pub open spec fn same_key(x: OpportunityView, y: OpportunityView) -> bool {
    x.symbol == y.symbol && x.buy_exchange == y.buy_exchange && x.sell_exchange == y.sell_exchange
}

/// No two elements trade the same symbol on the same two venues.
pub open spec fn distinct_keys(s: Seq<OpportunityView>) -> bool {
    forall|i: int, j: int| 0 <= i < j < s.len() ==> !same_key(#[trigger] s[i], #[trigger] s[j])
}

/// No symbol appears twice in a snapshot, and no venue twice for a symbol.
pub open spec fn distinct_snapshot(snap: Seq<(Seq<char>, Seq<(Exchange, MarketBook)>)>) -> bool {
    &&& forall|i: int, j: int| 0 <= i < j < snap.len() ==> #[trigger] snap[i].0 != #[trigger] snap[j].0
    &&& forall|k: int| 0 <= k < snap.len() ==> distinct_venues(#[trigger] snap[k].1)
}

/// No venue appears twice.
pub open spec fn distinct_venues(books: Seq<(Exchange, MarketBook)>) -> bool {
    forall|i: int, j: int| 0 <= i < j < books.len() ==> #[trigger] books[i].0 != #[trigger] books[j].0
}

/// Most profitable first.
pub open spec fn ranked_by_profit(s: Seq<OpportunityView>) -> bool {
    forall|i: int, j: int| 0 <= i < j < s.len() ==> s[i].net_profit_usd >= s[j].net_profit_usd
}

/// Evaluates one directed pair of quotes.
fn evaluate_pair(
    symbol: &String,
    buy: (Exchange, MarketBook),
    sell: (Exchange, MarketBook),
    now: u64,
    fees: &FeeConfig,
) -> (r: Option<ArbitrageOpportunity>)
    ensures
        option_view(r) == opportunity_for(symbol@, buy.0, buy.1, sell.0, sell.1, now, *fees),
{
    let (eb, bb) = buy;
    let (es, bs) = sell;
    if eb == es {
        return None;
    }
    let age_buy: u64 = if now >= bb.timestamp { now - bb.timestamp } else { 0 };
    let age_sell: u64 = if now >= bs.timestamp { now - bs.timestamp } else { 0 };
    let age: u64 = if age_buy >= age_sell { age_buy } else { age_sell };
    if age > MAX_DATA_AGE_MS {
        return None;
    }
    let buy_price = bb.ask;
    let sell_price = bs.bid;
    if sell_price <= buy_price {
        return None;
    }
    let qty: u64 = if bb.ask_size <= bs.bid_size { bb.ask_size } else { bs.bid_size };
    proof {
        lemma_product_fits(qty, buy_price);
        lemma_product_fits(qty, sell_price);
    }
    let usd: u128 = (qty as u128) * (buy_price as u128) / (PRICE_SCALE as u128);
    if usd < MIN_TRADE_USD {
        return None;
    }
    let fee_buy = fees.get_taker_fee(eb);
    let fee_sell = fees.get_taker_fee(es);
    proof {
        lemma_rate_fits(usd, fee_buy);
    }
    let cost: u128 = usd * ((PPM + fee_buy) as u128) / (PPM as u128);
    let sell_usd: u128 = (qty as u128) * (sell_price as u128) / (PRICE_SCALE as u128);
    proof {
        lemma_rate_fits(sell_usd, 0);
        assert(sell_usd * ((PPM - fee_sell) as u128) <= sell_usd * (PPM as u128)) by (nonlinear_arith)
            requires fee_sell <= PPM;
    }
    let revenue: u128 = sell_usd * ((PPM - fee_sell) as u128) / (PPM as u128);
    if revenue <= cost || revenue - cost <= MIN_NET_PROFIT_USD {
        return None;
    }
    let net: u128 = revenue - cost;
    proof {
        let (u, c, f) = (usd as int, cost as int, fee_buy as int);
        assert(c >= u) by (nonlinear_arith)
            requires c == u * (1_000_000 + f) / 1_000_000, f >= 0, u >= 0;
        let (q, p) = (qty as int, buy_price as int);
        assert(p > 0) by (nonlinear_arith)
            requires u == q * p / 100_000_000, u >= 1_000_000_000, q >= 0, p >= 0;
        let (n, sv) = (net as int, sell_usd as int);
        assert(n * 1_000_000 <= sv * 1_000_000) by (nonlinear_arith)
            requires n <= sv;
    }
    let net_ppm: u128 = net * (PPM as u128) / cost;
    let spread: u128 = ((sell_price - buy_price) as u128) * (PPM as u128) / (buy_price as u128);
    let bottleneck = if bb.ask_size < bs.bid_size { eb } else { es };
    Some(ArbitrageOpportunity {
        symbol: symbol.clone(),
        buy_exchange: eb,
        buy_price,
        sell_exchange: es,
        sell_price,
        spread_ppm: spread,
        total_fees_ppm: fee_buy + fee_sell,
        net_profit_ppm: net_ppm,
        net_profit_usd: net,
        max_tradeable_qty: qty,
        max_tradeable_usd: usd,
        liquidity_bottleneck: bottleneck,
        data_age_ms: age,
        timestamp: now,
        created_at: now,
    })
}

/// Whether `x` ranks strictly ahead of `y`.
fn ranks_ahead_exec(x: &ArbitrageOpportunity, y: &ArbitrageOpportunity) -> (r: bool)
    ensures
        r == ranks_ahead(x@, y@),
{
    if x.net_profit_usd != y.net_profit_usd {
        return x.net_profit_usd > y.net_profit_usd;
    }
    if text_precedes(x.symbol.as_str(), y.symbol.as_str()) {
        return true;
    }
    if x.symbol != y.symbol {
        return false;
    }
    let (xb, yb) = (venue_position(x.buy_exchange), venue_position(y.buy_exchange));
    if xb != yb {
        return xb < yb;
    }
    proof {
        assert(x.buy_exchange == y.buy_exchange);
    }
    venue_position(x.sell_exchange) < venue_position(y.sell_exchange)
}

/// Places `o` into `v` as `insert_ranked` does.
fn insert_ranked_exec(v: &mut Vec<ArbitrageOpportunity>, o: ArbitrageOpportunity)
    ensures
        views(final(v)@) == insert_ranked(views(old(v)@), o@),
{
    let mut j: usize = v.len();
    while j > 0 && ranks_ahead_exec(&o, &v[j - 1])
        invariant
            j <= v@.len(),
            forall|k: int| j <= k < v@.len() ==> ranks_ahead(o@, #[trigger] v@[k]@),
        decreases j,
    {
        j = j - 1;
    }
    proof {
        lemma_insert_ranked_at(views(v@), o@, j as int);
    }
    let ghost before = v@;
    v.insert(j, o);
    proof {
        assert(views(v@) =~= views(before).subrange(0, j as int).push(o@) + views(before).subrange(
            j as int,
            before.len() as int,
        ));
    }
}

/// Ranks the opportunities of one symbol into `out`, which holds the
/// ranking of `found`.
fn scan_symbol(
    symbol: &String,
    books: &Vec<(Exchange, MarketBook)>,
    now: u64,
    fees: &FeeConfig,
    out: &mut Vec<ArbitrageOpportunity>,
    Ghost(found): Ghost<Seq<OpportunityView>>,
)
    requires
        views(old(out)@) == ranked(found),
    ensures
        views(final(out)@) == ranked(
            found + symbol_candidates(symbol@, books@, books@.len() as int, now, *fees),
        ),
{
    let mut i: usize = 0;
    while i < books.len()
        invariant
            i <= books@.len(),
            views(out@) == ranked(found + symbol_candidates(symbol@, books@, i as int, now, *fees)),
        decreases books@.len() - i,
    {
        let ghost base = found + symbol_candidates(symbol@, books@, i as int, now, *fees);
        let mut j: usize = 0;
        while j < books.len()
            invariant
                i < books@.len(),
                j <= books@.len(),
                base == found + symbol_candidates(symbol@, books@, i as int, now, *fees),
                views(out@) == ranked(base + row_candidates(symbol@, books@, i as int, j as int, now, *fees)),
            decreases books@.len() - j,
        {
            let ghost so_far = base + row_candidates(symbol@, books@, i as int, j as int, now, *fees);
            match evaluate_pair(symbol, books[i], books[j], now, fees) {
                Some(o) => {
                    proof {
                        assert(so_far.push(o@).drop_last() =~= so_far);
                        assert(base + row_candidates(symbol@, books@, i as int, j + 1, now, *fees)
                            =~= so_far.push(o@));
                    }
                    insert_ranked_exec(out, o);
                },
                None => {
                    proof {
                        assert(base + row_candidates(symbol@, books@, i as int, j + 1, now, *fees)
                            =~= so_far);
                    }
                },
            }
            j = j + 1;
        }
        proof {
            assert(found + symbol_candidates(symbol@, books@, i + 1, now, *fees) =~= base
                + row_candidates(symbol@, books@, i as int, books@.len() as int, now, *fees));
        }
        i = i + 1;
    }
}

/// The ranked opportunities of a snapshot taken at time `now`.
fn scan_with(snapshot: &Snapshot, now: u64, fees: &FeeConfig) -> (r: Vec<ArbitrageOpportunity>)
    ensures
        views(r@) == scan_result(snapshot_view(snapshot@), *fees, now),
{
    let ghost snap = snapshot_view(snapshot@);
    let mut out: Vec<ArbitrageOpportunity> = Vec::new();
    proof {
        assert(views(out@) =~= Seq::<OpportunityView>::empty());
    }
    let mut k: usize = 0;
    while k < snapshot.len()
        invariant
            k <= snapshot@.len(),
            snap == snapshot_view(snapshot@),
            views(out@) == ranked(candidates(snap, k as int, now, *fees)),
        decreases snapshot@.len() - k,
    {
        let entry = &snapshot[k];
        scan_symbol(&entry.0, &entry.1, now, fees, &mut out, Ghost(candidates(snap, k as int, now, *fees)));
        k = k + 1;
    }
    out
}

/// Scans the book store for opportunities, using the default fee schedule.
pub struct ArbitrageDetector {
    aggregator: PriceAggregator,
    fee_config: FeeConfig,
}

impl ArbitrageDetector {
    /// The fee schedule that scans apply.
    pub closed spec fn fees(&self) -> FeeConfig {
        self.fee_config
    }

    /// A detector over the store behind `aggregator`.
    pub fn new(aggregator: PriceAggregator) -> (r: ArbitrageDetector)
        ensures
            r.fees().is_default_schedule(),
    {
        ArbitrageDetector { aggregator, fee_config: FeeConfig::default() }
    }

    /// The opportunities of `snapshot` at time `now`, most profitable first;
    /// equal profits by symbol in character order, then buy venue, then sell
    /// venue (Binance, Hyperliquid, Bybit, Extended).
    pub fn scan_snapshot(&self, snapshot: &Snapshot, now: u64) -> (r: Vec<ArbitrageOpportunity>)
        ensures
            views(r@) == scan_result(snapshot_view(snapshot@), self.fees(), now),
    {
        scan_with(snapshot, now, &self.fee_config)
    }

    /// Takes a snapshot of the store and scans it at the current time.
    /// Writers may change the store meanwhile, so the result is the scan of
    /// some snapshot at some time; whatever it was, every opportunity is
    /// sound, the list is ranked, and no (symbol, buy venue, sell venue)
    /// appears twice, since the store holds each symbol and venue once.
    pub fn detect_opportunities(&self) -> (r: Vec<ArbitrageOpportunity>)
        ensures
            exists|snap: Seq<(Seq<char>, Seq<(Exchange, MarketBook)>)>, now: u64|
                views(r@) == #[trigger] scan_result(snap, self.fees(), now),
            forall|k: int| 0 <= k < r@.len() ==> sound_opportunity(#[trigger] views(r@)[k]),
            in_rank_order(views(r@)),
            ranked_by_profit(views(r@)),
            distinct_keys(views(r@)),
    {
        let symbols = self.aggregator.get_all_symbols();
        let now = now_millis();
        let mut snapshot: Snapshot = Vec::new();
        let mut k: usize = 0;
        proof {
            assert(snapshot_view(snapshot@) =~= Seq::empty());
        }
        while k < symbols.len()
            invariant
                k <= symbols@.len(),
                forall|i: int, j: int| 0 <= i < j < symbols@.len() ==> symbols@[i]@ != symbols@[j]@,
                forall|i: int| #![trigger snapshot@[i]]
                    0 <= i < snapshot@.len() ==> exists|m: int|
                        0 <= m < k && #[trigger] symbols@[m]@ == snapshot@[i].0@,
                distinct_snapshot(snapshot_view(snapshot@)),
            decreases symbols@.len() - k,
        {
            let symbol = &symbols[k];
            match self.aggregator.get_books(symbol.as_str()) {
                Some(books) => {
                    let ghost before = snapshot@;
                    snapshot.push((symbol.clone(), books));
                    proof {
                        let sv = snapshot_view(snapshot@);
                        assert(snapshot_view(before) =~= sv.drop_last());
                        assert forall|i: int, j: int| 0 <= i < j < sv.len() implies #[trigger] sv[i].0
                            != #[trigger] sv[j].0 by {
                            if j == sv.len() - 1 {
                                assert(snapshot@[i] == before[i]);
                                let m = choose|m: int| 0 <= m < k && #[trigger] symbols@[m]@ == before[i].0@;
                                assert(symbols@[m]@ != symbols@[k as int]@);
                            } else {
                                assert(sv[i] == snapshot_view(before)[i]);
                                assert(sv[j] == snapshot_view(before)[j]);
                            }
                        }
                        assert forall|q: int| 0 <= q < sv.len() implies distinct_venues(#[trigger] sv[q].1) by {
                            if q < sv.len() - 1 {
                                assert(sv[q] == snapshot_view(before)[q]);
                            }
                        }
                        assert forall|i: int| #![trigger snapshot@[i]]
                            0 <= i < snapshot@.len() implies exists|m: int|
                                0 <= m < k + 1 && #[trigger] symbols@[m]@ == snapshot@[i].0@ by {
                            if i < before.len() {
                                assert(snapshot@[i] == before[i]);
                                let m = choose|m: int| 0 <= m < k && #[trigger] symbols@[m]@ == before[i].0@;
                                assert(0 <= m < k + 1 && symbols@[m]@ == snapshot@[i].0@);
                            } else {
                                assert(symbols@[k as int]@ == snapshot@[i].0@);
                            }
                        }
                    }
                },
                None => {},
            }
            k = k + 1;
        }
        let r = self.scan_snapshot(&snapshot, now);
        proof {
            lemma_scan_sound(snapshot_view(snapshot@), self.fees(), now);
            lemma_scan_ranked(snapshot_view(snapshot@), self.fees(), now);
            lemma_scan_distinct(snapshot_view(snapshot@), self.fees(), now);
        }
        r
    }
}

/// Every opportunity that a scan returns buys on one venue and sells on
/// another, buys at a positive price below the price it sells at, makes a positive net profit, is worth at least the minimum trade size,
/// and rests on quotes no older than the staleness bound.
pub proof fn lemma_scan_sound(
    snap: Seq<(Seq<char>, Seq<(Exchange, MarketBook)>)>,
    fees: FeeConfig,
    now: u64,
)
    ensures
        forall|k: int|
            0 <= k < scan_result(snap, fees, now).len() ==> sound_opportunity(
                #[trigger] scan_result(snap, fees, now)[k],
            ),
{
    let p = |o: OpportunityView| sound_opportunity(o);
    lemma_candidates_hold(snap, snap.len() as int, now, fees, p);
    lemma_ranked_holds(candidates(snap, snap.len() as int, now, fees), p);
}

/// A scan lists its opportunities by net profit, most profitable first,
/// and equally profitable ones by symbol, buy venue and sell venue.
pub proof fn lemma_scan_ranked(
    snap: Seq<(Seq<char>, Seq<(Exchange, MarketBook)>)>,
    fees: FeeConfig,
    now: u64,
)
    ensures
        in_rank_order(scan_result(snap, fees, now)),
        ranked_by_profit(scan_result(snap, fees, now)),
{
    let r = scan_result(snap, fees, now);
    lemma_ranked_sorted(candidates(snap, snap.len() as int, now, fees));
    assert forall|i: int, j: int| 0 <= i < j < r.len() implies r[i].net_profit_usd >= r[j].net_profit_usd by {
        assert(!ranks_ahead(r[j], r[i]));
    }
}

/// A scan of a snapshot without repeated symbols or venues lists each
/// (symbol, buy venue, sell venue) at most once, so equally profitable
/// opportunities come in a strict key order.
pub proof fn lemma_scan_distinct(
    snap: Seq<(Seq<char>, Seq<(Exchange, MarketBook)>)>,
    fees: FeeConfig,
    now: u64,
)
    requires
        distinct_snapshot(snap),
    ensures
        distinct_keys(scan_result(snap, fees, now)),
{
    lemma_candidates_distinct(snap, snap.len() as int, now, fees);
    lemma_ranked_distinct(candidates(snap, snap.len() as int, now, fees));
}

/// `insert_ranked` puts `o` somewhere among `s`, whose order it keeps.
proof fn lemma_insert_ranked_splits(s: Seq<OpportunityView>, o: OpportunityView) -> (j: int)
    ensures
        0 <= j <= s.len(),
        insert_ranked(s, o) == s.subrange(0, j).push(o) + s.subrange(j, s.len() as int),
    decreases s.len(),
{
    if s.len() == 0 {
        assert(insert_ranked(s, o) =~= s.subrange(0, 0).push(o) + s.subrange(0, 0));
        0
    } else if !ranks_ahead(o, s.last()) {
        assert(insert_ranked(s, o) =~= s.subrange(0, s.len() as int).push(o) + s.subrange(
            s.len() as int,
            s.len() as int,
        ));
        s.len() as int
    } else {
        let j = lemma_insert_ranked_splits(s.drop_last(), o);
        assert(insert_ranked(s, o) =~= s.subrange(0, j).push(o) + s.subrange(j, s.len() as int));
        j
    }
}

/// Ranking keeps keys distinct.
proof fn lemma_ranked_distinct(c: Seq<OpportunityView>)
    requires
        distinct_keys(c),
    ensures
        distinct_keys(ranked(c)),
    decreases c.len(),
{
    if c.len() > 0 {
        let d = c.drop_last();
        let o = c.last();
        assert forall|i: int, j: int| 0 <= i < j < d.len() implies !same_key(#[trigger] d[i], #[trigger] d[j]) by {
            assert(!same_key(c[i], c[j]));
        }
        lemma_ranked_distinct(d);
        let p = |x: OpportunityView| !same_key(x, o);
        assert forall|k: int| 0 <= k < d.len() implies p(#[trigger] d[k]) by {
            assert(!same_key(c[k], c[c.len() - 1]));
        }
        lemma_ranked_holds(d, p);
        let r = ranked(d);
        let jj = lemma_insert_ranked_splits(r, o);
        let e = insert_ranked(r, o);
        assert forall|i: int, j: int| 0 <= i < j < e.len() implies !same_key(#[trigger] e[i], #[trigger] e[j]) by {
            if i < jj && j < jj {
                assert(e[i] == r[i] && e[j] == r[j]);
            } else if i < jj && j == jj {
                assert(e[i] == r[i] && p(r[i]));
            } else if i < jj {
                assert(e[i] == r[i] && e[j] == r[j - 1]);
            } else if i == jj {
                assert(e[j] == r[j - 1] && p(r[j - 1]));
            } else {
                assert(e[i] == r[i - 1] && e[j] == r[j - 1]);
            }
        }
    }
}

/// A row's opportunities all trade `symbol` bought on `books[i]`, sell on
/// none of `books[n..]`, and have distinct keys.
proof fn lemma_row_distinct(
    symbol: Seq<char>,
    books: Seq<(Exchange, MarketBook)>,
    i: int,
    n: int,
    now: u64,
    fees: FeeConfig,
)
    requires
        distinct_venues(books),
        0 <= n <= books.len(),
    ensures
        distinct_keys(row_candidates(symbol, books, i, n, now, fees)),
        forall|k: int| #![trigger row_candidates(symbol, books, i, n, now, fees)[k]]
            0 <= k < row_candidates(symbol, books, i, n, now, fees).len() ==> {
                let x = row_candidates(symbol, books, i, n, now, fees)[k];
                &&& x.symbol == symbol
                &&& x.buy_exchange == books[i].0
                &&& forall|t: int| n <= t < books.len() ==> x.sell_exchange != #[trigger] books[t].0
            },
    decreases n,
{
    if n > 0 {
        lemma_row_distinct(symbol, books, i, n - 1, now, fees);
        let prev = row_candidates(symbol, books, i, n - 1, now, fees);
        let cur = row_candidates(symbol, books, i, n, now, fees);
        assert forall|k: int| #![trigger cur[k]] 0 <= k < cur.len() implies ({
            let x = cur[k];
            &&& x.symbol == symbol
            &&& x.buy_exchange == books[i].0
            &&& forall|t: int| n <= t < books.len() ==> x.sell_exchange != #[trigger] books[t].0
        }) by {
            if k < prev.len() {
                assert(cur[k] == prev[k]);
                assert forall|t: int| n <= t < books.len() implies cur[k].sell_exchange != #[trigger] books[t].0 by {
                    assert(n - 1 <= t);
                }
            } else {
                assert forall|t: int| n <= t < books.len() implies cur[k].sell_exchange != #[trigger] books[t].0 by {
                    assert(books[n - 1].0 != books[t].0);
                }
            }
        }
        assert forall|a: int, b: int| 0 <= a < b < cur.len() implies !same_key(#[trigger] cur[a], #[trigger] cur[b]) by {
            assert(cur[a] == prev[a]);
            if b < prev.len() {
                assert(cur[b] == prev[b]);
            } else {
                assert(cur[a].sell_exchange != books[n - 1].0);
            }
        }
    }
}

/// A symbol's opportunities all trade `symbol`, buy on none of
/// `books[m..]`, and have distinct keys.
proof fn lemma_symbol_distinct(
    symbol: Seq<char>,
    books: Seq<(Exchange, MarketBook)>,
    m: int,
    now: u64,
    fees: FeeConfig,
)
    requires
        distinct_venues(books),
        0 <= m <= books.len(),
    ensures
        distinct_keys(symbol_candidates(symbol, books, m, now, fees)),
        forall|k: int| #![trigger symbol_candidates(symbol, books, m, now, fees)[k]]
            0 <= k < symbol_candidates(symbol, books, m, now, fees).len() ==> {
                let x = symbol_candidates(symbol, books, m, now, fees)[k];
                &&& x.symbol == symbol
                &&& forall|t: int| m <= t < books.len() ==> x.buy_exchange != #[trigger] books[t].0
            },
    decreases m,
{
    if m > 0 {
        lemma_symbol_distinct(symbol, books, m - 1, now, fees);
        lemma_row_distinct(symbol, books, m - 1, books.len() as int, now, fees);
        let a = symbol_candidates(symbol, books, m - 1, now, fees);
        let b = row_candidates(symbol, books, m - 1, books.len() as int, now, fees);
        let c = a + b;
        assert(c == symbol_candidates(symbol, books, m, now, fees));
        assert forall|k: int| #![trigger c[k]] 0 <= k < c.len() implies ({
            let x = c[k];
            &&& x.symbol == symbol
            &&& forall|t: int| m <= t < books.len() ==> x.buy_exchange != #[trigger] books[t].0
        }) by {
            if k < a.len() {
                assert(c[k] == a[k]);
                assert forall|t: int| m <= t < books.len() implies c[k].buy_exchange != #[trigger] books[t].0 by {
                    assert(m - 1 <= t);
                }
            } else {
                assert(c[k] == b[k - a.len()]);
                assert forall|t: int| m <= t < books.len() implies c[k].buy_exchange != #[trigger] books[t].0 by {
                    assert(books[m - 1].0 != books[t].0);
                }
            }
        }
        assert forall|i: int, j: int| 0 <= i < j < c.len() implies !same_key(#[trigger] c[i], #[trigger] c[j]) by {
            if j < a.len() {
                assert(c[i] == a[i] && c[j] == a[j]);
            } else if i < a.len() {
                assert(c[i] == a[i] && c[j] == b[j - a.len()]);
                assert(c[i].buy_exchange != books[m - 1].0);
            } else {
                assert(c[i] == b[i - a.len()] && c[j] == b[j - a.len()]);
            }
        }
    }
}

/// The opportunities of the first `k` symbols of a snapshot have distinct
/// keys and trade none of the symbols from `k` on.
proof fn lemma_candidates_distinct(
    snap: Seq<(Seq<char>, Seq<(Exchange, MarketBook)>)>,
    k: int,
    now: u64,
    fees: FeeConfig,
)
    requires
        distinct_snapshot(snap),
        0 <= k <= snap.len(),
    ensures
        distinct_keys(candidates(snap, k, now, fees)),
        forall|i: int| #![trigger candidates(snap, k, now, fees)[i]]
            0 <= i < candidates(snap, k, now, fees).len() ==> forall|t: int|
                k <= t < snap.len() ==> candidates(snap, k, now, fees)[i].symbol != #[trigger] snap[t].0,
    decreases k,
{
    if k > 0 {
        lemma_candidates_distinct(snap, k - 1, now, fees);
        let e = snap[k - 1];
        assert(distinct_venues(snap[k - 1].1));
        lemma_symbol_distinct(e.0, e.1, e.1.len() as int, now, fees);
        let a = candidates(snap, k - 1, now, fees);
        let b = symbol_candidates(e.0, e.1, e.1.len() as int, now, fees);
        let c = a + b;
        assert(c == candidates(snap, k, now, fees));
        assert forall|i: int| #![trigger c[i]] 0 <= i < c.len() implies forall|t: int|
            k <= t < snap.len() ==> c[i].symbol != #[trigger] snap[t].0 by {
            if i < a.len() {
                assert(c[i] == a[i]);
                assert forall|t: int| k <= t < snap.len() implies c[i].symbol != #[trigger] snap[t].0 by {
                    assert(k - 1 <= t);
                }
            } else {
                assert(c[i] == b[i - a.len()]);
                assert forall|t: int| k <= t < snap.len() implies c[i].symbol != #[trigger] snap[t].0 by {
                    assert(snap[k - 1].0 != snap[t].0);
                }
            }
        }
        assert forall|i: int, j: int| 0 <= i < j < c.len() implies !same_key(#[trigger] c[i], #[trigger] c[j]) by {
            if j < a.len() {
                assert(c[i] == a[i] && c[j] == a[j]);
            } else if i < a.len() {
                assert(c[i] == a[i] && c[j] == b[j - a.len()]);
                assert(c[i].symbol != snap[k - 1].0);
            } else {
                assert(c[i] == b[i - a.len()] && c[j] == b[j - a.len()]);
            }
        }
    }
}

/// Scanning is a read: two scans of the same snapshot at the same time give
/// the same list.
pub proof fn lemma_scan_idempotent(
    snap: Seq<(Seq<char>, Seq<(Exchange, MarketBook)>)>,
    fees: FeeConfig,
    now: u64,
    first: Seq<ArbitrageOpportunity>,
    second: Seq<ArbitrageOpportunity>,
)
    requires
        views(first) == scan_result(snap, fees, now),
        views(second) == scan_result(snap, fees, now),
    ensures
        views(first) == views(second),
{
}

/// Every property that all of `s` and `o` have, all of `insert_ranked(s, o)` has.
proof fn lemma_insert_ranked_holds(s: Seq<OpportunityView>, o: OpportunityView, p: spec_fn(OpportunityView) -> bool)
    requires
        forall|k: int| 0 <= k < s.len() ==> p(#[trigger] s[k]),
        p(o),
    ensures
        forall|k: int| 0 <= k < insert_ranked(s, o).len() ==> p(#[trigger] insert_ranked(s, o)[k]),
        insert_ranked(s, o).len() == s.len() + 1,
    decreases s.len(),
{
    if s.len() > 0 && ranks_ahead(o, s.last()) {
        lemma_insert_ranked_holds(s.drop_last(), o, p);
        let d = insert_ranked(s.drop_last(), o);
        assert forall|k: int| 0 <= k < insert_ranked(s, o).len() implies p(#[trigger] insert_ranked(s, o)[k]) by {
            if k < d.len() {
                assert(p(d[k]));
            }
        }
    }
}

/// Every property that all of `c` have, all of `ranked(c)` has.
proof fn lemma_ranked_holds(c: Seq<OpportunityView>, p: spec_fn(OpportunityView) -> bool)
    requires
        forall|k: int| 0 <= k < c.len() ==> p(#[trigger] c[k]),
    ensures
        forall|k: int| 0 <= k < ranked(c).len() ==> p(#[trigger] ranked(c)[k]),
        ranked(c).len() == c.len(),
    decreases c.len(),
{
    if c.len() > 0 {
        let d = c.drop_last();
        assert forall|k: int| 0 <= k < d.len() implies p(#[trigger] d[k]) by {
            assert(d[k] == c[k]);
        }
        lemma_ranked_holds(d, p);
        assert(p(c[c.len() - 1]));
        lemma_insert_ranked_holds(ranked(d), c.last(), p);
    }
}

/// Inserting keeps a sequence in rank order.
proof fn lemma_insert_ranked_sorted(s: Seq<OpportunityView>, o: OpportunityView)
    requires
        in_rank_order(s),
    ensures
        in_rank_order(insert_ranked(s, o)),
    decreases s.len(),
{
    if s.len() == 0 {
    } else if !ranks_ahead(o, s.last()) {
        let r = s.push(o);
        let last = s.last();
        assert forall|i: int, j: int| 0 <= i < j < r.len() implies !ranks_ahead(#[trigger] r[j], #[trigger] r[i]) by {
            if j == s.len() && i < s.len() - 1 {
                assert(!ranks_ahead(s[s.len() - 1], s[i]));
                if ranks_ahead(o, s[i]) {
                    lemma_ranks_ahead_split(o, s[i], last);
                }
            }
        }
    } else {
        let d = s.drop_last();
        let last = s.last();
        assert forall|i: int, j: int| 0 <= i < j < d.len() implies !ranks_ahead(#[trigger] d[j], #[trigger] d[i]) by {
            assert(!ranks_ahead(s[j], s[i]));
        }
        lemma_insert_ranked_sorted(d, o);
        let p = |x: OpportunityView| !ranks_ahead(last, x);
        assert forall|k: int| 0 <= k < d.len() implies p(#[trigger] d[k]) by {
            assert(!ranks_ahead(s[s.len() - 1], s[k]));
        }
        lemma_ranks_ahead_asym(o, last);
        lemma_insert_ranked_holds(d, o, p);
        let e = insert_ranked(d, o);
        let r = e.push(last);
        assert forall|i: int, j: int| 0 <= i < j < r.len() implies !ranks_ahead(#[trigger] r[j], #[trigger] r[i]) by {
            if j == e.len() {
                assert(p(e[i]));
            } else {
                assert(!ranks_ahead(e[j], e[i]));
            }
        }
    }
}

/// `ranked` is in rank order.
proof fn lemma_ranked_sorted(c: Seq<OpportunityView>)
    ensures
        in_rank_order(ranked(c)),
    decreases c.len(),
{
    if c.len() > 0 {
        lemma_ranked_sorted(c.drop_last());
        lemma_insert_ranked_sorted(ranked(c.drop_last()), c.last());
    }
}

/// Keys are ordered transitively.
proof fn lemma_key_before_trans(x: OpportunityView, y: OpportunityView, z: OpportunityView)
    requires
        key_before(x, y),
        key_before(y, z),
    ensures
        key_before(x, z),
{
    if text_before(x.symbol, y.symbol) && text_before(y.symbol, z.symbol) {
        lemma_text_before_trans(x.symbol, y.symbol, z.symbol, 0);
    }
}

/// No two keys come before each other.
proof fn lemma_key_before_asym(x: OpportunityView, y: OpportunityView)
    requires
        key_before(x, y),
    ensures
        !key_before(y, x),
{
    if text_before(x.symbol, y.symbol) {
        lemma_text_before_asym(x.symbol, y.symbol, 0);
    }
    if x.symbol == y.symbol {
        lemma_text_before_asym_self(x.symbol);
    }
}

proof fn lemma_text_before_asym_self(a: Seq<char>)
    ensures
        !text_before(a, a),
{
    if text_before(a, a) {
        lemma_text_before_asym(a, a, 0);
    }
}

/// No two opportunities rank ahead of each other.
proof fn lemma_ranks_ahead_asym(x: OpportunityView, y: OpportunityView)
    requires
        ranks_ahead(x, y),
    ensures
        !ranks_ahead(y, x),
{
    if x.net_profit_usd == y.net_profit_usd {
        lemma_key_before_asym(x, y);
    }
}

/// When `x` ranks ahead of `z`, it ranks ahead of `y` or `y` ranks ahead of `z`.
proof fn lemma_ranks_ahead_split(x: OpportunityView, z: OpportunityView, y: OpportunityView)
    requires
        ranks_ahead(x, z),
    ensures
        ranks_ahead(x, y) || ranks_ahead(y, z),
{
    if x.net_profit_usd == z.net_profit_usd && y.net_profit_usd == x.net_profit_usd {
        lemma_text_before_total(x.symbol, y.symbol);
        if key_before(y, x) {
            lemma_key_before_trans(y, x, z);
        }
    }
}

/// Every candidate of a directed pair is sound.
proof fn lemma_opportunity_sound(
    symbol: Seq<char>,
    eb: Exchange,
    bb: MarketBook,
    es: Exchange,
    bs: MarketBook,
    now: u64,
    fees: FeeConfig,
)
    ensures
        opportunity_for(symbol, eb, bb, es, bs, now, fees) matches Some(o) ==> sound_opportunity(o),
{
    let q = tradeable_qty(bb, bs);
    let p = bb.ask as int;
    if q * p / (PRICE_SCALE as int) >= MIN_TRADE_USD {
        assert(p > 0) by (nonlinear_arith)
            requires q * p / 100_000_000 >= 1_000_000_000, q >= 0, p >= 0;
    }
}

/// Every candidate of a row is sound.
proof fn lemma_row_holds(
    symbol: Seq<char>,
    books: Seq<(Exchange, MarketBook)>,
    i: int,
    n: int,
    now: u64,
    fees: FeeConfig,
    p: spec_fn(OpportunityView) -> bool,
)
    requires
        p == (|o: OpportunityView| sound_opportunity(o)),
    ensures
        forall|k: int| 0 <= k < row_candidates(symbol, books, i, n, now, fees).len() ==> p(
            #[trigger] row_candidates(symbol, books, i, n, now, fees)[k],
        ),
    decreases n,
{
    if n > 0 {
        lemma_row_holds(symbol, books, i, n - 1, now, fees, p);
        lemma_opportunity_sound(symbol, books[i].0, books[i].1, books[n - 1].0, books[n - 1].1, now, fees);
        let prev = row_candidates(symbol, books, i, n - 1, now, fees);
        let cur = row_candidates(symbol, books, i, n, now, fees);
        assert forall|k: int| 0 <= k < cur.len() implies p(#[trigger] cur[k]) by {
            if k < prev.len() {
                assert(p(prev[k]));
            }
        }
    }
}

/// Every candidate of a symbol is sound.
proof fn lemma_symbol_holds(
    symbol: Seq<char>,
    books: Seq<(Exchange, MarketBook)>,
    m: int,
    now: u64,
    fees: FeeConfig,
    p: spec_fn(OpportunityView) -> bool,
)
    requires
        p == (|o: OpportunityView| sound_opportunity(o)),
    ensures
        forall|k: int| 0 <= k < symbol_candidates(symbol, books, m, now, fees).len() ==> p(
            #[trigger] symbol_candidates(symbol, books, m, now, fees)[k],
        ),
    decreases m,
{
    if m > 0 {
        lemma_symbol_holds(symbol, books, m - 1, now, fees, p);
        lemma_row_holds(symbol, books, m - 1, books.len() as int, now, fees, p);
        let a = symbol_candidates(symbol, books, m - 1, now, fees);
        let b = row_candidates(symbol, books, m - 1, books.len() as int, now, fees);
        assert forall|k: int| 0 <= k < (a + b).len() implies p(#[trigger] (a + b)[k]) by {
            if k < a.len() {
                assert(p(a[k]));
            } else {
                assert(p(b[k - a.len()]));
            }
        }
    }
}

/// Every candidate of a snapshot is sound.
proof fn lemma_candidates_hold(
    snap: Seq<(Seq<char>, Seq<(Exchange, MarketBook)>)>,
    k: int,
    now: u64,
    fees: FeeConfig,
    p: spec_fn(OpportunityView) -> bool,
)
    requires
        p == (|o: OpportunityView| sound_opportunity(o)),
    ensures
        forall|i: int| 0 <= i < candidates(snap, k, now, fees).len() ==> p(
            #[trigger] candidates(snap, k, now, fees)[i],
        ),
    decreases k,
{
    if k > 0 {
        lemma_candidates_hold(snap, k - 1, now, fees, p);
        lemma_symbol_holds(snap[k - 1].0, snap[k - 1].1, snap[k - 1].1.len() as int, now, fees, p);
        let a = candidates(snap, k - 1, now, fees);
        let b = symbol_candidates(snap[k - 1].0, snap[k - 1].1, snap[k - 1].1.len() as int, now, fees);
        assert forall|i: int| 0 <= i < (a + b).len() implies p(#[trigger] (a + b)[i]) by {
            if i < a.len() {
                assert(p(a[i]));
            } else {
                assert(p(b[i - a.len()]));
            }
        }
    }
}

/// Inserting into `s` at position `j` is `insert_ranked` when `o` ranks
/// ahead of every element from `j` on and not of the one before `j`.
proof fn lemma_insert_ranked_at(s: Seq<OpportunityView>, o: OpportunityView, j: int)
    requires
        0 <= j <= s.len(),
        forall|k: int| j <= k < s.len() ==> ranks_ahead(o, #[trigger] s[k]),
        j == 0 || !ranks_ahead(o, s[j - 1]),
    ensures
        insert_ranked(s, o) == s.subrange(0, j).push(o) + s.subrange(j, s.len() as int),
    decreases s.len(),
{
    if s.len() == 0 {
        assert(insert_ranked(s, o) =~= s.subrange(0, j).push(o) + s.subrange(j, s.len() as int));
    } else if j == s.len() {
        assert(insert_ranked(s, o) =~= s.subrange(0, j).push(o) + s.subrange(j, s.len() as int));
    } else {
        let d = s.drop_last();
        lemma_insert_ranked_at(d, o, j);
        assert(insert_ranked(s, o) =~= s.subrange(0, j).push(o) + s.subrange(j, s.len() as int));
    }
}

/// The product of two 64-bit values, scaled down, leaves room for a factor
/// of two million.
proof fn lemma_product_fits(a: u64, b: u64)
    ensures
        (a as u128) * (b as u128) <= u128::MAX,
        (a as int) * (b as int) / (PRICE_SCALE as int) <= 0x8000_0000_0000_0000_0000_0000_0000_0000u128 / 50_000_000,
{
    assert((a as int) * (b as int) <= 0xFFFF_FFFF_FFFF_FFFE_0000_0000_0000_0001int) by (nonlinear_arith)
        requires a <= 0xFFFF_FFFF_FFFF_FFFFu64, b <= 0xFFFF_FFFF_FFFF_FFFFu64;
    assert((a as int) * (b as int) / 100_000_000 <= 0x8000_0000_0000_0000_0000_0000_0000_0000int / 50_000_000) by (nonlinear_arith)
        requires (a as int) * (b as int) <= 0xFFFF_FFFF_FFFF_FFFE_0000_0000_0000_0001int, (a as int) * (b as int) >= 0;
}

/// A scaled-down product times a rate factor of at most two stays in range.
proof fn lemma_rate_fits(amount: u128, rate: u64)
    requires
        amount <= 0x8000_0000_0000_0000_0000_0000_0000_0000u128 / 50_000_000,
        rate <= PPM,
    ensures
        amount * ((PPM + rate) as u128) <= u128::MAX,
        amount * (PPM as u128) <= u128::MAX,
{
    assert(amount * ((PPM + rate) as int) <= u128::MAX) by (nonlinear_arith)
        requires amount <= 0x8000_0000_0000_0000_0000_0000_0000_0000u128 / 50_000_000, rate <= 1_000_000, PPM == 1_000_000;
    assert(amount * (PPM as int) <= u128::MAX) by (nonlinear_arith)
        requires amount <= 0x8000_0000_0000_0000_0000_0000_0000_0000u128 / 50_000_000, PPM == 1_000_000;
}

} // verus!
