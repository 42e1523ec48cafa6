//! The durable trade ledger's row format, and the recent history that is
//! seeded from it at startup.
//!
//! A row holds nine comma-separated fields: time of day, symbol, buy venue,
//! sell venue, executed buy price, executed sell price, realized profit,
//! resulting total balance (all four as decimals in USD), and a free-text
//! note, which a row may leave out. The first line of a ledger is its header.

use crate::exchanges::{exchange_name, Exchange};
use crate::execution::{record_views, TradeRecord, TradeRecordView, HISTORY_LEN};
use crate::units::PRICE_SCALE;
use vstd::prelude::*;
use vstd::string::*;

verus! {

/// Digits kept after the decimal point: those of `PRICE_SCALE`.
pub const SCALE_DIGITS: usize = 8;

/// `s` cut at every comma; a string without commas is one field.
pub open spec fn split_fields(s: Seq<char>) -> Seq<Seq<char>>
    decreases s.len(),
{
    if s.len() == 0 {
        seq![Seq::empty()]
    } else {
        let f = split_fields(s.drop_last());
        if s.last() == ',' {
            f.push(Seq::empty())
        } else {
            f.update(f.len() - 1, f.last().push(s.last()))
        }
    }
}

/// Index of the first `c` in `s`, or the length of `s` when there is none.
pub open spec fn first_index(s: Seq<char>, c: char) -> int
    decreases s.len(),
{
    if s.len() == 0 {
        0
    } else if s[0] == c {
        0
    } else {
        1 + first_index(s.drop_first(), c)
    }
}

pub open spec fn is_digit(c: char) -> bool {
    '0' <= c && c <= '9'
}

pub open spec fn all_digits(s: Seq<char>) -> bool {
    forall|i: int| 0 <= i < s.len() ==> is_digit(#[trigger] s[i])
}

/// The number that the decimal digits `s` write; zero for no digits.
pub open spec fn digits_value(s: Seq<char>) -> int
    decreases s.len(),
{
    if s.len() == 0 {
        0
    } else {
        digits_value(s.drop_last()) * 10 + (s.last() as int - '0' as int)
    }
}

pub open spec fn pow10(n: nat) -> int
    decreases n,
{
    if n == 0 { 1 } else { 10 * pow10((n - 1) as nat) }
}

/// The decimal `s` (digits, then optionally a point and more digits) in
/// units of `1 / PRICE_SCALE`, digits past the eighth after the point
/// dropped; `None` when `s` has another shape or the value exceeds `u128`.
pub open spec fn decimal_units(s: Seq<char>) -> Option<int> {
    let p = first_index(s, '.');
    let whole = s.subrange(0, p);
    let frac = if p < s.len() { s.subrange(p + 1, s.len() as int) } else { Seq::empty() };
    let kept = if frac.len() <= SCALE_DIGITS { frac } else { frac.subrange(0, SCALE_DIGITS as int) };
    let v = digits_value(whole) * PRICE_SCALE + digits_value(kept) * pow10((SCALE_DIGITS - kept.len()) as nat);
    if whole.len() > 0 && all_digits(whole) && all_digits(frac) && v <= u128::MAX {
        Some(v)
    } else {
        None
    }
}

/// Splits `s` at every comma.
pub fn split_at_commas(s: &str) -> (r: Vec<String>)
    ensures
        r@.map_values(|f: String| f@) == split_fields(s@),
{
    let n = s.unicode_len();
    let mut fields: Vec<String> = Vec::new();
    let mut start: usize = 0;
    let mut i: usize = 0;
    proof {
        assert(s@.subrange(0, 0) =~= Seq::<char>::empty());
        assert(fields@.map_values(|f: String| f@).push(s@.subrange(0, 0)) =~= split_fields(s@.subrange(0, 0)));
    }
    while i < n
        invariant
            n == s@.len(),
            start <= i <= n,
            fields@.map_values(|f: String| f@).push(s@.subrange(start as int, i as int)) == split_fields(
                s@.subrange(0, i as int),
            ),
        decreases n - i,
    {
        let c = s.get_char(i);
        let ghost prefix = s@.subrange(0, i + 1);
        proof {
            assert(prefix.drop_last() =~= s@.subrange(0, i as int));
        }
        if c == ',' {
            let ghost old_fields = fields@.map_values(|f: String| f@);
            let ghost old_start = start;
            let field = String::from_str(s.substring_char(start, i));
            fields.push(field);
            start = i + 1;
            proof {
                assert(fields@.map_values(|f: String| f@) =~= old_fields.push(s@.subrange(old_start as int, i as int)));
                assert(s@.subrange(start as int, i + 1) =~= Seq::<char>::empty());
                assert(fields@.map_values(|f: String| f@).push(s@.subrange(start as int, i + 1)) =~= split_fields(prefix));
            }
        } else {
            proof {
                assert(s@.subrange(start as int, i + 1) =~= s@.subrange(start as int, i as int).push(c));
                assert(fields@.map_values(|f: String| f@).push(s@.subrange(start as int, i + 1)) =~= split_fields(prefix));
            }
        }
        i = i + 1;
    }
    fields.push(String::from_str(s.substring_char(start, n)));
    proof {
        assert(s@.subrange(0, n as int) =~= s@);
        assert(fields@.map_values(|f: String| f@) =~= split_fields(s@));
    }
    fields
}

/// The value of a decimal digit.
fn digit_of(c: char) -> (r: u128)
    requires
        is_digit(c),
    ensures
        r == c as int - '0' as int,
{
    (c as u32 - '0' as u32) as u128
}

/// Reads a ledger decimal in units of `1 / PRICE_SCALE`, as `decimal_units` says.
pub fn parse_decimal_units(s: &str) -> (r: Option<u128>)
    ensures
        match r {
            Some(v) => decimal_units(s@) == Some(v as int),
            None => decimal_units(s@) is None,
        },
{
    let n = s.unicode_len();
    let mut i: usize = 0;
    let mut whole: u128 = 0;
    let mut too_large = false;
    while i < n && s.get_char(i) != '.'
        invariant
            i <= n == s@.len(),
            forall|k: int| 0 <= k < i ==> s@[k] != '.' && is_digit(#[trigger] s@[k]),
            !too_large ==> whole == digits_value(s@.subrange(0, i as int)),
            too_large ==> digits_value(s@.subrange(0, i as int)) > u128::MAX,
        decreases n - i,
    {
        let c = s.get_char(i);
        if !('0' <= c && c <= '9') {
            proof {
                lemma_first_index_at_least(s@, '.', i as int + 1);
                lemma_not_all_digits(s@.subrange(0, first_index(s@, '.')), i as int);
            }
            return None;
        }
        proof {
            assert(s@.subrange(0, i + 1).drop_last() =~= s@.subrange(0, i as int));
            lemma_digits_nonneg(s@.subrange(0, i as int));
        }
        let d = digit_of(c);
        if !too_large {
            match whole.checked_mul(10) {
                Some(w) => match w.checked_add(d) {
                    Some(w2) => whole = w2,
                    None => too_large = true,
                },
                None => too_large = true,
            }
        }
        i = i + 1;
    }
    proof {
        lemma_first_index_is(s@, '.', i as int);
    }
    let ghost p = i as int;
    let ghost whole_s = s@.subrange(0, p);
    if i == 0 {
        return None;
    }
    if too_large {
        proof {
            assert(all_digits(whole_s));
            assert(whole_s =~= s@.subrange(0, i as int));
            lemma_units_too_large(s@);
        }
        return None;
    }
    let mut frac: u128 = 0;
    let mut kept: usize = 0;
    let mut j: usize = if i < n { i + 1 } else { n };
    let ghost start = j as int;
    let ghost frac_s = s@.subrange(start, n as int);
    proof {
        if p < s@.len() {
            assert(frac_s == s@.subrange(p + 1, s@.len() as int));
        } else {
            assert(frac_s =~= Seq::<char>::empty());
        }
        assert(frac_s.subrange(0, 0) =~= Seq::<char>::empty());
    }
    while j < n
        invariant
            0 <= start <= j <= n == s@.len(),
            first_index(s@, '.') == p,
            p < s@.len() ==> start == p + 1,
            p >= s@.len() ==> start == n,
            frac_s == s@.subrange(start, n as int),
            forall|k: int| start <= k < j ==> is_digit(#[trigger] s@[k]),
            kept as int == if j - start <= SCALE_DIGITS { j - start } else { SCALE_DIGITS as int },
            frac == digits_value(frac_s.subrange(0, kept as int)),
            frac < pow10(kept as nat),
        decreases n - j,
    {
        let c = s.get_char(j);
        if !('0' <= c && c <= '9') {
            proof {
                assert(frac_s[j - start] == c);
                lemma_not_all_digits(frac_s, j - start);
            }
            return None;
        }
        if kept < SCALE_DIGITS {
            proof {
                assert(frac_s.subrange(0, kept + 1).drop_last() =~= frac_s.subrange(0, kept as int));
                assert(frac_s[kept as int] == c);
                lemma_pow10_step(kept as nat);
                lemma_pow10_mono((kept + 1) as nat, 8);
                lemma_pow10_eight();
            }
            frac = frac * 10 + digit_of(c);
            kept = kept + 1;
        }
        j = j + 1;
    }
    let ghost kept_s = frac_s.subrange(0, kept as int);
    proof {
        assert(all_digits(frac_s));
        if frac_s.len() <= SCALE_DIGITS {
            assert(kept_s =~= frac_s);
        }
    }
    proof {
        assert(pow10(0) == 1);
        assert(frac * pow10(0) == frac);
    }
    let mut scaled: u128 = frac;
    let mut pad: usize = kept;
    while pad < SCALE_DIGITS
        invariant
            kept <= pad <= SCALE_DIGITS,
            scaled == frac * pow10((pad - kept) as nat),
            scaled < pow10(pad as nat),
        decreases SCALE_DIGITS - pad,
    {
        proof {
            lemma_pow10_step((pad - kept) as nat);
            lemma_pow10_step(pad as nat);
            lemma_pow10_mono((pad + 1) as nat, 8);
            lemma_pow10_eight();
            let (f, x) = (frac as int, pow10((pad - kept) as nat));
            assert(f * (10 * x) == (f * x) * 10) by (nonlinear_arith);
            assert(((pad + 1 - kept) as nat) == ((pad - kept) as nat) + 1);
        }
        scaled = scaled * 10;
        pad = pad + 1;
    }
    proof {
        lemma_pow10_eight();
        assert(whole_s =~= s@.subrange(0, i as int));
    }
    match whole.checked_mul(PRICE_SCALE as u128) {
        Some(w) => match w.checked_add(scaled) {
            Some(v) => Some(v),
            None => None,
        },
        None => {
            proof {
                lemma_digits_nonneg(kept_s);
                lemma_pow10_step((SCALE_DIGITS - kept_s.len()) as nat);
                let (x, y) = (digits_value(kept_s), pow10((SCALE_DIGITS - kept_s.len()) as nat));
                assert(x * y >= 0) by (nonlinear_arith)
                    requires x >= 0, y >= 1;
            }
            None
        },
    }
}

/// `first_index` is `i` when no `c` comes before `i` and `i` is a `c` or the end.
pub(crate) proof fn lemma_first_index_is(s: Seq<char>, c: char, i: int)
    requires
        0 <= i <= s.len(),
        forall|k: int| 0 <= k < i ==> s[k] != c,
        i == s.len() || s[i] == c,
    ensures
        first_index(s, c) == i,
    decreases i,
{
    if i > 0 {
        lemma_first_index_is(s.drop_first(), c, i - 1);
    }
}

/// `first_index` is at least `i` when no `c` comes before `i`.
proof fn lemma_first_index_at_least(s: Seq<char>, c: char, i: int)
    requires
        0 <= i <= s.len(),
        forall|k: int| 0 <= k < i ==> s[k] != c,
    ensures
        i <= first_index(s, c) <= s.len(),
    decreases s.len(),
{
    if s.len() > 0 && s[0] != c {
        if i > 0 {
            lemma_first_index_at_least(s.drop_first(), c, i - 1);
        } else {
            lemma_first_index_at_least(s.drop_first(), c, 0);
        }
    }
}

proof fn lemma_not_all_digits(s: Seq<char>, i: int)
    requires
        0 <= i < s.len(),
        !is_digit(s[i]),
    ensures
        !all_digits(s),
{
}

proof fn lemma_pow10_eight()
    ensures
        pow10(8) == 100_000_000,
{
    reveal_with_fuel(pow10, 9);
}

proof fn lemma_pow10_mono(a: nat, b: nat)
    requires
        a <= b,
    ensures
        pow10(a) <= pow10(b),
    decreases b,
{
    if a < b {
        lemma_pow10_mono(a, (b - 1) as nat);
        lemma_pow10_step((b - 1) as nat);
    }
}

proof fn lemma_pow10_step(n: nat)
    ensures
        pow10(n + 1) == 10 * pow10(n),
        pow10(n) >= 1,
    decreases n,
{
    if n > 0 {
        lemma_pow10_step((n - 1) as nat);
    }
}

proof fn lemma_digits_nonneg(s: Seq<char>)
    requires
        all_digits(s),
    ensures
        digits_value(s) >= 0,
    decreases s.len(),
{
    if s.len() > 0 {
        lemma_digits_nonneg(s.drop_last());
    }
}

/// A prefix of a digit string writes a number no larger than the whole.
proof fn lemma_digits_prefix_le(s: Seq<char>, k: int)
    requires
        all_digits(s),
        0 <= k <= s.len(),
    ensures
        digits_value(s.subrange(0, k)) <= digits_value(s),
    decreases s.len(),
{
    if k < s.len() {
        let d = s.drop_last();
        lemma_digits_prefix_le(d, k);
        lemma_digits_nonneg(d);
        assert(d.subrange(0, k) =~= s.subrange(0, k));
    } else {
        assert(s.subrange(0, k) =~= s);
    }
}

/// A decimal whose integer digits up to some point already exceed `u128`
/// has no value.
proof fn lemma_units_too_large(s: Seq<char>)
    requires
        exists|i: int|
            0 <= i <= first_index(s, '.') && digits_value(#[trigger] s.subrange(0, i)) > u128::MAX
                && all_digits(s.subrange(0, i)),
        first_index(s, '.') <= s.len(),
    ensures
        decimal_units(s) is None,
{
    let p = first_index(s, '.');
    let i = choose|i: int|
        0 <= i <= first_index(s, '.') && digits_value(#[trigger] s.subrange(0, i)) > u128::MAX
            && all_digits(s.subrange(0, i));
    let whole = s.subrange(0, p);
    if all_digits(whole) {
        lemma_digits_prefix_le(whole, i);
        assert(whole.subrange(0, i) =~= s.subrange(0, i));
        let frac = if p < s.len() { s.subrange(p + 1, s.len() as int) } else { Seq::empty() };
        let kept = if frac.len() <= SCALE_DIGITS { frac } else { frac.subrange(0, SCALE_DIGITS as int) };
        if all_digits(frac) {
            assert(all_digits(kept));
            lemma_digits_nonneg(kept);
            lemma_pow10_step((SCALE_DIGITS - kept.len()) as nat);
            let a = digits_value(whole);
            let (x, y) = (digits_value(kept), pow10((SCALE_DIGITS - kept.len()) as nat));
            assert(x * y >= 0) by (nonlinear_arith)
                requires x >= 0, y >= 1;
            assert(a * 100_000_000 >= a) by (nonlinear_arith)
                requires a >= 0;
        }
    }
}

/// The venue whose display name is `s`.
pub open spec fn exchange_named(s: Seq<char>) -> Option<Exchange> {
    if s == exchange_name(Exchange::Binance) {
        Some(Exchange::Binance)
    } else if s == exchange_name(Exchange::Hyperliquid) {
        Some(Exchange::Hyperliquid)
    } else if s == exchange_name(Exchange::Bybit) {
        Some(Exchange::Bybit)
    } else if s == exchange_name(Exchange::Extended) {
        Some(Exchange::Extended)
    } else {
        None
    }
}

/// A venue's display name reads back as that venue, so the ledger's venue
/// columns survive a write and a read.
pub proof fn lemma_venue_name_round_trip(e: Exchange)
    ensures
        exchange_named(exchange_name(e)) == Some(e),
{
    reveal_strlit("Binance");
    reveal_strlit("Hyperliquid");
    reveal_strlit("Bybit");
    reveal_strlit("Extended");
    // the four names have four different lengths
    assert(exchange_name(Exchange::Binance).len() == 7);
    assert(exchange_name(Exchange::Hyperliquid).len() == 11);
    assert(exchange_name(Exchange::Bybit).len() == 5);
    assert(exchange_name(Exchange::Extended).len() == 8);
}

/// The trade that a ledger row records: at least eight fields, both venues
/// known and the four amounts readable; the ninth field, when there is one,
/// is the note, which is empty otherwise. Any other row is corrupt and
/// records nothing.
pub open spec fn row_record(line: Seq<char>) -> Option<TradeRecordView> {
    let f = split_fields(line);
    if f.len() < 8 || exchange_named(f[2]) is None || exchange_named(f[3]) is None
        || decimal_units(f[4]) is None || decimal_units(f[5]) is None
        || decimal_units(f[6]) is None || decimal_units(f[7]) is None {
        None
    } else {
        Some(
            TradeRecordView {
                timestamp: f[0],
                symbol: f[1],
                buy_exchange: exchange_named(f[2]).unwrap(),
                sell_exchange: exchange_named(f[3]).unwrap(),
                buy_price: decimal_units(f[4]).unwrap() as u128,
                sell_price: decimal_units(f[5]).unwrap() as u128,
                profit_usd: decimal_units(f[6]).unwrap() as u128,
                balance_after: decimal_units(f[7]).unwrap() as u128,
                note: if f.len() > 8 { f[8] } else { Seq::empty() },
            },
        )
    }
}

/// The trades that `lines` record, in order, unreadable rows left out.
pub open spec fn parsed_rows(lines: Seq<Seq<char>>) -> Seq<TradeRecordView>
    decreases lines.len(),
{
    if lines.len() == 0 {
        Seq::empty()
    } else {
        let prev = parsed_rows(lines.drop_last());
        match row_record(lines.last()) {
            Some(r) => prev.push(r),
            None => prev,
        }
    }
}

/// The history that a ledger seeds: its header skipped, its readable rows
/// newest first, at most `HISTORY_LEN` of them.
pub open spec fn seeded_history(lines: Seq<Seq<char>>) -> Seq<TradeRecordView> {
    let newest = parsed_rows(lines.drop_first()).reverse();
    if lines.len() == 0 {
        Seq::empty()
    } else if newest.len() <= HISTORY_LEN {
        newest
    } else {
        newest.subrange(0, HISTORY_LEN as int)
    }
}

/// Whether two strings hold the same characters.
fn same_text(a: &str, b: &str) -> (r: bool)
    ensures
        r == (a@ == b@),
{
    let n = a.unicode_len();
    if n != b.unicode_len() {
        return false;
    }
    let mut i: usize = 0;
    while i < n
        invariant
            n == a@.len() == b@.len(),
            i <= n,
            forall|k: int| 0 <= k < i ==> a@[k] == b@[k],
        decreases n - i,
    {
        if a.get_char(i) != b.get_char(i) {
            return false;
        }
        i = i + 1;
    }
    proof {
        assert(a@ =~= b@);
    }
    true
}

/// The venue whose display name is `s`, if any.
pub fn exchange_from_name(s: &str) -> (r: Option<Exchange>)
    ensures
        r == exchange_named(s@),
{
    if same_text(s, "Binance") {
        Some(Exchange::Binance)
    } else if same_text(s, "Hyperliquid") {
        Some(Exchange::Hyperliquid)
    } else if same_text(s, "Bybit") {
        Some(Exchange::Bybit)
    } else if same_text(s, "Extended") {
        Some(Exchange::Extended)
    } else {
        None
    }
}

/// The trade that one ledger row records, as `row_record` says.
pub fn parse_row(line: &str) -> (r: Option<TradeRecord>)
    ensures
        match r {
            Some(t) => row_record(line@) == Some(t@),
            None => row_record(line@) is None,
        },
{
    let f = split_at_commas(line);
    let ghost fv = f@.map_values(|x: String| x@);
    proof {
        assert(fv == split_fields(line@));
    }
    if f.len() < 8 {
        return None;
    }
    proof {
        assert(forall|k: int| 0 <= k < f@.len() ==> fv[k] == #[trigger] f@[k]@);
    }
    let buy = match exchange_from_name(f[2].as_str()) {
        Some(e) => e,
        None => return None,
    };
    let sell = match exchange_from_name(f[3].as_str()) {
        Some(e) => e,
        None => return None,
    };
    let buy_price = match parse_decimal_units(f[4].as_str()) {
        Some(v) => v,
        None => return None,
    };
    let sell_price = match parse_decimal_units(f[5].as_str()) {
        Some(v) => v,
        None => return None,
    };
    let profit_usd = match parse_decimal_units(f[6].as_str()) {
        Some(v) => v,
        None => return None,
    };
    let balance_after = match parse_decimal_units(f[7].as_str()) {
        Some(v) => v,
        None => return None,
    };
    let note = if f.len() > 8 {
        f[8].clone()
    } else {
        String::new()
    };
    Some(TradeRecord {
        timestamp: f[0].clone(),
        symbol: f[1].clone(),
        buy_exchange: buy,
        sell_exchange: sell,
        buy_price,
        sell_price,
        profit_usd,
        balance_after,
        note,
    })
}

/// The history that the ledger `lines` seed, as `seeded_history` says.
pub fn history_from_ledger(lines: &Vec<String>) -> (r: Vec<TradeRecord>)
    ensures
        record_views(r@) == seeded_history(lines@.map_values(|l: String| l@)),
        r@.len() <= HISTORY_LEN,
{
    let ghost all = lines@.map_values(|l: String| l@);
    let mut rows: Vec<TradeRecord> = Vec::new();
    if lines.len() == 0 {
        proof {
            assert(record_views(rows@) =~= seeded_history(all));
        }
        return rows;
    }
    let ghost body = all.drop_first();
    proof {
        assert(body.subrange(0, 0) =~= Seq::<Seq<char>>::empty());
        assert(record_views(rows@) =~= Seq::<TradeRecordView>::empty());
    }
    let mut k: usize = 1;
    while k < lines.len()
        invariant
            1 <= k <= lines@.len(),
            all == lines@.map_values(|l: String| l@),
            body == all.drop_first(),
            record_views(rows@) == parsed_rows(body.subrange(0, k - 1)),
        decreases lines@.len() - k,
    {
        let ghost before = record_views(rows@);
        proof {
            assert(body.subrange(0, k as int).drop_last() =~= body.subrange(0, k - 1));
            assert(body.subrange(0, k as int).last() == lines@[k as int]@);
        }
        match parse_row(lines[k].as_str()) {
            Some(t) => {
                rows.push(t);
                proof {
                    assert(record_views(rows@) =~= before.push(t@));
                }
            },
            None => {},
        }
        k = k + 1;
    }
    proof {
        assert(body.subrange(0, lines@.len() - 1) =~= body);
    }
    let ghost parsed = record_views(rows@);
    let ghost newest = parsed.reverse();
    let mut out: Vec<TradeRecord> = Vec::new();
    proof {
        assert(record_views(out@) =~= newest.subrange(0, 0));
    }
    while out.len() < HISTORY_LEN && rows.len() > 0
        invariant
            newest == parsed.reverse(),
            out@.len() + rows@.len() == parsed.len(),
            out@.len() <= HISTORY_LEN,
            record_views(rows@) == parsed.subrange(0, rows@.len() as int),
            record_views(out@) == newest.subrange(0, out@.len() as int),
        decreases rows@.len(),
    {
        let ghost before_out = record_views(out@);
        let ghost before_rows = record_views(rows@);
        let t = rows.pop().unwrap();
        proof {
            assert(t@ == before_rows.last());
            assert(record_views(rows@) =~= parsed.subrange(0, rows@.len() as int));
        }
        out.push(t);
        proof {
            let m = before_out.len() as int;
            assert(newest.len() == parsed.len());
            assert(newest[m] == parsed[parsed.len() - 1 - m]);
            assert(before_rows.last() == parsed[before_rows.len() - 1]);
            assert(record_views(out@) =~= newest.subrange(0, out@.len() as int));
        }
    }
    proof {
        if parsed.len() <= HISTORY_LEN {
            assert(newest.len() == parsed.len());
            assert(newest.subrange(0, out@.len() as int) =~= newest);
        }
    }
    out
}

/// The decimal digit `d` as a character.
pub open spec fn digit_char(d: int) -> char {
    if d == 0 {
        '0'
    } else if d == 1 {
        '1'
    } else if d == 2 {
        '2'
    } else if d == 3 {
        '3'
    } else if d == 4 {
        '4'
    } else if d == 5 {
        '5'
    } else if d == 6 {
        '6'
    } else if d == 7 {
        '7'
    } else if d == 8 {
        '8'
    } else {
        '9'
    }
}

/// The decimal digits of `n`, without leading zeros (`0` for zero).
pub open spec fn digits_of(n: nat) -> Seq<char>
    decreases n,
{
    if n < 10 {
        seq![digit_char(n as int)]
    } else {
        digits_of(n / 10).push(digit_char((n % 10) as int))
    }
}

/// The last `width` decimal digits of `n`, leading zeros included.
pub open spec fn padded_digits(n: nat, width: nat) -> Seq<char>
    decreases width,
{
    if width == 0 {
        Seq::empty()
    } else {
        padded_digits(n / 10, (width - 1) as nat).push(digit_char((n % 10) as int))
    }
}

/// A fixed-point amount as a ledger decimal: whole units, a point, and
/// all eight digits after it.
pub open spec fn decimal_text(v: nat) -> Seq<char> {
    digits_of(v / (PRICE_SCALE as nat)) + seq!['.'] + padded_digits(v % (PRICE_SCALE as nat), SCALE_DIGITS as nat)
}

/// The fields of the ledger row of `t`, in column order.
pub open spec fn ledger_fields_of(t: TradeRecordView) -> Seq<Seq<char>> {
    seq![
        t.timestamp,
        t.symbol,
        exchange_name(t.buy_exchange),
        exchange_name(t.sell_exchange),
        decimal_text(t.buy_price as nat),
        decimal_text(t.sell_price as nat),
        decimal_text(t.profit_usd as nat),
        decimal_text(t.balance_after as nat),
        t.note,
    ]
}

/// `fields` separated by commas.
pub open spec fn joined(fields: Seq<Seq<char>>) -> Seq<char>
    decreases fields.len(),
{
    if fields.len() == 0 {
        Seq::empty()
    } else if fields.len() == 1 {
        fields[0]
    } else {
        joined(fields.drop_last()) + seq![','] + fields.last()
    }
}

pub open spec fn comma_free(s: Seq<char>) -> bool {
    forall|i: int| 0 <= i < s.len() ==> s[i] != ','
}

fn digit_text(d: u128) -> (r: &'static str)
    requires
        d < 10,
    ensures
        r@ == seq![digit_char(d as int)],
{
    proof {
        reveal_strlit("0");
        reveal_strlit("1");
        reveal_strlit("2");
        reveal_strlit("3");
        reveal_strlit("4");
        reveal_strlit("5");
        reveal_strlit("6");
        reveal_strlit("7");
        reveal_strlit("8");
        reveal_strlit("9");
    }
    let r = if d == 0 {
        "0"
    } else if d == 1 {
        "1"
    } else if d == 2 {
        "2"
    } else if d == 3 {
        "3"
    } else if d == 4 {
        "4"
    } else if d == 5 {
        "5"
    } else if d == 6 {
        "6"
    } else if d == 7 {
        "7"
    } else if d == 8 {
        "8"
    } else {
        "9"
    };
    proof {
        assert(r@ =~= seq![digit_char(d as int)]);
    }
    r
}

fn push_digits(out: &mut String, n: u128)
    ensures
        final(out)@ == old(out)@ + digits_of(n as nat),
    decreases n,
{
    if n < 10 {
        out.append(digit_text(n));
    } else {
        push_digits(out, n / 10);
        out.append(digit_text(n % 10));
        proof {
            assert(final(out)@ =~= old(out)@ + digits_of(n as nat));
        }
    }
}

fn push_padded(out: &mut String, n: u128, width: usize)
    ensures
        final(out)@ == old(out)@ + padded_digits(n as nat, width as nat),
    decreases width,
{
    if width == 0 {
        proof {
            assert(final(out)@ =~= old(out)@ + padded_digits(n as nat, 0));
        }
    } else {
        push_padded(out, n / 10, width - 1);
        out.append(digit_text(n % 10));
        proof {
            assert(final(out)@ =~= old(out)@ + padded_digits(n as nat, width as nat));
        }
    }
}

/// The decimal digits of `n`.
pub fn digits_string(n: u128) -> (r: String)
    ensures
        r@ == digits_of(n as nat),
{
    let mut out = String::new();
    push_digits(&mut out, n);
    proof {
        assert(out@ =~= digits_of(n as nat));
    }
    out
}

/// A fixed-point amount as a ledger decimal (`decimal_text`).
pub fn decimal_string(v: u128) -> (r: String)
    ensures
        r@ == decimal_text(v as nat),
{
    let mut out = String::new();
    push_digits(&mut out, v / (PRICE_SCALE as u128));
    out.append(".");
    proof {
        reveal_strlit(".");
    }
    push_padded(&mut out, v % (PRICE_SCALE as u128), SCALE_DIGITS);
    proof {
        assert(out@ =~= decimal_text(v as nat));
    }
    out
}

/// The fields of the ledger row that records `t`.
pub fn ledger_fields(t: &TradeRecord) -> (r: Vec<String>)
    ensures
        r@.map_values(|f: String| f@) == ledger_fields_of(t@),
{
    let mut r: Vec<String> = Vec::new();
    r.push(t.timestamp.clone());
    r.push(t.symbol.clone());
    r.push(String::from_str(t.buy_exchange.as_str()));
    r.push(String::from_str(t.sell_exchange.as_str()));
    r.push(decimal_string(t.buy_price));
    r.push(decimal_string(t.sell_price));
    r.push(decimal_string(t.profit_usd));
    r.push(decimal_string(t.balance_after));
    r.push(t.note.clone());
    proof {
        assert(r@.map_values(|f: String| f@) =~= ledger_fields_of(t@));
    }
    r
}

/// A trade written as a ledger row reads back as the same trade, provided
/// its time of day, symbol and note hold no comma.
pub proof fn lemma_ledger_round_trip(t: TradeRecordView)
    requires
        comma_free(t.timestamp),
        comma_free(t.symbol),
        comma_free(t.note),
    ensures
        row_record(joined(ledger_fields_of(t))) == Some(t),
{
    let fs = ledger_fields_of(t);
    lemma_name_comma_free(t.buy_exchange);
    lemma_name_comma_free(t.sell_exchange);
    lemma_decimal_text_shape(t.buy_price as nat);
    lemma_decimal_text_shape(t.sell_price as nat);
    lemma_decimal_text_shape(t.profit_usd as nat);
    lemma_decimal_text_shape(t.balance_after as nat);
    assert forall|k: int| 0 <= k < fs.len() implies comma_free(#[trigger] fs[k]) by {}
    lemma_split_joined(fs);
    lemma_venue_name_round_trip(t.buy_exchange);
    lemma_venue_name_round_trip(t.sell_exchange);
    lemma_decimal_round_trip(t.buy_price as nat);
    lemma_decimal_round_trip(t.sell_price as nat);
    lemma_decimal_round_trip(t.profit_usd as nat);
    lemma_decimal_round_trip(t.balance_after as nat);
}

proof fn lemma_name_comma_free(e: Exchange)
    ensures
        comma_free(exchange_name(e)),
{
    reveal_strlit("Binance");
    reveal_strlit("Hyperliquid");
    reveal_strlit("Bybit");
    reveal_strlit("Extended");
}

proof fn lemma_digit_char(d: int)
    requires
        0 <= d < 10,
    ensures
        is_digit(digit_char(d)),
        digit_char(d) as int - '0' as int == d,
{
}

/// The digits of `n` are digits, at least one, and write `n`.
proof fn lemma_digits_of_shape(n: nat)
    ensures
        all_digits(digits_of(n)),
        comma_free(digits_of(n)),
        digits_of(n).len() >= 1,
        digits_value(digits_of(n)) == n,
    decreases n,
{
    if n < 10 {
        lemma_digit_char(n as int);
        assert(digits_of(n).drop_last() =~= Seq::<char>::empty());
        assert(digits_value(Seq::<char>::empty()) == 0);
        assert(digits_of(n).last() == digit_char(n as int));
    } else {
        lemma_digits_of_shape(n / 10);
        lemma_digit_char((n % 10) as int);
        assert(digits_of(n).drop_last() =~= digits_of(n / 10));
        assert(digits_of(n).last() == digit_char((n % 10) as int));
        assert((n / 10) * 10 + n % 10 == n);
    }
}

/// The padded digits of `n` are `width` digits that write `n` modulo `10^width`.
proof fn lemma_padded_shape(n: nat, width: nat)
    ensures
        all_digits(padded_digits(n, width)),
        padded_digits(n, width).len() == width,
        digits_value(padded_digits(n, width)) == n % (pow10(width) as nat),
    decreases width,
{
    lemma_pow10_step(width);
    if width == 0 {
    } else {
        let w1 = (width - 1) as nat;
        lemma_padded_shape(n / 10, w1);
        lemma_digit_char((n % 10) as int);
        lemma_pow10_step(w1);
        assert(padded_digits(n, width).drop_last() =~= padded_digits(n / 10, w1));
        let p = pow10(w1);
        assert(((n / 10) % (p as nat)) * 10 + n % 10 == n % ((10 * p) as nat)) by (nonlinear_arith)
            requires p >= 1;
    }
}

proof fn lemma_decimal_text_shape(v: nat)
    ensures
        comma_free(decimal_text(v)),
{
    lemma_digits_of_shape(v / (PRICE_SCALE as nat));
    lemma_padded_shape(v % (PRICE_SCALE as nat), SCALE_DIGITS as nat);
    let a = digits_of(v / (PRICE_SCALE as nat));
    let b = padded_digits(v % (PRICE_SCALE as nat), SCALE_DIGITS as nat);
    assert forall|i: int| 0 <= i < decimal_text(v).len() implies decimal_text(v)[i] != ',' by {
        if i < a.len() {
            assert(is_digit(a[i]));
        } else if i > a.len() {
            assert(is_digit(b[i - a.len() - 1]));
        }
    }
}

/// A ledger decimal reads back as the amount it was written from.
proof fn lemma_decimal_round_trip(v: nat)
    requires
        v <= u128::MAX,
    ensures
        decimal_units(decimal_text(v)) == Some(v as int),
{
    let a = digits_of(v / (PRICE_SCALE as nat));
    let b = padded_digits(v % (PRICE_SCALE as nat), SCALE_DIGITS as nat);
    let s = decimal_text(v);
    lemma_digits_of_shape(v / (PRICE_SCALE as nat));
    lemma_padded_shape(v % (PRICE_SCALE as nat), SCALE_DIGITS as nat);
    lemma_pow10_eight();
    assert forall|k: int| 0 <= k < a.len() implies s[k] != '.' by {
        assert(is_digit(a[k]));
    }
    lemma_first_index_is(s, '.', a.len() as int);
    assert(s.subrange(0, a.len() as int) =~= a);
    assert(s.subrange(a.len() as int + 1, s.len() as int) =~= b);
    assert(pow10(0) == 1);
    assert(digits_value(b) * pow10(0) == digits_value(b));
    let m = PRICE_SCALE as nat;
    assert((v % 100_000_000) % 100_000_000 == v % 100_000_000) by (nonlinear_arith);
    assert((v / m) * m + v % m == v);
    assert(all_digits(a));
    assert(all_digits(b));
    assert(b.len() == 8);
}

/// Every split has at least one field.
proof fn lemma_split_nonempty(s: Seq<char>)
    ensures
        split_fields(s).len() >= 1,
    decreases s.len(),
{
    if s.len() > 0 {
        lemma_split_nonempty(s.drop_last());
    }
}

/// A string without commas is one field.
proof fn lemma_split_comma_free(s: Seq<char>)
    requires
        comma_free(s),
    ensures
        split_fields(s) == seq![s],
    decreases s.len(),
{
    if s.len() == 0 {
        assert(s =~= Seq::<char>::empty());
    } else {
        let d = s.drop_last();
        assert forall|i: int| 0 <= i < d.len() implies d[i] != ',' by {
            assert(d[i] == s[i]);
        }
        lemma_split_comma_free(d);
        assert(s[s.len() - 1] != ',');
        assert(d.push(s.last()) =~= s);
        assert(split_fields(s) == split_fields(d).update(0, d.push(s.last())));
        assert(split_fields(d) == seq![d]);
        assert(seq![d].update(0, s) =~= seq![s]);
    }
}

/// Splitting at a comma splits each side.
proof fn lemma_split_at_comma(x: Seq<char>, y: Seq<char>)
    ensures
        split_fields(x + seq![','] + y) == split_fields(x) + split_fields(y),
    decreases y.len(),
{
    let s = x + seq![','] + y;
    if y.len() == 0 {
        assert(s.drop_last() =~= x);
        assert(split_fields(s) =~= split_fields(x) + split_fields(y));
    } else {
        let y1 = y.drop_last();
        lemma_split_at_comma(x, y1);
        lemma_split_nonempty(y1);
        lemma_split_nonempty(x);
        assert(s.drop_last() =~= x + seq![','] + y1);
        assert(s.last() == y.last());
        assert(split_fields(s) =~= split_fields(x) + split_fields(y));
    }
}

/// Fields without commas, joined, split back into the same fields.
proof fn lemma_split_joined(fs: Seq<Seq<char>>)
    requires
        fs.len() >= 1,
        forall|k: int| 0 <= k < fs.len() ==> comma_free(#[trigger] fs[k]),
    ensures
        split_fields(joined(fs)) == fs,
    decreases fs.len(),
{
    if fs.len() == 1 {
        lemma_split_comma_free(fs[0]);
        assert(seq![fs[0]] =~= fs);
    } else {
        let d = fs.drop_last();
        assert forall|k: int| 0 <= k < d.len() implies comma_free(#[trigger] d[k]) by {
            assert(d[k] == fs[k]);
        }
        lemma_split_joined(d);
        lemma_split_at_comma(joined(d), fs.last());
        assert(comma_free(fs[fs.len() - 1]));
        lemma_split_comma_free(fs.last());
        assert(d + seq![fs.last()] =~= fs);
    }
}

} // verus!
