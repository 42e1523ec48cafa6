//! Mapping between the engine's symbols (`BTC-USDT`) and each venue's own
//! spelling of them.

use crate::ledger::{first_index, lemma_first_index_is};
use vstd::prelude::*;
use vstd::string::*;

verus! {

/// `s` without its dashes.
pub open spec fn without_dashes(s: Seq<char>) -> Seq<char> {
    s.filter(|c: char| c != '-')
}

/// Whether `s` ends in `USDT`.
pub open spec fn ends_with_usdt(s: Seq<char>) -> bool {
    s.len() >= 4 && s.subrange(s.len() - 4, s.len() as int) == "USDT"@
}

/// A venue's undashed USDT pair (`BTCUSDT`) in the engine's spelling
/// (`BTC-USDT`); any other symbol unchanged.
pub open spec fn dashed_pair(s: Seq<char>) -> Seq<char> {
    if ends_with_usdt(s) {
        s.subrange(0, s.len() - 4) + "-USDT"@
    } else {
        s
    }
}

/// The base asset of a pair: what comes before the first dash.
pub open spec fn base_asset(s: Seq<char>) -> Seq<char> {
    s.subrange(0, first_index(s, '-'))
}

/// `s` with every `USDT`, left to right, written `USD`.
pub open spec fn usdt_as_usd(s: Seq<char>) -> Seq<char>
    decreases s.len(),
{
    if s.len() < 4 {
        s
    } else if s.subrange(0, 4) == "USDT"@ {
        "USD"@ + usdt_as_usd(s.subrange(4, s.len() as int))
    } else {
        seq![s[0]] + usdt_as_usd(s.drop_first())
    }
}

/// A USDT pair as a venue quoting in USD names it (`BTC-USDT` to
/// `BTC-USD`); any other symbol unchanged.
pub open spec fn usd_market(s: Seq<char>) -> Seq<char> {
    if ends_with_usdt(s) { usdt_as_usd(s) } else { s }
}

/// Removes the dashes of `symbol` (`BTC-USDT` to `BTCUSDT`).
pub fn undashed(symbol: &str) -> (r: String)
    ensures
        r@ == without_dashes(symbol@),
{
    let n = symbol.unicode_len();
    let mut out = String::new();
    let mut i: usize = 0;
    proof {
        reveal(Seq::filter);
        assert(out@ =~= without_dashes(symbol@.subrange(0, 0)));
    }
    while i < n
        invariant
            n == symbol@.len(),
            i <= n,
            out@ == without_dashes(symbol@.subrange(0, i as int)),
        decreases n - i,
    {
        let c = symbol.get_char(i);
        let ghost prefix = symbol@.subrange(0, i + 1);
        proof {
            reveal(Seq::filter);
            assert(prefix.drop_last() =~= symbol@.subrange(0, i as int));
            assert(prefix.last() == c);
            assert(prefix.len() > 0);
        }
        if c != '-' {
            let one = symbol.substring_char(i, i + 1);
            proof {
                assert(one@ =~= seq![c]);
            }
            let ghost before = out@;
            out.append(one);
            proof {
                assert(without_dashes(prefix) == without_dashes(prefix.drop_last()).push(c));
                assert(out@ =~= before.push(c));
            }
        } else {
            proof {
                assert(without_dashes(prefix) == without_dashes(prefix.drop_last()));
            }
        }
        i = i + 1;
    }
    proof {
        assert(symbol@.subrange(0, n as int) =~= symbol@);
    }
    out
}

fn has_usdt_suffix(s: &str) -> (r: bool)
    ensures
        r == ends_with_usdt(s@),
{
    proof {
        reveal_strlit("USDT");
    }
    let n = s.unicode_len();
    if n < 4 {
        return false;
    }
    let r = s.get_char(n - 4) == 'U' && s.get_char(n - 3) == 'S' && s.get_char(n - 2) == 'D'
        && s.get_char(n - 1) == 'T';
    proof {
        if r {
            assert(s@.subrange(n - 4, n as int) =~= "USDT"@);
        } else {
            let t = s@.subrange(n - 4, n as int);
            assert(t[0] != 'U' || t[1] != 'S' || t[2] != 'D' || t[3] != 'T');
        }
    }
    r
}

/// The engine's spelling of a venue's undashed symbol (`BTCUSDT` to
/// `BTC-USDT`); a symbol not ending in `USDT` is kept as it is.
pub fn dashed(symbol: &str) -> (r: String)
    ensures
        r@ == dashed_pair(symbol@),
{
    if has_usdt_suffix(symbol) {
        let n = symbol.unicode_len();
        let base = String::from_str(symbol.substring_char(0, n - 4));
        base.concat("-USDT")
    } else {
        String::from_str(symbol)
    }
}

/// The base asset of `symbol` (`BTC-USDT` to `BTC`).
pub fn base_of(symbol: &str) -> (r: String)
    ensures
        r@ == base_asset(symbol@),
{
    let n = symbol.unicode_len();
    let mut i: usize = 0;
    while i < n && symbol.get_char(i) != '-'
        invariant
            n == symbol@.len(),
            i <= n,
            forall|k: int| 0 <= k < i ==> symbol@[k] != '-',
        decreases n - i,
    {
        i = i + 1;
    }
    proof {
        lemma_first_index_is(symbol@, '-', i as int);
    }
    String::from_str(symbol.substring_char(0, i))
}

/// `symbol` as a venue quoting in USD names it (`BTC-USDT` to `BTC-USD`).
pub fn usd_quoted(symbol: &str) -> (r: String)
    ensures
        r@ == usd_market(symbol@),
{
    if !has_usdt_suffix(symbol) {
        return String::from_str(symbol);
    }
    proof {
        reveal_strlit("USDT");
        reveal_strlit("USD");
    }
    let n = symbol.unicode_len();
    let mut out = String::new();
    let mut i: usize = 0;
    proof {
        assert(symbol@.subrange(0, n as int) =~= symbol@);
    }
    while i < n
        invariant
            n == symbol@.len(),
            i <= n,
            out@ + usdt_as_usd(symbol@.subrange(i as int, n as int)) == usdt_as_usd(symbol@),
        decreases n - i,
    {
        let ghost rest = symbol@.subrange(i as int, n as int);
        proof {
            reveal_strlit("USDT");
            reveal_strlit("USD");
        }
        if 4 <= n - i && symbol.get_char(i) == 'U' && symbol.get_char(i + 1) == 'S'
            && symbol.get_char(i + 2) == 'D' && symbol.get_char(i + 3) == 'T' {
            proof {
                assert(rest.subrange(0, 4) =~= "USDT"@);
                assert(rest.subrange(4, rest.len() as int) =~= symbol@.subrange(i + 4, n as int));
                assert(out@ + "USD"@ + usdt_as_usd(symbol@.subrange(i + 4, n as int)) =~= out@ + usdt_as_usd(rest));
            }
            out.append("USD");
            i = i + 4;
        } else {
            let one = symbol.substring_char(i, i + 1);
            proof {
                if rest.len() >= 4 {
                    assert(rest.subrange(0, 4) != "USDT"@) by {
                        if rest.subrange(0, 4) == "USDT"@ {
                            assert(rest.subrange(0, 4)[0] == 'U');
                            assert(rest.subrange(0, 4)[1] == 'S');
                            assert(rest.subrange(0, 4)[2] == 'D');
                            assert(rest.subrange(0, 4)[3] == 'T');
                        }
                    }
                }
                assert(rest.drop_first() =~= symbol@.subrange(i + 1, n as int));
                assert(one@ =~= seq![rest[0]]);
                assert(out@ + one@ + usdt_as_usd(symbol@.subrange(i + 1, n as int)) =~= out@ + usdt_as_usd(rest));
            }
            out.append(one);
            i = i + 1;
        }
    }
    proof {
        assert(symbol@.subrange(n as int, n as int) =~= Seq::<char>::empty());
        assert(out@ + Seq::<char>::empty() =~= out@);
    }
    out
}

/// What `str::to_lowercase` makes of `s`.
pub uninterp spec fn lowercase_of(s: Seq<char>) -> Seq<char>;

/// Relies on `str::to_lowercase`: the result depends on the characters alone.
#[verifier::external_body]
fn lowercase(s: &str) -> (r: String)
    ensures
        r@ == lowercase_of(s@),
{
    s.to_lowercase()
}

/// The book-ticker stream that Binance publishes for `symbol`
/// (`BTC-USDT` to `btcusdt@bookTicker`).
pub fn binance_book_stream(symbol: &str) -> (r: String)
    ensures
        r@ == lowercase_of(without_dashes(symbol@)) + "@bookTicker"@,
{
    let plain = undashed(symbol);
    lowercase(plain.as_str()).concat("@bookTicker")
}

} // verus!
