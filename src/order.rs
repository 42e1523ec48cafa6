//! The fixed order in which equally profitable opportunities are listed:
//! symbols in character order, then venues in a fixed rank.

use crate::exchanges::Exchange;
use vstd::prelude::*;
use vstd::string::*;

verus! {

/// Whether `a` comes before `b` in character order, comparing from position
/// `i` on; a proper prefix comes before the longer text.
pub open spec fn text_before_from(a: Seq<char>, b: Seq<char>, i: int) -> bool
    decreases a.len() - i,
{
    if i >= a.len() {
        i < b.len()
    } else if i >= b.len() {
        false
    } else if a[i] != b[i] {
        (a[i] as int) < (b[i] as int)
    } else {
        text_before_from(a, b, i + 1)
    }
}

/// Whether `a` comes before `b` in character order.
pub open spec fn text_before(a: Seq<char>, b: Seq<char>) -> bool {
    text_before_from(a, b, 0)
}

/// Position of a venue in the tie-break order.
pub open spec fn venue_rank(e: Exchange) -> int {
    match e {
        Exchange::Binance => 0,
        Exchange::Hyperliquid => 1,
        Exchange::Bybit => 2,
        Exchange::Extended => 3,
    }
}

/// Whether `a` comes before `b` in character order.
pub fn text_precedes(a: &str, b: &str) -> (r: bool)
    ensures
        r == text_before(a@, b@),
{
    let na = a.unicode_len();
    let nb = b.unicode_len();
    let mut i: usize = 0;
    while i < na && i < nb && a.get_char(i) == b.get_char(i)
        invariant
            na == a@.len(),
            nb == b@.len(),
            i <= na,
            i <= nb,
            text_before_from(a@, b@, 0) == text_before_from(a@, b@, i as int),
        decreases na - i,
    {
        i = i + 1;
    }
    if i >= na {
        i < nb
    } else if i >= nb {
        false
    } else {
        (a.get_char(i) as u32) < (b.get_char(i) as u32)
    }
}

/// Position of `e` in the tie-break order.
pub fn venue_position(e: Exchange) -> (r: u8)
    ensures
        r as int == venue_rank(e),
{
    match e {
        Exchange::Binance => 0,
        Exchange::Hyperliquid => 1,
        Exchange::Bybit => 2,
        Exchange::Extended => 3,
    }
}

/// Character order is transitive.
pub proof fn lemma_text_before_trans(a: Seq<char>, b: Seq<char>, c: Seq<char>, i: int)
    requires
        0 <= i,
        text_before_from(a, b, i),
        text_before_from(b, c, i),
    ensures
        text_before_from(a, c, i),
    decreases a.len() - i,
{
    if i < a.len() && i < b.len() && i < c.len() && a[i] == b[i] && b[i] == c[i] {
        lemma_text_before_trans(a, b, c, i + 1);
    }
}

/// Character order is asymmetric.
pub proof fn lemma_text_before_asym(a: Seq<char>, b: Seq<char>, i: int)
    requires
        0 <= i,
        text_before_from(a, b, i),
    ensures
        !text_before_from(b, a, i),
    decreases a.len() - i,
{
    if i < a.len() && i < b.len() && a[i] == b[i] {
        lemma_text_before_asym(a, b, i + 1);
    }
}

/// Of two texts, one comes first, or they are equal.
pub proof fn lemma_text_before_total(a: Seq<char>, b: Seq<char>)
    ensures
        text_before(a, b) || text_before(b, a) || a == b,
{
    lemma_text_before_total_from(a, b, 0);
    if !text_before(a, b) && !text_before(b, a) {
        assert(a =~= b);
    }
}

proof fn lemma_text_before_total_from(a: Seq<char>, b: Seq<char>, i: int)
    requires
        0 <= i <= a.len(),
        i <= b.len(),
    ensures
        text_before_from(a, b, i) || text_before_from(b, a, i) || (a.len() == b.len() && forall|k: int|
            i <= k < a.len() ==> a[k] == b[k]),
    decreases a.len() - i,
{
    if i < a.len() && i < b.len() {
        if a[i] == b[i] {
            lemma_text_before_total_from(a, b, i + 1);
            if a.len() == b.len() && forall|k: int| i + 1 <= k < a.len() ==> a[k] == b[k] {
                assert forall|k: int| i <= k < a.len() implies a[k] == b[k] by {
                    if k > i {
                        assert(i + 1 <= k < a.len());
                    }
                }
            }
        } else {
            assert((a[i] as int) != (b[i] as int));
        }
    }
}

} // verus!
