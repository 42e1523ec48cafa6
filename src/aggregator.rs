//! The book store: the latest quote of every (symbol, venue) pair, shared by
//! any number of concurrent feed writers.
//!
//! Storage is a two-level `DashMap` (symbol, then venue), so writers of
//! different keys do not contend on one lock, a write replaces a whole
//! `MarketBook` at once, and readers never see a torn entry. Because writers
//! on other handles may change the store between any two calls, what a read
//! returns is stated only as far as it holds whatever was written meanwhile.

use crate::exchanges::{Exchange, MarketBook, VENUE_COUNT};
use dashmap::DashMap;
use std::sync::Arc;
use vstd::prelude::*;

verus! {

#[verifier::external_type_specification]
#[verifier::external_body]
#[verifier::reject_recursive_types(K)]
#[verifier::reject_recursive_types(V)]
#[verifier::reject_recursive_types(S)]
pub struct ExDashMap<K, V, S>(DashMap<K, V, S>);

/// Venue index of one symbol.
type VenueBooks = DashMap<Exchange, MarketBook>;

/// Symbol index of the whole store.
type BookIndex = DashMap<String, VenueBooks>;

/// Relies on `DashMap::new`: an empty map.
#[verifier::external_body]
fn new_index() -> BookIndex {
    DashMap::new()
}

/// Relies on `DashMap::entry`, `Entry::or_insert_with` and `DashMap::insert`:
/// the venue map of `symbol` is created when missing, then its entry for
/// `exchange` is replaced by `book` under that shard's write lock.
#[verifier::external_body]
fn store_book(index: &BookIndex, symbol: String, exchange: Exchange, book: MarketBook) {
    index.entry(symbol).or_insert_with(DashMap::new).insert(exchange, book);
}

/// Relies on `DashMap::get` and `DashMap::iter`: a copy of the venue map of
/// `symbol`, if the symbol is known. The iterator visits each shard once
/// under its read lock and a key lives in one shard, so no venue repeats.
#[verifier::external_body]
fn copy_books(index: &BookIndex, symbol: &str) -> (r: Option<Vec<(Exchange, MarketBook)>>)
    ensures
        r matches Some(v) ==> forall|i: int, j: int|
            0 <= i < j < v@.len() ==> v@[i].0 != v@[j].0,
{
    index.get(symbol).map(|m| m.iter().map(|e| (*e.key(), *e.value())).collect())
}

/// Relies on `DashMap::iter`: the known symbols, each once (see `copy_books`).
#[verifier::external_body]
fn copy_symbols(index: &BookIndex) -> (r: Vec<String>)
    ensures
        forall|i: int, j: int| 0 <= i < j < r@.len() ==> r@[i]@ != r@[j]@,
{
    index.iter().map(|e| e.key().clone()).collect()
}

/// Relies on `DashMap::get` and `DashMap::len`: the number of venues of
/// `symbol`, `None` for an unknown symbol. The length sums the shards'
/// lengths and a key lives in one shard, so it counts distinct venues, of
/// which there are `VENUE_COUNT`.
#[verifier::external_body]
fn count_venues(index: &BookIndex, symbol: &str) -> (r: Option<usize>)
    ensures
        r matches Some(n) ==> n <= VENUE_COUNT,
{
    index.get(symbol).map(|m| m.len())
}

/// A handle on the shared book store; clones share the same store.
#[derive(Clone)]
pub struct PriceAggregator {
    books: Arc<BookIndex>,
}

impl PriceAggregator {
    /// A handle on a new, empty store.
    pub fn new() -> PriceAggregator {
        PriceAggregator { books: Arc::new(new_index()) }
    }

    /// Replaces the quote of (`symbol`, `exchange`) by `book`, last write
    /// wins; safe to call from any number of handles at once.
    pub fn update(&self, symbol: String, exchange: Exchange, book: MarketBook) {
        store_book(&self.books, symbol, exchange, book);
    }

    /// A point-in-time copy of every venue's quote for `symbol`, `None` for
    /// a symbol never updated. No venue appears twice.
    pub fn get_books(&self, symbol: &str) -> (r: Option<Vec<(Exchange, MarketBook)>>)
        ensures
            r matches Some(v) ==> forall|i: int, j: int|
                0 <= i < j < v@.len() ==> v@[i].0 != v@[j].0,
    {
        copy_books(&self.books, symbol)
    }

    /// Every symbol known to the store, each once.
    pub fn get_all_symbols(&self) -> (r: Vec<String>)
        ensures
            forall|i: int, j: int| 0 <= i < j < r@.len() ==> r@[i]@ != r@[j]@,
    {
        copy_symbols(&self.books)
    }

    /// Number of venues known for `symbol`, zero for an unknown symbol.
    pub fn get_exchange_count(&self, symbol: &str) -> (r: usize)
        ensures
            r <= VENUE_COUNT,
    {
        match count_venues(&self.books, symbol) {
            Some(n) => n,
            None => 0,
        }
    }
}

} // verus!
