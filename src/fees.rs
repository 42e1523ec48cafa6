//! Static per-venue fee schedule.

use crate::exchanges::Exchange;
use crate::units::PPM;
use vstd::prelude::*;

verus! {

/// Taker fee, in ppm, charged for a venue missing from the schedule: the
/// highest rate of the schedule, so that an unknown venue never looks cheap.
pub const DEFAULT_TAKER_FEE_PPM: u64 = 600;

/// Maker fee, in ppm, charged for a venue missing from the schedule.
pub const DEFAULT_MAKER_FEE_PPM: u64 = 200;

/// Maker and taker rates of one venue, in ppm of the notional.
#[derive(Clone, Copy, Debug, PartialEq, Eq, Structural)]
pub struct ExchangeFees {
    pub maker: u64,
    pub taker: u64,
}

/// The fee schedule: at most one entry per venue, every rate at most 100%.
///
/// The entries are a `Vec` of (venue, rates) pairs rather than a map keyed
/// by `Exchange`: a map's lookup would rest on the derived `Hash` and `Eq`
/// of `Exchange`, which the verifier does not read, while a scan of the
/// entries is proved to find the venue's first entry.
pub struct FeeConfig {
    fees: Vec<(Exchange, ExchangeFees)>,
}

/// The entry of `ex` among `entries`, the first one if several.
pub open spec fn fee_entry(entries: Seq<(Exchange, ExchangeFees)>, ex: Exchange) -> Option<ExchangeFees>
    decreases entries.len(),
{
    if entries.len() == 0 {
        None
    } else if entries[0].0 == ex {
        Some(entries[0].1)
    } else {
        fee_entry(entries.drop_first(), ex)
    }
}

impl FeeConfig {
    #[verifier::type_invariant]
    spec fn well_formed(self) -> bool {
        self.rates_bounded() && self.venues_unique()
    }

    spec fn rates_bounded(self) -> bool {
        forall|i: int|
            0 <= i < self.fees@.len() ==> #[trigger] self.fees@[i].1.maker <= PPM
                && self.fees@[i].1.taker <= PPM
    }

    spec fn venues_unique(self) -> bool {
        forall|i: int, j: int|
            0 <= i < j < self.fees@.len() ==> #[trigger] self.fees@[i].0 != #[trigger] self.fees@[j].0
    }

    /// Taker rate, in ppm, that the schedule applies to `ex`.
    pub closed spec fn taker_spec(&self, ex: Exchange) -> u64 {
        match fee_entry(self.fees@, ex) {
            Some(f) => f.taker,
            None => DEFAULT_TAKER_FEE_PPM,
        }
    }

    /// Maker rate, in ppm, that the schedule applies to `ex`.
    pub closed spec fn maker_spec(&self, ex: Exchange) -> u64 {
        match fee_entry(self.fees@, ex) {
            Some(f) => f.maker,
            None => DEFAULT_MAKER_FEE_PPM,
        }
    }

    /// The rates of the supported venues, in ppm.
    pub open spec fn is_default_schedule(&self) -> bool {
        &&& self.taker_spec(Exchange::Binance) == 500
        &&& self.taker_spec(Exchange::Hyperliquid) == 250
        &&& self.taker_spec(Exchange::Bybit) == 600
        &&& self.taker_spec(Exchange::Extended) == 500
        &&& self.maker_spec(Exchange::Binance) == 200
        &&& self.maker_spec(Exchange::Hyperliquid) == 0
        &&& self.maker_spec(Exchange::Bybit) == 200
        &&& self.maker_spec(Exchange::Extended) == 500
    }

    /// The schedule of the supported venues.
    pub fn default() -> (r: FeeConfig)
        ensures
            r.is_default_schedule(),
    {
        let mut fees: Vec<(Exchange, ExchangeFees)> = Vec::new();
        fees.push((Exchange::Binance, ExchangeFees { maker: 200, taker: 500 }));
        fees.push((Exchange::Hyperliquid, ExchangeFees { maker: 0, taker: 250 }));
        fees.push((Exchange::Bybit, ExchangeFees { maker: 200, taker: 600 }));
        fees.push((Exchange::Extended, ExchangeFees { maker: 500, taker: 500 }));
        let r = FeeConfig { fees };
        proof {
            let s = r.fees@;
            assert(s.drop_first().drop_first().drop_first().drop_first().len() == 0);
            reveal_with_fuel(fee_entry, 5);
        }
        r
    }

    fn lookup(&self, ex: Exchange) -> (r: Option<ExchangeFees>)
        ensures
            r == fee_entry(self.fees@, ex),
            r matches Some(f) ==> f.maker <= PPM && f.taker <= PPM,
    {
        proof {
            use_type_invariant(self);
            assert(self.fees@.subrange(0, self.fees@.len() as int) =~= self.fees@);
        }
        let mut i: usize = 0;
        while i < self.fees.len()
            invariant
                i <= self.fees@.len(),
                self.rates_bounded(),
                fee_entry(self.fees@, ex) == fee_entry(self.fees@.subrange(i as int, self.fees@.len() as int), ex),
            decreases self.fees@.len() - i,
        {
            proof {
                let rest = self.fees@.subrange(i as int, self.fees@.len() as int);
                assert(rest.drop_first() =~= self.fees@.subrange(i + 1, self.fees@.len() as int));
            }
            if self.fees[i].0 == ex {
                return Some(self.fees[i].1);
            }
            i = i + 1;
        }
        None
    }

    /// Taker rate of `ex`, in ppm; a venue missing from the schedule pays
    /// the conservative default.
    pub fn get_taker_fee(&self, exchange: Exchange) -> (r: u64)
        ensures
            r == self.taker_spec(exchange),
            r <= PPM,
    {
        match self.lookup(exchange) {
            Some(f) => f.taker,
            None => DEFAULT_TAKER_FEE_PPM,
        }
    }

    /// Maker rate of `ex`, in ppm; a venue missing from the schedule pays
    /// the default.
    pub fn get_maker_fee(&self, exchange: Exchange) -> (r: u64)
        ensures
            r == self.maker_spec(exchange),
            r <= PPM,
    {
        match self.lookup(exchange) {
            Some(f) => f.maker,
            None => DEFAULT_MAKER_FEE_PPM,
        }
    }
}

} // verus!
