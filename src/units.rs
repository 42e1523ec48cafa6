//! Fixed-point units shared by the whole engine.
//!
//! * prices: `1 / PRICE_SCALE` USD per unit of the asset;
//! * sizes: `1 / PRICE_SCALE` units of the asset;
//! * money: `1 / PRICE_SCALE` USD;
//! * rates (fees, spreads, friction): parts per million of a notional,
//!   so `0.05%` is `500`.

use vstd::prelude::*;

verus! {

/// Fixed-point denominator of prices, sizes and money amounts.
pub const PRICE_SCALE: u64 = 100_000_000;

/// Denominator of rates: one whole is a million parts.
pub const PPM: u64 = 1_000_000;

/// One US dollar in money units.
pub const ONE_USD: u128 = 100_000_000;

/// Money value of `qty` units at `price` per unit, rounded down.
pub open spec fn usd_value(qty: int, price: int) -> int {
    qty * price / (PRICE_SCALE as int)
}

/// `amount` increased by a rate in ppm, rounded down.
pub open spec fn add_rate(amount: int, rate: int) -> int {
    amount * ((PPM as int) + rate) / (PPM as int)
}

/// `amount` decreased by a rate in ppm, rounded down.
pub open spec fn remove_rate(amount: int, rate: int) -> int {
    amount * ((PPM as int) - rate) / (PPM as int)
}

/// `part` as a share of `whole`, in ppm, rounded down.
pub open spec fn ratio_ppm(part: int, whole: int) -> int {
    part * (PPM as int) / whole
}

} // verus!
