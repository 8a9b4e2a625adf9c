//! The quote generator: on every tick, one quote per catalog symbol, with
//! a price that takes a bounded random step and a volume from a bounded
//! range, both drawn from a xorshift sequence.

use vstd::prelude::*;
use vstd::utf8::encode_utf8;
use crate::catalog::Catalog;
use crate::quote::StockQuote;

verus! {

/// Every price starts here, in hundredths.
pub const BASE_PRICE: u64 = 10000;

/// Lowest price, in hundredths.
pub const MIN_PRICE: u64 = 100;

/// Highest price, in hundredths.
pub const MAX_PRICE: u64 = 100000000;

/// Largest move of a price in one tick, in hundredths.
pub const MAX_STEP: u64 = 100;

/// Number of distinct price moves: `-MAX_STEP..=MAX_STEP`.
pub const STEP_SPAN: u64 = 201;

pub const MIN_VOLUME: u32 = 1;

/// Number of distinct volumes: `MIN_VOLUME..MIN_VOLUME + VOLUME_SPAN`.
pub const VOLUME_SPAN: u64 = 10000;

/// One xorshift64 step.
pub open spec fn next_state(x: u64) -> u64 {
    let a = x ^ (x << 13u64);
    let b = a ^ (a >> 7u64);
    b ^ (b << 17u64)
}

/// The state after `n` steps from `x`.
pub open spec fn states(x: u64, n: nat) -> u64
    decreases n,
{
    if n == 0 {
        x
    } else {
        next_state(states(x, (n - 1) as nat))
    }
}

/// The price after one step from `p` driven by the draw `x`: a move of at
/// most `MAX_STEP` either way, kept within `[MIN_PRICE, MAX_PRICE]`.
pub open spec fn walk(p: u64, x: u64) -> u64 {
    let q = p as int + (x % STEP_SPAN) as int - MAX_STEP as int;
    if q < MIN_PRICE as int {
        MIN_PRICE
    } else if q > MAX_PRICE as int {
        MAX_PRICE
    } else {
        q as u64
    }
}

/// The volume that the draw `x` gives.
pub open spec fn volume_of(x: u64) -> u32 {
    (MIN_VOLUME as int + (x % VOLUME_SPAN) as int) as u32
}

fn xorshift(x: u64) -> (r: u64)
    ensures
        r == next_state(x),
{
    let a = x ^ (x << 13u64);
    let b = a ^ (a >> 7u64);
    b ^ (b << 17u64)
}

/// The generator: the last price of each catalog symbol, and the random state.
#[derive(Debug)]
pub struct QuoteGenerator {
    prices: Vec<u64>,
    state: u64,
}

impl QuoteGenerator {
    /// The last price of symbol `i`.
    pub closed spec fn price(&self, i: int) -> u64 {
        self.prices@[i]
    }

    /// The number of symbols the generator serves.
    pub closed spec fn symbol_count(&self) -> nat {
        self.prices@.len()
    }

    /// The random state.
    pub closed spec fn seed(&self) -> u64 {
        self.state
    }

    /// A generator for `symbols` symbols, all at the base price. A zero
    /// seed would stay zero, so it is replaced by one.
    pub fn new(symbols: usize, seed: u64) -> (r: QuoteGenerator)
        ensures
            r.symbol_count() == symbols,
            forall|i: int| 0 <= i < symbols ==> r.price(i) == BASE_PRICE,
            r.seed() == if seed == 0 {
                1
            } else {
                seed
            },
    {
        let mut prices: Vec<u64> = Vec::new();
        let mut i: usize = 0;
        while i < symbols
            invariant
                i <= symbols,
                prices@.len() == i,
                forall|j: int| 0 <= j < i ==> prices@[j] == BASE_PRICE,
            decreases symbols - i,
        {
            prices.push(BASE_PRICE);
            i = i + 1;
        }
        QuoteGenerator {
            prices,
            state: if seed == 0 {
                1
            } else {
                seed
            },
        }
    }

    /// One tick at `now`: for every catalog symbol in order, the price takes
    /// a step driven by the next draw and the volume is the draw after it.
    pub fn tick(&mut self, catalog: &Catalog, now: u64) -> (r: Vec<StockQuote>)
        requires
            old(self).symbol_count() == catalog@.len(),
        ensures
            final(self).symbol_count() == old(self).symbol_count(),
            final(self).seed() == states(old(self).seed(), 2 * catalog@.len()),
            r@.len() == catalog@.len(),
            forall|i: int|
                0 <= i < r@.len() ==> {
                    &&& encode_utf8((#[trigger] r@[i]).ticker@) == catalog@[i]
                    &&& r@[i].price == walk(
                        old(self).price(i),
                        states(old(self).seed(), (2 * i + 1) as nat),
                    )
                    &&& r@[i].volume == volume_of(states(old(self).seed(), (2 * i + 2) as nat))
                    &&& r@[i].timestamp == now
                    &&& final(self).price(i) == r@[i].price
                },
    {
        let ghost s0 = self.state;
        let ghost p0 = self.prices@;
        let n = catalog.len();
        let mut out: Vec<StockQuote> = Vec::new();
        let mut i: usize = 0;
        while i < n
            invariant
                n == catalog@.len(),
                self.prices@.len() == n,
                p0.len() == n,
                i <= n,
                self.state == states(s0, (2 * i) as nat),
                out@.len() == i,
                forall|j: int| i <= j < n ==> self.prices@[j] == p0[j],
                forall|j: int|
                    0 <= j < i ==> {
                        &&& encode_utf8((#[trigger] out@[j]).ticker@) == catalog@[j]
                        &&& out@[j].price == walk(p0[j], states(s0, (2 * j + 1) as nat))
                        &&& out@[j].volume == volume_of(states(s0, (2 * j + 2) as nat))
                        &&& out@[j].timestamp == now
                        &&& self.prices@[j] == out@[j].price
                    },
            decreases n - i,
        {
            let x = xorshift(self.state);
            let y = xorshift(x);
            let p = self.prices[i];
            let q = p as i128 + (x % STEP_SPAN) as i128 - MAX_STEP as i128;
            let price = if q < MIN_PRICE as i128 {
                MIN_PRICE
            } else if q > MAX_PRICE as i128 {
                MAX_PRICE
            } else {
                q as u64
            };
            let volume = (MIN_VOLUME as u64 + y % VOLUME_SPAN) as u32;
            let ticker = catalog.symbol(i).clone();
            self.prices.set(i, price);
            self.state = y;
            out.push(StockQuote { ticker, price, volume, timestamp: now });
            proof {
                assert(states(s0, (2 * i + 1) as nat) == x);
                assert(states(s0, (2 * i + 2) as nat) == y);
            }
            i = i + 1;
        }
        out
    }
}

} // verus!
