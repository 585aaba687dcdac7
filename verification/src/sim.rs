//! Deterministic synthetic order flow, for demos and benchmarks.
//!
//! No external RNG crate: [`Rng`] is a SplitMix64, which is tiny, fast, and
//! fully reproducible from a seed, exactly what you want for benchmarks you
//! can compare run to run.

use vstd::prelude::*;

use crate::types::{Price, Qty, Side};

verus! {

/// The state of the generator one draw later.
pub open spec fn advanced(state: u64) -> u64 {
    state.wrapping_add(0x9E37_79B9_7F4A_7C15)
}

/// The value drawn on reaching `state`.
pub open spec fn mixed(state: u64) -> u64 {
    let a = (state ^ (state >> 30)).wrapping_mul(0xBF58_476D_1CE4_E5B9);
    let b = (a ^ (a >> 27)).wrapping_mul(0x94D0_49BB_1331_11EB);
    b ^ (b >> 31)
}

/// The state of a generator after `k` draws from `seed`.
pub open spec fn state_after(seed: u64, k: nat) -> u64
    decreases k,
{
    if k == 0 {
        seed
    } else {
        advanced(state_after(seed, (k - 1) as nat))
    }
}

/// The `k`-th value drawn from `seed`, counted from 1.
pub open spec fn draw(seed: u64, k: nat) -> u64 {
    mixed(state_after(seed, k))
}

/// Drawing goes on from where it was.
pub proof fn lemma_state_after_sum(seed: u64, j: nat, k: nat)
    ensures
        state_after(state_after(seed, j), k) == state_after(seed, j + k),
    decreases k,
{
    if k > 0 {
        lemma_state_after_sum(seed, j, (k - 1) as nat);
    }
}

/// A minimal SplitMix64 pseudo-random generator.
pub struct Rng(u64);

impl View for Rng {
    type V = u64;

    /// The state of the generator.
    closed spec fn view(&self) -> u64 {
        self.0
    }
}

impl Rng {
    /// Seed the generator. The same seed always yields the same sequence.
    pub fn new(seed: u64) -> (rng: Self)
        ensures
            rng@ == seed,
    {
        Self(seed)
    }

    /// Next raw 64-bit value.
    pub fn next_u64(&mut self) -> (value: u64)
        ensures
            final(self)@ == advanced(old(self)@),
            value == mixed(advanced(old(self)@)),
    {
        self.0 = self.0.wrapping_add(0x9E37_79B9_7F4A_7C15);
        let mut z: u64 = self.0;
        z = (z ^ (z >> 30)).wrapping_mul(0xBF58_476D_1CE4_E5B9);
        z = (z ^ (z >> 27)).wrapping_mul(0x94D0_49BB_1331_11EB);
        z ^ (z >> 31)
    }

    /// A value in `0..n` (n must be non-zero).
    pub fn below(&mut self, n: u64) -> (value: u64)
        requires
            n != 0,
        ensures
            final(self)@ == advanced(old(self)@),
            value == mixed(advanced(old(self)@)) % n,
            value < n,
    {
        self.next_u64() % n
    }
}

/// The side that a drawn value stands for.
pub open spec fn coin(value: u64) -> Side {
    if value & 1 == 0 {
        Side::Bid
    } else {
        Side::Ask
    }
}

/// Flip a coin for the side of an order.
pub(crate) fn flip(rng: &mut Rng) -> (side: Side)
    ensures
        final(rng)@ == advanced(old(rng)@),
        side == coin(mixed(advanced(old(rng)@))),
{
    if rng.next_u64() & 1 == 0 {
        Side::Bid
    } else {
        Side::Ask
    }
}

/// A single limit order to feed into the book.
#[derive(Debug, Clone, Copy)]
pub struct LimitOrder {
    pub side: Side,
    pub price: Price,
    pub qty: Qty,
}

/// The limit order that the next three draws of a generator make: its side,
/// its price in `mid ± band`, and its quantity in `1..=max_qty`.
pub open spec fn drawn_limit(state: u64, mid: Price, band: Price, max_qty: Qty) -> LimitOrder {
    LimitOrder {
        side: coin(draw(state, 1)),
        price: (mid - band + draw(state, 2) % ((band * 2 + 1) as u64)) as Price,
        qty: (1 + draw(state, 3) % max_qty) as Qty,
    }
}

/// Generate `n` random limit orders clustered around `mid`.
///
/// Prices fall in `mid ± band` and quantities in `1..=max_qty`, with side a
/// coin flip. Because buys and sells overlap in price, this flow produces a
/// realistic mix of crossing (matching) and resting orders: good exercise for
/// the matching engine.
pub fn random_limit_flow(seed: u64, n: usize, mid: Price, band: Price, max_qty: Qty) -> (flow: Vec<
    LimitOrder,
>)
    requires
        band * 2 + 1 <= u64::MAX,
        n > 0 ==> band <= mid && mid + band <= u64::MAX && max_qty > 0,
    ensures
        flow@ == Seq::new(
            n as nat,
            |i: int| drawn_limit(state_after(seed, (3 * i) as nat), mid, band, max_qty),
        ),
        forall|i: int|
            #![trigger flow@[i]]
            0 <= i < n ==> {
                &&& mid - band <= flow@[i].price <= mid + band
                &&& 1 <= flow@[i].qty <= max_qty
            },
        forall|i: int|
            #![trigger flow@[i]]
            0 <= i < n ==> {
                &&& flow@[i].side == coin(draw(seed, (3 * i + 1) as nat))
                &&& flow@[i].price - (mid - band) == draw(seed, (3 * i + 2) as nat) as int % (band
                    * 2 + 1)
                &&& flow@[i].qty - 1 == draw(seed, (3 * i + 3) as nat) as int % max_qty as int
            },
{
    let mut rng = Rng::new(seed);
    let span: u64 = band * 2 + 1;
    let mut flow: Vec<LimitOrder> = Vec::new();
    while flow.len() < n
        invariant
            span == band * 2 + 1,
            flow.len() <= n,
            n > 0 ==> band <= mid && mid + band <= u64::MAX && max_qty > 0,
            rng@ == state_after(seed, 3 * flow.len() as nat),
            forall|i: int|
                #![trigger flow@[i]]
                0 <= i < flow.len() ==> {
                    &&& flow@[i] == drawn_limit(
                        state_after(seed, (3 * i) as nat),
                        mid,
                        band,
                        max_qty,
                    )
                    &&& mid - band <= flow@[i].price <= mid + band
                    &&& 1 <= flow@[i].qty <= max_qty
                },
        decreases n - flow.len(),
    {
        let ghost start = rng@;
        proof {
            reveal_with_fuel(state_after, 4);
            lemma_state_after_sum(seed, 3 * flow.len() as nat, 3);
        }
        let side = flip(&mut rng);
        let price: Price = mid - band + rng.below(span);
        let qty: Qty = 1 + rng.below(max_qty);
        flow.push(LimitOrder { side, price, qty });
        assert(flow@.last() == drawn_limit(start, mid, band, max_qty));
    }
    proof {
        assert forall|i: int| #![trigger flow@[i]] 0 <= i < n implies {
            &&& flow@[i].side == coin(draw(seed, (3 * i + 1) as nat))
            &&& flow@[i].price - (mid - band) == draw(seed, (3 * i + 2) as nat) as int % (band * 2
                + 1)
            &&& flow@[i].qty - 1 == draw(seed, (3 * i + 3) as nat) as int % max_qty as int
        } by {
            lemma_state_after_sum(seed, (3 * i) as nat, 1);
            lemma_state_after_sum(seed, (3 * i) as nat, 2);
            lemma_state_after_sum(seed, (3 * i) as nat, 3);
        }
        assert(flow@ =~= Seq::new(
            n as nat,
            |i: int| drawn_limit(state_after(seed, (3 * i) as nat), mid, band, max_qty),
        ));
    }
    flow
}

} // verus!
