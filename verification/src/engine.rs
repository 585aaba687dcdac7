//! The [`Engine`] trait: the operations every matching engine implements.
//!
//! Both [`crate::book::OrderBook`] (BTreeMap) and [`crate::ladder::LadderBook`]
//! (array + bitmap) implement this. Pinning the surface down as a trait lets
//! callers be generic over the price-index strategy. It also fixes the contract
//! of every operation once, over the model [`Book`] that an engine stands for:
//! two engines that stand for the same book give the same answers, and stand
//! for the same book afterwards (see [`crate::laws`]).
//!
//! Construction is intentionally *not* part of the trait: the ladder needs a
//! bounded price range up front while the BTreeMap does not, so each engine
//! keeps its own constructor.

use vstd::prelude::*;

use crate::model::{top, Book};
use crate::types::{L2Snapshot, OrderId, Price, Qty, Side, SubmitResult};

verus! {

/// Owner value for orders that opt out of self-trade prevention. Distinct from
/// every real participant id, so an anonymous order never "self-matches".
pub const ANONYMOUS: OrderId = u64::MAX;

/// What to do when an aggressor would match against a resting order it owns.
#[derive(Debug, Clone, Copy, PartialEq, Eq, Structural)]
pub enum SelfTrade {
    /// No prevention: a participant may trade with itself (default).
    Allow,
    /// Cancel the resting (maker) order and keep matching the aggressor.
    CancelResting,
    /// Cancel the aggressor's remaining quantity; leave the maker resting.
    CancelAggressor,
    /// Cancel both the resting order and the aggressor's remainder.
    CancelBoth,
}

impl Default for SelfTrade {
    /// Self-trade prevention is off unless asked for.
    fn default() -> (policy: SelfTrade)
        ensures
            policy == SelfTrade::Allow,
    {
        SelfTrade::Allow
    }
}

/// A price-time-priority matching engine.
pub trait Engine {
    /// The engine's representation is in order.
    spec fn in_order(&self) -> bool;

    /// The book the engine stands for.
    spec fn book(&self) -> Book;

    /// The engine takes limit orders at `price`.
    spec fn accepts(&self, price: Price) -> bool;

    /// An engine whose representation is in order stands for a well-formed
    /// book.
    proof fn lemma_in_order(&self)
        requires
            self.in_order(),
        ensures
            self.book().wf(),
    ;

    /// Submit a limit order; matches then rests any remainder at `price`.
    /// The order is [`ANONYMOUS`], so self-trade prevention never applies.
    fn submit_limit(&mut self, side: Side, price: Price, qty: Qty) -> (result: SubmitResult)
        requires
            old(self).in_order(),
            old(self).accepts(price),
            old(self).book().limit_fits(ANONYMOUS, side, price, qty),
        ensures
            final(self).in_order(),
            final(self).book() == old(self).book().limit(ANONYMOUS, side, price, qty),
            result@ == old(self).book().limit_receipt(ANONYMOUS, side, price, qty),
            forall|p: Price| #[trigger] final(self).accepts(p) == old(self).accepts(p),
    {
        self.submit_limit_as(ANONYMOUS, side, price, qty)
    }

    /// Submit a limit order attributed to `owner` (for self-trade prevention).
    fn submit_limit_as(&mut self, owner: OrderId, side: Side, price: Price, qty: Qty) -> (result:
        SubmitResult)
        requires
            old(self).in_order(),
            old(self).accepts(price),
            old(self).book().limit_fits(owner, side, price, qty),
        ensures
            final(self).in_order(),
            final(self).book() == old(self).book().limit(owner, side, price, qty),
            result@ == old(self).book().limit_receipt(owner, side, price, qty),
            forall|p: Price| #[trigger] final(self).accepts(p) == old(self).accepts(p),
    ;

    /// Submit an [`ANONYMOUS`] market order.
    fn submit_market(&mut self, side: Side, qty: Qty) -> (result: SubmitResult)
        requires
            old(self).in_order(),
            old(self).book().market_fits(qty),
        ensures
            final(self).in_order(),
            final(self).book() == old(self).book().market(ANONYMOUS, side, qty),
            result@ == old(self).book().market_receipt(ANONYMOUS, side, qty),
            forall|p: Price| #[trigger] final(self).accepts(p) == old(self).accepts(p),
    {
        self.submit_market_as(ANONYMOUS, side, qty)
    }

    /// Submit a market order attributed to `owner`: match against the best
    /// available prices with no price limit. Never rests: any unfilled
    /// remainder is cancelled and reported in [`SubmitResult::resting`].
    fn submit_market_as(&mut self, owner: OrderId, side: Side, qty: Qty) -> (result: SubmitResult)
        requires
            old(self).in_order(),
            old(self).book().market_fits(qty),
        ensures
            final(self).in_order(),
            final(self).book() == old(self).book().market(owner, side, qty),
            result@ == old(self).book().market_receipt(owner, side, qty),
            forall|p: Price| #[trigger] final(self).accepts(p) == old(self).accepts(p),
    ;

    /// Set the self-trade-prevention policy for subsequent aggressor orders.
    fn set_self_trade(&mut self, policy: SelfTrade)
        requires
            old(self).in_order(),
        ensures
            final(self).in_order(),
            final(self).book() == (Book { stp: policy, ..old(self).book() }),
            forall|p: Price| #[trigger] final(self).accepts(p) == old(self).accepts(p),
    ;

    /// Cancel a resting order. Returns whether it was on the book.
    fn cancel(&mut self, id: OrderId) -> (found: bool)
        requires
            old(self).in_order(),
        ensures
            final(self).in_order(),
            final(self).book() == old(self).book().cancel(id),
            found == old(self).book().rests(id),
            forall|p: Price| #[trigger] final(self).accepts(p) == old(self).accepts(p),
    ;

    /// Change a resting order's quantity.
    ///
    /// Reducing keeps the order's time priority (an `O(1)` in-place shrink).
    /// Increasing forfeits priority: the order moves to the back of its price
    /// level, keeping its id. Returns `false` if the order isn't resting.
    /// `new_qty` must be positive; use [`Engine::cancel`] to remove an order.
    fn amend(&mut self, id: OrderId, new_qty: Qty) -> (found: bool)
        requires
            old(self).in_order(),
            old(self).book().amend_fits(id, new_qty),
        ensures
            final(self).in_order(),
            final(self).book() == old(self).book().amend(id, new_qty),
            found == old(self).book().rests(id),
            forall|p: Price| #[trigger] final(self).accepts(p) == old(self).accepts(p),
    ;

    /// The highest resting bid price, if any.
    fn best_bid(&self) -> (price: Option<Price>)
        requires
            self.in_order(),
        ensures
            price == self.book().best_bid(),
    ;

    /// The lowest resting ask price, if any.
    fn best_ask(&self) -> (price: Option<Price>)
        requires
            self.in_order(),
        ensures
            price == self.book().best_ask(),
    ;

    /// The gap between best ask and best bid, if both sides are populated.
    fn spread(&self) -> (gap: Option<Price>)
        requires
            self.in_order(),
        ensures
            gap == self.book().spread(),
    ;

    /// Total resting quantity at `price` on the given side (0 if none).
    fn depth_at(&self, side: Side, price: Price) -> (qty: Qty)
        requires
            self.in_order(),
        ensures
            qty == self.book().depth(side, price),
    ;

    /// A snapshot of the top `depth` price levels per side.
    fn l2(&self, depth: usize) -> (snap: L2Snapshot)
        requires
            self.in_order(),
        ensures
            snap.bids@ == top(self.book().bids, Side::Bid, depth as nat),
            snap.asks@ == top(self.book().asks, Side::Ask, depth as nat),
    ;
}

} // verus!
