//! The mathematical model of a book that both engines are verified against.
//!
//! A [`Book`] is two maps from price to a queue of resting orders, oldest
//! first. Price priority is the order of the keys, time priority the order
//! within a queue.

use vstd::prelude::*;

use crate::engine::{SelfTrade, ANONYMOUS};
use crate::types::{Level2, OrderId, Price, Qty, Receipt, Side, Trade};

verus! {

/// A resting order, as it stands in the queue of its price level.
pub struct Order {
    pub id: OrderId,
    pub owner: OrderId,
    pub qty: Qty,
}

/// One side of a book: a queue of resting orders for every populated price.
pub type Levels = Map<Price, Seq<Order>>;

/// The total quantity of a queue.
pub open spec fn total(queue: Seq<Order>) -> nat
    decreases queue.len(),
{
    if queue.len() == 0 {
        0
    } else {
        total(queue.drop_last()) + queue.last().qty as nat
    }
}

/// The total of two queues in a row is the sum of their totals.
pub proof fn lemma_total_concat(a: Seq<Order>, b: Seq<Order>)
    ensures
        total(a + b) == total(a) + total(b),
    decreases b.len(),
{
    if b.len() == 0 {
        assert(a + b =~= a);
    } else {
        assert((a + b).drop_last() =~= a + b.drop_last());
        lemma_total_concat(a, b.drop_last());
    }
}

/// The total of a queue, split at position `i`.
pub proof fn lemma_total_split(queue: Seq<Order>, i: int)
    requires
        0 <= i < queue.len(),
    ensures
        total(queue) == total(queue.take(i)) + queue[i].qty + total(queue.skip(i + 1)),
{
    let one = seq![queue[i]];
    assert(one.drop_last() =~= seq![]);
    assert(total(one) == queue[i].qty) by {
        reveal_with_fuel(total, 2);
    }
    assert(queue =~= queue.take(i) + one + queue.skip(i + 1));
    lemma_total_concat(queue.take(i) + one, queue.skip(i + 1));
    lemma_total_concat(queue.take(i), one);
}

/// Removing an order takes its quantity off the total.
pub proof fn lemma_total_remove(queue: Seq<Order>, i: int)
    requires
        0 <= i < queue.len(),
    ensures
        total(queue.remove(i)) == total(queue) - queue[i].qty,
{
    lemma_total_split(queue, i);
    assert(queue.remove(i) =~= queue.take(i) + queue.skip(i + 1));
    lemma_total_concat(queue.take(i), queue.skip(i + 1));
}

/// Replacing an order changes the total by the difference of the quantities.
pub proof fn lemma_total_update(queue: Seq<Order>, i: int, order: Order)
    requires
        0 <= i < queue.len(),
    ensures
        total(queue.update(i, order)) == total(queue) - queue[i].qty + order.qty,
{
    let updated = queue.update(i, order);
    lemma_total_split(queue, i);
    lemma_total_split(updated, i);
    assert(updated.take(i) =~= queue.take(i));
    assert(updated.skip(i + 1) =~= queue.skip(i + 1));
}

/// Adding an order at the back adds its quantity.
pub proof fn lemma_total_push(queue: Seq<Order>, order: Order)
    ensures
        total(queue.push(order)) == total(queue) + order.qty,
{
    assert(queue.push(order).drop_last() =~= queue);
}

/// `price` is at least as good as `other` for the orders resting on `side`:
/// the best bid is the highest one, the best ask the lowest one.
pub open spec fn at_least_as_good(side: Side, price: Price, other: Price) -> bool {
    match side {
        Side::Bid => price >= other,
        Side::Ask => price <= other,
    }
}

/// `price` is the best populated price of `levels`.
pub open spec fn is_best(levels: Levels, side: Side, price: Price) -> bool {
    &&& levels.contains_key(price)
    &&& forall|other: Price| #[trigger]
        levels.contains_key(other) ==> at_least_as_good(side, price, other)
}

/// The best populated price of `levels`, if there is any.
pub open spec fn best(levels: Levels, side: Side) -> Option<Price> {
    if exists|price: Price| is_best(levels, side, price) {
        Some(choose|price: Price| is_best(levels, side, price))
    } else {
        None
    }
}

/// The best `depth` levels of `levels`, best first, each with its total.
pub open spec fn top(levels: Levels, side: Side, depth: nat) -> Seq<Level2>
    decreases depth,
{
    if depth == 0 {
        seq![]
    } else {
        match best(levels, side) {
            None => seq![],
            Some(price) => seq![Level2 { price, qty: total(levels[price]) as Qty }] + top(
                levels.remove(price),
                side,
                (depth - 1) as nat,
            ),
        }
    }
}

/// An incoming order while it matches: who sent it, how far it is willing to
/// go (`None` for a market order), and the self-trade policy in force.
#[derive(Clone, Copy)]
pub struct Taker {
    pub id: OrderId,
    pub owner: OrderId,
    pub side: Side,
    pub limit: Option<Price>,
    pub stp: SelfTrade,
}

impl Taker {
    /// The taker is willing to trade at `price`.
    pub open spec fn crosses(self, price: Price) -> bool {
        match self.limit {
            None => true,
            Some(limit) => at_least_as_good(self.side, limit, price),
        }
    }

    /// Trading with `maker` is a self-trade that the policy prevents.
    pub open spec fn prevented(self, maker: Order) -> bool {
        &&& self.stp != SelfTrade::Allow
        &&& self.owner != ANONYMOUS
        &&& maker.owner == self.owner
    }

    /// A prevented self-trade removes the resting order.
    pub open spec fn drops_maker(self) -> bool {
        self.stp == SelfTrade::CancelResting || self.stp == SelfTrade::CancelBoth
    }

    /// A prevented self-trade cancels what remains of the taker.
    pub open spec fn drops_taker(self) -> bool {
        self.stp == SelfTrade::CancelAggressor || self.stp == SelfTrade::CancelBoth
    }
}

/// What a taker does to one queue.
pub struct Fill {
    /// The queue afterwards.
    pub rest: Seq<Order>,
    /// The executions, in order.
    pub trades: Seq<Trade>,
    /// What the taker has left.
    pub qty: Qty,
    /// Self-trade prevention cancelled what the taker has left.
    pub cancelled: bool,
}

/// Match `qty` of the taker against a queue, oldest order first.
pub open spec fn fill(taker: Taker, price: Price, queue: Seq<Order>, qty: Qty) -> Fill
    decreases queue.len(),
{
    if qty == 0 || queue.len() == 0 {
        Fill { rest: queue, trades: seq![], qty, cancelled: false }
    } else {
        let maker = queue[0];
        if taker.prevented(maker) {
            let rest = if taker.drops_maker() { queue.drop_first() } else { queue };
            if taker.drops_taker() {
                Fill { rest, trades: seq![], qty, cancelled: true }
            } else {
                fill(taker, price, queue.drop_first(), qty)
            }
        } else if qty < maker.qty {
            Fill {
                rest: queue.update(0, Order { qty: (maker.qty - qty) as Qty, ..maker }),
                trades: seq![Trade { taker: taker.id, maker: maker.id, price, qty }],
                qty: 0,
                cancelled: false,
            }
        } else {
            let later = fill(taker, price, queue.drop_first(), (qty - maker.qty) as Qty);
            Fill {
                trades: seq![Trade { taker: taker.id, maker: maker.id, price, qty: maker.qty }]
                    + later.trades,
                ..later
            }
        }
    }
}

/// What a taker does to the side of the book it matches into.
pub struct Sweep {
    /// The side afterwards.
    pub levels: Levels,
    /// The executions, in order.
    pub trades: Seq<Trade>,
    /// What the taker has left.
    pub qty: Qty,
    /// Self-trade prevention cancelled what the taker has left.
    pub cancelled: bool,
}

/// Match `qty` of the taker against `levels`, best price first, until the
/// taker is exhausted or cancelled, or the best price no longer crosses.
pub open spec fn sweep(taker: Taker, levels: Levels, qty: Qty) -> Sweep
    decreases levels.dom().len(),
    when levels.dom().finite()
{
    match best(levels, taker.side.opposite()) {
        Some(price) if qty > 0 && taker.crosses(price) => {
            let here = fill(taker, price, levels[price], qty);
            if here.rest.len() > 0 {
                Sweep {
                    levels: levels.insert(price, here.rest),
                    trades: here.trades,
                    qty: here.qty,
                    cancelled: here.cancelled,
                }
            } else if here.cancelled {
                Sweep {
                    levels: levels.remove(price),
                    trades: here.trades,
                    qty: here.qty,
                    cancelled: true,
                }
            } else {
                let later = sweep(taker, levels.remove(price), here.qty);
                Sweep { trades: here.trades + later.trades, ..later }
            }
        },
        _ => Sweep { levels, trades: seq![], qty, cancelled: false },
    }
}

/// A position in a book: a side, a price and an index into that queue.
pub struct Place {
    pub side: Side,
    pub price: Price,
    pub index: int,
}

/// The state of a book.
#[verifier::ext_equal]
pub struct Book {
    pub bids: Levels,
    pub asks: Levels,
    /// The self-trade policy for incoming orders.
    pub stp: SelfTrade,
    /// The id the next submitted order gets.
    pub next_id: OrderId,
}

impl Book {
    /// The book nobody has submitted anything to.
    pub open spec fn empty() -> Book {
        Book { bids: Map::empty(), asks: Map::empty(), stp: SelfTrade::Allow, next_id: 0 }
    }

    pub open spec fn levels(self, side: Side) -> Levels {
        match side {
            Side::Bid => self.bids,
            Side::Ask => self.asks,
        }
    }

    /// The same book with the levels of one side replaced.
    pub open spec fn with_levels(self, side: Side, levels: Levels) -> Book {
        match side {
            Side::Bid => Book { bids: levels, ..self },
            Side::Ask => Book { asks: levels, ..self },
        }
    }

    /// The queue at a price, empty where nothing rests.
    pub open spec fn queue(self, side: Side, price: Price) -> Seq<Order> {
        if self.levels(side).contains_key(price) {
            self.levels(side)[price]
        } else {
            seq![]
        }
    }

    /// The quantity resting at a price.
    pub open spec fn depth(self, side: Side, price: Price) -> nat {
        total(self.queue(side, price))
    }

    /// There is a resting order at `at`.
    pub open spec fn holds(self, at: Place) -> bool {
        &&& self.levels(at.side).contains_key(at.price)
        &&& 0 <= at.index < self.levels(at.side)[at.price].len()
    }

    /// The resting order at `at`.
    pub open spec fn order(self, at: Place) -> Order {
        self.levels(at.side)[at.price][at.index]
    }

    /// The order `id` rests at `at`.
    pub open spec fn rests_at(self, id: OrderId, at: Place) -> bool {
        self.holds(at) && self.order(at).id == id
    }

    /// The order `id` rests somewhere on the book.
    pub open spec fn rests(self, id: OrderId) -> bool {
        exists|at: Place| self.rests_at(id, at)
    }

    /// Where the order `id` rests.
    pub open spec fn place(self, id: OrderId) -> Place {
        choose|at: Place| self.rests_at(id, at)
    }

    /// The ids of all resting orders.
    pub open spec fn resting_ids(self) -> Set<OrderId> {
        Set::new(|id: OrderId| self.rests(id))
    }

    /// No bid is as high as any ask.
    pub open spec fn uncrossed(self) -> bool {
        forall|bid: Price, ask: Price|
            #![trigger self.bids.contains_key(bid), self.asks.contains_key(ask)]
            self.bids.contains_key(bid) && self.asks.contains_key(ask) ==> bid < ask
    }

    /// What holds of every state a book can reach: finitely many levels, none
    /// of them empty and none with a total beyond the range of [`Qty`]; every
    /// resting order has a positive quantity and an id that was handed out and
    /// that no other order has; and the two sides do not cross.
    pub open spec fn wf(self) -> bool {
        &&& self.bids.dom().finite()
        &&& self.asks.dom().finite()
        &&& forall|side: Side, price: Price| #[trigger]
            self.levels(side).contains_key(price) ==> {
                &&& self.levels(side)[price].len() > 0
                &&& total(self.levels(side)[price]) <= u64::MAX
            }
        &&& forall|at: Place| #[trigger]
            self.holds(at) ==> self.order(at).qty > 0 && self.order(at).id < self.next_id
        &&& forall|a: Place, b: Place|
            #![trigger self.holds(a), self.holds(b)]
            self.holds(a) && self.holds(b) && self.order(a).id == self.order(b).id ==> a == b
        &&& self.uncrossed()
    }

    /// The highest bid price.
    pub open spec fn best_bid(self) -> Option<Price> {
        best(self.bids, Side::Bid)
    }

    /// The lowest ask price.
    pub open spec fn best_ask(self) -> Option<Price> {
        best(self.asks, Side::Ask)
    }

    /// The gap between the best prices of the two sides.
    pub open spec fn spread(self) -> Option<Price> {
        match (self.best_ask(), self.best_bid()) {
            (Some(ask), Some(bid)) => Some((ask - bid) as Price),
            _ => None,
        }
    }

    /// The book with `order` added at the back of the queue at `price`.
    pub open spec fn enqueue(self, side: Side, price: Price, order: Order) -> Book {
        self.with_levels(
            side,
            self.levels(side).insert(price, self.queue(side, price).push(order)),
        )
    }

    /// The taker that the next submitted order becomes.
    pub open spec fn taker(self, owner: OrderId, side: Side, limit: Option<Price>) -> Taker {
        Taker { id: self.next_id, owner, side, limit, stp: self.stp }
    }

    /// What the next submitted order does to the opposite side.
    pub open spec fn matching(
        self,
        owner: OrderId,
        side: Side,
        limit: Option<Price>,
        qty: Qty,
    ) -> Sweep {
        sweep(self.taker(owner, side, limit), self.levels(side.opposite()), qty)
    }

    /// The book after the next submitted order has matched, before any
    /// remainder rests.
    pub open spec fn matched(
        self,
        owner: OrderId,
        side: Side,
        limit: Option<Price>,
        qty: Qty,
    ) -> Book {
        let swept = self.with_levels(
            side.opposite(),
            self.matching(owner, side, limit, qty).levels,
        );
        Book { next_id: (self.next_id + 1) as OrderId, ..swept }
    }

    /// The quantity of a limit order that comes to rest.
    pub open spec fn remainder(self, owner: OrderId, side: Side, price: Price, qty: Qty) -> Qty {
        let s = self.matching(owner, side, Some(price), qty);
        if s.cancelled {
            0
        } else {
            s.qty
        }
    }

    /// Submitting a limit order: the book afterwards.
    pub open spec fn limit(self, owner: OrderId, side: Side, price: Price, qty: Qty) -> Book {
        let swept = self.matched(owner, side, Some(price), qty);
        let rest = self.remainder(owner, side, price, qty);
        if rest > 0 {
            swept.enqueue(side, price, Order { id: self.next_id, owner, qty: rest })
        } else {
            swept
        }
    }

    /// Submitting a limit order: what the submitter is told.
    pub open spec fn limit_receipt(
        self,
        owner: OrderId,
        side: Side,
        price: Price,
        qty: Qty,
    ) -> Receipt {
        Receipt {
            id: self.next_id,
            trades: self.matching(owner, side, Some(price), qty).trades,
            resting: self.remainder(owner, side, price, qty),
        }
    }

    /// A limit order can be taken: it is for something, ids have not run out,
    /// and a remainder finds a free slot in the arena and keeps the total of
    /// its level in the range of [`Qty`]. The arena has slots for `u32::MAX`
    /// orders: one is free if that many have not been submitted yet, or else if
    /// that many do not rest.
    pub open spec fn limit_fits(self, owner: OrderId, side: Side, price: Price, qty: Qty) -> bool {
        let swept = self.matched(owner, side, Some(price), qty);
        let rest = self.remainder(owner, side, price, qty);
        &&& qty > 0
        &&& self.next_id < u64::MAX
        &&& rest > 0 ==> {
            &&& self.next_id < u32::MAX || swept.resting_ids().len() < u32::MAX
            &&& swept.depth(side, price) + rest <= u64::MAX
        }
    }

    /// Submitting a market order: the book afterwards.
    pub open spec fn market(self, owner: OrderId, side: Side, qty: Qty) -> Book {
        self.matched(owner, side, None, qty)
    }

    /// Submitting a market order: what the submitter is told.
    pub open spec fn market_receipt(self, owner: OrderId, side: Side, qty: Qty) -> Receipt {
        let s = self.matching(owner, side, None, qty);
        Receipt { id: self.next_id, trades: s.trades, resting: s.qty }
    }

    /// A market order can be taken.
    pub open spec fn market_fits(self, qty: Qty) -> bool {
        qty > 0 && self.next_id < u64::MAX
    }

    /// The book with the queue at a price replaced; an empty queue leaves no
    /// level behind.
    pub open spec fn with_queue(self, side: Side, price: Price, queue: Seq<Order>) -> Book {
        self.with_levels(
            side,
            if queue.len() == 0 {
                self.levels(side).remove(price)
            } else {
                self.levels(side).insert(price, queue)
            },
        )
    }

    /// The book without the order at `at`.
    pub open spec fn without(self, at: Place) -> Book {
        self.with_queue(at.side, at.price, self.levels(at.side)[at.price].remove(at.index))
    }

    /// Cancelling `id`: the book afterwards.
    pub open spec fn cancel(self, id: OrderId) -> Book {
        if self.rests(id) {
            self.without(self.place(id))
        } else {
            self
        }
    }

    /// Amending `id` to `new_qty`: the book afterwards. A shrunk order keeps
    /// its place, a grown one goes to the back of its queue.
    pub open spec fn amend(self, id: OrderId, new_qty: Qty) -> Book {
        if self.rests(id) {
            let at = self.place(id);
            let queue = self.levels(at.side)[at.price];
            let amended = Order { qty: new_qty, ..self.order(at) };
            self.with_queue(
                at.side,
                at.price,
                if new_qty <= self.order(at).qty {
                    queue.update(at.index, amended)
                } else {
                    queue.remove(at.index).push(amended)
                },
            )
        } else {
            self
        }
    }

    /// An amendment can be taken: the new quantity is positive and, if the
    /// order rests, keeps the total of its level in the range of [`Qty`].
    pub open spec fn amend_fits(self, id: OrderId, new_qty: Qty) -> bool {
        &&& new_qty > 0
        &&& self.rests(id) ==> {
            let at = self.place(id);
            self.depth(at.side, at.price) - self.order(at).qty + new_qty <= u64::MAX
        }
    }
}

/// A side with finitely many levels, and at least one, has a best price.
pub proof fn lemma_best_exists(levels: Levels, side: Side)
    requires
        levels.dom().finite(),
        levels.dom().len() > 0,
    ensures
        exists|price: Price| is_best(levels, side, price),
    decreases levels.dom().len(),
{
    let some = levels.dom().choose();
    let others = levels.remove(some);
    assert(levels.contains_key(some));
    if others.dom().len() == 0 {
        assert forall|other: Price| #[trigger] levels.contains_key(other) implies at_least_as_good(
            side,
            some,
            other,
        ) by {
            if other != some {
                assert(others.dom().contains(other));
            }
        }
        assert(is_best(levels, side, some));
    } else {
        lemma_best_exists(others, side);
        let champion = choose|price: Price| is_best(others, side, price);
        let winner = if at_least_as_good(side, some, champion) {
            some
        } else {
            champion
        };
        assert forall|other: Price| #[trigger] levels.contains_key(other) implies at_least_as_good(
            side,
            winner,
            other,
        ) by {
            if other != some {
                assert(others.contains_key(other));
            }
        }
        assert(is_best(levels, side, winner));
    }
}

/// The price found by a search is the best one.
pub proof fn lemma_best_is(levels: Levels, side: Side, price: Price)
    requires
        is_best(levels, side, price),
    ensures
        best(levels, side) == Some(price),
{
    let found = choose|p: Price| is_best(levels, side, p);
    assert(is_best(levels, side, found));
    assert(levels.contains_key(price) && levels.contains_key(found));
}

/// What [`best`] says, for sides with finitely many levels.
pub proof fn lemma_best(levels: Levels, side: Side)
    requires
        levels.dom().finite(),
    ensures
        best(levels, side) is None <==> levels.dom() == Set::<Price>::empty(),
        best(levels, side) matches Some(price) ==> is_best(levels, side, price),
{
    if levels.dom().len() > 0 {
        lemma_best_exists(levels, side);
    } else {
        assert(levels.dom() =~= Set::<Price>::empty());
        assert forall|price: Price| !is_best(levels, side, price) by {}
    }
}

/// `keys` are the prices of a side, best first.
pub open spec fn best_first(keys: Seq<Price>, levels: Levels, side: Side) -> bool {
    &&& forall|i: int| 0 <= i < keys.len() ==> levels.contains_key(#[trigger] keys[i])
    &&& forall|p: Price| #[trigger]
        levels.contains_key(p) ==> exists|i: int| 0 <= i < keys.len() && #[trigger] keys[i] == p
    &&& forall|i: int, j: int|
        #![trigger keys[i], keys[j]]
        0 <= i < j < keys.len() ==> keys[i] != keys[j] && at_least_as_good(side, keys[i], keys[j])
}

/// The top of a side whose prices are known, best first.
pub proof fn lemma_top(keys: Seq<Price>, levels: Levels, side: Side, depth: nat)
    requires
        best_first(keys, levels, side),
    ensures
        top(levels, side, depth) == Seq::new(
            if depth < keys.len() {
                depth
            } else {
                keys.len()
            },
            |i: int| Level2 { price: keys[i], qty: total(levels[keys[i]]) as Qty },
        ),
    decreases depth,
{
    let shown = Seq::new(
        if depth < keys.len() {
            depth
        } else {
            keys.len()
        },
        |i: int| Level2 { price: keys[i], qty: total(levels[keys[i]]) as Qty },
    );
    if depth == 0 {
        assert(top(levels, side, depth) =~= shown);
    } else if keys.len() == 0 {
        assert forall|p: Price| !is_best(levels, side, p) by {}
        assert(top(levels, side, depth) =~= shown);
    } else {
        let price = keys[0];
        assert(levels.contains_key(price));
        assert forall|other: Price| #[trigger] levels.contains_key(other) implies at_least_as_good(
            side,
            price,
            other,
        ) by {}
        lemma_best_is(levels, side, price);
        let rest = levels.remove(price);
        let later = keys.drop_first();
        assert forall|p: Price| #[trigger] rest.contains_key(p) implies exists|i: int|
            0 <= i < later.len() && #[trigger] later[i] == p by {
            assert(levels.contains_key(p));
            let i = choose|i: int| 0 <= i < keys.len() && keys[i] == p;
            assert(later[i - 1] == p);
        }
        assert forall|i: int| 0 <= i < later.len() implies rest.contains_key(
            #[trigger] later[i],
        ) by {
            assert(later[i] == keys[i + 1]);
            assert(keys[0] != keys[i + 1]);
        }
        assert forall|i: int, j: int|
            #![trigger later[i], later[j]]
            0 <= i < j < later.len() implies later[i] != later[j] && at_least_as_good(
            side,
            later[i],
            later[j],
        ) by {
            assert(later[i] == keys[i + 1] && later[j] == keys[j + 1]);
        }
        lemma_top(later, rest, side, (depth - 1) as nat);
        assert forall|i: int| 0 <= i < shown.len() - 1 implies #[trigger] shown[i + 1] == top(
            rest,
            side,
            (depth - 1) as nat,
        )[i] by {
            assert(later[i] == keys[i + 1]);
            assert(rest.contains_key(later[i]));
        }
        assert(top(levels, side, depth) =~= shown);
    }
}

/// Some order in the queue has this id.
pub open spec fn has_id(queue: Seq<Order>, id: OrderId) -> bool {
    exists|j: int| 0 <= j < queue.len() && (#[trigger] queue[j]).id == id
}

/// All orders of `after` have a quantity, and distinct ids that occur in
/// `before`.
pub open spec fn drawn_from(after: Seq<Order>, before: Seq<Order>) -> bool {
    &&& forall|i: int|
        0 <= i < after.len() ==> (#[trigger] after[i]).qty > 0 && has_id(before, after[i].id)
    &&& forall|i: int, j: int|
        #![trigger after[i], after[j]]
        0 <= i < j < after.len() ==> after[i].id != after[j].id
}

/// `rest` is the back of `queue`: some orders are gone from the front, and the
/// others are there in the same order, with the same owner and at most the
/// same quantity.
pub open spec fn back_of(rest: Seq<Order>, queue: Seq<Order>) -> bool {
    &&& rest.len() <= queue.len()
    &&& forall|i: int|
        #![trigger rest[i]]
        0 <= i < rest.len() ==> {
            let o = queue[i + queue.len() - rest.len()];
            &&& rest[i].id == o.id
            &&& rest[i].owner == o.owner
            &&& 0 < rest[i].qty <= o.qty
            &&& i > 0 ==> rest[i] == o
        }
}

/// All orders of a queue have a quantity.
pub open spec fn positive(queue: Seq<Order>) -> bool {
    forall|i: int| 0 <= i < queue.len() ==> (#[trigger] queue[i]).qty > 0
}

/// Matching takes orders off the front of a queue, and stops inside it only
/// when the taker is exhausted or cancelled.
pub proof fn lemma_fill(taker: Taker, price: Price, queue: Seq<Order>, qty: Qty)
    requires
        positive(queue),
    ensures
        ({
            let f = fill(taker, price, queue, qty);
            &&& back_of(f.rest, queue)
            &&& total(f.rest) <= total(queue)
            &&& f.qty <= qty
            &&& f.rest.len() > 0 && !f.cancelled ==> f.qty == 0
        }),
    decreases queue.len(),
{
    if qty == 0 || queue.len() == 0 {
    } else {
        let maker = queue[0];
        let tail = queue.drop_first();
        assert(queue.remove(0) =~= tail);
        lemma_total_remove(queue, 0);
        assert forall|i: int| 0 <= i < tail.len() implies (#[trigger] tail[i]).qty > 0 by {
            assert(tail[i] == queue[i + 1]);
        }
        if taker.prevented(maker) {
            lemma_fill(taker, price, tail, qty);
        } else if qty < maker.qty {
            lemma_total_update(queue, 0, Order { qty: (maker.qty - qty) as Qty, ..maker });
        } else {
            lemma_fill(taker, price, tail, (qty - maker.qty) as Qty);
        }
    }
}

/// All levels of a side have orders, and all orders a quantity.
pub open spec fn populated(levels: Levels) -> bool {
    &&& levels.dom().finite()
    &&& forall|price: Price| #[trigger]
        levels.contains_key(price) ==> levels[price].len() > 0 && positive(levels[price])
}

/// Matching adds no level and takes orders off the fronts of those it
/// reaches. If something is left of the taker, no level it would trade with is
/// left.
pub proof fn lemma_sweep(taker: Taker, levels: Levels, qty: Qty)
    requires
        populated(levels),
    ensures
        ({
            let s = sweep(taker, levels, qty);
            &&& populated(s.levels)
            &&& s.qty <= qty
            &&& forall|price: Price| #[trigger]
                s.levels.contains_key(price) ==> {
                    &&& levels.contains_key(price)
                    &&& back_of(s.levels[price], levels[price])
                    &&& total(s.levels[price]) <= total(levels[price])
                }
            &&& s.qty > 0 && !s.cancelled ==> forall|price: Price| #[trigger]
                s.levels.contains_key(price) ==> !taker.crosses(price)
        }),
    decreases levels.dom().len(),
{
    let side = taker.side.opposite();
    lemma_best(levels, side);
    match best(levels, side) {
        Some(price) if qty > 0 && taker.crosses(price) => {
            lemma_fill(taker, price, levels[price], qty);
            let here = fill(taker, price, levels[price], qty);
            if here.rest.len() == 0 && !here.cancelled {
                lemma_sweep(taker, levels.remove(price), here.qty);
            }
        },
        _ => {},
    }
}

/// The ids below `n`.
pub open spec fn ids_below(n: OrderId) -> Set<OrderId> {
    Set::new(|id: OrderId| id < n)
}

/// There are `n` ids below `n`.
pub proof fn lemma_ids_below(n: OrderId)
    ensures
        ids_below(n).finite(),
        ids_below(n).len() == n,
    decreases n,
{
    if n == 0 {
        assert(ids_below(n) =~= Set::<OrderId>::empty());
    } else {
        let m = (n - 1) as OrderId;
        lemma_ids_below(m);
        assert(ids_below(n) =~= ids_below(m).insert(m));
    }
}

impl Book {
    /// No more orders rest than were submitted.
    pub proof fn lemma_ids_bound(self)
        requires
            self.wf(),
        ensures
            self.resting_ids().subset_of(ids_below(self.next_id)),
            self.resting_ids().finite(),
            self.resting_ids().len() <= self.next_id,
    {
        assert forall|id: OrderId| #[trigger] self.resting_ids().contains(id) implies ids_below(
            self.next_id,
        ).contains(id) by {
            assert(self.rests(id));
            assert(self.rests_at(id, self.place(id)));
        }
        lemma_ids_below(self.next_id);
        vstd::set_lib::lemma_len_subset(self.resting_ids(), ids_below(self.next_id));
    }

    /// One side of a well-formed book is populated.
    pub proof fn lemma_populated(self, side: Side)
        requires
            self.wf(),
        ensures
            populated(self.levels(side)),
    {
        assert forall|price: Price| #[trigger] self.levels(side).contains_key(price) implies {
            &&& self.levels(side)[price].len() > 0
            &&& positive(self.levels(side)[price])
        } by {
            let queue = self.levels(side)[price];
            assert forall|i: int| 0 <= i < queue.len() implies (#[trigger] queue[i]).qty > 0 by {
                assert(self.holds(Place { side, price, index: i }));
            }
        }
    }

    /// The ids within one queue are distinct.
    pub proof fn lemma_ids_distinct(self, side: Side, price: Price, i: int, j: int)
        requires
            self.wf(),
            self.levels(side).contains_key(price),
            0 <= i < self.levels(side)[price].len(),
            0 <= j < self.levels(side)[price].len(),
            self.levels(side)[price][i].id == self.levels(side)[price][j].id,
        ensures
            i == j,
    {
        assert(self.holds(Place { side, price, index: i }));
        assert(self.holds(Place { side, price, index: j }));
    }

    /// A well-formed book stays so when the levels of one side are replaced by
    /// levels drawn from them.
    pub proof fn lemma_levels_wf(self, side: Side, levels: Levels, next_id: OrderId)
        requires
            self.wf(),
            self.next_id <= next_id,
            levels.dom().finite(),
            forall|price: Price| #[trigger]
                levels.contains_key(price) ==> {
                    &&& self.levels(side).contains_key(price)
                    &&& levels[price].len() > 0
                    &&& total(levels[price]) <= u64::MAX
                    &&& drawn_from(levels[price], self.levels(side)[price])
                },
        ensures
            (Book { next_id, ..self.with_levels(side, levels) }).wf(),
    {
        let after = Book { next_id, ..self.with_levels(side, levels) };
        assert forall|s: Side, p: Price| #[trigger] after.levels(s).contains_key(p) implies {
            &&& after.levels(s)[p].len() > 0
            &&& total(after.levels(s)[p]) <= u64::MAX
            &&& self.levels(s).contains_key(p)
        } by {
            if s == side {
                assert(levels.contains_key(p));
            } else {
                assert(self.levels(s).contains_key(p));
            }
        }
        // Each order stands where one with its id stood.
        assert forall|at: Place| #[trigger] after.holds(at) implies exists|was: Place|
            {
                &&& #[trigger] self.holds(was)
                &&& was.side == at.side
                &&& was.price == at.price
                &&& self.order(was).id == after.order(at).id
            } by {
            if at.side == side {
                let queue = levels[at.price];
                assert(levels.contains_key(at.price));
                assert(has_id(self.levels(side)[at.price], queue[at.index].id));
                let j = choose|j: int|
                    0 <= j < self.levels(side)[at.price].len() && (#[trigger] self.levels(
                        side,
                    )[at.price][j]).id == queue[at.index].id;
                assert(self.holds(Place { side, price: at.price, index: j }));
            } else {
                assert(self.holds(at));
            }
        }
        assert forall|at: Place| #[trigger] after.holds(at) implies after.order(at).qty > 0
            && after.order(at).id < after.next_id by {
            let was = choose|was: Place|
                {
                    &&& #[trigger] self.holds(was)
                    &&& was.side == at.side
                    &&& was.price == at.price
                    &&& self.order(was).id == after.order(at).id
                };
            assert(self.order(was).id < self.next_id);
            if at.side == side {
                assert(levels.contains_key(at.price));
                assert(levels[at.price][at.index].qty > 0);
            } else {
                assert(self.holds(at));
            }
        }
        assert forall|a: Place, b: Place|
            #![trigger after.holds(a), after.holds(b)]
            after.holds(a) && after.holds(b) && after.order(a).id == after.order(b).id implies a
            == b by {
            let was_a = choose|was: Place|
                {
                    &&& #[trigger] self.holds(was)
                    &&& was.side == a.side
                    &&& was.price == a.price
                    &&& self.order(was).id == after.order(a).id
                };
            let was_b = choose|was: Place|
                {
                    &&& #[trigger] self.holds(was)
                    &&& was.side == b.side
                    &&& was.price == b.price
                    &&& self.order(was).id == after.order(b).id
                };
            assert(was_a == was_b);
            if a.side == side {
                assert(levels.contains_key(a.price));
                let queue = levels[a.price];
                if a.index < b.index {
                    assert(queue[a.index].id != queue[b.index].id);
                } else if b.index < a.index {
                    assert(queue[b.index].id != queue[a.index].id);
                }
            } else {
                assert(self.holds(a) && self.holds(b));
            }
        }
        assert(after.uncrossed()) by {
            assert forall|bid: Price, ask: Price|
                #![trigger after.bids.contains_key(bid), after.asks.contains_key(ask)]
                after.bids.contains_key(bid) && after.asks.contains_key(ask) implies bid < ask by {
                assert(after.levels(Side::Bid).contains_key(bid));
                assert(after.levels(Side::Ask).contains_key(ask));
                assert(self.bids.contains_key(bid) && self.asks.contains_key(ask));
            }
        }
    }

    /// Matching keeps a book well-formed.
    pub proof fn lemma_matched_wf(
        self,
        owner: OrderId,
        side: Side,
        limit: Option<Price>,
        qty: Qty,
    )
        requires
            self.wf(),
            self.next_id < u64::MAX,
        ensures
            self.matched(owner, side, limit, qty).wf(),
            (Book { next_id: self.next_id, ..self.matched(owner, side, limit, qty) }).wf(),
    {
        let other = side.opposite();
        let taker = self.taker(owner, side, limit);
        self.lemma_populated(other);
        lemma_sweep(taker, self.levels(other), qty);
        let s = self.matching(owner, side, limit, qty);
        assert forall|price: Price| #[trigger] s.levels.contains_key(price) implies {
            &&& total(s.levels[price]) <= u64::MAX
            &&& drawn_from(s.levels[price], self.levels(other)[price])
        } by {
            self.lemma_back_of_drawn(other, price, s.levels[price]);
        }
        self.lemma_levels_wf(other, s.levels, self.next_id);
        self.lemma_levels_wf(other, s.levels, (self.next_id + 1) as OrderId);
    }

    /// Adding an order with a fresh id keeps a book well-formed if the order
    /// does not cross and the total of its level stays in range.
    pub proof fn lemma_enqueue_wf(self, side: Side, price: Price, order: Order, next_id: OrderId)
        requires
            self.wf(),
            order.id == self.next_id,
            order.qty > 0,
            self.next_id < next_id,
            self.depth(side, price) + order.qty <= u64::MAX,
            forall|other: Price| #[trigger]
                self.levels(side.opposite()).contains_key(other) ==> !at_least_as_good(
                    side,
                    price,
                    other,
                ),
        ensures
            (Book { next_id, ..self.enqueue(side, price, order) }).wf(),
    {
        let queue = self.queue(side, price);
        let after = Book { next_id, ..self.enqueue(side, price, order) };
        lemma_total_push(queue, order);
        let new = Place { side, price, index: queue.len() as int };
        assert forall|s: Side, p: Price| #[trigger] after.levels(s).contains_key(p) implies {
            &&& after.levels(s)[p].len() > 0
            &&& total(after.levels(s)[p]) <= u64::MAX
        } by {
            if s != side || p != price {
                assert(self.levels(s).contains_key(p));
            }
        }
        assert forall|at: Place| #[trigger] after.holds(at) && at != new implies self.holds(at)
            && after.order(at) == self.order(at) by {
            if at.side == side && at.price == price {
                assert(at.index < queue.len());
            }
        }
        assert(after.order(new) == order);
        assert forall|at: Place| #[trigger] after.holds(at) implies after.order(at).qty > 0
            && after.order(at).id < after.next_id by {
            if at != new {
                assert(self.holds(at));
            }
        }
        assert forall|a: Place, b: Place|
            #![trigger after.holds(a), after.holds(b)]
            after.holds(a) && after.holds(b) && after.order(a).id == after.order(b).id implies a
            == b by {
            if a != new {
                assert(self.holds(a));
            }
            if b != new {
                assert(self.holds(b));
            }
        }
        assert forall|bid: Price, ask: Price|
            #![trigger after.bids.contains_key(bid), after.asks.contains_key(ask)]
            after.bids.contains_key(bid) && after.asks.contains_key(ask) implies bid < ask by {
            if side == Side::Bid && bid == price {
                assert(self.levels(side.opposite()).contains_key(ask));
            } else if side == Side::Ask && ask == price {
                assert(self.levels(side.opposite()).contains_key(bid));
            } else {
                assert(self.bids.contains_key(bid) && self.asks.contains_key(ask));
            }
        }
    }

    /// Submitting a limit order keeps a book well-formed.
    pub proof fn lemma_limit_wf(self, owner: OrderId, side: Side, price: Price, qty: Qty)
        requires
            self.wf(),
            self.limit_fits(owner, side, price, qty),
        ensures
            self.limit(owner, side, price, qty).wf(),
    {
        let limit = Some(price);
        let other = side.opposite();
        self.lemma_matched_wf(owner, side, limit, qty);
        self.lemma_populated(other);
        lemma_sweep(self.taker(owner, side, limit), self.levels(other), qty);
        let rest = self.remainder(owner, side, price, qty);
        if rest > 0 {
            let swept = Book { next_id: self.next_id, ..self.matched(owner, side, limit, qty) };
            swept.lemma_enqueue_wf(
                side,
                price,
                Order { id: self.next_id, owner, qty: rest },
                (self.next_id + 1) as OrderId,
            );
        }
    }

    /// Submitting a market order keeps a book well-formed.
    pub proof fn lemma_market_wf(self, owner: OrderId, side: Side, qty: Qty)
        requires
            self.wf(),
            self.market_fits(qty),
        ensures
            self.market(owner, side, qty).wf(),
    {
        self.lemma_matched_wf(owner, side, None, qty);
    }

    /// Replacing a queue by one drawn from it keeps a book well-formed.
    pub proof fn lemma_with_queue_wf(self, side: Side, price: Price, queue: Seq<Order>)
        requires
            self.wf(),
            self.levels(side).contains_key(price),
            drawn_from(queue, self.levels(side)[price]),
            total(queue) <= u64::MAX,
        ensures
            self.with_queue(side, price, queue).wf(),
    {
        let levels = if queue.len() == 0 {
            self.levels(side).remove(price)
        } else {
            self.levels(side).insert(price, queue)
        };
        assert forall|p: Price| #[trigger] levels.contains_key(p) implies {
            &&& self.levels(side).contains_key(p)
            &&& levels[p].len() > 0
            &&& total(levels[p]) <= u64::MAX
            &&& drawn_from(levels[p], self.levels(side)[p])
        } by {
            if p != price {
                let q = self.levels(side)[p];
                self.lemma_populated(side);
                self.lemma_back_of_drawn(side, p, q);
            }
        }
        self.lemma_levels_wf(side, levels, self.next_id);
        assert(self.with_queue(side, price, queue) == (Book {
            next_id: self.next_id,
            ..self.with_levels(side, levels)
        }));
    }

    /// Cancelling an order keeps a book well-formed.
    pub proof fn lemma_cancel_wf(self, id: OrderId)
        requires
            self.wf(),
        ensures
            self.cancel(id).wf(),
    {
        if self.rests(id) {
            let at = self.place(id);
            let queue = self.levels(at.side)[at.price];
            let rest = queue.remove(at.index);
            lemma_total_remove(queue, at.index);
            self.lemma_remove_drawn(at);
            self.lemma_with_queue_wf(at.side, at.price, rest);
        }
    }

    /// A queue without one of its orders is drawn from it.
    proof fn lemma_remove_drawn(self, at: Place)
        requires
            self.wf(),
            self.holds(at),
        ensures
            drawn_from(
                self.levels(at.side)[at.price].remove(at.index),
                self.levels(at.side)[at.price],
            ),
            !has_id(self.levels(at.side)[at.price].remove(at.index), self.order(at).id),
    {
        let queue = self.levels(at.side)[at.price];
        let rest = queue.remove(at.index);
        self.lemma_populated(at.side);
        assert forall|i: int| 0 <= i < rest.len() implies {
            &&& (#[trigger] rest[i]).qty > 0
            &&& has_id(queue, rest[i].id)
            &&& rest[i].id != self.order(at).id
        } by {
            let j = if i < at.index { i } else { i + 1 };
            assert(rest[i] == queue[j]);
            if queue[j].id == queue[at.index].id {
                self.lemma_ids_distinct(at.side, at.price, j, at.index);
            }
        }
        assert forall|i: int, j: int|
            #![trigger rest[i], rest[j]]
            0 <= i < j < rest.len() implies rest[i].id != rest[j].id by {
            let k = if i < at.index { i } else { i + 1 };
            let l = if j < at.index { j } else { j + 1 };
            assert(rest[i] == queue[k] && rest[j] == queue[l]);
            if queue[k].id == queue[l].id {
                self.lemma_ids_distinct(at.side, at.price, k, l);
            }
        }
    }

    /// Amending an order keeps a book well-formed.
    pub proof fn lemma_amend_wf(self, id: OrderId, new_qty: Qty)
        requires
            self.wf(),
            self.amend_fits(id, new_qty),
        ensures
            self.amend(id, new_qty).wf(),
    {
        if self.rests(id) {
            let at = self.place(id);
            let queue = self.levels(at.side)[at.price];
            let amended = Order { qty: new_qty, ..self.order(at) };
            self.lemma_populated(at.side);
            if new_qty <= self.order(at).qty {
                let after = queue.update(at.index, amended);
                lemma_total_update(queue, at.index, amended);
                assert forall|i: int| 0 <= i < after.len() implies (#[trigger] after[i]).qty > 0
                    && has_id(queue, after[i].id) by {
                    assert(after[i].id == queue[i].id);
                }
                assert forall|i: int, j: int|
                    #![trigger after[i], after[j]]
                    0 <= i < j < after.len() implies after[i].id != after[j].id by {
                    assert(after[i].id == queue[i].id && after[j].id == queue[j].id);
                    if queue[i].id == queue[j].id {
                        self.lemma_ids_distinct(at.side, at.price, i, j);
                    }
                }
                self.lemma_with_queue_wf(at.side, at.price, after);
            } else {
                let rest = queue.remove(at.index);
                let after = rest.push(amended);
                lemma_total_remove(queue, at.index);
                lemma_total_push(rest, amended);
                self.lemma_remove_drawn(at);
                assert forall|i: int| 0 <= i < after.len() implies (#[trigger] after[i]).qty > 0
                    && has_id(queue, after[i].id) by {
                    if i < rest.len() {
                        assert(after[i] == rest[i]);
                    } else {
                        assert(queue[at.index].id == after[i].id);
                    }
                }
                assert forall|i: int, j: int|
                    #![trigger after[i], after[j]]
                    0 <= i < j < after.len() implies after[i].id != after[j].id by {
                    assert(after[i] == rest[i]);
                    if j < rest.len() {
                        assert(after[j] == rest[j]);
                    }
                }
                self.lemma_with_queue_wf(at.side, at.price, after);
            }
        }
    }

    /// The back of a queue is drawn from it.
    proof fn lemma_back_of_drawn(self, side: Side, price: Price, rest: Seq<Order>)
        requires
            self.wf(),
            self.levels(side).contains_key(price),
            back_of(rest, self.levels(side)[price]),
        ensures
            drawn_from(rest, self.levels(side)[price]),
    {
        let queue = self.levels(side)[price];
        let gone = queue.len() - rest.len();
        assert forall|i: int| 0 <= i < rest.len() implies (#[trigger] rest[i]).qty > 0 && has_id(
            queue,
            rest[i].id,
        ) by {
            assert(queue[i + gone].id == rest[i].id);
        }
        assert forall|i: int, j: int|
            #![trigger rest[i], rest[j]]
            0 <= i < j < rest.len() implies rest[i].id != rest[j].id by {
            if rest[i].id == rest[j].id {
                self.lemma_ids_distinct(side, price, i + gone, j + gone);
            }
        }
    }
}

/// The self-trade policy has no part in the well-formedness of a book.
pub proof fn lemma_stp_wf(book: Book, policy: SelfTrade)
    requires
        book.wf(),
    ensures
        (Book { stp: policy, ..book }).wf(),
{
    let after = Book { stp: policy, ..book };
    assert forall|side: Side, price: Price| #[trigger] after.levels(side).contains_key(
        price,
    ) implies {
        &&& after.levels(side)[price].len() > 0
        &&& total(after.levels(side)[price]) <= u64::MAX
    } by {
        assert(book.levels(side).contains_key(price));
    }
    assert forall|at: Place| #[trigger] after.holds(at) implies after.order(at).qty
        > 0 && after.order(at).id < after.next_id by {
        assert(book.holds(at));
    }
    assert forall|a: Place, b: Place|
        #![trigger after.holds(a), after.holds(b)]
        after.holds(a) && after.holds(b) && after.order(a).id == after.order(b).id implies a == b by {
        assert(book.holds(a) && book.holds(b));
    }
}

} // verus!
