//! A central limit order book with a price-time-priority matching engine.
//!
//! # Design
//!
//! Each side of the book is a [`BTreeMap`] keyed by [`Price`]. This gives
//! ordered iteration for free: the best ask is the *lowest* key, the best bid
//! is the *highest* key, both reachable in `O(log n)`.
//!
//! At every price sits a [`Level`]: a FIFO intrusive linked list of resting
//! orders living in a shared [`Pool`] arena (see [`crate::pool`]). FIFO is
//! exactly price-*time* priority. A separate `OrderId -> slot` index leads to
//! any order in `O(1)`.

use std::collections::{BTreeMap, HashMap};

use vstd::prelude::*;
use vstd::std_specs::cmp::OrdSpec;
use vstd::std_specs::iter::IteratorSpec;

use crate::engine::{Engine, SelfTrade, ANONYMOUS};
use crate::model::{
    best, best_first, fill, is_best, lemma_best, lemma_best_is, lemma_fill, lemma_stp_wf,
    lemma_top, lemma_total_remove, populated, sweep, top, total, Book, Levels, Order, Taker,
};
use crate::pool::{Level, Pool};
use crate::shelf::{
    drop_order, fill_level, lemma_index_chain, lemma_index_ids, lemma_locate, lemma_others_chain,
    lemma_put_empty, lemma_queues_put, lemma_take_empty, lemma_totals, queues,
    reduce_order, rest_order, shelf_wf, stand, stocked, Shelves,
};
use crate::types::{L2Snapshot, Level2, OrderId, Price, Qty, Side, SubmitResult, Trade};

verus! {

/// The next item of an iterator.
fn step<I: Iterator>(items: &mut I) -> (item: Option<I::Item>)
    requires
        IteratorSpec::obeys_prophetic_iter_laws(&*old(items)),
    ensures
        IteratorSpec::obeys_prophetic_iter_laws(&*final(items)),
        IteratorSpec::remaining(&*old(items)).len() > 0 ==> {
            &&& item == Some(IteratorSpec::remaining(&*old(items))[0])
            &&& IteratorSpec::remaining(&*final(items)) == IteratorSpec::remaining(&*old(items)).drop_first()
        },
        IteratorSpec::remaining(&*old(items)).len() == 0 ==> item is None,
{
    items.next()
}

/// The next item of an iterator, from its end.
fn step_back<I: DoubleEndedIterator>(items: &mut I) -> (item: Option<I::Item>)
    requires
        IteratorSpec::obeys_prophetic_iter_laws(&*old(items)),
    ensures
        IteratorSpec::obeys_prophetic_iter_laws(&*final(items)),
        IteratorSpec::remaining(&*old(items)).len() > 0 ==> {
            &&& item == Some(IteratorSpec::remaining(&*old(items)).last())
            &&& IteratorSpec::remaining(&*final(items)) == IteratorSpec::remaining(
                &*old(items),
            ).drop_last()
        },
        IteratorSpec::remaining(&*old(items)).len() == 0 ==> item is None,
{
    items.next_back()
}

/// The keys of a map in the order its iterator gives them.
spec fn key_order(keys: Seq<&Price>, map: Map<Price, Level>) -> bool {
    &&& forall|i: int| 0 <= i < keys.len() ==> map.contains_key(*#[trigger] keys[i])
    &&& forall|p: Price| #[trigger]
        map.contains_key(p) ==> exists|i: int| 0 <= i < keys.len() && *#[trigger] keys[i] == p
    &&& forall|i: int, j: int|
        #![trigger keys[i], keys[j]]
        0 <= i < j < keys.len() ==> *keys[i] < *keys[j]
}

/// A key sequence that increases and has the domain as its set is in order.
proof fn lemma_key_order(keys: Seq<&Price>, map: Map<Price, Level>)
    requires
        keys.unref().to_set() == map.dom(),
        vstd::std_specs::btree::increasing_seq(keys),
    ensures
        key_order(keys, map),
{
    assert(vstd::laws_cmp::obeys_cmp::<&Price>());
    assert forall|p: Price| #[trigger] map.contains_key(p) implies exists|i: int|
        0 <= i < keys.len() && *#[trigger] keys[i] == p by {
        assert(keys.unref().to_set().contains(p));
        let i = choose|i: int| 0 <= i < keys.unref().len() && keys.unref()[i] == p;
        assert(*keys[i] == p);
    }
    assert forall|i: int| 0 <= i < keys.len() implies map.contains_key(*#[trigger] keys[i]) by {
        assert(keys.unref()[i] == *keys[i]);
        assert(keys.unref().to_set().contains(*keys[i]));
    }
    assert forall|i: int, j: int|
        #![trigger keys[i], keys[j]]
        0 <= i < j < keys.len() implies *keys[i] < *keys[j] by {
        assert(OrdSpec::cmp_spec(&keys[i], &keys[j]) is Less);
    }
}

/// The best price of one side: the lowest ask or the highest bid.
fn best_key(map: &BTreeMap<Price, Level>, side: Side) -> (price: Option<Price>)
    ensures
        forall|levels: Levels|
            #![trigger best(levels, side)]
            levels.dom() == map@.dom() ==> price == best(levels, side),
        price matches Some(p) ==> map@.contains_key(p),
{
    let mut keys = map.keys();
    proof {
        lemma_key_order(keys.remaining(), map@);
    }
    let found = match side {
        Side::Ask => step(&mut keys),
        Side::Bid => step_back(&mut keys),
    };
    let price = match found {
        Some(p) => Some(*p),
        None => None,
    };
    proof {
        assert forall|levels: Levels|
            #![trigger best(levels, side)]
            levels.dom() == map@.dom() implies price == best(levels, side) by {
            match price {
                Some(p) => {
                    assert(map@.contains_key(p));
                    assert forall|q: Price| #[trigger]
                        levels.contains_key(q) implies crate::model::at_least_as_good(
                        side,
                        p,
                        q,
                    ) by {
                        assert(map@.contains_key(q));
                    }
                    assert(levels.contains_key(p));
                    lemma_best_is(levels, side, p);
                },
                None => {
                    assert forall|q: Price| !is_best(levels, side, q) by {
                        if levels.contains_key(q) {
                            assert(map@.contains_key(q));
                        }
                    }
                },
            }
        }
    }
    price
}

/// The result of matching an aggressor against the book.
pub(crate) struct MatchOutcome {
    /// Quantity the aggressor couldn't fill.
    pub(crate) remaining: Qty,
    /// Whether self-trade prevention cancelled the aggressor's remainder (so it
    /// must not rest, even if `remaining > 0`).
    pub(crate) cancelled: bool,
}

/// Match an incoming order of `qty` against `map`, taking the best-priced level
/// first, until it is exhausted or no more levels cross.
///
/// Once the best level no longer crosses, no worse level can either, so we
/// stop. Fully-filled maker orders are unlinked and dropped from `index`. When
/// the aggressor would match an order it owns, its policy decides what happens
/// instead of trading (see [`SelfTrade`]).
fn match_into(
    map: &mut BTreeMap<Price, Level>,
    pool: &mut Pool,
    index: &mut HashMap<OrderId, u32>,
    taker: Taker,
    qty: Qty,
    trades: &mut Vec<Trade>,
    Ghost(others): Ghost<Map<Price, Level>>,
) -> (outcome: MatchOutcome)
    requires
        shelf_wf(
            *old(pool),
            old(index)@,
            Shelves::pair(taker.side.opposite(), old(map)@, others),
        ),
        populated(queues(*old(pool), old(map)@)),
    ensures
        ({
            let s = sweep(taker, queues(*old(pool), old(map)@), qty);
            &&& shelf_wf(
                *final(pool),
                final(index)@,
                Shelves::pair(taker.side.opposite(), final(map)@, others),
            )
            &&& queues(*final(pool), final(map)@) == s.levels
            &&& queues(*final(pool), others) == queues(*old(pool), others)
            &&& final(trades)@ == old(trades)@ + s.trades
            &&& outcome.remaining == s.qty
            &&& outcome.cancelled == s.cancelled
            &&& final(index)@.submap_of(old(index)@)
        }),
{
    let ghost done = sweep(taker, queues(*pool, map@), qty);
    let side = taker.side.opposite();
    let mut left: Qty = qty;
    while left > 0
        invariant
            side == taker.side.opposite(),
            done == sweep(taker, queues(*old(pool), old(map)@), qty),
            shelf_wf(*pool, index@, Shelves::pair(side, map@, others)),
            populated(queues(*pool, map@)),
            queues(*pool, others) == queues(*old(pool), others),
            index@.submap_of(old(index)@),
            ({
                let s = sweep(taker, queues(*pool, map@), left);
                &&& done.levels == s.levels
                &&& old(trades)@ + done.trades == trades@ + s.trades
                &&& done.qty == s.qty
                &&& done.cancelled == s.cancelled
            }),
        ensures
            ({
                let s = sweep(taker, queues(*pool, map@), left);
                s.levels == queues(*pool, map@) && s.trades.len() == 0 && s.qty == left
                    && !s.cancelled
            }),
        decreases map@.dom().len(),
    {
        let ghost levels = queues(*pool, map@);
        let ghost shelves = Shelves::pair(side, map@, others);
        let ghost pool1 = *pool;
        let ghost index1 = index@;
        let ghost trades1 = trades@;
        proof {
            assert(levels.dom() =~= map@.dom());
        }
        let best_price: Price = match best_key(map, side) {
            Some(price) => price,
            None => {
                break;
            },
        };
        let crosses = match taker.limit {
            None => true,
            Some(limit) => match taker.side {
                Side::Bid => best_price <= limit,
                Side::Ask => best_price >= limit,
            },
        };
        if !crosses {
            break;
        }
        let mut level: Level = *map.get(&best_price).unwrap();
        proof {
            assert(shelves.has(side, best_price));
            assert(levels[best_price] == pool.orders(level));
            lemma_fill(taker, best_price, levels[best_price], left);
        }
        let (after, cancelled): (Qty, bool) = fill_level(
            pool,
            index,
            &mut level,
            taker,
            best_price,
            left,
            trades,
            Ghost(shelves),
        );
        let ghost here = fill(taker, best_price, levels[best_price], left);
        proof {
            lemma_queues_put(pool1, *pool, shelves, side, best_price, level);
            lemma_index_chain(old(index)@, index1, index@);
            assert(shelves.put(side, best_price, level).has(side, best_price));
            assert(stocked(*pool, side, best_price, level));
            assert(pool.orders(level).len() == level.slots().len());
        }
        if pool.is_empty(&level) {
            proof {
                let put = shelves.put(side, best_price, level);
                lemma_take_empty(*pool, index@, put, side, best_price);
                assert(put.take(side, best_price) =~= Shelves::pair(
                    side,
                    map@.remove(best_price),
                    others,
                ));
                assert(shelves.take(side, best_price).side(side) =~= map@.remove(best_price));
            }
            map.remove(&best_price);
            proof {
                assert(queues(*pool, map@) == levels.remove(best_price));
                let later = sweep(taker, levels.remove(best_price), after);
                if !cancelled {
                    assert(trades1 + (here.trades + later.trades) =~= trades@ + later.trades);
                }
            }
            if cancelled {
                return MatchOutcome { remaining: after, cancelled: true };
            }
            left = after;
        } else {
            map.insert(best_price, level);
            proof {
                assert(shelves.put(side, best_price, level) =~= Shelves::pair(side, map@, others));
                assert(queues(*pool, map@) == levels.insert(best_price, here.rest));
            }
            return MatchOutcome { remaining: after, cancelled };
        }
    }
    proof {
        let s = sweep(taker, queues(*pool, map@), left);
        assert(trades@ + s.trades =~= trades@);
    }
    MatchOutcome { remaining: left, cancelled: false }
}

/// The prices of a map, best first, from the items of its iterator.
spec fn keys_of(items: Seq<(&Price, &Level)>, side: Side) -> Seq<Price> {
    let increasing = items.map_values(|kv: (&Price, &Level)| *kv.0);
    match side {
        Side::Ask => increasing,
        Side::Bid => increasing.reverse(),
    }
}

/// The items of a map's iterator give its prices in order.
proof fn lemma_keys_of(items: Seq<(&Price, &Level)>, map: Map<Price, Level>, levels: Levels, side: Side)
    requires
        levels.dom() == map.dom(),
        forall|i: int| 0 <= i < items.len() ==> map.contains_key(*(#[trigger] items[i]).0),
        forall|p: Price| #[trigger] map.contains_key(p) ==> items.contains((&p, &map[p])),
        vstd::std_specs::btree::increasing_seq(
            items.map_values(|kv: (&Price, &Level)| *kv.0),
        ),
    ensures
        best_first(keys_of(items, side), levels, side),
{
    assert(vstd::laws_cmp::obeys_cmp::<Price>());
    let increasing = items.map_values(|kv: (&Price, &Level)| *kv.0);
    let keys = keys_of(items, side);
    let n = items.len();
    assert forall|i: int, j: int|
        #![trigger increasing[i], increasing[j]]
        0 <= i < j < n implies increasing[i] < increasing[j] by {
        assert(OrdSpec::cmp_spec(&increasing[i], &increasing[j]) is Less);
    }
    assert forall|i: int| 0 <= i < n implies levels.contains_key(#[trigger] keys[i]) by {
        let j = match side {
            Side::Ask => i,
            Side::Bid => n - 1 - i,
        };
        assert(keys[i] == *items[j].0);
        assert(map.dom().contains(*items[j].0));
    }
    assert forall|p: Price| #[trigger] levels.contains_key(p) implies exists|i: int|
        0 <= i < keys.len() && #[trigger] keys[i] == p by {
        assert(map.contains_key(p));
        let j = choose|j: int| 0 <= j < n && items[j] == (&p, &map[p]);
        let i = match side {
            Side::Ask => j,
            Side::Bid => n - 1 - j,
        };
        assert(keys[i] == p);
    }
    assert forall|i: int, j: int|
        #![trigger keys[i], keys[j]]
        0 <= i < j < keys.len() implies keys[i] != keys[j]
        && crate::model::at_least_as_good(side, keys[i], keys[j]) by {
        match side {
            Side::Ask => {
                assert(increasing[i] < increasing[j]);
            },
            Side::Bid => {
                assert(increasing[n - 1 - j] < increasing[n - 1 - i]);
            },
        }
    }
}

/// The top `depth` levels of one side, best first.
fn top_levels(
    map: &BTreeMap<Price, Level>,
    side: Side,
    depth: usize,
    Ghost(pool): Ghost<Pool>,
) -> (shown: Vec<Level2>)
    requires
        forall|p: Price| #[trigger]
            map@.contains_key(p) ==> map@[p].cached_total() == total(pool.orders(map@[p])),
    ensures
        shown@ == top(queues(pool, map@), side, depth as nat),
{
    let ghost levels = queues(pool, map@);
    let mut items = map.iter();
    let ghost pairs = items.remaining();
    let ghost keys = keys_of(pairs, side);
    proof {
        assert(levels.dom() =~= map@.dom());
        lemma_keys_of(pairs, map@, levels, side);
        lemma_top(keys, levels, side, depth as nat);
        assert(pairs.skip(0) =~= pairs);
        assert(pairs.take(pairs.len() as int) =~= pairs);
    }
    let mut shown: Vec<Level2> = Vec::new();
    while shown.len() < depth
        invariant_except_break
            items.obeys_prophetic_iter_laws(),
            items.remaining() == (match side {
                Side::Ask => pairs.skip(shown.len() as int),
                Side::Bid => pairs.take(pairs.len() - shown.len()),
            }),
        invariant
            shown.len() <= depth,
            shown.len() <= pairs.len(),
            keys == keys_of(pairs, side),
            levels == queues(pool, map@),
            forall|i: int|
                0 <= i < pairs.len() ==> map@.contains_key(*(#[trigger] pairs[i]).0)
                    && map@[*pairs[i].0] == *pairs[i].1,
            forall|p: Price| #[trigger]
                map@.contains_key(p) ==> map@[p].cached_total() == total(pool.orders(map@[p])),
            forall|i: int|
                0 <= i < shown.len() ==> #[trigger] shown@[i] == (Level2 {
                    price: keys[i],
                    qty: total(levels[keys[i]]) as Qty,
                }),
        ensures
            shown.len() == depth || shown.len() == pairs.len(),
        decreases depth - shown.len(),
    {
        let ghost n = shown.len() as int;
        let item = match side {
            Side::Ask => step(&mut items),
            Side::Bid => step_back(&mut items),
        };
        match item {
            None => {
                break;
            },
            Some((price, level)) => {
                proof {
                    let j = match side {
                        Side::Ask => n,
                        Side::Bid => pairs.len() - 1 - n,
                    };
                    assert(pairs[j] == (price, level));
                    assert(keys[n] == *price);
                    assert(map@.contains_key(*pairs[j].0));
                    assert(items.remaining() =~= match side {
                        Side::Ask => pairs.skip(n + 1),
                        Side::Bid => pairs.take(pairs.len() - (n + 1)),
                    });
                }
                shown.push(Level2 { price: *price, qty: level.total_qty() });
            },
        }
    }
    proof {
        assert(shown@ =~= top(levels, side, depth as nat));
    }
    shown
}

/// A price-time-priority central limit order book.
pub struct OrderBook {
    /// Buy orders, keyed by price. Best bid = highest key.
    bids: BTreeMap<Price, Level>,
    /// Sell orders, keyed by price. Best ask = lowest key.
    asks: BTreeMap<Price, Level>,
    /// The arena holding every resting order node.
    pool: Pool,
    /// `OrderId -> arena slot`, for `O(1)` cancellation.
    locations: HashMap<OrderId, u32>,
    /// Self-trade-prevention policy applied to aggressor orders.
    stp: SelfTrade,
    /// Source of monotonically increasing order ids.
    next_id: OrderId,
}

impl View for OrderBook {
    type V = Book;

    /// The book this stands for.
    closed spec fn view(&self) -> Book {
        stand(self.pool, self.shelves(), self.stp, self.next_id)
    }
}

impl Default for OrderBook {
    fn default() -> (book: Self)
        ensures
            book.wf(),
            book@ == Book::empty(),
    {
        Self::new()
    }
}

impl OrderBook {
    spec fn shelves(self) -> Shelves {
        Shelves { bids: self.bids@, asks: self.asks@ }
    }

    /// Arena, index and levels agree.
    spec fn sound(self) -> bool {
        shelf_wf(self.pool, self.locations@, self.shelves())
    }

    /// The representation is in order, and stands for a well-formed book.
    pub closed spec fn wf(self) -> bool {
        self.sound() && self@.wf()
    }

    /// What [`OrderBook::wf`] says of the book.
    pub proof fn lemma_wf(self)
        requires
            self.wf(),
        ensures
            self@.wf(),
    {
    }

    /// Create an empty book (self-trade prevention off).
    pub fn new() -> (book: Self)
        ensures
            book.wf(),
            book@ == Book::empty(),
    {
        let book = Self {
            bids: BTreeMap::new(),
            asks: BTreeMap::new(),
            pool: Pool::new(),
            locations: HashMap::new(),
            stp: SelfTrade::Allow,
            next_id: 0,
        };
        proof {
            assert(book@.bids =~= Map::<Price, Seq<Order>>::empty());
            assert(book@.asks =~= Map::<Price, Seq<Order>>::empty());
            assert(book@ =~= Book::empty());
        }
        book
    }

    /// Set the self-trade-prevention policy for subsequent aggressor orders.
    pub fn set_self_trade(&mut self, policy: SelfTrade)
        requires
            old(self).wf(),
        ensures
            final(self).wf(),
            final(self)@ == (Book { stp: policy, ..old(self)@ }),
    {
        self.stp = policy;
        proof {
            lemma_stp_wf(old(self)@, policy);
        }
    }

    /// Put an order at the back of the level at `price`.
    fn rest(&mut self, id: OrderId, owner: OrderId, side: Side, price: Price, qty: Qty)
        requires
            old(self).sound(),
            !old(self).locations@.contains_key(id),
            old(self).locations@.dom().len() < u32::MAX,
            qty > 0,
            old(self)@.depth(side, price) + qty <= u64::MAX,
        ensures
            final(self).sound(),
            final(self)@ == old(self)@.enqueue(side, price, Order { id, owner, qty }),
    {
        let ghost before = *self;
        let found = match side {
            Side::Bid => self.bids.get(&price),
            Side::Ask => self.asks.get(&price),
        };
        let mut level: Level = match found {
            Some(level) => *level,
            None => Level::empty(),
        };
        let ghost put = before.shelves().put(side, price, level);
        proof {
            if before.shelves().has(side, price) {
                lemma_totals(
                    before.pool,
                    before.locations@,
                    before.shelves(),
                    before.stp,
                    before.next_id,
                    side,
                    price,
                );
                assert(put =~= before.shelves());
            } else {
                lemma_put_empty(
                    before.pool,
                    before.locations@,
                    before.shelves(),
                    side,
                    price,
                    level,
                );
            }
            assert(before.pool.orders(level) == before@.queue(side, price));
        }
        rest_order(
            &mut self.pool,
            &mut self.locations,
            &mut level,
            id,
            owner,
            price,
            side,
            qty,
            Ghost(put),
        );
        match side {
            Side::Bid => {
                self.bids.insert(price, level);
            },
            Side::Ask => {
                self.asks.insert(price, level);
            },
        }
        proof {
            let shelves = before.shelves();
            assert(self.shelves() =~= shelves.put(side, price, level));
            assert(put.put(side, price, level) =~= self.shelves());
            lemma_others_chain(
                before.pool,
                before.pool,
                self.pool,
                shelves,
                put,
                side,
                price,
            );
            lemma_queues_put(before.pool, self.pool, shelves, side, price, level);
            assert(self@ =~= before@.enqueue(side, price, Order { id, owner, qty }));
        }
    }

    /// Match an incoming order into the opposite side.
    fn take(&mut self, taker: Taker, qty: Qty, trades: &mut Vec<Trade>) -> (outcome: MatchOutcome)
        requires
            old(self).wf(),
        ensures
            ({
                let other = taker.side.opposite();
                let s = sweep(taker, old(self)@.levels(other), qty);
                &&& final(self).sound()
                &&& final(self)@ == old(self)@.with_levels(other, s.levels)
                &&& final(trades)@ == old(trades)@ + s.trades
                &&& outcome.remaining == s.qty
                &&& outcome.cancelled == s.cancelled
                &&& final(self).locations@.submap_of(old(self).locations@)
            }),
    {
        let ghost before = *self;
        proof {
            before@.lemma_populated(taker.side.opposite());
        }
        let outcome = match taker.side {
            Side::Bid => {
                assert(Shelves::pair(Side::Ask, self.asks@, self.bids@) =~= self.shelves());
                match_into(
                    &mut self.asks,
                    &mut self.pool,
                    &mut self.locations,
                    taker,
                    qty,
                    trades,
                    Ghost(self.bids@),
                )
            },
            Side::Ask => {
                assert(Shelves::pair(Side::Bid, self.bids@, self.asks@) =~= self.shelves());
                match_into(
                    &mut self.bids,
                    &mut self.pool,
                    &mut self.locations,
                    taker,
                    qty,
                    trades,
                    Ghost(self.asks@),
                )
            },
        };
        outcome
    }

    /// Submit an [`ANONYMOUS`] limit order (no self-trade prevention).
    ///
    /// The order first matches as much as it can against the opposite side
    /// (best price first, FIFO within a price). Any unfilled remainder rests on
    /// its own side of the book at `price`.
    pub fn submit_limit(&mut self, side: Side, price: Price, qty: Qty) -> (result: SubmitResult)
        requires
            old(self).wf(),
            old(self)@.limit_fits(ANONYMOUS, side, price, qty),
        ensures
            final(self).wf(),
            final(self)@ == old(self)@.limit(ANONYMOUS, side, price, qty),
            result@ == old(self)@.limit_receipt(ANONYMOUS, side, price, qty),
    {
        self.submit_limit_as(ANONYMOUS, side, price, qty)
    }

    /// Submit a limit order attributed to `owner`.
    pub fn submit_limit_as(
        &mut self,
        owner: OrderId,
        side: Side,
        price: Price,
        qty: Qty,
    ) -> (result: SubmitResult)
        requires
            old(self).wf(),
            old(self)@.limit_fits(owner, side, price, qty),
        ensures
            final(self).wf(),
            final(self)@ == old(self)@.limit(owner, side, price, qty),
            result@ == old(self)@.limit_receipt(owner, side, price, qty),
    {
        let ghost before = *self;
        let id: OrderId = self.next_id;
        let mut trades: Vec<Trade> = Vec::new();
        // A buy matches into the asks taking the lowest price first; a sell
        // matches into the bids taking the highest price first.
        let taker = Taker { id, owner, side, limit: Some(price), stp: self.stp };
        let outcome = self.take(taker, qty, &mut trades);
        self.next_id = id + 1;

        // A remainder only rests if it wasn't cancelled by self-trade prevention.
        let remaining: Qty = if outcome.cancelled {
            0
        } else {
            outcome.remaining
        };
        proof {
            let s = before@.matching(owner, side, Some(price), qty);
            assert(trades@ =~= s.trades);
            assert(self@ =~= before@.matched(owner, side, Some(price), qty));
            lemma_index_ids(self.pool, self.locations@, self.shelves(), self.stp, self.next_id);
            lemma_index_ids(
                before.pool,
                before.locations@,
                before.shelves(),
                before.stp,
                before.next_id,
            );
            before@.lemma_ids_bound();
            lemma_index_chain(before.locations@, before.locations@, self.locations@);
            vstd::set_lib::lemma_len_subset(self.locations@.dom(), before.locations@.dom());
            if self.locations@.contains_key(id) {
                assert(before.locations@.dom().contains(id));
                assert(before@.rests(id));
                assert(before@.holds(before@.place(id)));
            }
        }
        if remaining > 0 {
            self.rest(id, owner, side, price, remaining);
        }
        proof {
            before@.lemma_limit_wf(owner, side, price, qty);
        }
        SubmitResult { id, trades, resting: remaining }
    }

    /// Submit an [`ANONYMOUS`] market order.
    pub fn submit_market(&mut self, side: Side, qty: Qty) -> (result: SubmitResult)
        requires
            old(self).wf(),
            old(self)@.market_fits(qty),
        ensures
            final(self).wf(),
            final(self)@ == old(self)@.market(ANONYMOUS, side, qty),
            result@ == old(self)@.market_receipt(ANONYMOUS, side, qty),
    {
        self.submit_market_as(ANONYMOUS, side, qty)
    }

    /// Submit a market order attributed to `owner`: match against the best
    /// prices with no limit. Never rests; the unfilled remainder is reported in
    /// `resting`.
    pub fn submit_market_as(&mut self, owner: OrderId, side: Side, qty: Qty) -> (result:
        SubmitResult)
        requires
            old(self).wf(),
            old(self)@.market_fits(qty),
        ensures
            final(self).wf(),
            final(self)@ == old(self)@.market(owner, side, qty),
            result@ == old(self)@.market_receipt(owner, side, qty),
    {
        let ghost before = *self;
        let id: OrderId = self.next_id;
        let mut trades: Vec<Trade> = Vec::new();
        let taker = Taker { id, owner, side, limit: None, stp: self.stp };
        let outcome = self.take(taker, qty, &mut trades);
        self.next_id = id + 1;
        proof {
            let s = before@.matching(owner, side, None, qty);
            assert(trades@ =~= s.trades);
            assert(self@ =~= before@.matched(owner, side, None, qty));
            before@.lemma_market_wf(owner, side, qty);
        }
        SubmitResult { id, trades, resting: outcome.remaining }
    }

    /// Change a resting order's quantity (see [`crate::engine::Engine::amend`]).
    pub fn amend(&mut self, id: OrderId, new_qty: Qty) -> (found: bool)
        requires
            old(self).wf(),
            old(self)@.amend_fits(id, new_qty),
        ensures
            final(self).wf(),
            final(self)@ == old(self)@.amend(id, new_qty),
            found == old(self)@.rests(id),
    {
        let ghost before = *self;
        proof {
            lemma_index_ids(self.pool, self.locations@, self.shelves(), self.stp, self.next_id);
        }
        let slot: u32 = match self.locations.get(&id) {
            Some(slot) => *slot,
            None => {
                return false;
            },
        };
        proof {
            lemma_locate(self.pool, self.locations@, self.shelves(), self.stp, self.next_id, id);
            before@.lemma_amend_wf(id, new_qty);
        }
        let current: Qty = self.pool.qty_of(slot);
        let (price, side): (Price, Side) = self.pool.location(slot);
        let ghost at = before@.place(id);
        let ghost queue = before@.levels(side)[price];
        if new_qty == current {
            proof {
                assert(queue.update(at.index, Order { qty: new_qty, ..before@.order(at) })
                    =~= queue);
                assert(before@.levels(side).insert(price, queue) =~= before@.levels(side));
                assert(self@ =~= before@.amend(id, new_qty));
            }
            return true;
        }
        let found = match side {
            Side::Bid => self.bids.get(&price),
            Side::Ask => self.asks.get(&price),
        };
        let mut level: Level = *found.unwrap();
        let ghost shelves = self.shelves();
        proof {
            assert(shelves.at(side, price) == level);
        }
        if new_qty < current {
            // Shrink in place: time priority preserved.
            reduce_order(
                &mut self.pool,
                &mut level,
                slot,
                current - new_qty,
                Ghost(self.locations@),
                Ghost(shelves),
                Ghost(side),
                Ghost(price),
            );
        } else {
            // Grow: priority is forfeited. Move to the back of the level,
            // keeping the same id and owner.
            let owner: OrderId = self.pool.owner_of(slot);
            drop_order(
                &mut self.pool,
                &mut self.locations,
                &mut level,
                slot,
                Ghost(shelves),
                Ghost(side),
                Ghost(price),
            );
            let ghost pool1 = self.pool;
            let ghost shelves1 = shelves.put(side, price, level);
            proof {
                assert(shelves1.has(side, price));
                assert(stocked(self.pool, side, price, level));
                self.pool.lemma_threads(level);
                lemma_total_remove(queue, at.index);
                before.pool.lemma_capacity();
            }
            rest_order(
                &mut self.pool,
                &mut self.locations,
                &mut level,
                id,
                owner,
                price,
                side,
                new_qty,
                Ghost(shelves1),
            );
            proof {
                assert(shelves1.put(side, price, level) =~= shelves.put(side, price, level));
                lemma_others_chain(
                    before.pool,
                    pool1,
                    self.pool,
                    shelves,
                    shelves1,
                    side,
                    price,
                );
            }
        }
        match side {
            Side::Bid => {
                self.bids.insert(price, level);
            },
            Side::Ask => {
                self.asks.insert(price, level);
            },
        }
        proof {
            assert(self.shelves() =~= shelves.put(side, price, level));
            lemma_queues_put(before.pool, self.pool, shelves, side, price, level);
            assert(self@ =~= before@.amend(id, new_qty));
        }
        true
    }

    /// A snapshot of the top `depth` price levels per side.
    pub fn l2(&self, depth: usize) -> (snap: L2Snapshot)
        requires
            self.wf(),
        ensures
            snap.bids@ == top(self@.bids, Side::Bid, depth as nat),
            snap.asks@ == top(self@.asks, Side::Ask, depth as nat),
    {
        proof {
            assert forall|p: Price| #[trigger] self.bids@.contains_key(p) implies self.bids@[p]
                .cached_total() == total(self.pool.orders(self.bids@[p])) by {
                assert(self.shelves().has(Side::Bid, p));
                lemma_totals(
                    self.pool,
                    self.locations@,
                    self.shelves(),
                    self.stp,
                    self.next_id,
                    Side::Bid,
                    p,
                );
            }
            assert forall|p: Price| #[trigger] self.asks@.contains_key(p) implies self.asks@[p]
                .cached_total() == total(self.pool.orders(self.asks@[p])) by {
                assert(self.shelves().has(Side::Ask, p));
                lemma_totals(
                    self.pool,
                    self.locations@,
                    self.shelves(),
                    self.stp,
                    self.next_id,
                    Side::Ask,
                    p,
                );
            }
        }
        let bids = top_levels(&self.bids, Side::Bid, depth, Ghost(self.pool));
        let asks = top_levels(&self.asks, Side::Ask, depth, Ghost(self.pool));
        L2Snapshot { bids, asks }
    }

    /// Cancel a resting order by id.
    ///
    /// Returns `true` if the order was resting and is now removed, `false` if
    /// no such order is on the book (already filled, already cancelled, or an
    /// id that never rested). `O(1)` plus the `O(log n)` level lookup.
    pub fn cancel(&mut self, id: OrderId) -> (found: bool)
        requires
            old(self).wf(),
        ensures
            final(self).wf(),
            final(self)@ == old(self)@.cancel(id),
            found == old(self)@.rests(id),
    {
        let ghost before = *self;
        proof {
            lemma_index_ids(self.pool, self.locations@, self.shelves(), self.stp, self.next_id);
            before@.lemma_cancel_wf(id);
        }
        let slot: u32 = match self.locations.get(&id) {
            Some(slot) => *slot,
            None => {
                return false;
            },
        };
        proof {
            lemma_locate(self.pool, self.locations@, self.shelves(), self.stp, self.next_id, id);
        }
        let (price, side): (Price, Side) = self.pool.location(slot);
        let found = match side {
            Side::Bid => self.bids.get(&price),
            Side::Ask => self.asks.get(&price),
        };
        let mut level: Level = *found.unwrap();
        let ghost shelves = self.shelves();
        drop_order(
            &mut self.pool,
            &mut self.locations,
            &mut level,
            slot,
            Ghost(shelves),
            Ghost(side),
            Ghost(price),
        );
        let ghost put = shelves.put(side, price, level);
        proof {
            assert(put.has(side, price));
            assert(stocked(self.pool, side, price, level));
            lemma_queues_put(before.pool, self.pool, shelves, side, price, level);
        }
        let bare = self.pool.is_empty(&level);
        match (side, bare) {
            (Side::Bid, true) => {
                self.bids.remove(&price);
            },
            (Side::Bid, false) => {
                self.bids.insert(price, level);
            },
            (Side::Ask, true) => {
                self.asks.remove(&price);
            },
            (Side::Ask, false) => {
                self.asks.insert(price, level);
            },
        }
        proof {
            if bare {
                lemma_take_empty(self.pool, self.locations@, put, side, price);
                assert(put.take(side, price) =~= self.shelves());
                assert(shelves.take(side, price) =~= self.shelves());
            } else {
                assert(put =~= self.shelves());
            }
            assert(self@ =~= before@.cancel(id));
        }
        true
    }

    /// The highest resting bid price, if any.
    pub fn best_bid(&self) -> (price: Option<Price>)
        requires
            self.wf(),
        ensures
            price == self@.best_bid(),
    {
        assert(self@.bids.dom() =~= self.bids@.dom());
        best_key(&self.bids, Side::Bid)
    }

    /// The lowest resting ask price, if any.
    pub fn best_ask(&self) -> (price: Option<Price>)
        requires
            self.wf(),
        ensures
            price == self@.best_ask(),
    {
        assert(self@.asks.dom() =~= self.asks@.dom());
        best_key(&self.asks, Side::Ask)
    }

    /// The gap between best ask and best bid, if both sides are populated.
    pub fn spread(&self) -> (gap: Option<Price>)
        requires
            self.wf(),
        ensures
            gap == self@.spread(),
    {
        let ask = self.best_ask();
        let bid = self.best_bid();
        proof {
            lemma_best(self@.bids, Side::Bid);
            lemma_best(self@.asks, Side::Ask);
        }
        match (ask, bid) {
            (Some(ask), Some(bid)) => Some(ask - bid),
            _ => None,
        }
    }

    /// Total resting quantity at `price` on the given side (0 if none).
    pub fn depth_at(&self, side: Side, price: Price) -> (qty: Qty)
        requires
            self.wf(),
        ensures
            qty == self@.depth(side, price),
    {
        proof {
            if self.shelves().has(side, price) {
                lemma_totals(
                    self.pool,
                    self.locations@,
                    self.shelves(),
                    self.stp,
                    self.next_id,
                    side,
                    price,
                );
            }
        }
        let found = match side {
            Side::Bid => self.bids.get(&price),
            Side::Ask => self.asks.get(&price),
        };
        match found {
            Some(level) => level.total_qty(),
            None => 0,
        }
    }
}

impl Engine for OrderBook {
    open spec fn in_order(&self) -> bool {
        self.wf()
    }

    open spec fn book(&self) -> Book {
        self@
    }

    open spec fn accepts(&self, _price: Price) -> bool {
        true
    }

    proof fn lemma_in_order(&self) {
        self.lemma_wf();
    }

    fn submit_limit_as(&mut self, owner: OrderId, side: Side, price: Price, qty: Qty) -> (result:
        SubmitResult) {
        OrderBook::submit_limit_as(self, owner, side, price, qty)
    }

    fn submit_market_as(&mut self, owner: OrderId, side: Side, qty: Qty) -> (result: SubmitResult) {
        OrderBook::submit_market_as(self, owner, side, qty)
    }

    fn set_self_trade(&mut self, policy: SelfTrade) {
        OrderBook::set_self_trade(self, policy)
    }

    fn cancel(&mut self, id: OrderId) -> (found: bool) {
        OrderBook::cancel(self, id)
    }

    fn amend(&mut self, id: OrderId, new_qty: Qty) -> (found: bool) {
        OrderBook::amend(self, id, new_qty)
    }

    fn best_bid(&self) -> (price: Option<Price>) {
        OrderBook::best_bid(self)
    }

    fn best_ask(&self) -> (price: Option<Price>) {
        OrderBook::best_ask(self)
    }

    fn spread(&self) -> (gap: Option<Price>) {
        OrderBook::spread(self)
    }

    fn depth_at(&self, side: Side, price: Price) -> (qty: Qty) {
        OrderBook::depth_at(self, side, price)
    }

    fn l2(&self, depth: usize) -> (snap: L2Snapshot) {
        OrderBook::l2(self, depth)
    }
}

} // verus!
