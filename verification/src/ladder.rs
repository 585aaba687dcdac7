//! A flat "price ladder" order book: the same matching engine as
//! [`crate::book::OrderBook`], but with the per-side `BTreeMap` replaced by a
//! single contiguous array indexed directly by price tick.
//!
//! # Why
//!
//! In the `BTreeMap` book, reaching a price level costs `O(log n)` and chases
//! pointers all over the heap. A real instrument trades in a *bounded* band of
//! prices, so we can preallocate one [`Level`] slot per tick and index it in
//! `O(1)` with cache-friendly, sequential memory. Finding the best price is
//! then just following a cursor.
//!
//! Bids and asks share one array. That's sound because resting bids are always
//! strictly below resting asks (anything crossing would have matched), so a
//! given tick is only ever one side at a time. Two cursors, [`best_bid`] and
//! [`best_ask`], track the extremes; when the level under one empties, an
//! occupancy bitmap ([`crate::bitset`]) leads to the next one.
//!
//! Everything below the price index (the arena, the intrusive FIFO lists,
//! `O(1)` cancel) is shared with the `BTreeMap` engine via [`crate::pool`] and
//! [`crate::shelf`]: only the price container differs.
//!
//! [`best_bid`]: LadderBook::best_bid
//! [`best_ask`]: LadderBook::best_ask

use std::collections::HashMap;

use vstd::prelude::*;

use crate::bitset::LevelBitset;
use crate::book::MatchOutcome;
use crate::engine::{Engine, SelfTrade, ANONYMOUS};
use crate::model::{
    at_least_as_good, best, fill, is_best, lemma_best, lemma_best_is, lemma_fill, lemma_stp_wf,
    lemma_sweep, lemma_total_remove, populated, sweep, top, total, Book, Order, Taker,
};
use crate::pool::{Level, Pool};
use crate::shelf::{
    drop_order, fill_level, lemma_index_chain, lemma_index_ids, lemma_locate, lemma_others_chain,
    lemma_put_empty, lemma_queues_put, lemma_take_empty, lemma_totals,
    reduce_order, rest_order, shelf_wf, stand, stocked, Shelves,
};
use crate::types::{L2Snapshot, Level2, OrderId, Price, Qty, Side, SubmitResult, Trade};

verus! {

/// Cursor sentinel meaning "no populated level on this side".
const NONE: u32 = 0xFFFF_FFFF;

/// A price-time-priority order book backed by a flat array of price levels.
pub struct LadderBook {
    /// Lowest price the ladder can represent; `levels[0]` is this tick.
    min_price: Price,
    /// One [`Level`] per tick in `[min_price, max_price]`.
    levels: Vec<Level>,
    /// Bit `i` set == `levels[i]` has resting orders.
    occupied: LevelBitset,
    /// Shared arena of resting-order nodes.
    pool: Pool,
    /// `OrderId -> arena slot`, for `O(1)` cancellation.
    locations: HashMap<OrderId, u32>,
    /// Index of the highest populated bid level, or [`NONE`].
    best_bid: u32,
    /// Index of the lowest populated ask level, or [`NONE`].
    best_ask: u32,
    /// Self-trade-prevention policy applied to aggressor orders.
    stp: SelfTrade,
    /// Source of monotonically increasing order ids.
    next_id: OrderId,
}

/// First occupied level strictly above `from`, or [`NONE`].
fn next_up(occupied: &LevelBitset, from: u32) -> (next: u32)
    requires
        occupied.wf(),
        from < occupied.size() <= u32::MAX,
        forall|i: int| #[trigger] occupied@.contains(i) ==> i < occupied.size(),
    ensures
        next == NONE ==> forall|i: int| from < i ==> !#[trigger] occupied@.contains(i),
        next != NONE ==> {
            &&& from < next
            &&& occupied@.contains(next as int)
            &&& forall|i: int| from < i < next ==> !#[trigger] occupied@.contains(i)
        },
{
    match occupied.next_set_from(from as usize + 1) {
        Some(i) => i as u32,
        None => NONE,
    }
}

/// First occupied level strictly below `from`, or [`NONE`].
fn next_down(occupied: &LevelBitset, from: u32) -> (next: u32)
    requires
        occupied.wf(),
        from < occupied.size() <= u32::MAX,
        forall|i: int| #[trigger] occupied@.contains(i) ==> 0 <= i,
    ensures
        next == NONE ==> forall|i: int| i < from ==> !#[trigger] occupied@.contains(i),
        next != NONE ==> {
            &&& next < from
            &&& occupied@.contains(next as int)
            &&& forall|i: int| next < i < from ==> !#[trigger] occupied@.contains(i)
        },
{
    if from == 0 {
        return NONE;
    }
    match occupied.prev_set_from(from as usize - 1) {
        Some(i) => i as u32,
        None => NONE,
    }
}

impl View for LadderBook {
    type V = Book;

    /// The book this stands for.
    closed spec fn view(&self) -> Book {
        stand(self.pool, self.shelves(), self.stp, self.next_id)
    }
}

impl LadderBook {
    /// Tick `i` is on the bid side.
    spec fn bid_tick(self, i: int) -> bool {
        self.best_bid != NONE && i <= self.best_bid
    }

    /// Tick `i` is on the ask side.
    spec fn ask_tick(self, i: int) -> bool {
        self.best_ask != NONE && i >= self.best_ask
    }

    spec fn on_side(self, side: Side, i: int) -> bool {
        match side {
            Side::Bid => self.bid_tick(i),
            Side::Ask => self.ask_tick(i),
        }
    }

    /// The populated levels of one side, by price.
    spec fn side_levels(self, side: Side) -> Map<Price, Level> {
        Map::new(
            |price: Price|
                self.occupied@.contains(price - self.min_price) && self.on_side(
                    side,
                    price - self.min_price,
                ),
            |price: Price| self.levels[price - self.min_price],
        )
    }

    spec fn shelves(self) -> Shelves {
        Shelves { bids: self.side_levels(Side::Bid), asks: self.side_levels(Side::Ask) }
    }

    /// The bitmap tells the populated levels from the empty ones, and the
    /// cursors stand at the inner ends of the two sides.
    spec fn shape(self) -> bool {
        &&& 0 < self.levels.len() <= u32::MAX
        &&& self.min_price + self.levels.len() - 1 <= u64::MAX
        &&& self.occupied.wf()
        &&& self.occupied.size() == self.levels.len()
        &&& forall|i: int| #[trigger]
            self.occupied@.contains(i) ==> 0 <= i < self.levels.len()
                && self.levels[i].slots().len() > 0
        &&& forall|i: int|
            0 <= i < self.levels.len() && !#[trigger] self.occupied@.contains(i)
                ==> self.levels[i].detached()
        &&& self.best_bid != NONE ==> self.occupied@.contains(self.best_bid as int)
        &&& self.best_ask != NONE ==> self.occupied@.contains(self.best_ask as int)
        &&& self.best_bid != NONE && self.best_ask != NONE ==> self.best_bid < self.best_ask
        &&& forall|i: int| #[trigger]
            self.occupied@.contains(i) ==> self.bid_tick(i) || self.ask_tick(i)
    }

    /// Arena, index and levels agree.
    spec fn sound(self) -> bool {
        self.shape() && shelf_wf(self.pool, self.locations@, self.shelves())
    }

    /// The representation is in order, and stands for a well-formed book.
    pub closed spec fn wf(self) -> bool {
        self.sound() && self@.wf()
    }

    /// The ladder has a level for `price`.
    pub closed spec fn lists(self, price: Price) -> bool {
        self.min_price <= price < self.min_price + self.levels.len()
    }

    /// What [`LadderBook::wf`] says of the book.
    pub proof fn lemma_wf(self)
        requires
            self.wf(),
        ensures
            self@.wf(),
    {
    }

    /// The band, the arena, the index, the policy and the id counter are the
    /// same: only the levels and what is kept about them may differ.
    spec fn same_ladder(self, other: LadderBook) -> bool {
        &&& self.min_price == other.min_price
        &&& self.levels.len() == other.levels.len()
        &&& self.pool == other.pool
        &&& self.locations == other.locations
        &&& self.stp == other.stp
        &&& self.next_id == other.next_id
    }

    /// Create an empty book covering the inclusive tick range
    /// `[min_price, max_price]`. Orders outside this band cannot be taken.
    pub fn new(min_price: Price, max_price: Price) -> (book: Self)
        requires
            min_price <= max_price,
            max_price - min_price < u32::MAX,
        ensures
            book.wf(),
            book@ == Book::empty(),
            forall|price: Price| #[trigger]
                book.lists(price) <==> min_price <= price <= max_price,
    {
        let ticks: usize = (max_price - min_price + 1) as usize;
        let levels: Vec<Level> = vec![Level::empty(); ticks];
        let book = Self {
            min_price,
            levels,
            occupied: LevelBitset::new(ticks),
            pool: Pool::new(),
            locations: HashMap::new(),
            best_bid: NONE,
            best_ask: NONE,
            stp: SelfTrade::Allow,
            next_id: 0,
        };
        proof {
            assert(book@.bids =~= Map::<Price, Seq<Order>>::empty());
            assert(book@.asks =~= Map::<Price, Seq<Order>>::empty());
            assert(book@ =~= Book::empty());
        }
        book
    }

    /// Convert a price in the ladder's band to its array index.
    #[inline]
    fn index(&self, price: Price) -> (idx: u32)
        requires
            self.shape(),
            self.lists(price),
        ensures
            idx == price - self.min_price,
            idx < self.levels.len(),
    {
        (price - self.min_price) as u32
    }

    /// Store the level of a populated tick after orders have left it or
    /// changed. If none is left, the tick is marked empty, and the cursor moves
    /// on if it stood there.
    fn settle(&mut self, side: Side, idx: u32, level: Level, bare: bool)
        requires
            old(self).shape(),
            old(self).occupied@.contains(idx as int),
            old(self).on_side(side, idx as int),
            bare == (level.slots().len() == 0),
            bare ==> level.detached(),
        ensures
            final(self).shape(),
            final(self).same_ladder(*old(self)),
            final(self).shelves() == (if bare {
                old(self).shelves().take(side, (old(self).min_price + idx) as Price)
            } else {
                old(self).shelves().put(side, (old(self).min_price + idx) as Price, level)
            }),
    {
        let ghost price = (self.min_price + idx) as Price;
        proof {
            self.occupied.lemma_capacity();
        }
        self.levels.set(idx as usize, level);
        if bare {
            self.occupied.clear(idx as usize);
            match side {
                Side::Bid => {
                    if idx == self.best_bid {
                        self.best_bid = next_down(&self.occupied, idx);
                    }
                },
                Side::Ask => {
                    if idx == self.best_ask {
                        self.best_ask = next_up(&self.occupied, idx);
                    }
                },
            }
        }
        proof {
            let was = old(self).shelves();
            if bare {
                assert(self.shelves() =~= was.take(side, price));
            } else {
                assert(self.shelves() =~= was.put(side, price, level));
            }
        }
    }

    /// Store the level of a tick to which an order has come.
    fn stock(&mut self, side: Side, idx: u32, level: Level)
        requires
            old(self).shape(),
            idx < old(self).levels.len(),
            level.slots().len() > 0,
            !old(self).on_side(side.opposite(), idx as int),
        ensures
            final(self).shape(),
            final(self).same_ladder(*old(self)),
            final(self).shelves() == old(self).shelves().put(
                side,
                (old(self).min_price + idx) as Price,
                level,
            ),
    {
        let ghost price = (self.min_price + idx) as Price;
        proof {
            self.occupied.lemma_capacity();
        }
        self.levels.set(idx as usize, level);
        self.occupied.set(idx as usize);
        match side {
            Side::Bid => {
                if self.best_bid == NONE || idx > self.best_bid {
                    self.best_bid = idx;
                }
            },
            Side::Ask => {
                if self.best_ask == NONE || idx < self.best_ask {
                    self.best_ask = idx;
                }
            },
        }
        proof {
            assert(self.shelves() =~= old(self).shelves().put(side, price, level));
        }
    }

    /// The band is the same.
    spec fn same_band(self, other: LadderBook) -> bool {
        self.min_price == other.min_price && self.levels.len() == other.levels.len()
    }

    /// The cursor of a side stands at its best price.
    proof fn lemma_cursor(self, side: Side)
        requires
            self.shape(),
        ensures
            ({
                let cursor = match side {
                    Side::Bid => self.best_bid,
                    Side::Ask => self.best_ask,
                };
                let price = (self.min_price + cursor) as Price;
                &&& cursor == NONE ==> best(self@.levels(side), side) is None
                &&& cursor != NONE ==> {
                    &&& self.min_price + cursor <= u64::MAX
                    &&& self.occupied@.contains(cursor as int)
                    &&& self.on_side(side, cursor as int)
                    &&& best(self@.levels(side), side) == Some(price)
                    &&& self.shelves().has(side, price)
                    &&& self.shelves().at(side, price) == self.levels[cursor as int]
                }
            }),
    {
        let levels = self@.levels(side);
        let cursor = match side {
            Side::Bid => self.best_bid,
            Side::Ask => self.best_ask,
        };
        if cursor == NONE {
            assert forall|p: Price| !is_best(levels, side, p) by {
                assert(!self.shelves().has(side, p));
            }
        } else {
            let price = (self.min_price + cursor) as Price;
            assert(self.shelves().has(side, price));
            assert(levels.contains_key(price));
            assert forall|p: Price| #[trigger] levels.contains_key(p) implies at_least_as_good(
                side,
                price,
                p,
            ) by {
                assert(self.shelves().has(side, p));
            }
            lemma_best_is(levels, side, price);
        }
    }

    /// A price that the other side does not reach is beyond its cursor.
    proof fn lemma_beyond(self, side: Side, price: Price)
        requires
            self.shape(),
            forall|other: Price| #[trigger]
                self@.levels(side.opposite()).contains_key(other) ==> !at_least_as_good(
                    side,
                    price,
                    other,
                ),
        ensures
            !self.on_side(side.opposite(), price - self.min_price),
    {
        let other = side.opposite();
        self.lemma_cursor(other);
        if self.on_side(other, price - self.min_price) {
            let cursor = match other {
                Side::Bid => self.best_bid,
                Side::Ask => self.best_ask,
            };
            let p = (self.min_price + cursor) as Price;
            assert(self.shelves().has(other, p));
            assert(self@.levels(other).contains_key(p));
        }
    }

    /// Set the self-trade-prevention policy for subsequent aggressor orders.
    pub fn set_self_trade(&mut self, policy: SelfTrade)
        requires
            old(self).wf(),
        ensures
            final(self).wf(),
            final(self)@ == (Book { stp: policy, ..old(self)@ }),
            forall|p: Price| #[trigger] final(self).lists(p) == old(self).lists(p),
    {
        self.stp = policy;
        proof {
            lemma_stp_wf(old(self)@, policy);
            assert(self.shelves() =~= old(self).shelves());
        }
    }

    /// Put an order at the back of the level at `price`.
    fn rest(&mut self, id: OrderId, owner: OrderId, side: Side, price: Price, qty: Qty)
        requires
            old(self).sound(),
            old(self).lists(price),
            !old(self).on_side(side.opposite(), price - old(self).min_price),
            !old(self).locations@.contains_key(id),
            old(self).locations@.dom().len() < u32::MAX,
            qty > 0,
            old(self)@.depth(side, price) + qty <= u64::MAX,
        ensures
            final(self).sound(),
            final(self).same_band(*old(self)),
            final(self)@ == old(self)@.enqueue(side, price, Order { id, owner, qty }),
    {
        let ghost before = *self;
        let ghost shelves = self.shelves();
        let idx: u32 = self.index(price);
        let mut level: Level = self.levels[idx as usize];
        let ghost put = shelves.put(side, price, level);
        proof {
            if shelves.has(side, price) {
                lemma_totals(
                    before.pool,
                    before.locations@,
                    before.shelves(),
                    before.stp,
                    before.next_id,
                    side,
                    price,
                );
                assert(put =~= shelves);
            } else {
                assert(!self.occupied@.contains(idx as int));
                level.lemma_detached_level();
                lemma_put_empty(before.pool, before.locations@, shelves, side, price, level);
            }
            assert(before.pool.orders(level) == before@.queue(side, price));
        }
        rest_order(
            &mut self.pool,
            &mut self.locations,
            &mut level,
            id,
            owner,
            price,
            side,
            qty,
            Ghost(put),
        );
        proof {
            assert(self.shelves() =~= shelves);
            assert(self.pool.orders(level).len() == level.slots().len());
        }
        self.stock(side, idx, level);
        proof {
            assert(put.put(side, price, level) =~= self.shelves());
            lemma_others_chain(
                before.pool,
                before.pool,
                self.pool,
                shelves,
                put,
                side,
                price,
            );
            lemma_queues_put(before.pool, self.pool, shelves, side, price, level);
            assert(self@ =~= before@.enqueue(side, price, Order { id, owner, qty }));
        }
    }

    /// Match `qty` against the opposite side, walking from its cursor until the
    /// taker is exhausted or cancelled or the best level no longer crosses. The
    /// cursor advances past any levels this empties.
    fn take_liquidity(&mut self, taker: Taker, qty: Qty, trades: &mut Vec<Trade>) -> (outcome:
        MatchOutcome)
        requires
            old(self).wf(),
        ensures
            ({
                let other = taker.side.opposite();
                let s = sweep(taker, old(self)@.levels(other), qty);
                &&& final(self).sound()
                &&& final(self).same_band(*old(self))
                &&& final(self)@ == old(self)@.with_levels(other, s.levels)
                &&& final(trades)@ == old(trades)@ + s.trades
                &&& outcome.remaining == s.qty
                &&& outcome.cancelled == s.cancelled
                &&& final(self).locations@.submap_of(old(self).locations@)
            }),
    {
        let other = taker.side.opposite();
        let ghost done = sweep(taker, self@.levels(other), qty);
        let mut left: Qty = qty;
        proof {
            self@.lemma_populated(other);
            assert(self@ =~= old(self)@.with_levels(other, self@.levels(other)));
        }
        while left > 0
            invariant
                other == taker.side.opposite(),
                done == sweep(taker, old(self)@.levels(other), qty),
                self.sound(),
                self.same_band(*old(self)),
                populated(self@.levels(other)),
                self@ == old(self)@.with_levels(other, self@.levels(other)),
                self.locations@.submap_of(old(self).locations@),
                ({
                    let s = sweep(taker, self@.levels(other), left);
                    &&& done.levels == s.levels
                    &&& old(trades)@ + done.trades == trades@ + s.trades
                    &&& done.qty == s.qty
                    &&& done.cancelled == s.cancelled
                }),
            ensures
                ({
                    let s = sweep(taker, self@.levels(other), left);
                    s.levels == self@.levels(other) && s.trades.len() == 0 && s.qty == left
                        && !s.cancelled
                }),
            decreases self@.levels(other).dom().len(),
        {
            let ghost before = *self;
            let ghost levels = self@.levels(other);
            let ghost shelves = self.shelves();
            let ghost trades1 = trades@;
            let i: u32 = match other {
                Side::Ask => self.best_ask,
                Side::Bid => self.best_bid,
            };
            proof {
                self.lemma_cursor(other);
            }
            if i == NONE {
                break;
            }
            let price_i: Price = self.min_price + i as Price;
            let crosses = match taker.limit {
                None => true,
                Some(limit) => match taker.side {
                    Side::Bid => price_i <= limit,
                    Side::Ask => price_i >= limit,
                },
            };
            if !crosses {
                break;
            }
            let mut level: Level = self.levels[i as usize];
            proof {
                assert(levels[price_i] == self.pool.orders(level));
                lemma_fill(taker, price_i, levels[price_i], left);
            }
            // Fill this level FIFO until it's empty or the taker is done.
            let (after, cancelled): (Qty, bool) = fill_level(
                &mut self.pool,
                &mut self.locations,
                &mut level,
                taker,
                price_i,
                left,
                trades,
                Ghost(shelves),
            );
            let ghost here = fill(taker, price_i, levels[price_i], left);
            let ghost put = shelves.put(other, price_i, level);
            proof {
                lemma_queues_put(before.pool, self.pool, shelves, other, price_i, level);
                lemma_index_chain(old(self).locations@, before.locations@, self.locations@);
                assert(put.has(other, price_i));
                assert(stocked(self.pool, other, price_i, level));
                assert(self.pool.orders(level).len() == level.slots().len());
                assert(self.shelves() =~= shelves);
            }
            let bare = self.pool.is_empty(&level);
            proof {
                if bare {
                    self.pool.lemma_bare(level);
                    lemma_take_empty(self.pool, self.locations@, put, other, price_i);
                    assert(put.take(other, price_i) =~= shelves.take(other, price_i));
                }
            }
            self.settle(other, i, level, bare);
            proof {
                assert(self@ =~= before@.with_levels(
                    other,
                    if bare {
                        levels.remove(price_i)
                    } else {
                        levels.insert(price_i, here.rest)
                    },
                ));
                let later = sweep(taker, levels.remove(price_i), after);
                if bare && !cancelled {
                    assert(trades1 + (here.trades + later.trades) =~= trades@ + later.trades);
                }
            }
            if cancelled || !bare {
                // Taker done: cancelled, or exhausted with depth left here.
                return MatchOutcome { remaining: after, cancelled };
            }
            left = after;
        }
        proof {
            let s = sweep(taker, self@.levels(other), left);
            assert(trades@ + s.trades =~= trades@);
        }
        MatchOutcome { remaining: left, cancelled: false }
    }

    /// Submit an [`ANONYMOUS`] limit order (see
    /// [`crate::book::OrderBook::submit_limit`]). Its price must be in the band.
    pub fn submit_limit(&mut self, side: Side, price: Price, qty: Qty) -> (result: SubmitResult)
        requires
            old(self).wf(),
            old(self).lists(price),
            old(self)@.limit_fits(ANONYMOUS, side, price, qty),
        ensures
            final(self).wf(),
            final(self)@ == old(self)@.limit(ANONYMOUS, side, price, qty),
            result@ == old(self)@.limit_receipt(ANONYMOUS, side, price, qty),
            forall|p: Price| #[trigger] final(self).lists(p) == old(self).lists(p),
    {
        self.submit_limit_as(ANONYMOUS, side, price, qty)
    }

    /// Submit a limit order attributed to `owner`.
    pub fn submit_limit_as(
        &mut self,
        owner: OrderId,
        side: Side,
        price: Price,
        qty: Qty,
    ) -> (result: SubmitResult)
        requires
            old(self).wf(),
            old(self).lists(price),
            old(self)@.limit_fits(owner, side, price, qty),
        ensures
            final(self).wf(),
            final(self)@ == old(self)@.limit(owner, side, price, qty),
            result@ == old(self)@.limit_receipt(owner, side, price, qty),
            forall|p: Price| #[trigger] final(self).lists(p) == old(self).lists(p),
    {
        let ghost before = *self;
        let id: OrderId = self.next_id;
        let mut trades: Vec<Trade> = Vec::new();
        let taker = Taker { id, owner, side, limit: Some(price), stp: self.stp };
        let outcome = self.take_liquidity(taker, qty, &mut trades);
        let ghost swept = *self;
        self.next_id = id + 1;

        // A remainder only rests if it wasn't cancelled by self-trade prevention.
        let remaining: Qty = if outcome.cancelled {
            0
        } else {
            outcome.remaining
        };
        proof {
            let s = before@.matching(owner, side, Some(price), qty);
            assert(trades@ =~= s.trades);
            assert(self.shelves() =~= swept.shelves());
            assert(self@ =~= before@.matched(owner, side, Some(price), qty));
            lemma_index_ids(self.pool, self.locations@, self.shelves(), self.stp, self.next_id);
            lemma_index_ids(
                before.pool,
                before.locations@,
                before.shelves(),
                before.stp,
                before.next_id,
            );
            before@.lemma_ids_bound();
            lemma_index_chain(before.locations@, before.locations@, self.locations@);
            vstd::set_lib::lemma_len_subset(self.locations@.dom(), before.locations@.dom());
            if self.locations@.contains_key(id) {
                assert(before.locations@.dom().contains(id));
                assert(before@.rests(id));
                assert(before@.holds(before@.place(id)));
            }
            if remaining > 0 {
                before@.lemma_populated(side.opposite());
                lemma_sweep(taker, before@.levels(side.opposite()), qty);
                self.lemma_beyond(side, price);
            }
        }
        if remaining > 0 {
            self.rest(id, owner, side, price, remaining);
        }
        proof {
            before@.lemma_limit_wf(owner, side, price, qty);
        }
        SubmitResult { id, trades, resting: remaining }
    }

    /// Submit an [`ANONYMOUS`] market order.
    pub fn submit_market(&mut self, side: Side, qty: Qty) -> (result: SubmitResult)
        requires
            old(self).wf(),
            old(self)@.market_fits(qty),
        ensures
            final(self).wf(),
            final(self)@ == old(self)@.market(ANONYMOUS, side, qty),
            result@ == old(self)@.market_receipt(ANONYMOUS, side, qty),
            forall|p: Price| #[trigger] final(self).lists(p) == old(self).lists(p),
    {
        self.submit_market_as(ANONYMOUS, side, qty)
    }

    /// Submit a market order attributed to `owner`: match against the best
    /// prices with no limit. Never rests; the unfilled remainder is reported in
    /// `resting`.
    pub fn submit_market_as(&mut self, owner: OrderId, side: Side, qty: Qty) -> (result:
        SubmitResult)
        requires
            old(self).wf(),
            old(self)@.market_fits(qty),
        ensures
            final(self).wf(),
            final(self)@ == old(self)@.market(owner, side, qty),
            result@ == old(self)@.market_receipt(owner, side, qty),
            forall|p: Price| #[trigger] final(self).lists(p) == old(self).lists(p),
    {
        let ghost before = *self;
        let id: OrderId = self.next_id;
        let mut trades: Vec<Trade> = Vec::new();
        let taker = Taker { id, owner, side, limit: None, stp: self.stp };
        let outcome = self.take_liquidity(taker, qty, &mut trades);
        let ghost swept = *self;
        self.next_id = id + 1;
        proof {
            let s = before@.matching(owner, side, None, qty);
            assert(trades@ =~= s.trades);
            assert(self.shelves() =~= swept.shelves());
            assert(self@ =~= before@.matched(owner, side, None, qty));
            before@.lemma_market_wf(owner, side, qty);
        }
        SubmitResult { id, trades, resting: outcome.remaining }
    }

    /// Cancel a resting order by id (see [`crate::book::OrderBook::cancel`]).
    pub fn cancel(&mut self, id: OrderId) -> (found: bool)
        requires
            old(self).wf(),
        ensures
            final(self).wf(),
            final(self)@ == old(self)@.cancel(id),
            found == old(self)@.rests(id),
            forall|p: Price| #[trigger] final(self).lists(p) == old(self).lists(p),
    {
        let ghost before = *self;
        proof {
            lemma_index_ids(self.pool, self.locations@, self.shelves(), self.stp, self.next_id);
            before@.lemma_cancel_wf(id);
        }
        let slot: u32 = match self.locations.get(&id) {
            Some(slot) => *slot,
            None => {
                return false;
            },
        };
        proof {
            lemma_locate(self.pool, self.locations@, self.shelves(), self.stp, self.next_id, id);
        }
        let (price, side): (Price, Side) = self.pool.location(slot);
        let ghost shelves = self.shelves();
        assert(shelves.has(side, price));
        let idx: u32 = self.index(price);
        let mut level: Level = self.levels[idx as usize];
        drop_order(
            &mut self.pool,
            &mut self.locations,
            &mut level,
            slot,
            Ghost(shelves),
            Ghost(side),
            Ghost(price),
        );
        let ghost put = shelves.put(side, price, level);
        proof {
            assert(put.has(side, price));
            assert(stocked(self.pool, side, price, level));
            lemma_queues_put(before.pool, self.pool, shelves, side, price, level);
            assert(self.shelves() =~= shelves);
        }
        let bare = self.pool.is_empty(&level);
        proof {
            if bare {
                self.pool.lemma_bare(level);
                lemma_take_empty(self.pool, self.locations@, put, side, price);
                assert(put.take(side, price) =~= shelves.take(side, price));
            }
        }
        // If this empties the best level on its side, the cursor moves on.
        self.settle(side, idx, level, bare);
        proof {
            assert(self@ =~= before@.cancel(id));
        }
        true
    }

    /// Change a resting order's quantity (see [`crate::engine::Engine::amend`]).
    pub fn amend(&mut self, id: OrderId, new_qty: Qty) -> (found: bool)
        requires
            old(self).wf(),
            old(self)@.amend_fits(id, new_qty),
        ensures
            final(self).wf(),
            final(self)@ == old(self)@.amend(id, new_qty),
            found == old(self)@.rests(id),
            forall|p: Price| #[trigger] final(self).lists(p) == old(self).lists(p),
    {
        let ghost before = *self;
        proof {
            lemma_index_ids(self.pool, self.locations@, self.shelves(), self.stp, self.next_id);
        }
        let slot: u32 = match self.locations.get(&id) {
            Some(slot) => *slot,
            None => {
                return false;
            },
        };
        proof {
            lemma_locate(self.pool, self.locations@, self.shelves(), self.stp, self.next_id, id);
            before@.lemma_amend_wf(id, new_qty);
        }
        let current: Qty = self.pool.qty_of(slot);
        let (price, side): (Price, Side) = self.pool.location(slot);
        let ghost at = before@.place(id);
        let ghost queue = before@.levels(side)[price];
        if new_qty == current {
            proof {
                assert(queue.update(at.index, Order { qty: new_qty, ..before@.order(at) })
                    =~= queue);
                assert(before@.levels(side).insert(price, queue) =~= before@.levels(side));
                assert(self@ =~= before@.amend(id, new_qty));
            }
            return true;
        }
        let ghost shelves = self.shelves();
        assert(shelves.has(side, price));
        let idx: u32 = self.index(price);
        let mut level: Level = self.levels[idx as usize];
        if new_qty < current {
            // Shrink in place: time priority preserved.
            reduce_order(
                &mut self.pool,
                &mut level,
                slot,
                current - new_qty,
                Ghost(self.locations@),
                Ghost(shelves),
                Ghost(side),
                Ghost(price),
            );
        } else {
            // Grow: priority is forfeited. Move to the back of the level,
            // keeping the same id and owner.
            let owner: OrderId = self.pool.owner_of(slot);
            drop_order(
                &mut self.pool,
                &mut self.locations,
                &mut level,
                slot,
                Ghost(shelves),
                Ghost(side),
                Ghost(price),
            );
            let ghost pool1 = self.pool;
            let ghost shelves1 = shelves.put(side, price, level);
            proof {
                assert(shelves1.has(side, price));
                assert(stocked(self.pool, side, price, level));
                self.pool.lemma_threads(level);
                lemma_total_remove(queue, at.index);
                before.pool.lemma_capacity();
            }
            rest_order(
                &mut self.pool,
                &mut self.locations,
                &mut level,
                id,
                owner,
                price,
                side,
                new_qty,
                Ghost(shelves1),
            );
            proof {
                assert(shelves1.put(side, price, level) =~= shelves.put(side, price, level));
                lemma_others_chain(
                    before.pool,
                    pool1,
                    self.pool,
                    shelves,
                    shelves1,
                    side,
                    price,
                );
            }
        }
        proof {
            assert(self.shelves() =~= shelves);
            assert(self.pool.orders(level).len() == level.slots().len());
        }
        self.settle(side, idx, level, false);
        proof {
            lemma_queues_put(before.pool, self.pool, shelves, side, price, level);
            assert(self@ =~= before@.amend(id, new_qty));
        }
        true
    }

    /// The top `depth` levels of one side, best first.
    fn top_levels(&self, side: Side, depth: usize) -> (shown: Vec<Level2>)
        requires
            self.wf(),
        ensures
            shown@ == top(self@.levels(side), side, depth as nat),
    {
        let ghost levels = self@.levels(side);
        let ghost mut rest = levels;
        let mut shown: Vec<Level2> = Vec::new();
        let mut i: u32 = match side {
            Side::Bid => self.best_bid,
            Side::Ask => self.best_ask,
        };
        proof {
            self.lemma_cursor(side);
            assert forall|p: Price| #[trigger] rest.contains_key(p) <==> levels.contains_key(p)
                && i != NONE && at_least_as_good(side, (self.min_price + i) as Price, p) by {
                if levels.contains_key(p) {
                    assert(self.shelves().has(side, p));
                }
            }
            assert(shown@ + top(rest, side, depth as nat) =~= top(levels, side, depth as nat));
        }
        while shown.len() < depth && i != NONE
            invariant
                self.wf(),
                levels == self@.levels(side),
                shown.len() <= depth,
                shown@ + top(rest, side, (depth - shown.len()) as nat) == top(
                    levels,
                    side,
                    depth as nat,
                ),
                i != NONE ==> self.occupied@.contains(i as int) && self.on_side(side, i as int),
                forall|p: Price| #[trigger]
                    rest.contains_key(p) <==> levels.contains_key(p) && i != NONE
                        && at_least_as_good(side, (self.min_price + i) as Price, p),
                forall|p: Price| #[trigger]
                    rest.contains_key(p) ==> levels.contains_key(p) && rest[p] == levels[p],
            decreases depth - shown.len(),
        {
            let price: Price = self.min_price + i as Price;
            let ghost later = rest.remove(price);
            proof {
                assert(self.shelves().has(side, price));
                lemma_totals(
                    self.pool,
                    self.locations@,
                    self.shelves(),
                    self.stp,
                    self.next_id,
                    side,
                    price,
                );
                assert(rest.contains_key(price));
                lemma_best_is(rest, side, price);
                assert(total(levels[price]) <= u64::MAX);
            }
            let ghost entry = Level2 { price, qty: total(rest[price]) as Qty };
            let ghost shown1 = shown@;
            shown.push(Level2 { price, qty: self.levels[i as usize].total_qty() });
            i = match side {
                Side::Bid => next_down(&self.occupied, i),
                Side::Ask => next_up(&self.occupied, i),
            };
            proof {
                let tail = top(later, side, (depth - shown.len()) as nat);
                assert(shown1 + (seq![entry] + tail) =~= shown@ + tail);
                rest = later;
                assert forall|p: Price| #[trigger] rest.contains_key(p) <==> levels.contains_key(p)
                    && i != NONE && at_least_as_good(side, (self.min_price + i) as Price, p) by {
                    if levels.contains_key(p) {
                        assert(self.shelves().has(side, p));
                        assert(self.occupied@.contains(p - self.min_price));
                    }
                }
            }
        }
        proof {
            if i == NONE {
                assert forall|p: Price| !is_best(rest, side, p) by {}
            }
            assert(top(rest, side, (depth - shown.len()) as nat) =~= seq![]);
            assert(shown@ =~= top(levels, side, depth as nat));
        }
        shown
    }

    /// A snapshot of the top `depth` price levels per side.
    pub fn l2(&self, depth: usize) -> (snap: L2Snapshot)
        requires
            self.wf(),
        ensures
            snap.bids@ == top(self@.bids, Side::Bid, depth as nat),
            snap.asks@ == top(self@.asks, Side::Ask, depth as nat),
    {
        let bids = self.top_levels(Side::Bid, depth);
        let asks = self.top_levels(Side::Ask, depth);
        L2Snapshot { bids, asks }
    }

    /// The highest resting bid price, if any.
    pub fn best_bid(&self) -> (price: Option<Price>)
        requires
            self.wf(),
        ensures
            price == self@.best_bid(),
    {
        proof {
            self.lemma_cursor(Side::Bid);
        }
        if self.best_bid != NONE {
            Some(self.min_price + self.best_bid as Price)
        } else {
            None
        }
    }

    /// The lowest resting ask price, if any.
    pub fn best_ask(&self) -> (price: Option<Price>)
        requires
            self.wf(),
        ensures
            price == self@.best_ask(),
    {
        proof {
            self.lemma_cursor(Side::Ask);
        }
        if self.best_ask != NONE {
            Some(self.min_price + self.best_ask as Price)
        } else {
            None
        }
    }

    /// The gap between best ask and best bid, if both sides are populated.
    pub fn spread(&self) -> (gap: Option<Price>)
        requires
            self.wf(),
        ensures
            gap == self@.spread(),
    {
        let ask = self.best_ask();
        let bid = self.best_bid();
        proof {
            lemma_best(self@.bids, Side::Bid);
            lemma_best(self@.asks, Side::Ask);
        }
        match (ask, bid) {
            (Some(ask), Some(bid)) => Some(ask - bid),
            _ => None,
        }
    }

    /// Total resting quantity at `price` on the given side (0 if none, or if
    /// the price is outside the ladder's range).
    pub fn depth_at(&self, side: Side, price: Price) -> (qty: Qty)
        requires
            self.wf(),
        ensures
            qty == self@.depth(side, price),
    {
        let ghost stands = self.shelves().has(side, price);
        proof {
            assert(stands ==> self.lists(price));
            if stands {
                lemma_totals(
                    self.pool,
                    self.locations@,
                    self.shelves(),
                    self.stp,
                    self.next_id,
                    side,
                    price,
                );
            }
        }
        if price < self.min_price || price - self.min_price >= self.levels.len() as u64 {
            return 0;
        }
        let idx: u32 = self.index(price);
        let on_side = match side {
            Side::Bid => self.best_bid != NONE && idx <= self.best_bid,
            Side::Ask => self.best_ask != NONE && idx >= self.best_ask,
        };
        if on_side {
            proof {
                if !stands {
                    self.levels[idx as int].lemma_detached_level();
                }
            }
            self.levels[idx as usize].total_qty()
        } else {
            0
        }
    }
}

impl Engine for LadderBook {
    open spec fn in_order(&self) -> bool {
        self.wf()
    }

    open spec fn book(&self) -> Book {
        self@
    }

    open spec fn accepts(&self, price: Price) -> bool {
        self.lists(price)
    }

    proof fn lemma_in_order(&self) {
        self.lemma_wf();
    }

    fn submit_limit_as(&mut self, owner: OrderId, side: Side, price: Price, qty: Qty) -> (result:
        SubmitResult) {
        LadderBook::submit_limit_as(self, owner, side, price, qty)
    }

    fn submit_market_as(&mut self, owner: OrderId, side: Side, qty: Qty) -> (result: SubmitResult) {
        LadderBook::submit_market_as(self, owner, side, qty)
    }

    fn set_self_trade(&mut self, policy: SelfTrade) {
        LadderBook::set_self_trade(self, policy)
    }

    fn cancel(&mut self, id: OrderId) -> (found: bool) {
        LadderBook::cancel(self, id)
    }

    fn amend(&mut self, id: OrderId, new_qty: Qty) -> (found: bool) {
        LadderBook::amend(self, id, new_qty)
    }

    fn best_bid(&self) -> (price: Option<Price>) {
        LadderBook::best_bid(self)
    }

    fn best_ask(&self) -> (price: Option<Price>) {
        LadderBook::best_ask(self)
    }

    fn spread(&self) -> (gap: Option<Price>) {
        LadderBook::spread(self)
    }

    fn depth_at(&self, side: Side, price: Price) -> (qty: Qty) {
        LadderBook::depth_at(self, side, price)
    }

    fn l2(&self, depth: usize) -> (snap: L2Snapshot) {
        LadderBook::l2(self, depth)
    }
}

} // verus!
