//! The bookkeeping below the price index, shared by the engines: orders rest
//! in an arena, thread through the level of their price, and are found again
//! by id.
//!
//! How an engine arranges its levels by price is its own affair. Here the
//! levels of both sides appear only as ghost maps, [`Shelves`], and
//! [`shelf_wf`] ties them to the arena and to the id index.

use std::collections::HashMap;

use vstd::prelude::*;

use crate::engine::{SelfTrade, ANONYMOUS};
use crate::model::{fill, Book, Levels, Order, Place, Taker};
use crate::pool::{apart, Level, Pool};
use crate::types::{OrderId, Price, Qty, Side, Trade};

verus! {

/// The levels of both sides by price, as mathematical maps. A level in them
/// may be empty.
#[verifier::ext_equal]
pub struct Shelves {
    pub bids: Map<Price, Level>,
    pub asks: Map<Price, Level>,
}

impl Shelves {
    /// Shelves with `here` on `side` and `there` on the other one.
    pub open spec fn pair(side: Side, here: Map<Price, Level>, there: Map<Price, Level>) -> Shelves {
        match side {
            Side::Bid => Shelves { bids: here, asks: there },
            Side::Ask => Shelves { bids: there, asks: here },
        }
    }

    pub open spec fn side(self, side: Side) -> Map<Price, Level> {
        match side {
            Side::Bid => self.bids,
            Side::Ask => self.asks,
        }
    }

    /// There is a level at this side and price.
    pub open spec fn has(self, side: Side, price: Price) -> bool {
        self.side(side).contains_key(price)
    }

    /// The level at this side and price.
    pub open spec fn at(self, side: Side, price: Price) -> Level {
        self.side(side)[price]
    }

    /// The same shelves with one level replaced or added.
    pub open spec fn put(self, side: Side, price: Price, level: Level) -> Shelves {
        match side {
            Side::Bid => Shelves { bids: self.bids.insert(price, level), ..self },
            Side::Ask => Shelves { asks: self.asks.insert(price, level), ..self },
        }
    }

    /// The same shelves without one level.
    pub open spec fn take(self, side: Side, price: Price) -> Shelves {
        match side {
            Side::Bid => Shelves { bids: self.bids.remove(price), ..self },
            Side::Ask => Shelves { asks: self.asks.remove(price), ..self },
        }
    }
}

/// The queues that a map of levels stands for.
pub open spec fn queues(pool: Pool, levels: Map<Price, Level>) -> Levels {
    Map::new(|price: Price| levels.contains_key(price), |price: Price| pool.orders(levels[price]))
}

/// `level` threads through the arena, and its orders have a quantity and
/// belong to this side and price.
pub open spec fn stocked(pool: Pool, side: Side, price: Price, level: Level) -> bool {
    &&& pool.threads(level)
    &&& forall|i: int|
        #![trigger level.slots()[i]]
        0 <= i < level.slots().len() ==> {
            &&& pool.side(level.slots()[i]) == side
            &&& pool.price(level.slots()[i]) == price
            &&& pool.order(level.slots()[i]).qty > 0
        }
}

/// The order in `slot` is in the list of its level and in the id index.
pub open spec fn filed(pool: Pool, index: Map<OrderId, u32>, shelves: Shelves, slot: u32) -> bool {
    &&& shelves.has(pool.side(slot), pool.price(slot))
    &&& shelves.at(pool.side(slot), pool.price(slot)).slots().contains(slot)
    &&& index.contains_key(pool.order(slot).id)
    &&& index[pool.order(slot).id] == slot
}

/// The arena, the id index and the levels agree: every level is a list of
/// orders of its side and price, every order in the arena is in one, and the
/// index leads from the id of each to its slot and nowhere else.
pub open spec fn shelf_wf(pool: Pool, index: Map<OrderId, u32>, shelves: Shelves) -> bool {
    &&& pool.wf()
    &&& forall|side: Side, price: Price| #[trigger]
        shelves.has(side, price) ==> stocked(pool, side, price, shelves.at(side, price))
    &&& forall|slot: u32| #[trigger] pool.live(slot) ==> filed(pool, index, shelves, slot)
    &&& forall|id: OrderId| #[trigger]
        index.contains_key(id) ==> pool.live(index[id]) && pool.order(index[id]).id == id
    &&& index.dom().finite()
    &&& index.dom().len() == pool.in_use()
}

/// Every level but the one at `side` and `price` has the same orders in both
/// arenas.
pub open spec fn others_same(
    before: Pool,
    after: Pool,
    shelves: Shelves,
    side: Side,
    price: Price,
) -> bool {
    forall|s: Side, p: Price| #[trigger]
        shelves.has(s, p) && (s != side || p != price) ==> after.orders(shelves.at(s, p))
            == before.orders(shelves.at(s, p))
}

/// The book that the arena and the levels stand for.
pub open spec fn stand(pool: Pool, shelves: Shelves, stp: SelfTrade, next_id: OrderId) -> Book {
    Book {
        bids: queues(pool, shelves.bids),
        asks: queues(pool, shelves.asks),
        stp,
        next_id,
    }
}

/// Changing one level changes one queue.
pub proof fn lemma_queues_put(
    before: Pool,
    after: Pool,
    shelves: Shelves,
    side: Side,
    price: Price,
    level: Level,
)
    requires
        others_same(before, after, shelves, side, price),
    ensures
        queues(after, shelves.put(side, price, level).side(side)) == queues(
            before,
            shelves.side(side),
        ).insert(price, after.orders(level)),
        queues(after, shelves.put(side, price, level).side(side.opposite())) == queues(
            before,
            shelves.side(side.opposite()),
        ),
        queues(after, shelves.side(side.opposite())) == queues(
            before,
            shelves.side(side.opposite()),
        ),
        queues(after, shelves.take(side, price).side(side)) == queues(
            before,
            shelves.side(side),
        ).remove(price),
{
    let other = side.opposite();
    assert forall|p: Price| #[trigger] shelves.side(side).contains_key(p) && p != price implies
        after.orders(shelves.side(side)[p]) == before.orders(shelves.side(side)[p]) by {
        assert(shelves.has(side, p));
    }
    assert forall|p: Price| #[trigger] shelves.side(other).contains_key(p) implies after.orders(
        shelves.side(other)[p],
    ) == before.orders(shelves.side(other)[p]) by {
        assert(shelves.has(other, p));
    }
    assert(queues(after, shelves.put(side, price, level).side(side)) =~= queues(
        before,
        shelves.side(side),
    ).insert(price, after.orders(level)));
    assert(queues(after, shelves.side(other)) =~= queues(before, shelves.side(other)));
    assert(shelves.put(side, price, level).side(other) == shelves.side(other));
    assert(queues(after, shelves.take(side, price).side(side)) =~= queues(
        before,
        shelves.side(side),
    ).remove(price));
}

/// The queue of a level is what it lists, and its cached total the depth.
pub proof fn lemma_totals(
    pool: Pool,
    index: Map<OrderId, u32>,
    shelves: Shelves,
    stp: SelfTrade,
    next_id: OrderId,
    side: Side,
    price: Price,
)
    requires
        shelf_wf(pool, index, shelves),
        shelves.has(side, price),
    ensures
        ({
            let book = stand(pool, shelves, stp, next_id);
            let level = shelves.at(side, price);
            &&& pool.threads(level)
            &&& book.levels(side)[price] == pool.orders(level)
            &&& level.cached_total() == book.depth(side, price)
        }),
{
    let level = shelves.at(side, price);
    assert(stocked(pool, side, price, level));
    pool.lemma_threads(level);
}

/// Where an indexed order rests.
pub proof fn lemma_locate(
    pool: Pool,
    index: Map<OrderId, u32>,
    shelves: Shelves,
    stp: SelfTrade,
    next_id: OrderId,
    id: OrderId,
)
    requires
        shelf_wf(pool, index, shelves),
        index.contains_key(id),
    ensures
        ({
            let slot = index[id];
            let book = stand(pool, shelves, stp, next_id);
            let level = shelves.at(pool.side(slot), pool.price(slot));
            let at = Place {
                side: pool.side(slot),
                price: pool.price(slot),
                index: level.slots().index_of(slot),
            };
            &&& pool.live(slot)
            &&& shelves.has(at.side, at.price)
            &&& level.slots().contains(slot)
            &&& book.rests_at(id, at)
            &&& book.order(at) == pool.order(slot)
            &&& book.levels(at.side)[at.price] == pool.orders(level)
            &&& level.cached_total() == book.depth(at.side, at.price)
            &&& book.wf() ==> book.place(id) == at
        }),
{
    let slot = index[id];
    assert(pool.live(slot));
    assert(filed(pool, index, shelves, slot));
    let side = pool.side(slot);
    let price = pool.price(slot);
    let level = shelves.at(side, price);
    assert(shelves.has(side, price));
    assert(stocked(pool, side, price, level));
    pool.lemma_threads(level);
    let book = stand(pool, shelves, stp, next_id);
    let at = Place { side, price, index: level.slots().index_of(slot) };
    assert(level.slots()[at.index] == slot);
    assert(book.levels(side)[price] == pool.orders(level));
    assert(book.rests_at(id, at));
    if book.wf() {
        assert(book.rests_at(id, book.place(id)));
    }
}

/// The index has exactly the ids of the resting orders.
pub proof fn lemma_index_ids(
    pool: Pool,
    index: Map<OrderId, u32>,
    shelves: Shelves,
    stp: SelfTrade,
    next_id: OrderId,
)
    requires
        shelf_wf(pool, index, shelves),
    ensures
        index.dom() == stand(pool, shelves, stp, next_id).resting_ids(),
        forall|id: OrderId| #[trigger]
            index.contains_key(id) <==> stand(pool, shelves, stp, next_id).rests(id),
{
    let book = stand(pool, shelves, stp, next_id);
    assert forall|id: OrderId| #[trigger] index.contains_key(id) <==> book.rests(id) by {
        if index.contains_key(id) {
            lemma_locate(pool, index, shelves, stp, next_id, id);
        }
        if book.rests(id) {
            let at = book.place(id);
            assert(book.rests_at(id, at));
            assert(shelves.has(at.side, at.price));
            let level = shelves.at(at.side, at.price);
            assert(stocked(pool, at.side, at.price, level));
            pool.lemma_threads(level);
            let slot = level.slots()[at.index];
            assert(pool.live(slot));
            assert(filed(pool, index, shelves, slot));
        }
    }
    assert(index.dom() =~= book.resting_ids());
}

/// Different levels have different slots.
proof fn lemma_apart(
    pool: Pool,
    index: Map<OrderId, u32>,
    shelves: Shelves,
    side: Side,
    price: Price,
    s: Side,
    p: Price,
)
    requires
        shelf_wf(pool, index, shelves),
        shelves.has(side, price),
        shelves.has(s, p),
        s != side || p != price,
    ensures
        apart(shelves.at(s, p).slots(), shelves.at(side, price).slots()),
{
    assert(stocked(pool, s, p, shelves.at(s, p)));
    assert(stocked(pool, side, price, shelves.at(side, price)));
}

/// An empty level may be added anywhere.
pub proof fn lemma_put_empty(
    pool: Pool,
    index: Map<OrderId, u32>,
    shelves: Shelves,
    side: Side,
    price: Price,
    level: Level,
)
    requires
        shelf_wf(pool, index, shelves),
        !shelves.has(side, price),
        level.detached(),
    ensures
        shelf_wf(pool, index, shelves.put(side, price, level)),
        pool.orders(level) == Seq::<Order>::empty(),
{
    pool.lemma_detached(level);
    let after = shelves.put(side, price, level);
    assert forall|s: Side, p: Price| #[trigger] after.has(s, p) implies stocked(
        pool,
        s,
        p,
        after.at(s, p),
    ) by {
        if s != side || p != price {
            assert(shelves.has(s, p));
        }
    }
    assert forall|slot: u32| #[trigger] pool.live(slot) implies filed(pool, index, after, slot) by {
        assert(filed(pool, index, shelves, slot));
    }
}

/// An empty level may be taken away.
pub proof fn lemma_take_empty(
    pool: Pool,
    index: Map<OrderId, u32>,
    shelves: Shelves,
    side: Side,
    price: Price,
)
    requires
        shelf_wf(pool, index, shelves),
        shelves.has(side, price),
        shelves.at(side, price).slots().len() == 0,
    ensures
        shelf_wf(pool, index, shelves.take(side, price)),
{
    let after = shelves.take(side, price);
    assert forall|s: Side, p: Price| #[trigger] after.has(s, p) implies stocked(
        pool,
        s,
        p,
        after.at(s, p),
    ) by {
        assert(shelves.has(s, p));
    }
    assert forall|slot: u32| #[trigger] pool.live(slot) implies filed(pool, index, after, slot) by {
        assert(filed(pool, index, shelves, slot));
    }
}

/// The orders of a level after one more has come to its back.
proof fn lemma_pushed(
    before: Pool,
    after: Pool,
    index: Map<OrderId, u32>,
    shelves: Shelves,
    side: Side,
    price: Price,
    level: Level,
    slot: u32,
)
    requires
        shelf_wf(before, index, shelves),
        shelves.has(side, price),
        after.wf(),
        after.threads(level),
        level.slots() == shelves.at(side, price).slots().push(slot),
        !before.live(slot),
        after.order(slot).qty > 0,
        after.price(slot) == price,
        after.side(slot) == side,
        after.in_use() == before.in_use() + 1,
        !index.contains_key(after.order(slot).id),
        forall|s: u32| #[trigger] after.live(s) <==> before.live(s) || s == slot,
        forall|s: u32| before.live(s) ==> #[trigger] after.same_at(before, s),
        forall|other: Level|
            before.threads(other) && apart(other.slots(), shelves.at(side, price).slots())
                ==> #[trigger] after.threads(other),
    ensures
        shelf_wf(
            after,
            index.insert(after.order(slot).id, slot),
            shelves.put(side, price, level),
        ),
        after.orders(level) == before.orders(shelves.at(side, price)).push(after.order(slot)),
        others_same(before, after, shelves, side, price),
{
    let index1 = index.insert(after.order(slot).id, slot);
    let shelves1 = shelves.put(side, price, level);
    let slots0 = shelves.at(side, price).slots();
    assert(stocked(before, side, price, shelves.at(side, price)));
    before.lemma_threads(shelves.at(side, price));
    assert forall|i: int| 0 <= i < slots0.len() implies after.same_at(
        before,
        #[trigger] slots0[i],
    ) && level.slots()[i] == slots0[i] by {
        assert(before.live(slots0[i]));
    }
    assert(after.orders(level) =~= before.orders(shelves.at(side, price)).push(
        after.order(slot),
    ));
    assert forall|s: Side, p: Price| #[trigger]
        shelves.has(s, p) && (s != side || p != price) implies after.orders(shelves.at(s, p))
        == before.orders(shelves.at(s, p)) && stocked(after, s, p, shelves.at(s, p)) by {
        let other = shelves.at(s, p);
        assert(stocked(before, s, p, other));
        before.lemma_threads(other);
        lemma_apart(before, index, shelves, side, price, s, p);
        assert forall|i: int| 0 <= i < other.slots().len() implies after.same_at(
            before,
            #[trigger] other.slots()[i],
        ) by {
            assert(before.live(other.slots()[i]));
        }
        assert(after.orders(other) =~= before.orders(other));
    }
    assert forall|s: Side, p: Price| #[trigger] shelves1.has(s, p) implies stocked(
        after,
        s,
        p,
        shelves1.at(s, p),
    ) by {
        if s == side && p == price {
            assert forall|i: int| 0 <= i < level.slots().len() implies after.side(
                #[trigger] level.slots()[i],
            ) == side && after.price(level.slots()[i]) == price && after.order(
                level.slots()[i],
            ).qty > 0 by {
                if i < slots0.len() {
                    assert(after.same_at(before, slots0[i]));
                }
            }
        } else {
            assert(shelves.has(s, p));
        }
    }
    assert forall|s: u32| #[trigger] after.live(s) implies filed(after, index1, shelves1, s) by {
        if s == slot {
            assert(level.slots()[slots0.len() as int] == slot);
        } else {
            assert(before.live(s));
            assert(after.same_at(before, s));
            assert(filed(before, index, shelves, s));
            if after.side(s) == side && after.price(s) == price {
                let i = choose|i: int| 0 <= i < slots0.len() && slots0[i] == s;
                assert(level.slots()[i] == s);
            }
        }
    }
    assert forall|id: OrderId| #[trigger] index1.contains_key(id) implies after.live(index1[id])
        && after.order(index1[id]).id == id by {
        if id != after.order(slot).id {
            assert(index.contains_key(id));
            assert(before.live(index[id]));
            assert(after.same_at(before, index[id]));
        }
    }
}

/// Rest a new order at the back of `level`.
pub(crate) fn rest_order(
    pool: &mut Pool,
    index: &mut HashMap<OrderId, u32>,
    level: &mut Level,
    id: OrderId,
    owner: OrderId,
    price: Price,
    side: Side,
    qty: Qty,
    Ghost(shelves): Ghost<Shelves>,
)
    requires
        shelf_wf(*old(pool), old(index)@, shelves),
        shelves.has(side, price),
        shelves.at(side, price) == *old(level),
        !old(index)@.contains_key(id),
        old(index)@.dom().len() < u32::MAX,
        qty > 0,
        old(level).cached_total() + qty <= u64::MAX,
    ensures
        shelf_wf(*final(pool), final(index)@, shelves.put(side, price, *final(level))),
        final(pool).orders(*final(level)) == old(pool).orders(*old(level)).push(
            Order { id, owner, qty },
        ),
        others_same(*old(pool), *final(pool), shelves, side, price),
        final(index)@ == old(index)@.insert(id, old(pool).next_slot()),
{
    proof {
        assert(stocked(*pool, side, price, *level));
    }
    let slot: u32 = pool.push_back(level, id, owner, price, side, qty);
    index.insert(id, slot);
    proof {
        lemma_pushed(*old(pool), *pool, old(index)@, shelves, side, price, *level, slot);
    }
}

/// The orders of a level after one has left it.
proof fn lemma_dropped(
    before: Pool,
    after: Pool,
    index: Map<OrderId, u32>,
    shelves: Shelves,
    side: Side,
    price: Price,
    level: Level,
    slot: u32,
)
    requires
        shelf_wf(before, index, shelves),
        shelves.has(side, price),
        shelves.at(side, price).slots().contains(slot),
        after.wf(),
        after.threads(level),
        level.slots() == shelves.at(side, price).slots().remove(
            shelves.at(side, price).slots().index_of(slot),
        ),
        after.in_use() == before.in_use() - 1,
        forall|s: u32| #[trigger] after.live(s) <==> before.live(s) && s != slot,
        forall|s: u32| before.live(s) && s != slot ==> #[trigger] after.same_at(before, s),
        forall|other: Level|
            before.threads(other) && apart(other.slots(), shelves.at(side, price).slots())
                ==> #[trigger] after.threads(other),
    ensures
        shelf_wf(
            after,
            index.remove(before.order(slot).id),
            shelves.put(side, price, level),
        ),
        after.orders(level) == before.orders(shelves.at(side, price)).remove(
            shelves.at(side, price).slots().index_of(slot),
        ),
        others_same(before, after, shelves, side, price),
{
    let index1 = index.remove(before.order(slot).id);
    let shelves1 = shelves.put(side, price, level);
    let slots0 = shelves.at(side, price).slots();
    let slots1 = level.slots();
    let k = slots0.index_of(slot);
    assert(stocked(before, side, price, shelves.at(side, price)));
    before.lemma_threads(shelves.at(side, price));
    assert(slots0[k] == slot);
    assert(before.live(slots0[k]));
    assert forall|i: int| 0 <= i < slots1.len() implies {
        &&& after.same_at(before, #[trigger] slots1[i])
        &&& slots1[i] == slots0[if i < k { i } else { i + 1 }]
    } by {
        let j = if i < k { i } else { i + 1 };
        assert(slots1[i] == slots0[j]);
        assert(before.live(slots0[j]));
        assert(slots0[j] != slots0[k]);
    }
    assert(after.orders(level) =~= before.orders(shelves.at(side, price)).remove(k)) by {
        assert forall|i: int| 0 <= i < slots1.len() implies after.order(#[trigger] slots1[i])
            == before.orders(shelves.at(side, price)).remove(k)[i] by {
            assert(after.same_at(before, slots1[i]));
        }
    }
    assert forall|s: Side, p: Price| #[trigger]
        shelves.has(s, p) && (s != side || p != price) implies after.orders(shelves.at(s, p))
        == before.orders(shelves.at(s, p)) && stocked(after, s, p, shelves.at(s, p)) by {
        let other = shelves.at(s, p);
        assert(stocked(before, s, p, other));
        before.lemma_threads(other);
        lemma_apart(before, index, shelves, side, price, s, p);
        assert forall|i: int| 0 <= i < other.slots().len() implies after.same_at(
            before,
            #[trigger] other.slots()[i],
        ) by {
            assert(before.live(other.slots()[i]));
            assert(other.slots()[i] != slots0[k]);
        }
        assert(after.orders(other) =~= before.orders(other));
    }
    assert forall|s: Side, p: Price| #[trigger] shelves1.has(s, p) implies stocked(
        after,
        s,
        p,
        shelves1.at(s, p),
    ) by {
        if s == side && p == price {
            assert forall|i: int| 0 <= i < slots1.len() implies after.side(#[trigger] slots1[i])
                == side && after.price(slots1[i]) == price && after.order(slots1[i]).qty > 0 by {
                assert(after.same_at(before, slots1[i]));
            }
        } else {
            assert(shelves.has(s, p));
        }
    }
    assert forall|s: u32| #[trigger] after.live(s) implies filed(after, index1, shelves1, s) by {
        assert(before.live(s));
        assert(after.same_at(before, s));
        assert(filed(before, index, shelves, s));
        assert(filed(before, index, shelves, slot));
        if after.side(s) == side && after.price(s) == price {
            let i = choose|i: int| 0 <= i < slots0.len() && slots0[i] == s;
            assert(slots1[if i < k { i } else { i - 1 }] == s);
        }
    }
    assert(filed(before, index, shelves, slot));
    assert forall|id: OrderId| #[trigger] index1.contains_key(id) implies after.live(index1[id])
        && after.order(index1[id]).id == id by {
        assert(index.contains_key(id));
        assert(before.live(index[id]));
        assert(index[id] != slot);
        assert(after.same_at(before, index[id]));
    }
}

/// Take the order in `slot` out of `level`, the arena and the index.
pub(crate) fn drop_order(
    pool: &mut Pool,
    index: &mut HashMap<OrderId, u32>,
    level: &mut Level,
    slot: u32,
    Ghost(shelves): Ghost<Shelves>,
    Ghost(side): Ghost<Side>,
    Ghost(price): Ghost<Price>,
)
    requires
        shelf_wf(*old(pool), old(index)@, shelves),
        shelves.has(side, price),
        shelves.at(side, price) == *old(level),
        old(level).slots().contains(slot),
    ensures
        shelf_wf(*final(pool), final(index)@, shelves.put(side, price, *final(level))),
        final(level).slots() == old(level).slots().remove(old(level).slots().index_of(slot)),
        final(pool).orders(*final(level)) == old(pool).orders(*old(level)).remove(
            old(level).slots().index_of(slot),
        ),
        others_same(*old(pool), *final(pool), shelves, side, price),
        final(index)@ == old(index)@.remove(old(pool).order(slot).id),
{
    proof {
        assert(stocked(*pool, side, price, *level));
        pool.lemma_threads(*level);
        assert(level.slots()[level.slots().index_of(slot)] == slot);
    }
    let id: OrderId = pool.id_of(slot);
    pool.unlink(level, slot);
    index.remove(&id);
    proof {
        lemma_dropped(*old(pool), *pool, old(index)@, shelves, side, price, *level, slot);
    }
}

/// The orders of a level after one has become smaller.
proof fn lemma_reduced(
    before: Pool,
    after: Pool,
    index: Map<OrderId, u32>,
    shelves: Shelves,
    side: Side,
    price: Price,
    level: Level,
    slot: u32,
)
    requires
        shelf_wf(before, index, shelves),
        shelves.has(side, price),
        shelves.at(side, price).slots().contains(slot),
        after.wf(),
        after.threads(level),
        level.slots() == shelves.at(side, price).slots(),
        after.in_use() == before.in_use(),
        after.order(slot).id == before.order(slot).id,
        after.order(slot).qty > 0,
        after.price(slot) == before.price(slot),
        after.side(slot) == before.side(slot),
        forall|s: u32| #[trigger] after.live(s) <==> before.live(s),
        forall|s: u32| before.live(s) && s != slot ==> #[trigger] after.same_at(before, s),
        forall|other: Level|
            before.threads(other) && apart(other.slots(), shelves.at(side, price).slots())
                ==> #[trigger] after.threads(other),
    ensures
        shelf_wf(after, index, shelves.put(side, price, level)),
        after.orders(level) == before.orders(shelves.at(side, price)).update(
            shelves.at(side, price).slots().index_of(slot),
            after.order(slot),
        ),
        others_same(before, after, shelves, side, price),
{
    let shelves1 = shelves.put(side, price, level);
    let slots = level.slots();
    let k = slots.index_of(slot);
    assert(stocked(before, side, price, shelves.at(side, price)));
    before.lemma_threads(shelves.at(side, price));
    assert(slots[k] == slot);
    assert(before.live(slots[k]));
    assert forall|i: int| 0 <= i < slots.len() && i != k implies after.same_at(
        before,
        #[trigger] slots[i],
    ) by {
        assert(before.live(slots[i]));
        assert(slots[i] != slots[k]);
    }
    assert(after.orders(level) =~= before.orders(shelves.at(side, price)).update(
        k,
        after.order(slot),
    ));
    assert forall|s: Side, p: Price| #[trigger]
        shelves.has(s, p) && (s != side || p != price) implies after.orders(shelves.at(s, p))
        == before.orders(shelves.at(s, p)) && stocked(after, s, p, shelves.at(s, p)) by {
        let other = shelves.at(s, p);
        assert(stocked(before, s, p, other));
        before.lemma_threads(other);
        lemma_apart(before, index, shelves, side, price, s, p);
        assert forall|i: int| 0 <= i < other.slots().len() implies after.same_at(
            before,
            #[trigger] other.slots()[i],
        ) by {
            assert(before.live(other.slots()[i]));
            assert(other.slots()[i] != slots[k]);
        }
        assert(after.orders(other) =~= before.orders(other));
    }
    assert forall|s: Side, p: Price| #[trigger] shelves1.has(s, p) implies stocked(
        after,
        s,
        p,
        shelves1.at(s, p),
    ) by {
        if s == side && p == price {
            assert forall|i: int| 0 <= i < slots.len() implies after.side(#[trigger] slots[i])
                == side && after.price(slots[i]) == price && after.order(slots[i]).qty > 0 by {
                if i != k {
                    assert(after.same_at(before, slots[i]));
                }
            }
        } else {
            assert(shelves.has(s, p));
        }
    }
    assert forall|s: u32| #[trigger] after.live(s) implies filed(after, index, shelves1, s) by {
        assert(before.live(s));
        assert(filed(before, index, shelves, s));
        if s != slot {
            assert(after.same_at(before, s));
        }
    }
    assert forall|id: OrderId| #[trigger] index.contains_key(id) implies after.live(index[id])
        && after.order(index[id]).id == id by {
        assert(before.live(index[id]));
        if index[id] != slot {
            assert(after.same_at(before, index[id]));
        }
    }
}

/// Make the order in `slot` smaller by `by`, which leaves some of it, without
/// moving it.
pub(crate) fn reduce_order(
    pool: &mut Pool,
    level: &mut Level,
    slot: u32,
    by: Qty,
    Ghost(index): Ghost<Map<OrderId, u32>>,
    Ghost(shelves): Ghost<Shelves>,
    Ghost(side): Ghost<Side>,
    Ghost(price): Ghost<Price>,
)
    requires
        shelf_wf(*old(pool), index, shelves),
        shelves.has(side, price),
        shelves.at(side, price) == *old(level),
        old(level).slots().contains(slot),
        by < old(pool).order(slot).qty,
    ensures
        shelf_wf(*final(pool), index, shelves.put(side, price, *final(level))),
        final(level).slots() == old(level).slots(),
        final(pool).orders(*final(level)) == old(pool).orders(*old(level)).update(
            old(level).slots().index_of(slot),
            Order { qty: (old(pool).order(slot).qty - by) as Qty, ..old(pool).order(slot) },
        ),
        others_same(*old(pool), *final(pool), shelves, side, price),
{
    proof {
        assert(stocked(*pool, side, price, *level));
    }
    pool.reduce(level, slot, by);
    proof {
        lemma_reduced(*old(pool), *pool, index, shelves, side, price, *level, slot);
    }
}

/// Match `qty` of the taker against one level, oldest order first, until the
/// level is empty or the taker is exhausted or cancelled. Returns what the
/// taker has left and whether self-trade prevention cancelled it.
pub(crate) fn fill_level(
    pool: &mut Pool,
    index: &mut HashMap<OrderId, u32>,
    level: &mut Level,
    taker: Taker,
    price: Price,
    qty: Qty,
    trades: &mut Vec<Trade>,
    Ghost(shelves): Ghost<Shelves>,
) -> (outcome: (Qty, bool))
    requires
        shelf_wf(*old(pool), old(index)@, shelves),
        shelves.has(taker.side.opposite(), price),
        shelves.at(taker.side.opposite(), price) == *old(level),
    ensures
        ({
            let side = taker.side.opposite();
            let f = fill(taker, price, old(pool).orders(*old(level)), qty);
            &&& shelf_wf(*final(pool), final(index)@, shelves.put(side, price, *final(level)))
            &&& others_same(*old(pool), *final(pool), shelves, side, price)
            &&& final(pool).orders(*final(level)) == f.rest
            &&& final(trades)@ == old(trades)@ + f.trades
            &&& outcome == (f.qty, f.cancelled)
            &&& final(index)@.submap_of(old(index)@)
        }),
{
    let ghost side = taker.side.opposite();
    let ghost done = fill(taker, price, pool.orders(*level), qty);
    let mut left: Qty = qty;
    proof {
        assert(shelves.put(side, price, *level) =~= shelves);
        assert(trades@ + done.trades =~= old(trades)@ + done.trades);
    }
    while left > 0
        invariant
            side == taker.side.opposite(),
            done == fill(taker, price, old(pool).orders(*old(level)), qty),
            shelves.has(side, price),
            shelf_wf(*pool, index@, shelves.put(side, price, *level)),
            others_same(*old(pool), *pool, shelves, side, price),
            index@.submap_of(old(index)@),
            ({
                let f = fill(taker, price, pool.orders(*level), left);
                &&& done.rest == f.rest
                &&& old(trades)@ + done.trades == trades@ + f.trades
                &&& done.qty == f.qty
                &&& done.cancelled == f.cancelled
            }),
        ensures
            left == 0 || level.slots().len() == 0,
        decreases level.slots().len(), left,
    {
        let ghost here = shelves.put(side, price, *level);
        let ghost pool1 = *pool;
        let ghost index1 = index@;
        let ghost queue1 = pool.orders(*level);
        proof {
            assert(here.has(side, price));
            assert(stocked(*pool, side, price, *level));
            pool.lemma_threads(*level);
        }
        let slot: u32 = match pool.head(level) {
            None => {
                break;
            },
            Some(slot) => slot,
        };
        proof {
            assert(level.slots()[0] == slot);
            assert(level.slots().index_of(slot) == 0);
            assert(pool.live(slot));
            assert(queue1[0] == pool.order(slot));
            assert(queue1.remove(0) =~= queue1.drop_first());
        }
        let maker: OrderId = pool.id_of(slot);
        // Self-trade prevention: the taker owns this resting order.
        if taker.stp != SelfTrade::Allow && taker.owner != ANONYMOUS && pool.owner_of(slot)
            == taker.owner {
            assert(taker.prevented(queue1[0]));
            if taker.stp == SelfTrade::CancelResting || taker.stp == SelfTrade::CancelBoth {
                drop_order(pool, index, level, slot, Ghost(here), Ghost(side), Ghost(price));
                proof {
                    assert(here.put(side, price, *level) =~= shelves.put(side, price, *level));
                    lemma_others_chain(*old(pool), pool1, *pool, shelves, here, side, price);
                    lemma_index_chain(old(index)@, index1, index@);
                }
            }
            if taker.stp == SelfTrade::CancelAggressor || taker.stp == SelfTrade::CancelBoth {
                assert(trades@ =~= trades@ + Seq::<Trade>::empty());
                return (left, true);
            }
            continue;  // The maker is gone; keep matching.
        }
        let available: Qty = pool.qty_of(slot);
        let part: Qty = if left < available {
            left
        } else {
            available
        };
        let ghost trade = Trade { taker: taker.id, maker, price, qty: part };
        let ghost trades1 = trades@;
        trades.push(Trade { taker: taker.id, maker, price, qty: part });
        left = left - part;
        proof {
            assert(trades@ == trades1 + seq![trade]);
        }
        if part == available {
            // Maker fully consumed: unlink and forget it.
            drop_order(pool, index, level, slot, Ghost(here), Ghost(side), Ghost(price));
        } else {
            reduce_order(
                pool,
                level,
                slot,
                part,
                Ghost(index@),
                Ghost(here),
                Ghost(side),
                Ghost(price),
            );
        }
        proof {
            assert(here.put(side, price, *level) =~= shelves.put(side, price, *level));
            lemma_others_chain(*old(pool), pool1, *pool, shelves, here, side, price);
            lemma_index_chain(old(index)@, index1, index@);
            let f = fill(taker, price, pool.orders(*level), left);
            if part == available {
                assert(trades1 + (seq![trade] + f.trades) =~= trades@ + f.trades);
            } else {
                assert(trades1 + seq![trade] =~= trades@ + f.trades);
            }
        }
    }
    proof {
        assert(shelves.put(side, price, *level).has(side, price));
        let f = fill(taker, price, pool.orders(*level), left);
        assert(f.trades =~= Seq::<Trade>::empty());
        assert(trades@ + f.trades =~= trades@);
    }
    (left, false)
}

/// Of two steps that each keep part of the index, both together do.
pub proof fn lemma_index_chain(
    first: Map<OrderId, u32>,
    second: Map<OrderId, u32>,
    third: Map<OrderId, u32>,
)
    requires
        second.submap_of(first),
        third.submap_of(second),
    ensures
        third.submap_of(first),
        third.dom().subset_of(first.dom()),
{
    assert forall|id: OrderId| #[trigger] third.dom().contains(id) implies first.dom().contains(id)
        && third[id] == first[id] by {
        assert(second.dom().contains(id));
        assert(first.dom().contains(id));
    }
}

/// Two steps that change one level leave the others as they were.
pub proof fn lemma_others_chain(
    first: Pool,
    second: Pool,
    third: Pool,
    shelves: Shelves,
    here: Shelves,
    side: Side,
    price: Price,
)
    requires
        others_same(first, second, shelves, side, price),
        others_same(second, third, here, side, price),
        exists|level: Level| here == #[trigger] shelves.put(side, price, level),
    ensures
        others_same(first, third, shelves, side, price),
{
    assert forall|s: Side, p: Price| #[trigger]
        shelves.has(s, p) && (s != side || p != price) implies third.orders(shelves.at(s, p))
        == first.orders(shelves.at(s, p)) by {
        assert(here.has(s, p));
        assert(here.at(s, p) == shelves.at(s, p));
    }
}

} // verus!
