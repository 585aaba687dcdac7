//! An arena of resting-order nodes, with each price level threaded through it
//! as an intrusive doubly-linked FIFO list.
//!
//! # Why this shape
//!
//! Matching only ever touches the front of a level, but cancellation can hit
//! *any* order, and removing from the middle of a queue of values is `O(n)`. An
//! intrusive linked list removes a known node in `O(1)`: its neighbours are
//! spliced together.
//!
//! "Intrusive" means the `prev`/`next` links live *inside* the order node
//! rather than in separate list-cell allocations. All nodes live in one `Vec`
//! (the arena); links are `u32` indices into it, not pointers. Freed slots are
//! recycled through a free list.
//!
//! # Specification
//!
//! A [`Level`] carries, as ghost data, the slots of its list from front to
//! back. [`Pool::threads`] says that the links in the arena and the ends and
//! the total in the level are those of that list.

use vstd::prelude::*;

use crate::model::{
    lemma_total_push, lemma_total_remove, lemma_total_split, lemma_total_update, total, Order,
};
use crate::types::{OrderId, Price, Qty, Side};

verus! {

/// Sentinel index meaning "no node" (list end, or empty list).
const NONE: u32 = 0xFFFF_FFFF;

/// One resting order, plus its links within its price level's list.
struct Node {
    id: OrderId,
    qty: Qty,
    /// The order's price and side: enough to locate its level on cancel.
    price: Price,
    side: Side,
    /// The participant that owns this order, for self-trade prevention.
    owner: OrderId,
    prev: u32,
    next: u32,
}

/// The FIFO list of resting orders at a single price: head/tail indices into
/// the [`Pool`], plus a cached total so depth queries are `O(1)`.
#[derive(Clone, Copy)]
pub struct Level {
    head: u32,
    tail: u32,
    total_qty: Qty,
    slots: Ghost<Seq<u32>>,
}

impl Level {
    /// The arena slots of the level's orders, front first.
    pub closed spec fn slots(self) -> Seq<u32> {
        self.slots@
    }

    /// The cached total, as a specification.
    pub closed spec fn cached_total(self) -> Qty {
        self.total_qty
    }

    /// The total quantity of the level's orders.
    #[inline]
    pub fn total_qty(&self) -> (qty: Qty)
        ensures
            qty == self.cached_total(),
    {
        self.total_qty
    }

    /// What [`Level::detached`] says to the rest of the library.
    pub proof fn lemma_detached_level(self)
        requires
            self.detached(),
        ensures
            self.slots().len() == 0,
            self.cached_total() == 0,
    {
    }

    /// A fresh, empty level.
    pub fn empty() -> (level: Self)
        ensures
            level.slots() == Seq::<u32>::empty(),
            level.cached_total() == 0,
            level.detached(),
    {
        Self { head: NONE, tail: NONE, total_qty: 0, slots: Ghost(Seq::empty()) }
    }

    /// The level lists no orders and is in order as it is, whatever the arena.
    pub closed spec fn detached(self) -> bool {
        &&& self.slots@.len() == 0
        &&& self.head == NONE
        &&& self.tail == NONE
        &&& self.total_qty == 0
    }
}

/// The arena of order nodes with a free list for slot reuse.
pub struct Pool {
    nodes: Vec<Node>,
    free: Vec<u32>,
}

/// Two lists of slots have none in common.
pub open spec fn apart(a: Seq<u32>, b: Seq<u32>) -> bool {
    forall|i: int, j: int|
        #![trigger a[i], b[j]]
        0 <= i < a.len() && 0 <= j < b.len() ==> a[i] != b[j]
}

/// The neighbour before position `i` of a list, or [`NONE`].
spec fn before(slots: Seq<u32>, i: int) -> u32 {
    if i == 0 {
        NONE
    } else {
        slots[i - 1]
    }
}

/// The neighbour after position `i` of a list, or [`NONE`].
spec fn after(slots: Seq<u32>, i: int) -> u32 {
    if i == slots.len() - 1 {
        NONE
    } else {
        slots[i + 1]
    }
}

impl Pool {
    /// The free list names distinct slots of the arena, and every slot can be
    /// told from the sentinel.
    pub closed spec fn wf(self) -> bool {
        &&& self.nodes.len() <= u32::MAX
        &&& self.free@.no_duplicates()
        &&& forall|i: int| 0 <= i < self.free.len() ==> (#[trigger] self.free[i]) < self.nodes.len()
    }

    /// Slot `slot` holds an order.
    pub closed spec fn live(self, slot: u32) -> bool {
        slot < self.nodes.len() && !self.free@.contains(slot)
    }

    /// The number of slots that hold an order.
    pub closed spec fn in_use(self) -> int {
        self.nodes.len() - self.free.len()
    }

    /// The number of slots there are.
    pub closed spec fn size(self) -> nat {
        self.nodes@.len()
    }

    /// The slots that were freed and not claimed again, the latest last.
    pub closed spec fn free_slots(self) -> Seq<u32> {
        self.free@
    }

    /// The slot that the next order gets: the one freed last, or else a new
    /// one.
    pub open spec fn next_slot(self) -> u32 {
        if self.free_slots().len() > 0 {
            self.free_slots().last()
        } else {
            self.size() as u32
        }
    }

    /// Claiming a slot makes `after` of the arena: a freed slot is no longer
    /// free, or else there is one more.
    pub open spec fn claimed(self, after: Pool) -> bool {
        if self.free_slots().len() > 0 {
            after.free_slots() == self.free_slots().drop_last() && after.size() == self.size()
        } else {
            after.free_slots() == self.free_slots() && after.size() == self.size() + 1
        }
    }

    /// The order in a slot.
    pub closed spec fn order(self, slot: u32) -> Order {
        let n = self.nodes[slot as int];
        Order { id: n.id, owner: n.owner, qty: n.qty }
    }

    /// The price of the order in a slot.
    pub closed spec fn price(self, slot: u32) -> Price {
        self.nodes[slot as int].price
    }

    /// The side of the order in a slot.
    pub closed spec fn side(self, slot: u32) -> Side {
        self.nodes[slot as int].side
    }

    /// The orders of a level, front first.
    pub open spec fn orders(self, level: Level) -> Seq<Order> {
        Seq::new(level.slots().len(), |i: int| self.order(level.slots()[i]))
    }

    /// The links of the node at position `i` of a list.
    spec fn linked_at(self, slots: Seq<u32>, i: int) -> bool {
        &&& self.nodes[slots[i] as int].prev == before(slots, i)
        &&& self.nodes[slots[i] as int].next == after(slots, i)
    }

    /// `level` is a list of live slots of this arena.
    pub closed spec fn threads(self, level: Level) -> bool {
        let slots = level.slots@;
        &&& slots.no_duplicates()
        &&& forall|i: int| 0 <= i < slots.len() ==> self.live(#[trigger] slots[i])
        &&& forall|i: int| 0 <= i < slots.len() ==> #[trigger] self.linked_at(slots, i)
        &&& level.head == (if slots.len() == 0 { NONE } else { slots[0] })
        &&& level.tail == (if slots.len() == 0 { NONE } else { slots.last() })
        &&& level.total_qty == total(self.orders(level))
    }

    /// The part of [`Pool::threads`] that other parts of the library use.
    pub proof fn lemma_threads(self, level: Level)
        requires
            self.wf(),
            self.threads(level),
        ensures
            level.slots().no_duplicates(),
            forall|i: int|
                0 <= i < level.slots().len() ==> self.live(#[trigger] level.slots()[i]),
            level.cached_total() == total(self.orders(level)),
    {
    }

    /// A level with no orders is in order whatever the arena.
    pub proof fn lemma_bare(self, level: Level)
        requires
            self.threads(level),
            level.slots().len() == 0,
        ensures
            level.detached(),
    {
        assert(self.orders(level).len() == 0);
    }

    /// There is an end to the slots.
    pub proof fn lemma_capacity(self)
        requires
            self.wf(),
        ensures
            self.in_use() <= u32::MAX,
    {
    }

    /// An empty level threads through any arena.
    pub proof fn lemma_detached(self, level: Level)
        requires
            level.detached(),
        ensures
            self.threads(level),
            level.slots().len() == 0,
            self.orders(level) == Seq::<Order>::empty(),
    {
        assert(self.orders(level) =~= Seq::<Order>::empty());
    }

    /// `other` has the same order in `slot`, at the same price and side.
    pub open spec fn same_at(self, other: Pool, slot: u32) -> bool {
        &&& self.order(slot) == other.order(slot)
        &&& self.price(slot) == other.price(slot)
        &&& self.side(slot) == other.side(slot)
    }

    /// A level still threads, with the same orders, through an arena that has
    /// the same nodes in its slots.
    proof fn lemma_frame(self, other: Pool, level: Level)
        requires
            self.threads(level),
            forall|i: int|
                #![trigger level.slots@[i]]
                0 <= i < level.slots@.len() ==> {
                    &&& other.live(level.slots@[i])
                    &&& other.nodes[level.slots@[i] as int] == self.nodes[level.slots@[i] as int]
                },
        ensures
            other.threads(level),
    {
        let slots = level.slots@;
        assert forall|i: int| 0 <= i < slots.len() implies #[trigger] other.linked_at(slots, i) by {
            assert(self.linked_at(slots, i));
            assert(other.nodes[slots[i] as int] == self.nodes[slots[i] as int]);
        }
        assert(other.orders(level) =~= self.orders(level));
    }

    /// `other` is this arena with the node at position `k` of a list freed and
    /// its neighbours linked to each other.
    spec fn spliced(self, other: Pool, slots: Seq<u32>, k: int) -> bool {
        &&& other.free@ == self.free@.push(slots[k])
        &&& other.nodes.len() == self.nodes.len()
        &&& forall|i: int|
            #![trigger other.nodes[i]]
            0 <= i < self.nodes.len() ==> {
                let old_node = self.nodes[i];
                other.nodes[i] == Node {
                    next: if k > 0 && i == slots[k - 1] {
                        after(slots, k)
                    } else {
                        old_node.next
                    },
                    prev: if k < slots.len() - 1 && i == slots[k + 1] {
                        before(slots, k)
                    } else {
                        old_node.prev
                    },
                    ..old_node
                }
            }
    }

    /// Splicing a node out leaves a list of the others, and every other list
    /// as it was.
    proof fn lemma_spliced(self, other: Pool, level0: Level, level1: Level, k: int)
        requires
            self.wf(),
            self.threads(level0),
            0 <= k < level0.slots@.len(),
            self.spliced(other, level0.slots@, k),
            level1.slots@ == level0.slots@.remove(k),
            level1.head == (if k == 0 { after(level0.slots@, k) } else { level0.head }),
            level1.tail == (if k == level0.slots@.len() - 1 {
                before(level0.slots@, k)
            } else {
                level0.tail
            }),
            level1.total_qty == level0.total_qty - self.nodes[level0.slots@[k] as int].qty,
        ensures
            other.wf(),
            other.threads(level1),
            forall|slot: u32| #[trigger]
                other.live(slot) <==> self.live(slot) && slot != level0.slots@[k],
            forall|slot: u32| self.live(slot) ==> #[trigger] other.same_at(self, slot),
            forall|third: Level|
                self.threads(third) && apart(third.slots(), level0.slots())
                    ==> #[trigger] other.threads(third),
    {
        let slots0 = level0.slots@;
        let slots1 = level1.slots@;
        let idx = slots0[k];
        let free0 = self.free@;
        assert(self.live(idx));
        assert forall|slot: u32| #[trigger] other.free@.contains(slot) <==> free0.contains(slot)
            || slot == idx by {
            if free0.contains(slot) {
                let j = choose|j: int| 0 <= j < free0.len() && free0[j] == slot;
                assert(other.free@[j] == slot);
            }
            assert(other.free@[free0.len() as int] == idx);
        }
        assert(other.free@.no_duplicates());
        assert forall|i: int| 0 <= i < other.free.len() implies (#[trigger] other.free[i])
            < other.nodes.len() by {
            if i < free0.len() {
                assert(other.free[i] == self.free[i]);
            }
        }
        assert forall|i: int| 0 <= i < slots1.len() implies other.live(#[trigger] slots1[i]) by {
            let j = if i < k { i } else { i + 1 };
            assert(slots1[i] == slots0[j]);
            assert(self.live(slots0[j]));
        }
        assert forall|i: int| 0 <= i < slots1.len() implies #[trigger] other.linked_at(
            slots1,
            i,
        ) by {
            let j = if i < k { i } else { i + 1 };
            assert(slots1[i] == slots0[j]);
            assert(self.live(slots0[j]));
            assert(self.linked_at(slots0, j));
            assert(other.nodes[slots0[j] as int].id == self.nodes[slots0[j] as int].id);
            if k > 0 && j != k - 1 {
                assert(slots0[j] != slots0[k - 1]);
            }
            if k < slots0.len() - 1 && j != k + 1 {
                assert(slots0[j] != slots0[k + 1]);
            }
        }
        assert(slots1.no_duplicates());
        assert(other.orders(level1) =~= self.orders(level0).remove(k)) by {
            assert forall|i: int| 0 <= i < slots1.len() implies other.order(#[trigger] slots1[i])
                == self.orders(level0).remove(k)[i] by {
                let j = if i < k { i } else { i + 1 };
                assert(slots1[i] == slots0[j]);
                assert(self.live(slots0[j]));
            }
        }
        lemma_total_remove(self.orders(level0), k);
        assert forall|third: Level|
            self.threads(third) && apart(third.slots(), slots0) implies #[trigger] other.threads(
            third,
        ) by {
            assert forall|i: int|
                #![trigger third.slots@[i]]
                0 <= i < third.slots@.len() implies other.live(third.slots@[i])
                && other.nodes[third.slots@[i] as int] == self.nodes[third.slots@[i] as int] by {
                assert(self.live(third.slots@[i]));
                assert(third.slots@[i] != slots0[k]);
                if k > 0 {
                    assert(third.slots@[i] != slots0[k - 1]);
                }
                if k < slots0.len() - 1 {
                    assert(third.slots@[i] != slots0[k + 1]);
                }
            }
            self.lemma_frame(other, third);
        }
    }

    /// An empty pool.
    pub fn new() -> (pool: Self)
        ensures
            pool.wf(),
            pool.in_use() == 0,
            pool.size() == 0,
            pool.free_slots() == Seq::<u32>::empty(),
            forall|slot: u32| !pool.live(slot),
    {
        Self { nodes: Vec::new(), free: Vec::new() }
    }

    /// Claim a slot for `node`, reusing a freed one if available.
    fn claim(&mut self, node: Node) -> (idx: u32)
        requires
            old(self).wf(),
            old(self).in_use() < u32::MAX,
        ensures
            final(self).wf(),
            idx == old(self).next_slot(),
            old(self).claimed(*final(self)),
            !old(self).live(idx),
            idx != NONE,
            final(self).nodes[idx as int] == node,
            forall|slot: u32| #[trigger]
                final(self).live(slot) <==> old(self).live(slot) || slot == idx,
            forall|slot: u32|
                #![trigger final(self).nodes[slot as int]]
                old(self).live(slot) ==> final(self).nodes[slot as int] == old(self).nodes[slot as int],
            final(self).in_use() == old(self).in_use() + 1,
    {
        match self.free.pop() {
            Some(idx) => {
                proof {
                    let f = old(self).free@;
                    assert(f[f.len() - 1] == idx);
                    assert(f.contains(idx));
                    assert forall|slot: u32| #[trigger] f.contains(slot) implies slot == idx
                        || self.free@.contains(slot) by {
                        let k = choose|k: int| 0 <= k < f.len() && f[k] == slot;
                        if k < f.len() - 1 {
                            assert(self.free@[k] == slot);
                        }
                    }
                    assert forall|slot: u32| #[trigger]
                        self.free@.contains(slot) implies f.contains(slot) && slot != idx by {
                        let k = choose|k: int| 0 <= k < self.free@.len() && self.free@[k] == slot;
                        assert(f[k] == slot);
                    }
                    assert forall|i: int| 0 <= i < self.free.len() implies (#[trigger] self.free[i])
                        < old(self).nodes.len() by {
                        assert(f[i] == self.free@[i]);
                        assert(old(self).free[i] < old(self).nodes.len());
                    }
                    assert(old(self).free[f.len() - 1] < old(self).nodes.len());
                }
                self.nodes.set(idx as usize, node);
                idx
            },
            None => {
                let idx: u32 = self.nodes.len() as u32;
                self.nodes.push(node);
                proof {
                    assert forall|i: int| 0 <= i < self.free.len() implies (#[trigger] self.free[i])
                        < self.nodes.len() by {}
                    assert(!old(self).free@.contains(idx));
                }
                idx
            },
        }
    }

    /// The id of the order in slot `idx`.
    pub fn id_of(&self, idx: u32) -> (id: OrderId)
        requires
            self.live(idx),
        ensures
            id == self.order(idx).id,
    {
        self.nodes[idx as usize].id
    }

    /// The remaining quantity of the order in slot `idx`.
    pub fn qty_of(&self, idx: u32) -> (qty: Qty)
        requires
            self.live(idx),
        ensures
            qty == self.order(idx).qty,
    {
        self.nodes[idx as usize].qty
    }

    /// The owning participant of the order in slot `idx`.
    pub fn owner_of(&self, idx: u32) -> (owner: OrderId)
        requires
            self.live(idx),
        ensures
            owner == self.order(idx).owner,
    {
        self.nodes[idx as usize].owner
    }

    /// Where the order in slot `idx` rests: its price and side.
    pub fn location(&self, idx: u32) -> (at: (Price, Side))
        requires
            self.live(idx),
        ensures
            at == (self.price(idx), self.side(idx)),
    {
        let n = &self.nodes[idx as usize];
        (n.price, n.side)
    }

    /// The slot at the front of `level` (the next to be filled), if any.
    pub fn head(&self, level: &Level) -> (front: Option<u32>)
        requires
            self.wf(),
            self.threads(*level),
        ensures
            front == (if level.slots().len() == 0 { None } else { Some(level.slots()[0]) }),
    {
        if level.head != NONE {
            Some(level.head)
        } else {
            proof {
                if level.slots@.len() > 0 {
                    assert(self.live(level.slots@[0]));
                }
            }
            None
        }
    }

    /// Whether `level` has no resting orders left.
    pub fn is_empty(&self, level: &Level) -> (empty: bool)
        requires
            self.wf(),
            self.threads(*level),
        ensures
            empty == (level.slots().len() == 0),
    {
        proof {
            if level.slots@.len() > 0 {
                assert(self.live(level.slots@[0]));
            }
        }
        level.head == NONE
    }

    /// Append a new resting order at the tail of `level`. Returns its slot.
    pub fn push_back(
        &mut self,
        level: &mut Level,
        id: OrderId,
        owner: OrderId,
        price: Price,
        side: Side,
        qty: Qty,
    ) -> (idx: u32)
        requires
            old(self).wf(),
            old(self).threads(*old(level)),
            old(self).in_use() < u32::MAX,
            old(level).cached_total() + qty <= u64::MAX,
        ensures
            final(self).wf(),
            final(self).threads(*final(level)),
            final(level).slots() == old(level).slots().push(idx),
            idx == old(self).next_slot(),
            old(self).claimed(*final(self)),
            old(self).free_slots().len() > 0 ==> {
                &&& idx == old(self).free_slots().last()
                &&& final(self).free_slots() == old(self).free_slots().drop_last()
                &&& final(self).size() == old(self).size()
            },
            old(self).free_slots().len() == 0 ==> {
                &&& idx == old(self).size()
                &&& final(self).free_slots().len() == 0
                &&& final(self).size() == old(self).size() + 1
            },
            !old(self).live(idx),
            final(self).order(idx) == (Order { id, owner, qty }),
            final(self).price(idx) == price,
            final(self).side(idx) == side,
            final(self).in_use() == old(self).in_use() + 1,
            forall|slot: u32| #[trigger]
                final(self).live(slot) <==> old(self).live(slot) || slot == idx,
            forall|slot: u32|
                old(self).live(slot) ==> #[trigger] final(self).same_at(*old(self), slot),
            forall|other: Level|
                old(self).threads(other) && apart(other.slots(), old(level).slots())
                    ==> #[trigger] final(self).threads(other),
    {
        let ghost pool0 = *self;
        let ghost slots0 = level.slots@;
        let tail: u32 = level.tail;
        proof {
            if slots0.len() > 0 {
                assert(pool0.live(slots0.last()));
            }
        }
        let idx: u32 = self.claim(Node { id, qty, price, side, owner, prev: tail, next: NONE });
        let ghost pool1 = *self;
        proof {
            assert forall|i: int| 0 <= i < slots0.len() implies pool1.live(#[trigger] slots0[i])
                && slots0[i] != idx && pool1.nodes[slots0[i] as int]
                == pool0.nodes[slots0[i] as int] by {
                assert(pool0.live(slots0[i]));
            }
        }
        if tail != NONE {
            assert(pool1.live(slots0.last()));
            self.nodes[tail as usize].next = idx;
        } else {
            level.head = idx;
        }
        level.tail = idx;
        level.total_qty = level.total_qty + qty;
        level.slots = Ghost(slots0.push(idx));
        proof {
            let slots = level.slots@;
            assert(forall|slot: u32| #[trigger] self.live(slot) <==> pool1.live(slot));
            assert forall|i: int| 0 <= i < slots.len() implies self.live(#[trigger] slots[i]) by {
                if i < slots0.len() {
                    assert(slots[i] == slots0[i]);
                } else {
                    assert(pool1.live(idx));
                }
            }
            assert forall|i: int| 0 <= i < slots.len() implies #[trigger] self.linked_at(slots, i) by {
                if i < slots0.len() {
                    assert(slots[i] == slots0[i]);
                    assert(pool0.linked_at(slots0, i));
                    assert(pool1.nodes[slots0[i] as int] == pool0.nodes[slots0[i] as int]);
                    assert(before(slots, i) == before(slots0, i));
                    if i < slots0.len() - 1 {
                        assert(slots0[i] != slots0.last());
                    }
                } else {
                    assert(slots[i] == idx);
                }
            }
            assert(slots.no_duplicates());
            assert(self.orders(*level) =~= pool0.orders(*old(level)).push(
                Order { id, owner, qty },
            ));
            lemma_total_push(pool0.orders(*old(level)), Order { id, owner, qty });
            assert forall|slot: u32| pool0.live(slot) implies #[trigger] self.same_at(
                pool0,
                slot,
            ) by {
                assert(pool1.live(slot));
                assert(pool1.nodes[slot as int] == pool0.nodes[slot as int]);
            }
            assert forall|other: Level|
                pool0.threads(other) && apart(other.slots(), slots0) implies #[trigger] self.threads(
                other,
            ) by {
                assert forall|i: int|
                    #![trigger other.slots@[i]]
                    0 <= i < other.slots@.len() implies self.live(other.slots@[i])
                    && self.nodes[other.slots@[i] as int] == pool0.nodes[other.slots@[i] as int] by {
                    let slot = other.slots@[i];
                    assert(pool0.live(slot));
                    assert(pool1.live(slot));
                    assert(pool1.nodes[slot as int] == pool0.nodes[slot as int]);
                    if slots0.len() > 0 {
                        assert(slot != slots0[slots0.len() - 1]);
                    }
                }
                pool0.lemma_frame(*self, other);
            }
        }
        idx
    }

    /// Reduce slot `idx`'s quantity by `by`, keeping the node in place. Updates
    /// the level's cached total. Used for partial fills.
    pub fn reduce(&mut self, level: &mut Level, idx: u32, by: Qty)
        requires
            old(self).wf(),
            old(self).threads(*old(level)),
            old(level).slots().contains(idx),
            by <= old(self).order(idx).qty,
        ensures
            final(self).wf(),
            final(self).threads(*final(level)),
            final(level).slots() == old(level).slots(),
            final(self).order(idx) == (Order {
                qty: (old(self).order(idx).qty - by) as Qty,
                ..old(self).order(idx)
            }),
            final(self).price(idx) == old(self).price(idx),
            final(self).side(idx) == old(self).side(idx),
            final(self).in_use() == old(self).in_use(),
            final(self).size() == old(self).size(),
            final(self).free_slots() == old(self).free_slots(),
            forall|slot: u32| #[trigger] final(self).live(slot) <==> old(self).live(slot),
            forall|slot: u32|
                old(self).live(slot) && slot != idx ==> #[trigger] final(self).same_at(
                    *old(self),
                    slot,
                ),
            forall|other: Level|
                old(self).threads(other) && apart(other.slots(), old(level).slots())
                    ==> #[trigger] final(self).threads(other),
    {
        let ghost pool0 = *self;
        let ghost slots = level.slots@;
        let ghost k = choose|k: int| 0 <= k < slots.len() && slots[k] == idx;
        proof {
            assert(pool0.live(slots[k]));
            lemma_total_split(pool0.orders(*level), k);
        }
        let left: Qty = self.nodes[idx as usize].qty - by;
        self.nodes[idx as usize].qty = left;
        level.total_qty = level.total_qty - by;
        proof {
            assert(forall|slot: u32| #[trigger] self.live(slot) <==> pool0.live(slot));
            let reduced = Order { qty: left, ..pool0.order(idx) };
            assert(self.orders(*level) =~= pool0.orders(*old(level)).update(k, reduced));
            assert forall|i: int| 0 <= i < slots.len() implies #[trigger] self.linked_at(slots, i) by {
                assert(pool0.linked_at(slots, i));
                assert(pool0.live(slots[i]));
            }
            lemma_total_update(pool0.orders(*old(level)), k, reduced);
            assert forall|other: Level|
                pool0.threads(other) && apart(other.slots(), slots) implies #[trigger] self.threads(
                other,
            ) by {
                assert forall|i: int|
                    #![trigger other.slots@[i]]
                    0 <= i < other.slots@.len() implies self.live(other.slots@[i])
                    && self.nodes[other.slots@[i] as int] == pool0.nodes[other.slots@[i] as int] by {
                    assert(pool0.live(other.slots@[i]));
                    assert(other.slots@[i] != slots[k]);
                }
                pool0.lemma_frame(*self, other);
            }
        }
    }

    /// Splice slot `idx` out of `level`'s list and return it to the free list.
    /// The level's cached total is decremented by whatever quantity remained.
    /// `O(1)` regardless of where in the list the node sits.
    pub fn unlink(&mut self, level: &mut Level, idx: u32)
        requires
            old(self).wf(),
            old(self).threads(*old(level)),
            old(level).slots().contains(idx),
        ensures
            final(self).wf(),
            final(self).threads(*final(level)),
            final(level).slots() == old(level).slots().remove(old(level).slots().index_of(idx)),
            final(self).in_use() == old(self).in_use() - 1,
            final(self).size() == old(self).size(),
            final(self).free_slots() == old(self).free_slots().push(idx),
            forall|slot: u32| #[trigger]
                final(self).live(slot) <==> old(self).live(slot) && slot != idx,
            forall|slot: u32|
                old(self).live(slot) && slot != idx ==> #[trigger] final(self).same_at(
                    *old(self),
                    slot,
                ),
            forall|other: Level|
                old(self).threads(other) && apart(other.slots(), old(level).slots())
                    ==> #[trigger] final(self).threads(other),
    {
        let ghost pool0 = *self;
        let ghost slots0 = level.slots@;
        let ghost k = slots0.index_of(idx);
        let ghost slots1 = slots0.remove(k);
        proof {
            assert(slots0[k] == idx);
            assert(pool0.live(slots0[k]));
            assert(pool0.linked_at(slots0, k));
            if k > 0 {
                assert(pool0.live(slots0[k - 1]));
            }
            if k < slots0.len() - 1 {
                assert(pool0.live(slots0[k + 1]));
            }
            lemma_total_split(pool0.orders(*level), k);
        }
        let prev: u32 = self.nodes[idx as usize].prev;
        let next: u32 = self.nodes[idx as usize].next;
        let qty: Qty = self.nodes[idx as usize].qty;

        if prev != NONE {
            self.nodes[prev as usize].next = next;
        } else {
            level.head = next;
        }
        if next != NONE {
            self.nodes[next as usize].prev = prev;
        } else {
            level.tail = prev;
        }

        level.total_qty = level.total_qty - qty;
        self.free.push(idx);
        level.slots = Ghost(slots1);
        proof {
            pool0.lemma_spliced(*self, *old(level), *level, k);
        }
    }
}

} // verus!
