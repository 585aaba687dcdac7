//! What matching does, trade by trade: how the trades of a sweep account for
//! the quantity of the taker and for what becomes of each maker, and in which
//! order they come.

use vstd::prelude::*;

use crate::engine::{SelfTrade, ANONYMOUS};
use crate::model::{
    at_least_as_good, best, fill, has_id, is_best, lemma_best, lemma_fill, lemma_sweep, populated, positive,
    sweep, Levels, Order, Sweep, Taker,
};
use crate::types::{OrderId, Price, Qty, Side, Trade};

verus! {

/// The quantity that changed hands in the trades that `keep` picks.
pub open spec fn volume(trades: Seq<Trade>, keep: spec_fn(Trade) -> bool) -> nat
    decreases trades.len(),
{
    if trades.len() == 0 {
        0
    } else {
        volume(trades.drop_last(), keep) + (if keep(trades.last()) {
            trades.last().qty as nat
        } else {
            0
        })
    }
}

/// Picks every trade.
pub open spec fn any() -> spec_fn(Trade) -> bool {
    |t: Trade| true
}

/// Picks the trades with one maker.
pub open spec fn with_maker(id: OrderId) -> spec_fn(Trade) -> bool {
    |t: Trade| t.maker == id
}

/// The quantities of two lists of trades in a row add up.
pub proof fn lemma_volume_concat(a: Seq<Trade>, b: Seq<Trade>, keep: spec_fn(Trade) -> bool)
    ensures
        volume(a + b, keep) == volume(a, keep) + volume(b, keep),
    decreases b.len(),
{
    if b.len() == 0 {
        assert(a + b =~= a);
    } else {
        assert((a + b).drop_last() =~= a + b.drop_last());
        lemma_volume_concat(a, b.drop_last(), keep);
    }
}

/// The quantity of one trade and those after it.
pub proof fn lemma_volume_first(t: Trade, later: Seq<Trade>, keep: spec_fn(Trade) -> bool)
    ensures
        volume(seq![t] + later, keep) == (if keep(t) {
            t.qty as nat
        } else {
            0
        }) + volume(later, keep),
{
    lemma_volume_concat(seq![t], later, keep);
    assert(seq![t].drop_last() =~= seq![]);
    reveal_with_fuel(volume, 2);
}

/// Where nothing is picked, nothing changed hands.
pub proof fn lemma_volume_none(trades: Seq<Trade>, keep: spec_fn(Trade) -> bool)
    requires
        forall|i: int| 0 <= i < trades.len() ==> !keep(#[trigger] trades[i]),
    ensures
        volume(trades, keep) == 0,
    decreases trades.len(),
{
    if trades.len() > 0 {
        lemma_volume_none(trades.drop_last(), keep);
    }
}

/// No two orders of a queue have the same id.
pub open spec fn distinct(queue: Seq<Order>) -> bool {
    forall|i: int, j: int|
        #![trigger queue[i], queue[j]]
        0 <= i < j < queue.len() ==> queue[i].id != queue[j].id
}

/// The position of the order `id` in a queue that has it.
pub open spec fn position(queue: Seq<Order>, id: OrderId) -> int {
    choose|k: int| 0 <= k < queue.len() && (#[trigger] queue[k]).id == id
}

/// Ids lead to positions.
pub proof fn lemma_position(queue: Seq<Order>, k: int)
    requires
        distinct(queue),
        0 <= k < queue.len(),
    ensures
        has_id(queue, queue[k].id),
        position(queue, queue[k].id) == k,
{
    let id = queue[k].id;
    let p = position(queue, id);
    assert(queue[k].id == id);
    assert(0 <= p < queue.len() && queue[p].id == id);
    if p < k {
        assert(queue[p].id != queue[k].id);
    } else if k < p {
        assert(queue[k].id != queue[p].id);
    }
}

/// What matching did to `order`, of which `left` is what it left: what it
/// traded was taken off it, it is gone if and only if all of it was, or
/// self-trade prevention removed it before it traded anything.
pub open spec fn settled(taker: Taker, trades: Seq<Trade>, order: Order, left: Option<Order>) -> bool {
    let t = volume(trades, with_maker(order.id));
    &&& taker.prevented(order) ==> t == 0
    &&& match left {
        Some(after) => t < order.qty && after == (Order { qty: (order.qty - t) as Qty, ..order }),
        None => t == order.qty || taker.prevented(order) && taker.drops_maker(),
    }
}

/// The order at position `k` of `queue`, in what is left of its back.
pub open spec fn survivor(queue: Seq<Order>, rest: Seq<Order>, k: int) -> Option<Order> {
    let gone = queue.len() - rest.len();
    if k >= gone {
        Some(rest[k - gone])
    } else {
        None
    }
}

/// The trades that a taker makes with one queue add up to what it was for and
/// has not left, and are with makers of the queue at its price.
pub proof fn lemma_fill_trades(taker: Taker, price: Price, queue: Seq<Order>, qty: Qty)
    requires
        positive(queue),
    ensures
        ({
            let f = fill(taker, price, queue, qty);
            &&& volume(f.trades, any()) + f.qty == qty
            &&& forall|i: int|
                #![trigger f.trades[i]]
                0 <= i < f.trades.len() ==> {
                    &&& f.trades[i].taker == taker.id
                    &&& f.trades[i].price == price
                    &&& f.trades[i].qty > 0
                    &&& has_id(queue, f.trades[i].maker)
                }
            &&& f.cancelled ==> taker.drops_taker() && taker.owner != ANONYMOUS
        }),
    decreases queue.len(),
{
    let f = fill(taker, price, queue, qty);
    if qty > 0 && queue.len() > 0 {
        let maker = queue[0];
        let tail = queue.drop_first();
        let prevented = taker.prevented(maker);
        assert(queue[0].id == maker.id);
        if prevented && taker.drops_taker() {
        } else if !prevented && qty < maker.qty {
            let t = Trade { taker: taker.id, maker: maker.id, price, qty };
            assert(f.trades =~= seq![t] + Seq::<Trade>::empty());
            lemma_volume_first(t, seq![], any());
        } else {
            let t = Trade { taker: taker.id, maker: maker.id, price, qty: maker.qty };
            let left = if prevented { qty } else { (qty - maker.qty) as Qty };
            let later = fill(taker, price, tail, left);
            lemma_fill_trades(taker, price, tail, left);
            lemma_volume_first(t, later.trades, any());
            let shift: int = if prevented { 0 } else { 1 };
            assert forall|i: int|
                #![trigger f.trades[i]]
                shift <= i < f.trades.len() implies {
                &&& f.trades[i] == later.trades[i - shift]
                &&& has_id(queue, f.trades[i].maker)
            } by {
                let id = later.trades[i - shift].maker;
                assert(has_id(tail, id));
                let j = choose|j: int| 0 <= j < tail.len() && (#[trigger] tail[j]).id == id;
                assert(queue[j + 1] == tail[j]);
            }
        }
    }
}

/// Trades with makers of a queue take nothing off an order that is not in it.
pub proof fn lemma_not_in_queue(trades: Seq<Trade>, queue: Seq<Order>, id: OrderId)
    requires
        !has_id(queue, id),
        forall|i: int| 0 <= i < trades.len() ==> has_id(queue, (#[trigger] trades[i]).maker),
    ensures
        volume(trades, with_maker(id)) == 0,
{
    lemma_volume_none(trades, with_maker(id));
}

/// What becomes of each order of a queue.
pub proof fn lemma_fill_settled(taker: Taker, price: Price, queue: Seq<Order>, qty: Qty)
    requires
        positive(queue),
        distinct(queue),
    ensures
        ({
            let f = fill(taker, price, queue, qty);
            forall|k: int|
                #![trigger queue[k]]
                0 <= k < queue.len() ==> settled(
                    taker,
                    f.trades,
                    queue[k],
                    survivor(queue, f.rest, k),
                )
        }),
    decreases queue.len(),
{
    let f = fill(taker, price, queue, qty);
    lemma_fill(taker, price, queue, qty);
    if qty > 0 && queue.len() > 0 {
        let maker = queue[0];
        let tail = queue.drop_first();
        let prevented = taker.prevented(maker);
        assert forall|i: int| 0 <= i < tail.len() implies #[trigger] tail[i] == queue[i + 1] by {}
        if prevented && taker.drops_taker() {
            assert forall|k: int| 0 <= k < queue.len() implies settled(
                taker,
                f.trades,
                #[trigger] queue[k],
                survivor(queue, f.rest, k),
            ) by {
                if taker.drops_maker() && k > 0 {
                    assert(f.rest[k - 1] == queue[k]);
                }
            }
        } else if !prevented && qty < maker.qty {
            let t = Trade { taker: taker.id, maker: maker.id, price, qty };
            assert(f.trades =~= seq![t] + Seq::<Trade>::empty());
            assert forall|k: int| 0 <= k < queue.len() implies settled(
                taker,
                f.trades,
                #[trigger] queue[k],
                survivor(queue, f.rest, k),
            ) by {
                lemma_volume_first(t, seq![], with_maker(queue[k].id));
                if k > 0 {
                    assert(queue[0].id != queue[k].id);
                }
            }
        } else {
            let t = Trade { taker: taker.id, maker: maker.id, price, qty: maker.qty };
            let left = if prevented { qty } else { (qty - maker.qty) as Qty };
            let later = fill(taker, price, tail, left);
            lemma_fill_settled(taker, price, tail, left);
            lemma_fill_trades(taker, price, tail, left);
            lemma_fill(taker, price, tail, left);
            assert(!has_id(tail, maker.id)) by {
                if has_id(tail, maker.id) {
                    let j = choose|j: int|
                        0 <= j < tail.len() && (#[trigger] tail[j]).id == maker.id;
                    assert(queue[0].id != queue[j + 1].id);
                }
            }
            lemma_not_in_queue(later.trades, tail, maker.id);
            assert forall|k: int| 0 <= k < queue.len() implies settled(
                taker,
                f.trades,
                #[trigger] queue[k],
                survivor(queue, f.rest, k),
            ) by {
                if !prevented {
                    lemma_volume_first(t, later.trades, with_maker(queue[k].id));
                }
                if k > 0 {
                    assert(tail[k - 1] == queue[k]);
                    assert(queue[0].id != queue[k].id);
                }
            }
        }
    }
}

/// The makers of a queue trade in the order in which they stand.
pub proof fn lemma_fill_order(taker: Taker, price: Price, queue: Seq<Order>, qty: Qty)
    requires
        positive(queue),
        distinct(queue),
    ensures
        ({
            let f = fill(taker, price, queue, qty);
            forall|i: int, j: int|
                #![trigger f.trades[i], f.trades[j]]
                0 <= i < j < f.trades.len() ==> position(queue, f.trades[i].maker) < position(
                    queue,
                    f.trades[j].maker,
                )
        }),
    decreases queue.len(),
{
    let f = fill(taker, price, queue, qty);
    if qty > 0 && queue.len() > 0 {
        let maker = queue[0];
        let tail = queue.drop_first();
        let prevented = taker.prevented(maker);
        assert forall|i: int| 0 <= i < tail.len() implies #[trigger] tail[i] == queue[i + 1] by {}
        if !(prevented && taker.drops_taker()) && (prevented || qty >= maker.qty) {
            let left = if prevented { qty } else { (qty - maker.qty) as Qty };
            let later = fill(taker, price, tail, left);
            lemma_fill_trades(taker, price, tail, left);
            lemma_fill_order(taker, price, tail, left);
            lemma_position(queue, 0);
            let shift: int = if prevented { 0 } else { 1 };
            assert forall|i: int| shift <= i < f.trades.len() implies {
                &&& #[trigger] f.trades[i] == later.trades[i - shift]
                &&& position(queue, f.trades[i].maker) == 1 + position(
                    tail,
                    later.trades[i - shift].maker,
                )
                &&& position(queue, f.trades[i].maker) > 0
            } by {
                let id = later.trades[i - shift].maker;
                let k = position(tail, id);
                assert(has_id(tail, id));
                assert(0 <= k < tail.len() && tail[k].id == id);
                lemma_position(tail, k);
                lemma_position(queue, k + 1);
            }
            assert forall|i: int, j: int|
                #![trigger f.trades[i], f.trades[j]]
                0 <= i < j < f.trades.len() implies position(queue, f.trades[i].maker) < position(
                queue,
                f.trades[j].maker,
            ) by {
                if i >= shift {
                    assert(f.trades[i] == later.trades[i - shift]);
                    assert(f.trades[j] == later.trades[j - shift]);
                }
            }
        }
    }
}

/// There is an order at position `k` of the queue at `price`.
pub open spec fn stands(levels: Levels, price: Price, k: int) -> bool {
    levels.contains_key(price) && 0 <= k < levels[price].len()
}

/// No two orders of a side have the same id.
pub open spec fn all_distinct(levels: Levels) -> bool {
    forall|p: Price, k: int, q: Price, l: int|
        #![trigger stands(levels, p, k), stands(levels, q, l)]
        stands(levels, p, k) && stands(levels, q, l) && levels[p][k].id == levels[q][l].id ==> p
            == q && k == l
}

/// The order at position `k` of the queue at `price`, in what is left of the
/// side.
pub open spec fn side_survivor(levels: Levels, rest: Levels, price: Price, k: int) -> Option<
    Order,
> {
    if rest.contains_key(price) {
        survivor(levels[price], rest[price], k)
    } else {
        None
    }
}

/// What holds of each trade that a taker makes with a side: it names the taker,
/// is for something, and is with a maker at a price of the side that the taker
/// is willing to trade at.
pub open spec fn sound_trade(taker: Taker, levels: Levels, trade: Trade) -> bool {
    &&& trade.taker == taker.id
    &&& trade.qty > 0
    &&& levels.contains_key(trade.price)
    &&& taker.crosses(trade.price)
    &&& has_id(levels[trade.price], trade.maker)
}

/// The queues of a side have distinct ids.
pub proof fn lemma_queue_distinct(levels: Levels, price: Price)
    requires
        all_distinct(levels),
        levels.contains_key(price),
    ensures
        distinct(levels[price]),
{
    let queue = levels[price];
    assert forall|i: int, j: int|
        #![trigger queue[i], queue[j]]
        0 <= i < j < queue.len() implies queue[i].id != queue[j].id by {
        assert(stands(levels, price, i) && stands(levels, price, j));
    }
}

/// A side has distinct ids without one of its levels, too.
pub proof fn lemma_remove_distinct(levels: Levels, price: Price)
    requires
        all_distinct(levels),
    ensures
        all_distinct(levels.remove(price)),
{
    let rest = levels.remove(price);
    assert forall|p: Price, k: int, q: Price, l: int|
        #![trigger stands(rest, p, k), stands(rest, q, l)]
        stands(rest, p, k) && stands(rest, q, l) && rest[p][k].id == rest[q][l].id implies p == q
        && k == l by {
        assert(stands(levels, p, k) && stands(levels, q, l));
    }
}

/// Trades with makers of other levels take nothing off an order.
pub proof fn lemma_elsewhere(trades: Seq<Trade>, levels: Levels, price: Price, k: int)
    requires
        all_distinct(levels),
        stands(levels, price, k),
        forall|i: int|
            0 <= i < trades.len() ==> {
                let t = #[trigger] trades[i];
                &&& t.price != price
                &&& levels.contains_key(t.price)
                &&& has_id(levels[t.price], t.maker)
            },
    ensures
        volume(trades, with_maker(levels[price][k].id)) == 0,
{
    let keep = with_maker(levels[price][k].id);
    assert forall|i: int| 0 <= i < trades.len() implies !keep(#[trigger] trades[i]) by {
        let t = trades[i];
        let l = position(levels[t.price], t.maker);
        assert(0 <= l < levels[t.price].len() && levels[t.price][l].id == t.maker);
        assert(stands(levels, t.price, l));
    }
    lemma_volume_none(trades, keep);
}

/// The trades that a taker makes with a side.
pub proof fn lemma_sweep_trades(taker: Taker, levels: Levels, qty: Qty)
    requires
        populated(levels),
        all_distinct(levels),
    ensures
        ({
            let s = sweep(taker, levels, qty);
            &&& volume(s.trades, any()) + s.qty == qty
            &&& forall|i: int|
                0 <= i < s.trades.len() ==> sound_trade(taker, levels, #[trigger] s.trades[i])
            &&& forall|p: Price, k: int| #[trigger]
                stands(levels, p, k) ==> settled(
                    taker,
                    s.trades,
                    levels[p][k],
                    side_survivor(levels, s.levels, p, k),
                )
            &&& s.cancelled ==> taker.drops_taker() && taker.owner != ANONYMOUS
        }),
    decreases levels.dom().len(),
{
    let side = taker.side.opposite();
    let s = sweep(taker, levels, qty);
    lemma_best(levels, side);
    match best(levels, side) {
        Some(price) if qty > 0 && taker.crosses(price) => {
            let queue = levels[price];
            let here = fill(taker, price, queue, qty);
            let others = levels.remove(price);
            lemma_queue_distinct(levels, price);
            lemma_fill_trades(taker, price, queue, qty);
            lemma_fill_settled(taker, price, queue, qty);
            lemma_fill(taker, price, queue, qty);
            let goes_on = here.rest.len() == 0 && !here.cancelled;
            let later = if goes_on {
                sweep(taker, others, here.qty)
            } else {
                Sweep { levels: s.levels, trades: seq![], qty: here.qty, cancelled: here.cancelled }
            };
            if goes_on {
                lemma_remove_distinct(levels, price);
                lemma_sweep_trades(taker, others, here.qty);
                lemma_sweep(taker, others, here.qty);
            }
            assert(s.trades =~= here.trades + later.trades);
            lemma_volume_concat(here.trades, later.trades, any());
            assert forall|i: int| 0 <= i < later.trades.len() implies {
                &&& sound_trade(taker, levels, #[trigger] later.trades[i])
                &&& later.trades[i].price != price
            } by {
                assert(sound_trade(taker, others, later.trades[i]));
            }
            assert forall|i: int| 0 <= i < s.trades.len() implies sound_trade(
                taker,
                levels,
                #[trigger] s.trades[i],
            ) by {
                if i < here.trades.len() {
                    assert(s.trades[i] == here.trades[i]);
                } else {
                    assert(s.trades[i] == later.trades[i - here.trades.len()]);
                }
            }
            assert forall|p: Price, k: int| #[trigger] stands(levels, p, k) implies settled(
                taker,
                s.trades,
                levels[p][k],
                side_survivor(levels, s.levels, p, k),
            ) by {
                let keep = with_maker(levels[p][k].id);
                lemma_volume_concat(here.trades, later.trades, keep);
                if p == price {
                    lemma_elsewhere(later.trades, levels, p, k);
                    assert(settled(taker, here.trades, queue[k], survivor(queue, here.rest, k)));
                } else {
                    lemma_elsewhere(here.trades, levels, p, k);
                    if goes_on {
                        assert(stands(others, p, k));
                    }
                }
            }
        },
        _ => {
            assert forall|p: Price, k: int| #[trigger] stands(levels, p, k) implies settled(
                taker,
                s.trades,
                levels[p][k],
                side_survivor(levels, s.levels, p, k),
            ) by {
                assert(levels[p][k].qty > 0);
            }
        },
    }
}

/// Trades come in the order of the prices, best first, and within a price in
/// the order of the queue.
pub open spec fn in_priority(side: Side, levels: Levels, first: Trade, second: Trade) -> bool {
    &&& at_least_as_good(side, first.price, second.price)
    &&& first.price == second.price ==> position(levels[first.price], first.maker) < position(
        levels[second.price],
        second.maker,
    )
}

/// A taker trades with a side in the order of priority.
pub proof fn lemma_sweep_order(taker: Taker, levels: Levels, qty: Qty)
    requires
        populated(levels),
        all_distinct(levels),
    ensures
        ({
            let s = sweep(taker, levels, qty);
            forall|i: int, j: int|
                #![trigger s.trades[i], s.trades[j]]
                0 <= i < j < s.trades.len() ==> in_priority(
                    taker.side.opposite(),
                    levels,
                    s.trades[i],
                    s.trades[j],
                )
        }),
    decreases levels.dom().len(),
{
    let side = taker.side.opposite();
    let s = sweep(taker, levels, qty);
    lemma_best(levels, side);
    match best(levels, side) {
        Some(price) if qty > 0 && taker.crosses(price) => {
            let queue = levels[price];
            let here = fill(taker, price, queue, qty);
            let others = levels.remove(price);
            let n = here.trades.len();
            lemma_queue_distinct(levels, price);
            lemma_fill_trades(taker, price, queue, qty);
            lemma_fill_order(taker, price, queue, qty);
            if here.rest.len() == 0 && !here.cancelled {
                let later = sweep(taker, others, here.qty);
                lemma_remove_distinct(levels, price);
                lemma_sweep_trades(taker, others, here.qty);
                lemma_sweep_order(taker, others, here.qty);
                assert(s.trades == here.trades + later.trades);
                assert forall|i: int, j: int|
                    #![trigger s.trades[i], s.trades[j]]
                    0 <= i < j < s.trades.len() implies in_priority(
                    side,
                    levels,
                    s.trades[i],
                    s.trades[j],
                ) by {
                    if j < n {
                        assert(s.trades[i] == here.trades[i] && s.trades[j] == here.trades[j]);
                    } else {
                        assert(s.trades[j] == later.trades[j - n]);
                        assert(sound_trade(taker, others, later.trades[j - n]));
                        if i < n {
                            assert(s.trades[i] == here.trades[i]);
                            assert(levels.contains_key(s.trades[j].price));
                        } else {
                            assert(s.trades[i] == later.trades[i - n]);
                            assert(sound_trade(taker, others, later.trades[i - n]));
                        }
                    }
                }
            } else {
                assert(s.trades == here.trades);
            }
        },
        _ => {},
    }
}

/// Matching moves on from a level only once it is empty.
pub proof fn lemma_sweep_touched(taker: Taker, levels: Levels, qty: Qty)
    requires
        populated(levels),
    ensures
        ({
            let s = sweep(taker, levels, qty);
            forall|p: Price, q: Price|
                #![trigger levels.contains_key(p), levels.contains_key(q)]
                levels.contains_key(p) && levels.contains_key(q) && p != q && at_least_as_good(
                    taker.side.opposite(),
                    q,
                    p,
                ) && s.levels.contains_key(q) ==> s.levels.contains_key(p) && s.levels[p]
                    == levels[p]
        }),
    decreases levels.dom().len(),
{
    let side = taker.side.opposite();
    let s = sweep(taker, levels, qty);
    lemma_best(levels, side);
    match best(levels, side) {
        Some(price) if qty > 0 && taker.crosses(price) => {
            let here = fill(taker, price, levels[price], qty);
            if here.rest.len() == 0 && !here.cancelled {
                let others = levels.remove(price);
                lemma_sweep_touched(taker, others, here.qty);
                lemma_sweep(taker, others, here.qty);
                assert forall|p: Price, q: Price|
                    #![trigger levels.contains_key(p), levels.contains_key(q)]
                    levels.contains_key(p) && levels.contains_key(q) && p != q && at_least_as_good(
                        side,
                        q,
                        p,
                    ) && s.levels.contains_key(q) implies s.levels.contains_key(p) && s.levels[p]
                    == levels[p] by {
                    assert(others.contains_key(q));
                    assert(p != price);
                    assert(others.contains_key(p));
                }
            }
        },
        _ => {},
    }
}

/// Where the policy cannot apply, it does not matter which one is in force.
pub proof fn lemma_policy_idle(taker: Taker, levels: Levels, qty: Qty)
    requires
        populated(levels),
        taker.stp == SelfTrade::Allow || taker.owner == ANONYMOUS,
    ensures
        sweep(taker, levels, qty) == sweep(
            Taker { stp: SelfTrade::Allow, ..taker },
            levels,
            qty,
        ),
        !sweep(taker, levels, qty).cancelled,
    decreases levels.dom().len(),
{
    let side = taker.side.opposite();
    lemma_best(levels, side);
    match best(levels, side) {
        Some(price) if qty > 0 && taker.crosses(price) => {
            lemma_fill_idle(taker, price, levels[price], qty);
            let here = fill(taker, price, levels[price], qty);
            if here.rest.len() == 0 {
                lemma_policy_idle(taker, levels.remove(price), here.qty);
            }
        },
        _ => {},
    }
}

/// The same, for one queue.
pub proof fn lemma_fill_idle(taker: Taker, price: Price, queue: Seq<Order>, qty: Qty)
    requires
        taker.stp == SelfTrade::Allow || taker.owner == ANONYMOUS,
    ensures
        fill(taker, price, queue, qty) == fill(
            Taker { stp: SelfTrade::Allow, ..taker },
            price,
            queue,
            qty,
        ),
        !fill(taker, price, queue, qty).cancelled,
    decreases queue.len(),
{
    if qty > 0 && queue.len() > 0 && qty >= queue[0].qty {
        lemma_fill_idle(taker, price, queue.drop_first(), (qty - queue[0].qty) as Qty);
    }
}

/// What is picked is part of what changed hands.
pub proof fn lemma_volume_some(trades: Seq<Trade>, keep: spec_fn(Trade) -> bool, i: int)
    requires
        0 <= i < trades.len(),
        keep(trades[i]),
    ensures
        volume(trades, keep) >= trades[i].qty,
    decreases trades.len(),
{
    if i < trades.len() - 1 {
        lemma_volume_some(trades.drop_last(), keep, i);
    }
}

/// A policy that cancels both orders stops at the first maker it applies to,
/// and takes that one off the queue.
pub proof fn lemma_fill_both(taker: Taker, price: Price, queue: Seq<Order>, qty: Qty)
    requires
        positive(queue),
        taker.stp == SelfTrade::CancelBoth,
    ensures
        ({
            let f = fill(taker, price, queue, qty);
            let gone = queue.len() - f.rest.len();
            &&& forall|k: int|
                0 <= k < gone ==> taker.prevented(#[trigger] queue[k]) == (f.cancelled && k == gone
                    - 1)
            &&& f.cancelled ==> gone > 0
        }),
    decreases queue.len(),
{
    if qty > 0 && queue.len() > 0 {
        let maker = queue[0];
        let tail = queue.drop_first();
        if !taker.prevented(maker) && qty >= maker.qty {
            let later = fill(taker, price, tail, (qty - maker.qty) as Qty);
            lemma_fill_both(taker, price, tail, (qty - maker.qty) as Qty);
            lemma_fill(taker, price, tail, (qty - maker.qty) as Qty);
            assert forall|k: int| 0 <= k < queue.len() - later.rest.len() implies taker.prevented(
                #[trigger] queue[k],
            ) == (later.cancelled && k == queue.len() - later.rest.len() - 1) by {
                if k > 0 {
                    assert(tail[k - 1] == queue[k]);
                }
            }
        }
    }
}

/// Of the makers that a policy that cancels both orders applies to, one goes
/// if the taker is cancelled, and none if it is not.
pub proof fn lemma_sweep_both(taker: Taker, levels: Levels, qty: Qty) -> (hit: (Price, int))
    requires
        populated(levels),
        taker.stp == SelfTrade::CancelBoth,
    ensures
        ({
            let s = sweep(taker, levels, qty);
            &&& s.cancelled ==> stands(levels, hit.0, hit.1) && taker.prevented(
                levels[hit.0][hit.1],
            )
            &&& forall|p: Price, k: int| #[trigger]
                stands(levels, p, k) && taker.prevented(levels[p][k]) ==> {
                    side_survivor(levels, s.levels, p, k) is None <==> s.cancelled && hit == (p, k)
                }
        }),
    decreases levels.dom().len(),
{
    let side = taker.side.opposite();
    let s = sweep(taker, levels, qty);
    lemma_best(levels, side);
    match best(levels, side) {
        Some(price) if qty > 0 && taker.crosses(price) => {
            let queue = levels[price];
            let here = fill(taker, price, queue, qty);
            lemma_fill(taker, price, queue, qty);
            lemma_fill_both(taker, price, queue, qty);
            let gone = queue.len() - here.rest.len();
            if here.rest.len() == 0 && !here.cancelled {
                let others = levels.remove(price);
                let hit = lemma_sweep_both(taker, others, here.qty);
                lemma_sweep(taker, others, here.qty);
                assert forall|p: Price, k: int| #[trigger]
                    stands(levels, p, k) && taker.prevented(levels[p][k]) implies {
                    side_survivor(levels, s.levels, p, k) is None <==> s.cancelled && hit == (p, k)
                } by {
                    if p == price {
                        assert(!taker.prevented(queue[k]));
                    } else {
                        assert(stands(others, p, k));
                    }
                }
                hit
            } else {
                let hit = (price, gone - 1);
                assert forall|p: Price, k: int| #[trigger]
                    stands(levels, p, k) && taker.prevented(levels[p][k]) implies {
                    side_survivor(levels, s.levels, p, k) is None <==> s.cancelled && hit == (p, k)
                } by {
                    if p == price {
                        assert(taker.prevented(queue[k]));
                    }
                }
                hit
            }
        },
        _ => (0, 0),
    }
}

/// Levels at prices the taker is not willing to trade at stay as they were.
pub proof fn lemma_sweep_beyond(taker: Taker, levels: Levels, qty: Qty)
    requires
        populated(levels),
    ensures
        ({
            let s = sweep(taker, levels, qty);
            forall|p: Price| #[trigger]
                levels.contains_key(p) && !taker.crosses(p) ==> s.levels.contains_key(p)
                    && s.levels[p] == levels[p]
        }),
    decreases levels.dom().len(),
{
    let side = taker.side.opposite();
    let s = sweep(taker, levels, qty);
    lemma_best(levels, side);
    match best(levels, side) {
        Some(price) if qty > 0 && taker.crosses(price) => {
            let here = fill(taker, price, levels[price], qty);
            if here.rest.len() == 0 && !here.cancelled {
                let others = levels.remove(price);
                lemma_sweep_beyond(taker, others, here.qty);
                assert forall|p: Price| #[trigger]
                    levels.contains_key(p) && !taker.crosses(p) implies s.levels.contains_key(p)
                    && s.levels[p] == levels[p] by {
                    assert(others.contains_key(p));
                }
            }
        },
        _ => {},
    }
}

/// A taker that is filled in a queue trades last with the last maker that it
/// took off the queue, or with one behind it.
pub proof fn lemma_fill_last(taker: Taker, price: Price, queue: Seq<Order>, qty: Qty)
    requires
        positive(queue),
        distinct(queue),
        qty > 0,
        fill(taker, price, queue, qty).qty == 0,
    ensures
        ({
            let f = fill(taker, price, queue, qty);
            let last = f.trades.last();
            &&& f.trades.len() > 0
            &&& has_id(queue, last.maker)
            &&& position(queue, last.maker) >= queue.len() - f.rest.len() - 1
        }),
    decreases queue.len(),
{
    let f = fill(taker, price, queue, qty);
    let maker = queue[0];
    let tail = queue.drop_first();
    let prevented = taker.prevented(maker);
    assert forall|i: int| 0 <= i < tail.len() implies #[trigger] tail[i] == queue[i + 1] by {}
    lemma_position(queue, 0);
    if !prevented && qty <= maker.qty {
        assert(fill(taker, price, tail, 0).trades.len() == 0);
    } else {
        let left = if prevented { qty } else { (qty - maker.qty) as Qty };
        let later = fill(taker, price, tail, left);
        lemma_fill_last(taker, price, tail, left);
        assert(f.trades.last() == later.trades.last());
        let k = position(tail, later.trades.last().maker);
        assert(0 <= k < tail.len() && tail[k].id == later.trades.last().maker);
        lemma_position(queue, k + 1);
    }
}

/// A taker that is filled trades last with a maker that stands behind every
/// order it took off the side, or that is one of them.
pub proof fn lemma_sweep_last(taker: Taker, levels: Levels, qty: Qty)
    requires
        populated(levels),
        all_distinct(levels),
        qty > 0,
        sweep(taker, levels, qty).qty == 0,
    ensures
        ({
            let s = sweep(taker, levels, qty);
            let last = s.trades.last();
            &&& s.trades.len() > 0
            &&& forall|p: Price, k: int| #[trigger]
                stands(levels, p, k) && side_survivor(levels, s.levels, p, k) is None ==> {
                    ||| last.price != p && at_least_as_good(taker.side.opposite(), p, last.price)
                    ||| last.price == p && position(levels[p], last.maker) >= k
                }
        }),
    decreases levels.dom().len(),
{
    let side = taker.side.opposite();
    let s = sweep(taker, levels, qty);
    lemma_best(levels, side);
    let price = best(levels, side)->0;
    let queue = levels[price];
    let here = fill(taker, price, queue, qty);
    let others = levels.remove(price);
    lemma_queue_distinct(levels, price);
    lemma_fill(taker, price, queue, qty);
    lemma_fill_trades(taker, price, queue, qty);
    if here.qty > 0 {
        let later = sweep(taker, others, here.qty);
        lemma_remove_distinct(levels, price);
        lemma_sweep_last(taker, others, here.qty);
        lemma_sweep_trades(taker, others, here.qty);
        lemma_sweep(taker, others, here.qty);
        assert(s.trades == here.trades + later.trades);
        assert(s.trades.last() == later.trades.last());
        assert(sound_trade(taker, others, later.trades.last()));
        assert(levels.contains_key(later.trades.last().price));
        assert forall|p: Price, k: int| #[trigger]
            stands(levels, p, k) && side_survivor(levels, s.levels, p, k) is None implies {
            ||| s.trades.last().price != p && at_least_as_good(side, p, s.trades.last().price)
            ||| s.trades.last().price == p && position(levels[p], s.trades.last().maker) >= k
        } by {
            if p != price {
                assert(stands(others, p, k));
            }
        }
    } else {
        lemma_fill_last(taker, price, queue, qty);
        if here.rest.len() == 0 && !here.cancelled {
            lemma_best(others, side);
            let later = sweep(taker, others, 0);
            assert(later.levels == others && later.trades.len() == 0);
            assert(s.trades =~= here.trades);
        }
    }
}

/// A taker is cancelled only with something left; a policy that keeps the maker
/// stops in front of it.
pub proof fn lemma_fill_stopped(taker: Taker, price: Price, queue: Seq<Order>, qty: Qty)
    requires
        positive(queue),
    ensures
        ({
            let f = fill(taker, price, queue, qty);
            f.cancelled ==> {
                &&& f.qty > 0
                &&& taker.stp == SelfTrade::CancelAggressor ==> {
                    &&& f.rest.len() > 0
                    &&& f.rest[0] == queue[queue.len() - f.rest.len()]
                    &&& taker.prevented(f.rest[0])
                }
            }
        }),
    decreases queue.len(),
{
    if qty > 0 && queue.len() > 0 {
        let maker = queue[0];
        let tail = queue.drop_first();
        let prevented = taker.prevented(maker);
        if !(prevented && taker.drops_taker()) && (prevented || qty >= maker.qty) {
            let left = if prevented { qty } else { (qty - maker.qty) as Qty };
            lemma_fill_stopped(taker, price, tail, left);
            lemma_fill(taker, price, tail, left);
        }
    }
}

/// The same, for a side: the maker is the first order of the best level left,
/// at the price that is returned.
pub proof fn lemma_sweep_stopped(taker: Taker, levels: Levels, qty: Qty) -> (price: Price)
    requires
        populated(levels),
    ensures
        ({
            let s = sweep(taker, levels, qty);
            s.cancelled ==> {
                &&& s.qty > 0
                &&& taker.stp == SelfTrade::CancelAggressor ==> {
                    let k = levels[price].len() - s.levels[price].len();
                    &&& is_best(s.levels, taker.side.opposite(), price)
                    &&& taker.crosses(price)
                    &&& stands(levels, price, k)
                    &&& s.levels[price].len() > 0
                    &&& s.levels[price][0] == levels[price][k]
                    &&& taker.prevented(levels[price][k])
                }
            }
        }),
    decreases levels.dom().len(),
{
    let side = taker.side.opposite();
    let s = sweep(taker, levels, qty);
    lemma_best(levels, side);
    match best(levels, side) {
        Some(price) if qty > 0 && taker.crosses(price) => {
            let here = fill(taker, price, levels[price], qty);
            lemma_fill(taker, price, levels[price], qty);
            lemma_fill_stopped(taker, price, levels[price], qty);
            if here.rest.len() == 0 && !here.cancelled {
                let others = levels.remove(price);
                lemma_sweep(taker, others, here.qty);
                let found = lemma_sweep_stopped(taker, others, here.qty);
                if s.cancelled && taker.stp == SelfTrade::CancelAggressor {
                    let k = others[found].len() - s.levels[found].len();
                    assert(stands(others, found, k));
                    assert(stands(levels, found, k));
                }
                found
            } else {
                if here.cancelled && taker.stp == SelfTrade::CancelAggressor {
                    assert(s.levels == levels.insert(price, here.rest));
                    assert forall|q: Price| #[trigger]
                        s.levels.contains_key(q) implies at_least_as_good(side, price, q) by {
                        assert(levels.contains_key(q));
                    }
                }
                price
            }
        },
        _ => 0,
    }
}

/// A policy that cancels both orders stops behind the makers traded with.
pub proof fn lemma_fill_both_order(taker: Taker, price: Price, queue: Seq<Order>, qty: Qty)
    requires
        positive(queue),
        distinct(queue),
        taker.stp == SelfTrade::CancelBoth,
    ensures
        ({
            let f = fill(taker, price, queue, qty);
            f.cancelled ==> forall|i: int|
                0 <= i < f.trades.len() ==> position(queue, (#[trigger] f.trades[i]).maker)
                    < queue.len() - f.rest.len() - 1
        }),
    decreases queue.len(),
{
    let f = fill(taker, price, queue, qty);
    if qty > 0 && queue.len() > 0 {
        let maker = queue[0];
        let tail = queue.drop_first();
        assert forall|i: int| 0 <= i < tail.len() implies #[trigger] tail[i] == queue[i + 1] by {}
        if !taker.prevented(maker) && qty >= maker.qty {
            let left = (qty - maker.qty) as Qty;
            let later = fill(taker, price, tail, left);
            lemma_fill_both_order(taker, price, tail, left);
            lemma_fill_both(taker, price, tail, left);
            lemma_fill_trades(taker, price, tail, left);
            lemma_position(queue, 0);
            if f.cancelled {
                assert forall|i: int| 0 <= i < f.trades.len() implies position(
                    queue,
                    (#[trigger] f.trades[i]).maker,
                ) < queue.len() - f.rest.len() - 1 by {
                    if i > 0 {
                        assert(f.trades[i] == later.trades[i - 1]);
                        let id = later.trades[i - 1].maker;
                        assert(has_id(tail, id));
                        let k = position(tail, id);
                        assert(0 <= k < tail.len() && tail[k].id == id);
                        lemma_position(queue, k + 1);
                    }
                }
            }
        }
    }
}

/// The maker that such a policy takes off a side stands behind all those that
/// the taker traded with.
pub proof fn lemma_sweep_both_order(taker: Taker, levels: Levels, qty: Qty, p: Price, k: int)
    requires
        populated(levels),
        all_distinct(levels),
        taker.stp == SelfTrade::CancelBoth,
        stands(levels, p, k),
        taker.prevented(levels[p][k]),
        side_survivor(levels, sweep(taker, levels, qty).levels, p, k) is None,
    ensures
        ({
            let s = sweep(taker, levels, qty);
            &&& s.cancelled
            &&& forall|i: int|
                0 <= i < s.trades.len() ==> {
                    let t = #[trigger] s.trades[i];
                    ||| t.price != p && at_least_as_good(taker.side.opposite(), t.price, p)
                    ||| t.price == p && position(levels[p], t.maker) < k
                }
        }),
    decreases levels.dom().len(),
{
    let side = taker.side.opposite();
    let s = sweep(taker, levels, qty);
    lemma_best(levels, side);
    match best(levels, side) {
        Some(price) if qty > 0 && taker.crosses(price) => {
            let queue = levels[price];
            let here = fill(taker, price, queue, qty);
            lemma_queue_distinct(levels, price);
            lemma_fill(taker, price, queue, qty);
            lemma_fill_both(taker, price, queue, qty);
            lemma_fill_both_order(taker, price, queue, qty);
            lemma_fill_trades(taker, price, queue, qty);
            if p == price {
                assert(taker.prevented(queue[k]));
            }
            if here.rest.len() == 0 && !here.cancelled {
                let others = levels.remove(price);
                let later = sweep(taker, others, here.qty);
                lemma_remove_distinct(levels, price);
                assert(stands(others, p, k));
                lemma_sweep_both_order(taker, others, here.qty, p, k);
                assert(s.trades == here.trades + later.trades);
                assert forall|i: int| 0 <= i < s.trades.len() implies {
                    let t = #[trigger] s.trades[i];
                    ||| t.price != p && at_least_as_good(side, t.price, p)
                    ||| t.price == p && position(levels[p], t.maker) < k
                } by {
                    if i < here.trades.len() {
                        assert(s.trades[i] == here.trades[i]);
                        assert(levels.contains_key(p));
                    } else {
                        assert(s.trades[i] == later.trades[i - here.trades.len()]);
                    }
                }
            }
        },
        _ => {},
    }
}

/// Among strangers no policy applies: a taker that owns nothing of a queue does
/// what it would do with no policy in force.
pub proof fn lemma_fill_strangers(taker: Taker, price: Price, queue: Seq<Order>, qty: Qty)
    requires
        forall|k: int| 0 <= k < queue.len() ==> (#[trigger] queue[k]).owner != taker.owner,
    ensures
        fill(taker, price, queue, qty) == fill(
            Taker { stp: SelfTrade::Allow, ..taker },
            price,
            queue,
            qty,
        ),
        !fill(taker, price, queue, qty).cancelled,
    decreases queue.len(),
{
    if qty > 0 && queue.len() > 0 && qty >= queue[0].qty {
        let tail = queue.drop_first();
        assert forall|k: int| 0 <= k < tail.len() implies (#[trigger] tail[k]).owner
            != taker.owner by {
            assert(tail[k] == queue[k + 1]);
        }
        lemma_fill_strangers(taker, price, tail, (qty - queue[0].qty) as Qty);
    }
}

/// The same, for a side.
pub proof fn lemma_sweep_strangers(taker: Taker, levels: Levels, qty: Qty)
    requires
        populated(levels),
        forall|p: Price, k: int| #[trigger]
            stands(levels, p, k) ==> levels[p][k].owner != taker.owner,
    ensures
        sweep(taker, levels, qty) == sweep(
            Taker { stp: SelfTrade::Allow, ..taker },
            levels,
            qty,
        ),
        !sweep(taker, levels, qty).cancelled,
    decreases levels.dom().len(),
{
    let side = taker.side.opposite();
    lemma_best(levels, side);
    match best(levels, side) {
        Some(price) if qty > 0 && taker.crosses(price) => {
            let queue = levels[price];
            let here = fill(taker, price, queue, qty);
            assert forall|k: int| 0 <= k < queue.len() implies (#[trigger] queue[k]).owner
                != taker.owner by {
                assert(stands(levels, price, k));
            }
            lemma_fill_strangers(taker, price, queue, qty);
            if here.rest.len() == 0 {
                let others = levels.remove(price);
                assert forall|p: Price, k: int| #[trigger] stands(
                    others,
                    p,
                    k,
                ) implies others[p][k].owner != taker.owner by {
                    assert(stands(levels, p, k));
                }
                lemma_sweep_strangers(taker, others, here.qty);
            }
        },
        _ => {},
    }
}

} // verus!
