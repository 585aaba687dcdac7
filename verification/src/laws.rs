//! What holds of the library as a whole.
//!
//! The contracts of the engines tie each operation to a step of the model
//! [`Book`]. Here the steps are related to each other: what a submit does to
//! the makers it meets, what one operation undoes of another, what every
//! operation keeps. Whatever is proved of the model holds of both engines.

use vstd::prelude::*;

use crate::engine::{Engine, SelfTrade, ANONYMOUS};
use crate::journal::{in_bounds, log_in_bounds, replays, submits, Event, Outcome, Report};
use crate::ledger::{
    all_distinct, any, in_priority, lemma_policy_idle, lemma_sweep_both, lemma_sweep_order,
    lemma_sweep_touched, lemma_sweep_trades, lemma_volume_some, position, settled, side_survivor,
    sound_trade, stands, volume, with_maker,
};
use crate::model::{
    at_least_as_good, back_of, best, ids_below, is_best, lemma_best, lemma_ids_below, lemma_sweep,
    lemma_total_push, populated, top, total, Book, Levels, Order, Place,
};
use crate::types::{Level2, OrderId, Price, Qty, Side};

verus! {

/// The book after an order of either kind: a limit order, or a market order
/// where there is no limit.
pub open spec fn submitted(
    book: Book,
    owner: OrderId,
    side: Side,
    limit: Option<Price>,
    qty: Qty,
) -> Book {
    match limit {
        Some(price) => book.limit(owner, side, price, qty),
        None => book.market(owner, side, qty),
    }
}

/// An order of either kind can be taken.
pub open spec fn submittable(
    book: Book,
    owner: OrderId,
    side: Side,
    limit: Option<Price>,
    qty: Qty,
) -> bool {
    match limit {
        Some(price) => book.limit_fits(owner, side, price, qty),
        None => book.market_fits(qty),
    }
}

/// An order rests in one place only.
pub proof fn place_is_unique(book: Book, id: OrderId, at: Place)
    requires
        book.wf(),
        book.rests_at(id, at),
    ensures
        book.rests(id),
        book.place(id) == at,
{
    assert(book.rests_at(id, book.place(id)));
    assert(book.holds(at) && book.holds(book.place(id)));
}

/// The orders of one side have distinct ids.
pub proof fn lemma_side_distinct(book: Book, side: Side)
    requires
        book.wf(),
    ensures
        all_distinct(book.levels(side)),
{
    let levels = book.levels(side);
    assert forall|p: Price, k: int, q: Price, l: int|
        #![trigger stands(levels, p, k), stands(levels, q, l)]
        stands(levels, p, k) && stands(levels, q, l) && levels[p][k].id == levels[q][l].id implies p
        == q && k == l by {
        assert(book.holds(Place { side, price: p, index: k }));
        assert(book.holds(Place { side, price: q, index: l }));
    }
}

/// Every operation keeps a book well-formed: in particular no bid ever reaches
/// an ask, no level is bare, and no two resting orders share an id.
pub proof fn operations_keep_books_well_formed(
    book: Book,
    owner: OrderId,
    side: Side,
    limit: Option<Price>,
    qty: Qty,
    id: OrderId,
    policy: SelfTrade,
)
    requires
        book.wf(),
    ensures
        submittable(book, owner, side, limit, qty) ==> submitted(book, owner, side, limit, qty).wf(),
        book.cancel(id).wf(),
        book.amend_fits(id, qty) ==> book.amend(id, qty).wf(),
        (Book { stp: policy, ..book }).wf(),
        Book::empty().wf(),
{
    if submittable(book, owner, side, limit, qty) {
        lemma_submitted(book, owner, side, limit, qty);
    }
    book.lemma_cancel_wf(id);
    if book.amend_fits(id, qty) {
        book.lemma_amend_wf(id, qty);
    }
    crate::model::lemma_stp_wf(book, policy);
}

/// What a submit makes of the two sides.
pub proof fn lemma_submitted(
    book: Book,
    owner: OrderId,
    side: Side,
    limit: Option<Price>,
    qty: Qty,
)
    requires
        book.wf(),
        submittable(book, owner, side, limit, qty),
    ensures
        ({
            let after = submitted(book, owner, side, limit, qty);
            &&& after.wf()
            &&& after.levels(side.opposite()) == book.matching(owner, side, limit, qty).levels
            &&& after.next_id == book.next_id + 1
            &&& after.stp == book.stp
            &&& populated(book.levels(side.opposite()))
            &&& all_distinct(book.levels(side.opposite()))
        }),
{
    match limit {
        Some(price) => book.lemma_limit_wf(owner, side, price, qty),
        None => book.lemma_market_wf(owner, side, qty),
    }
    book.lemma_populated(side.opposite());
    lemma_side_distinct(book, side.opposite());
}

/// Trades always print at the maker's price: each trade of a submit is with an
/// order that rests on the other side at the price of the trade, at a price
/// that the limit allows, and for a positive quantity that the maker has.
pub proof fn trades_print_at_the_makers_price(
    book: Book,
    owner: OrderId,
    side: Side,
    limit: Option<Price>,
    qty: Qty,
    i: int,
)
    requires
        book.wf(),
        0 <= i < book.matching(owner, side, limit, qty).trades.len(),
    ensures
        ({
            let trade = book.matching(owner, side, limit, qty).trades[i];
            let at = book.place(trade.maker);
            &&& trade.taker == book.next_id
            &&& book.rests(trade.maker)
            &&& 0 < trade.qty <= book.order(at).qty
            &&& at.side == side.opposite()
            &&& at.price == trade.price
            &&& limit matches Some(price) ==> at_least_as_good(side, price, trade.price)
        }),
{
    let other = side.opposite();
    let taker = book.taker(owner, side, limit);
    let levels = book.levels(other);
    book.lemma_populated(other);
    lemma_side_distinct(book, other);
    lemma_sweep_trades(taker, levels, qty);
    let trade = book.matching(owner, side, limit, qty).trades[i];
    assert(sound_trade(taker, levels, trade));
    let k = position(levels[trade.price], trade.maker);
    assert(0 <= k < levels[trade.price].len() && levels[trade.price][k].id == trade.maker);
    let at = Place { side: other, price: trade.price, index: k };
    place_is_unique(book, trade.maker, at);
    lemma_volume_some(
        book.matching(owner, side, limit, qty).trades,
        with_maker(trade.maker),
        i,
    );
    assert(stands(levels, at.price, at.index));
}

/// Price-time priority: of two trades of a submit, the first is at a price at
/// least as good for the taker, and if they are at the same price its maker
/// stood further ahead in the queue.
pub proof fn trades_follow_price_time_priority(
    book: Book,
    owner: OrderId,
    side: Side,
    limit: Option<Price>,
    qty: Qty,
    i: int,
    j: int,
)
    requires
        book.wf(),
        0 <= i < j < book.matching(owner, side, limit, qty).trades.len(),
    ensures
        ({
            let trades = book.matching(owner, side, limit, qty).trades;
            &&& at_least_as_good(side.opposite(), trades[i].price, trades[j].price)
            &&& trades[i].price == trades[j].price ==> book.place(trades[i].maker).index
                < book.place(trades[j].maker).index
        }),
{
    let other = side.opposite();
    let taker = book.taker(owner, side, limit);
    let levels = book.levels(other);
    let trades = book.matching(owner, side, limit, qty).trades;
    book.lemma_populated(other);
    lemma_side_distinct(book, other);
    lemma_sweep_trades(taker, levels, qty);
    lemma_sweep_order(taker, levels, qty);
    assert(in_priority(other, levels, trades[i], trades[j]));
    assert forall|n: int| 0 <= n < trades.len() implies book.place(
        (#[trigger] trades[n]).maker,
    ).index == position(levels[trades[n].price], trades[n].maker) by {
        let t = trades[n];
        assert(sound_trade(taker, levels, t));
        let k = position(levels[t.price], t.maker);
        assert(0 <= k < levels[t.price].len() && levels[t.price][k].id == t.maker);
        place_is_unique(book, t.maker, Place { side: other, price: t.price, index: k });
    }
}

/// A submit touches a level only once every better one is empty: as long as a
/// level is left, those at worse prices are as they were.
pub proof fn better_levels_go_first(
    book: Book,
    owner: OrderId,
    side: Side,
    limit: Option<Price>,
    qty: Qty,
    better: Price,
    worse: Price,
)
    requires
        book.wf(),
        submittable(book, owner, side, limit, qty),
        book.levels(side.opposite()).contains_key(worse),
        better != worse,
        at_least_as_good(side.opposite(), better, worse),
        submitted(book, owner, side, limit, qty).levels(side.opposite()).contains_key(better),
    ensures
        submitted(book, owner, side, limit, qty).queue(side.opposite(), worse) == book.queue(
            side.opposite(),
            worse,
        ),
{
    let other = side.opposite();
    let taker = book.taker(owner, side, limit);
    lemma_submitted(book, owner, side, limit, qty);
    lemma_sweep(taker, book.levels(other), qty);
    lemma_sweep_touched(taker, book.levels(other), qty);
    assert(book.levels(other).contains_key(better));
}

/// An order matches as much as it can: if something of a limit order comes to
/// rest, no order is left on the other side that it would trade with; if a
/// market order is left with something and was not cancelled by self-trade
/// prevention, nothing is left on the other side.
pub proof fn matching_is_exhaustive(
    book: Book,
    owner: OrderId,
    side: Side,
    limit: Option<Price>,
    qty: Qty,
)
    requires
        book.wf(),
        submittable(book, owner, side, limit, qty),
        book.matching(owner, side, limit, qty).qty > 0,
        !book.matching(owner, side, limit, qty).cancelled,
    ensures
        forall|p: Price| #[trigger]
            submitted(book, owner, side, limit, qty).levels(side.opposite()).contains_key(p) ==> {
                limit matches Some(price) && !at_least_as_good(side, price, p)
            },
        limit is None ==> submitted(book, owner, side, limit, qty).levels(side.opposite())
            == Map::<Price, Seq<Order>>::empty(),
{
    let other = side.opposite();
    let taker = book.taker(owner, side, limit);
    let after = submitted(book, owner, side, limit, qty);
    lemma_submitted(book, owner, side, limit, qty);
    lemma_sweep(taker, book.levels(other), qty);
    assert forall|p: Price| #[trigger] after.levels(other).contains_key(p) implies {
        limit matches Some(price) && !at_least_as_good(side, price, p)
    } by {
        assert(!taker.crosses(p));
    }
    if limit is None {
        assert(after.levels(other) =~= Map::<Price, Seq<Order>>::empty());
    }
}

/// Nothing is lost: what an order trades and what it has left is what it was
/// for. Unless self-trade prevention cancelled it, all that is left of a limit
/// order rests; all that is left of a market order is reported.
pub proof fn submitted_quantity_is_conserved(
    book: Book,
    owner: OrderId,
    side: Side,
    limit: Option<Price>,
    price: Price,
    qty: Qty,
)
    requires
        book.wf(),
    ensures
        ({
            let s = book.matching(owner, side, limit, qty);
            volume(s.trades, any()) + s.qty == qty
        }),
        ({
            let receipt = book.limit_receipt(owner, side, price, qty);
            let cancelled = book.matching(owner, side, Some(price), qty).cancelled;
            if cancelled {
                receipt.resting == 0 && volume(receipt.trades, any()) <= qty
            } else {
                volume(receipt.trades, any()) + receipt.resting == qty
            }
        }),
        ({
            let receipt = book.market_receipt(owner, side, qty);
            volume(receipt.trades, any()) + receipt.resting == qty
        }),
{
    let other = side.opposite();
    book.lemma_populated(other);
    lemma_side_distinct(book, other);
    lemma_sweep_trades(book.taker(owner, side, limit), book.levels(other), qty);
    lemma_sweep_trades(book.taker(owner, side, Some(price)), book.levels(other), qty);
    lemma_sweep_trades(book.taker(owner, side, None), book.levels(other), qty);
}

/// Where an order of the other side is after a submit.
pub proof fn lemma_survivor(
    book: Book,
    owner: OrderId,
    side: Side,
    limit: Option<Price>,
    qty: Qty,
    id: OrderId,
)
    requires
        book.wf(),
        submittable(book, owner, side, limit, qty),
        book.rests(id),
        book.place(id).side == side.opposite(),
    ensures
        ({
            let after = submitted(book, owner, side, limit, qty);
            let at = book.place(id);
            let s = book.matching(owner, side, limit, qty);
            let gone = book.levels(at.side)[at.price].len() - s.levels[at.price].len();
            let left = side_survivor(book.levels(at.side), s.levels, at.price, at.index);
            &&& stands(book.levels(at.side), at.price, at.index)
            &&& settled(book.taker(owner, side, limit), s.trades, book.order(at), left)
            &&& after.rests(id) <==> left is Some
            &&& left matches Some(o) ==> {
                &&& after.place(id) == (Place { index: at.index - gone, ..at })
                &&& after.order(after.place(id)) == o
            }
        }),
{
    let other = side.opposite();
    let taker = book.taker(owner, side, limit);
    let after = submitted(book, owner, side, limit, qty);
    let levels = book.levels(other);
    let s = book.matching(owner, side, limit, qty);
    let at = book.place(id);
    assert(book.rests_at(id, at));
    lemma_submitted(book, owner, side, limit, qty);
    lemma_sweep(taker, levels, qty);
    lemma_sweep_trades(taker, levels, qty);
    assert(stands(levels, at.price, at.index));
    let left = side_survivor(levels, s.levels, at.price, at.index);
    let gone = levels[at.price].len() - s.levels[at.price].len();
    if left is Some {
        assert(s.levels.contains_key(at.price));
        assert(back_of(s.levels[at.price], levels[at.price]));
        let now = Place { index: at.index - gone, ..at };
        assert(after.rests_at(id, now));
        place_is_unique(after, id, now);
    }
    if after.rests(id) {
        let now = after.place(id);
        assert(after.rests_at(id, now));
        assert(id < book.next_id);
        if now.side == other {
            assert(s.levels.contains_key(now.price));
            let rest = s.levels[now.price];
            let queue = levels[now.price];
            assert(back_of(rest, queue));
            assert(rest[now.index].id == id);
            let was = Place { index: now.index + queue.len() - rest.len(), ..now };
            assert(book.rests_at(id, was));
            place_is_unique(book, id, was);
        } else {
            // Nothing comes to the own side but the order itself.
            assert(book.rests_at(id, now)) by {
                assert(book.levels(side).contains_key(now.price) && now.index
                    < book.levels(side)[now.price].len() && after.order(now)
                    == book.order(now)) by {
                    assert(after.order(now).id != book.next_id);
                }
            }
            place_is_unique(book, id, now);
        }
    }
}

/// Every maker is accounted for: what a resting order of the other side traded
/// comes off its quantity and nothing else about it changes; if all of it
/// traded it is gone from the book (so it cannot be cancelled any more), and
/// otherwise it still rests, unless self-trade prevention removed it.
pub proof fn makers_are_accounted_for(
    book: Book,
    owner: OrderId,
    side: Side,
    limit: Option<Price>,
    qty: Qty,
    id: OrderId,
)
    requires
        book.wf(),
        submittable(book, owner, side, limit, qty),
        book.rests(id),
        book.place(id).side == side.opposite(),
    ensures
        ({
            let after = submitted(book, owner, side, limit, qty);
            let taker = book.taker(owner, side, limit);
            let at = book.place(id);
            let now = after.place(id);
            let order = book.order(at);
            let t = volume(book.matching(owner, side, limit, qty).trades, with_maker(id));
            &&& t <= order.qty
            &&& t == order.qty ==> !after.rests(id)
            &&& t < order.qty && !(taker.prevented(order) && taker.drops_maker()) ==> after.rests(id)
            &&& after.rests(id) ==> {
                &&& now.side == at.side
                &&& now.price == at.price
                &&& after.order(now) == (Order { qty: (order.qty - t) as Qty, ..order })
            }
        }),
{
    lemma_survivor(book, owner, side, limit, qty, id);
    assert(book.holds(book.place(id)));
}

/// Of two orders in the same queue, both of which a submit leaves, the one that
/// was ahead still is.
pub proof fn survivors_keep_their_order(
    book: Book,
    owner: OrderId,
    side: Side,
    limit: Option<Price>,
    qty: Qty,
    first: OrderId,
    second: OrderId,
)
    requires
        book.wf(),
        submittable(book, owner, side, limit, qty),
        ahead(book, first, second),
        book.place(first).side == side.opposite(),
        submitted(book, owner, side, limit, qty).rests(first),
        submitted(book, owner, side, limit, qty).rests(second),
    ensures
        ahead(submitted(book, owner, side, limit, qty), first, second),
{
    lemma_survivor(book, owner, side, limit, qty, first);
    lemma_survivor(book, owner, side, limit, qty, second);
}

/// Two orders rest in the same queue, `first` ahead of `second`.
pub open spec fn ahead(book: Book, first: OrderId, second: OrderId) -> bool {
    let a = book.place(first);
    let b = book.place(second);
    &&& book.rests(first)
    &&& book.rests(second)
    &&& a.side == b.side
    &&& a.price == b.price
    &&& a.index < b.index
}

/// A submit leaves every order of its own side where and as it was.
pub proof fn own_side_is_untouched(
    book: Book,
    owner: OrderId,
    side: Side,
    limit: Option<Price>,
    qty: Qty,
    id: OrderId,
)
    requires
        book.wf(),
        submittable(book, owner, side, limit, qty),
        book.rests(id),
        book.place(id).side == side,
    ensures
        ({
            let after = submitted(book, owner, side, limit, qty);
            &&& after.rests(id)
            &&& after.place(id) == book.place(id)
            &&& after.order(after.place(id)) == book.order(book.place(id))
        }),
{
    let after = submitted(book, owner, side, limit, qty);
    let at = book.place(id);
    assert(book.rests_at(id, at));
    lemma_submitted(book, owner, side, limit, qty);
    assert(after.rests_at(id, at));
    place_is_unique(after, id, at);
}

/// What is left of a limit order rests on its own side, at its price, at the
/// back of the queue, under its new id. If nothing is left, it does not rest.
pub proof fn remainders_rest_at_the_back(
    book: Book,
    owner: OrderId,
    side: Side,
    price: Price,
    qty: Qty,
)
    requires
        book.wf(),
        book.limit_fits(owner, side, price, qty),
    ensures
        ({
            let after = book.limit(owner, side, price, qty);
            let resting = book.limit_receipt(owner, side, price, qty).resting;
            let order = Order { id: book.next_id, owner, qty: resting };
            &&& after.rests(book.next_id) <==> resting > 0
            &&& resting > 0 ==> {
                &&& after.place(book.next_id) == (Place {
                    side,
                    price,
                    index: book.queue(side, price).len() as int,
                })
                &&& after.order(after.place(book.next_id)) == order
                &&& after.queue(side, price) == book.queue(side, price).push(order)
                &&& after.depth(side, price) == book.depth(side, price) + resting
            }
        }),
{
    let after = book.limit(owner, side, price, qty);
    let resting = book.limit_receipt(owner, side, price, qty).resting;
    let order = Order { id: book.next_id, owner, qty: resting };
    lemma_submitted(book, owner, side, Some(price), qty);
    if resting > 0 {
        let at = Place { side, price, index: book.queue(side, price).len() as int };
        assert(after.rests_at(book.next_id, at));
        place_is_unique(after, book.next_id, at);
        lemma_total_push(book.queue(side, price), order);
    } else {
        lemma_no_newcomer(book, owner, side, Some(price), qty);
    }
}

/// Without a remainder, the new id does not rest.
proof fn lemma_no_newcomer(
    book: Book,
    owner: OrderId,
    side: Side,
    limit: Option<Price>,
    qty: Qty,
)
    requires
        book.wf(),
        submittable(book, owner, side, limit, qty),
        submitted(book, owner, side, limit, qty).levels(side) == book.levels(side),
    ensures
        !submitted(book, owner, side, limit, qty).rests(book.next_id),
{
    let other = side.opposite();
    let after = submitted(book, owner, side, limit, qty);
    lemma_submitted(book, owner, side, limit, qty);
    lemma_sweep(book.taker(owner, side, limit), book.levels(other), qty);
    if after.rests(book.next_id) {
        let now = after.place(book.next_id);
        assert(after.rests_at(book.next_id, now));
        if now.side == other {
            let rest = after.levels(other)[now.price];
            let queue = book.levels(other)[now.price];
            assert(back_of(rest, queue));
            assert(rest[now.index].id == book.next_id);
            assert(book.holds(Place { index: now.index + queue.len() - rest.len(), ..now }));
        } else {
            assert(book.holds(now));
        }
    }
}

/// A market order never rests: its own side stays as it was, and its id is not
/// on the book.
pub proof fn market_orders_never_rest(book: Book, owner: OrderId, side: Side, qty: Qty)
    requires
        book.wf(),
        book.market_fits(qty),
    ensures
        book.market(owner, side, qty).levels(side) == book.levels(side),
        !book.market(owner, side, qty).rests(book.next_id),
{
    lemma_no_newcomer(book, owner, side, None, qty);
}

/// Self-trade prevention: under any policy but [`SelfTrade::Allow`], no trade
/// of an order is with a resting order of the same owner.
pub proof fn self_trades_are_prevented(
    book: Book,
    owner: OrderId,
    side: Side,
    limit: Option<Price>,
    qty: Qty,
    i: int,
)
    requires
        book.wf(),
        book.stp != SelfTrade::Allow,
        owner != ANONYMOUS,
        0 <= i < book.matching(owner, side, limit, qty).trades.len(),
    ensures
        ({
            let trade = book.matching(owner, side, limit, qty).trades[i];
            book.order(book.place(trade.maker)).owner != owner
        }),
{
    let other = side.opposite();
    let taker = book.taker(owner, side, limit);
    let levels = book.levels(other);
    let trades = book.matching(owner, side, limit, qty).trades;
    let trade = trades[i];
    trades_print_at_the_makers_price(book, owner, side, limit, qty, i);
    book.lemma_populated(other);
    lemma_side_distinct(book, other);
    lemma_sweep_trades(taker, levels, qty);
    let at = book.place(trade.maker);
    assert(book.rests_at(trade.maker, at));
    assert(stands(levels, at.price, at.index));
    lemma_volume_some(trades, with_maker(trade.maker), i);
}

/// An anonymous order never matches itself, and where self-trades are allowed
/// nothing is prevented: the order does what it would do with no policy in
/// force, and is not cancelled.
pub proof fn anonymous_orders_ignore_the_policy(
    book: Book,
    owner: OrderId,
    side: Side,
    limit: Option<Price>,
    qty: Qty,
)
    requires
        book.wf(),
        book.stp == SelfTrade::Allow || owner == ANONYMOUS,
    ensures
        book.matching(owner, side, limit, qty) == (Book {
            stp: SelfTrade::Allow,
            ..book
        }).matching(owner, side, limit, qty),
        !book.matching(owner, side, limit, qty).cancelled,
{
    let other = side.opposite();
    book.lemma_populated(other);
    lemma_policy_idle(book.taker(owner, side, limit), book.levels(other), qty);
}

/// [`SelfTrade::CancelResting`] keeps matching the aggressor: it is never
/// cancelled.
pub proof fn cancel_resting_keeps_the_aggressor(
    book: Book,
    owner: OrderId,
    side: Side,
    limit: Option<Price>,
    qty: Qty,
)
    requires
        book.wf(),
        book.stp == SelfTrade::CancelResting,
    ensures
        !book.matching(owner, side, limit, qty).cancelled,
{
    let other = side.opposite();
    book.lemma_populated(other);
    lemma_side_distinct(book, other);
    lemma_sweep_trades(book.taker(owner, side, limit), book.levels(other), qty);
}

/// [`SelfTrade::CancelAggressor`] leaves the maker resting: every order of the
/// same owner on the other side still rests, at the same price and with the
/// same quantity.
pub proof fn cancel_aggressor_keeps_the_makers(
    book: Book,
    owner: OrderId,
    side: Side,
    limit: Option<Price>,
    qty: Qty,
    id: OrderId,
)
    requires
        book.wf(),
        submittable(book, owner, side, limit, qty),
        book.stp == SelfTrade::CancelAggressor,
        owner != ANONYMOUS,
        book.rests(id),
        book.place(id).side == side.opposite(),
        book.order(book.place(id)).owner == owner,
    ensures
        ({
            let after = submitted(book, owner, side, limit, qty);
            &&& after.rests(id)
            &&& after.place(id).price == book.place(id).price
            &&& after.order(after.place(id)) == book.order(book.place(id))
        }),
{
    lemma_survivor(book, owner, side, limit, qty, id);
    assert(book.holds(book.place(id)));
}

/// [`SelfTrade::CancelBoth`] cancels both orders: if it cancels the aggressor,
/// one resting order of the same owner (the result) goes with it, and every
/// other one stays; if it does not, all of them stay.
pub proof fn cancel_both_takes_one_maker(
    book: Book,
    owner: OrderId,
    side: Side,
    limit: Option<Price>,
    qty: Qty,
) -> (hit: OrderId)
    requires
        book.wf(),
        submittable(book, owner, side, limit, qty),
        book.stp == SelfTrade::CancelBoth,
        owner != ANONYMOUS,
    ensures
        ({
            let after = submitted(book, owner, side, limit, qty);
            let cancelled = book.matching(owner, side, limit, qty).cancelled;
            &&& cancelled ==> {
                &&& book.rests(hit)
                &&& book.place(hit).side == side.opposite()
                &&& book.order(book.place(hit)).owner == owner
                &&& !after.rests(hit)
            }
            &&& forall|id: OrderId| #[trigger]
                book.rests(id) && book.place(id).side == side.opposite() && book.order(
                    book.place(id),
                ).owner == owner && !(cancelled && id == hit) ==> after.rests(id)
        }),
{
    let other = side.opposite();
    let taker = book.taker(owner, side, limit);
    let levels = book.levels(other);
    let s = book.matching(owner, side, limit, qty);
    let after = submitted(book, owner, side, limit, qty);
    lemma_submitted(book, owner, side, limit, qty);
    let (p, k) = lemma_sweep_both(taker, levels, qty);
    let hit = levels[p][k].id;
    if s.cancelled {
        let at = Place { side: other, price: p, index: k };
        assert(book.rests_at(hit, at));
        place_is_unique(book, hit, at);
        lemma_survivor(book, owner, side, limit, qty, hit);
    }
    assert forall|id: OrderId| #[trigger]
        book.rests(id) && book.place(id).side == other && book.order(book.place(id)).owner == owner
            && !(s.cancelled && id == hit) implies after.rests(id) by {
        let at = book.place(id);
        assert(book.rests_at(id, at));
        lemma_survivor(book, owner, side, limit, qty, id);
        assert(stands(levels, at.price, at.index));
    }
    hit
}

/// Under a policy that cancels the aggressor, an order that could reach one of
/// its owner's own on the other side is cancelled, unless it is filled before
/// it gets there.
pub proof fn own_makers_stop_the_aggressor(
    book: Book,
    owner: OrderId,
    side: Side,
    limit: Option<Price>,
    qty: Qty,
    id: OrderId,
)
    requires
        book.wf(),
        submittable(book, owner, side, limit, qty),
        book.stp == SelfTrade::CancelAggressor || book.stp == SelfTrade::CancelBoth,
        owner != ANONYMOUS,
        book.rests(id),
        book.place(id).side == side.opposite(),
        book.order(book.place(id)).owner == owner,
        limit matches Some(price) ==> at_least_as_good(side, price, book.place(id).price),
    ensures
        book.matching(owner, side, limit, qty).cancelled || book.matching(
            owner,
            side,
            limit,
            qty,
        ).qty == 0,
{
    let s = book.matching(owner, side, limit, qty);
    let after = submitted(book, owner, side, limit, qty);
    if !s.cancelled && s.qty > 0 {
        if book.stp == SelfTrade::CancelAggressor {
            cancel_aggressor_keeps_the_makers(book, owner, side, limit, qty, id);
        } else {
            cancel_both_takes_one_maker(book, owner, side, limit, qty);
        }
        lemma_survivor(book, owner, side, limit, qty, id);
        assert(after.rests_at(id, after.place(id)));
        matching_is_exhaustive(book, owner, side, limit, qty);
        assert(after.levels(side.opposite()).contains_key(book.place(id).price));
    }
}

/// A remainder that self-trade prevention cancelled does not rest.
pub proof fn cancelled_remainders_do_not_rest(
    book: Book,
    owner: OrderId,
    side: Side,
    price: Price,
    qty: Qty,
)
    requires
        book.wf(),
        book.limit_fits(owner, side, price, qty),
        book.matching(owner, side, Some(price), qty).cancelled,
    ensures
        book.limit_receipt(owner, side, price, qty).resting == 0,
        !book.limit(owner, side, price, qty).rests(book.next_id),
{
    remainders_rest_at_the_back(book, owner, side, price, qty);
}

/// Where each order is after one has been cancelled.
proof fn lemma_cancelled(book: Book, id: OrderId, other: OrderId)
    requires
        book.wf(),
        book.rests(id),
        id != other,
    ensures
        ({
            let after = book.cancel(id);
            let gap = book.place(id);
            let at = book.place(other);
            let behind = at.side == gap.side && at.price == gap.price && at.index > gap.index;
            &&& after.wf()
            &&& after.rests(other) <==> book.rests(other)
            &&& book.rests(other) ==> {
                &&& after.place(other) == (Place {
                    index: if behind {
                        at.index - 1
                    } else {
                        at.index
                    },
                    ..at
                })
                &&& after.order(after.place(other)) == book.order(at)
            }
        }),
{
    let after = book.cancel(id);
    let gap = book.place(id);
    assert(book.rests_at(id, gap));
    let queue = book.levels(gap.side)[gap.price];
    let rest = queue.remove(gap.index);
    book.lemma_cancel_wf(id);
    if book.rests(other) {
        let at = book.place(other);
        assert(book.rests_at(other, at));
        let here = at.side == gap.side && at.price == gap.price;
        let now = Place { index: if here && at.index > gap.index { at.index - 1 } else { at.index }, ..at };
        if here {
            assert(rest[now.index] == queue[at.index]);
        }
        assert(after.rests_at(other, now));
        place_is_unique(after, other, now);
    }
    if after.rests(other) {
        let now = after.place(other);
        assert(after.rests_at(other, now));
        let here = now.side == gap.side && now.price == gap.price;
        let was = Place {
            index: if here && now.index >= gap.index { now.index + 1 } else { now.index },
            ..now
        };
        if here {
            assert(rest[now.index] == queue[was.index]);
        }
        assert(book.rests_at(other, was));
    }
}

/// Cancelling removes the order: it does not rest any more, so a second cancel
/// finds nothing and changes nothing.
pub proof fn cancelling_twice_is_cancelling_once(book: Book, id: OrderId)
    requires
        book.wf(),
    ensures
        !book.cancel(id).rests(id),
        book.cancel(id).cancel(id) == book.cancel(id),
{
    if book.rests(id) {
        let after = book.cancel(id);
        let gap = book.place(id);
        assert(book.rests_at(id, gap));
        let queue = book.levels(gap.side)[gap.price];
        let rest = queue.remove(gap.index);
        if after.rests(id) {
            let now = after.place(id);
            assert(after.rests_at(id, now));
            let here = now.side == gap.side && now.price == gap.price;
            let was = Place {
                index: if here && now.index >= gap.index { now.index + 1 } else { now.index },
                ..now
            };
            if here {
                assert(rest[now.index] == queue[was.index]);
            }
            assert(book.rests_at(id, was));
            place_is_unique(book, id, was);
        }
    }
}

/// Cancelling an order leaves every other one as it was, at its side and price,
/// and in its order with the others of its queue.
pub proof fn cancelling_spares_the_others(book: Book, id: OrderId, first: OrderId, second: OrderId)
    requires
        book.wf(),
        first != id,
        second != id,
    ensures
        ({
            let after = book.cancel(id);
            &&& after.rests(first) <==> book.rests(first)
            &&& book.rests(first) ==> {
                &&& after.place(first).side == book.place(first).side
                &&& after.place(first).price == book.place(first).price
                &&& after.order(after.place(first)) == book.order(book.place(first))
            }
            &&& ahead(after, first, second) <==> ahead(book, first, second)
        }),
{
    if book.rests(id) {
        lemma_cancelled(book, id, first);
        lemma_cancelled(book, id, second);
        let gap = book.place(id);
        assert(book.rests_at(id, gap));
        if book.rests(first) {
            assert(book.rests_at(first, book.place(first)));
        }
        if book.rests(second) {
            assert(book.rests_at(second, book.place(second)));
        }
    }
}

/// Cancelling undoes a submit that traded with nothing: the book is as it was,
/// but for the id that was handed out.
pub proof fn cancelling_undoes_an_idle_submit(
    book: Book,
    owner: OrderId,
    side: Side,
    price: Price,
    qty: Qty,
)
    requires
        book.wf(),
        book.limit_fits(owner, side, price, qty),
        forall|p: Price| #[trigger]
            book.levels(side.opposite()).contains_key(p) ==> !at_least_as_good(side, price, p),
    ensures
        book.limit_receipt(owner, side, price, qty).trades.len() == 0,
        book.limit_receipt(owner, side, price, qty).resting == qty,
        book.limit(owner, side, price, qty).cancel(book.next_id) == (Book {
            next_id: (book.next_id + 1) as OrderId,
            ..book
        }),
{
    let other = side.opposite();
    let after = book.limit(owner, side, price, qty);
    let queue = book.queue(side, price);
    let order = Order { id: book.next_id, owner, qty };
    book.lemma_populated(other);
    lemma_best(book.levels(other), other);
    assert(book.matching(owner, side, Some(price), qty).levels == book.levels(other));
    remainders_rest_at_the_back(book, owner, side, price, qty);
    assert(queue.push(order).remove(queue.len() as int) =~= queue);
    let back = after.cancel(book.next_id);
    assert(back.levels(side) =~= book.levels(side));
    assert(back.levels(other) =~= book.levels(other));
    assert(back =~= (Book { next_id: (book.next_id + 1) as OrderId, ..book }));
}

/// Cancelling or amending an order that does not rest changes nothing.
pub proof fn missing_orders_change_nothing(book: Book, id: OrderId, new_qty: Qty)
    requires
        !book.rests(id),
    ensures
        book.cancel(id) == book,
        book.amend(id, new_qty) == book,
{
}

/// Reducing an order keeps its time priority: every order of the book, the
/// reduced one too, stays in its place, and only its quantity changes.
pub proof fn amending_down_keeps_every_place(book: Book, id: OrderId, new_qty: Qty, other: OrderId)
    requires
        book.wf(),
        book.amend_fits(id, new_qty),
        book.rests(id),
        new_qty <= book.order(book.place(id)).qty,
    ensures
        ({
            let after = book.amend(id, new_qty);
            &&& after.rests(id)
            &&& after.place(id) == book.place(id)
            &&& after.order(after.place(id)) == (Order { qty: new_qty, ..book.order(book.place(id)) })
            &&& after.rests(other) <==> book.rests(other)
            &&& book.rests(other) && other != id ==> {
                &&& after.place(other) == book.place(other)
                &&& after.order(after.place(other)) == book.order(book.place(other))
            }
        }),
{
    let after = book.amend(id, new_qty);
    let at = book.place(id);
    assert(book.rests_at(id, at));
    book.lemma_amend_wf(id, new_qty);
    assert(after.rests_at(id, at));
    place_is_unique(after, id, at);
    if book.rests(other) {
        let there = book.place(other);
        assert(book.rests_at(other, there));
        assert(after.rests_at(other, there));
        place_is_unique(after, other, there);
    }
    if after.rests(other) {
        let there = after.place(other);
        assert(after.rests_at(other, there));
        assert(book.rests_at(other, there));
    }
}

/// Amending an order to the quantity it has changes nothing.
pub proof fn amending_to_the_same_changes_nothing(book: Book, id: OrderId)
    requires
        book.wf(),
        book.rests(id),
    ensures
        book.amend(id, book.order(book.place(id)).qty) == book,
{
    let at = book.place(id);
    assert(book.rests_at(id, at));
    let queue = book.levels(at.side)[at.price];
    assert(queue.update(at.index, book.order(at)) =~= queue);
    assert(book.levels(at.side).insert(at.price, queue) =~= book.levels(at.side));
    assert(book.amend(id, book.order(at).qty) =~= book);
}

/// Increasing an order forfeits its priority: it keeps its id, its owner, its
/// side and its price, and goes to the back of its queue; the others stay as
/// they were and in their order.
pub proof fn amending_up_goes_to_the_back(
    book: Book,
    id: OrderId,
    new_qty: Qty,
    first: OrderId,
    second: OrderId,
)
    requires
        book.wf(),
        book.amend_fits(id, new_qty),
        book.rests(id),
        new_qty > book.order(book.place(id)).qty,
        first != id,
        second != id,
    ensures
        ({
            let after = book.amend(id, new_qty);
            let at = book.place(id);
            let now = after.place(id);
            &&& after.rests(id)
            &&& now.side == at.side
            &&& now.price == at.price
            &&& now.index == after.levels(now.side)[now.price].len() - 1
            &&& after.order(now) == (Order { qty: new_qty, ..book.order(at) })
            &&& after.rests(first) <==> book.rests(first)
            &&& book.rests(first) ==> {
                &&& after.place(first).side == book.place(first).side
                &&& after.place(first).price == book.place(first).price
                &&& after.order(after.place(first)) == book.order(book.place(first))
            }
            &&& ahead(after, first, second) <==> ahead(book, first, second)
        }),
{
    let after = book.amend(id, new_qty);
    let at = book.place(id);
    assert(book.rests_at(id, at));
    let queue = book.levels(at.side)[at.price];
    let rest = queue.remove(at.index);
    let now = Place { index: rest.len() as int, ..at };
    book.lemma_amend_wf(id, new_qty);
    assert(after.rests_at(id, now));
    place_is_unique(after, id, now);
    lemma_moved_back(book, id, new_qty, first);
    lemma_moved_back(book, id, new_qty, second);
    if book.rests(first) {
        assert(book.rests_at(first, book.place(first)));
    }
    if book.rests(second) {
        assert(book.rests_at(second, book.place(second)));
    }
}

/// Where each order is after another one has gone to the back of its queue.
proof fn lemma_moved_back(book: Book, id: OrderId, new_qty: Qty, other: OrderId)
    requires
        book.wf(),
        book.amend_fits(id, new_qty),
        book.rests(id),
        new_qty > book.order(book.place(id)).qty,
        id != other,
    ensures
        ({
            let after = book.amend(id, new_qty);
            let gap = book.place(id);
            let at = book.place(other);
            let behind = at.side == gap.side && at.price == gap.price && at.index > gap.index;
            &&& after.rests(other) <==> book.rests(other)
            &&& book.rests(other) ==> {
                &&& after.place(other) == (Place {
                    index: if behind {
                        at.index - 1
                    } else {
                        at.index
                    },
                    ..at
                })
                &&& after.order(after.place(other)) == book.order(at)
            }
        }),
{
    let after = book.amend(id, new_qty);
    let gap = book.place(id);
    assert(book.rests_at(id, gap));
    let queue = book.levels(gap.side)[gap.price];
    let rest = queue.remove(gap.index);
    book.lemma_amend_wf(id, new_qty);
    if book.rests(other) {
        let at = book.place(other);
        assert(book.rests_at(other, at));
        let here = at.side == gap.side && at.price == gap.price;
        let now = Place { index: if here && at.index > gap.index { at.index - 1 } else { at.index }, ..at };
        if here {
            assert(rest[now.index] == queue[at.index]);
        }
        assert(after.rests_at(other, now));
        place_is_unique(after, other, now);
    }
    if after.rests(other) {
        let now = after.place(other);
        assert(after.rests_at(other, now));
        let here = now.side == gap.side && now.price == gap.price;
        let was = Place {
            index: if here && now.index >= gap.index { now.index + 1 } else { now.index },
            ..now
        };
        if here {
            assert(now.index != rest.len());
            assert(rest[now.index] == queue[was.index]);
        }
        assert(book.rests_at(other, was));
    }
}

/// Ids are fresh and increase: the id that a submit hands out is above that of
/// every order on the book, every later one is above it, and no other operation
/// hands out any.
pub proof fn ids_are_fresh(
    book: Book,
    owner: OrderId,
    side: Side,
    limit: Option<Price>,
    qty: Qty,
    id: OrderId,
)
    requires
        book.wf(),
        submittable(book, owner, side, limit, qty),
    ensures
        !book.rests(book.next_id),
        book.rests(id) ==> id < book.next_id,
        submitted(book, owner, side, limit, qty).next_id == book.next_id + 1,
        book.cancel(id).next_id == book.next_id,
        book.amend(id, qty).next_id == book.next_id,
{
    lemma_submitted(book, owner, side, limit, qty);
    if book.rests(book.next_id) {
        assert(book.rests_at(book.next_id, book.place(book.next_id)));
    }
    if book.rests(id) {
        assert(book.rests_at(id, book.place(id)));
    }
}

/// No level is bare: there is one at a price exactly if quantity rests there.
pub proof fn levels_are_never_bare(book: Book, side: Side, price: Price)
    requires
        book.wf(),
    ensures
        book.levels(side).contains_key(price) <==> book.depth(side, price) > 0,
{
    if book.levels(side).contains_key(price) {
        let queue = book.levels(side)[price];
        assert(book.holds(Place { side, price, index: queue.len() - 1 }));
    }
}

/// The best prices are the extremes of their sides, there is a spread exactly
/// if both sides have orders, and it is positive.
pub proof fn spread_is_positive(book: Book)
    requires
        book.wf(),
    ensures
        book.best_bid() matches Some(bid) ==> is_best(book.bids, Side::Bid, bid),
        book.best_ask() matches Some(ask) ==> is_best(book.asks, Side::Ask, ask),
        book.best_bid() is None <==> book.bids == Map::<Price, Seq<Order>>::empty(),
        book.best_ask() is None <==> book.asks == Map::<Price, Seq<Order>>::empty(),
        book.spread() is Some <==> book.best_bid() is Some && book.best_ask() is Some,
        book.spread() matches Some(gap) ==> gap > 0 && book.best_ask() == Some(
            (book.best_bid()->0 + gap) as Price,
        ),
{
    lemma_best(book.bids, Side::Bid);
    lemma_best(book.asks, Side::Ask);
    if book.best_bid() is None {
        assert(book.bids =~= Map::<Price, Seq<Order>>::empty());
    }
    if book.best_ask() is None {
        assert(book.asks =~= Map::<Price, Seq<Order>>::empty());
    }
}

/// A snapshot of a side is ordered, aggregated and limited: it shows as many
/// levels as asked for, or all there are if there are fewer; each with the
/// quantity that rests at its price; from the best price on; and no level that
/// it leaves out is better than one it shows.
pub proof fn snapshots_are_ordered_and_aggregated(book: Book, side: Side, depth: nat)
    requires
        book.wf(),
    ensures
        ({
            let levels = book.levels(side);
            let shown = top(levels, side, depth);
            &&& shown.len() == (if depth < levels.dom().len() {
                depth
            } else {
                levels.dom().len()
            })
            &&& depth > 0 ==> best(levels, side) == (if shown.len() > 0 {
                Some(shown[0].price)
            } else {
                None
            })
            &&& forall|i: int|
                #![trigger shown[i]]
                0 <= i < shown.len() ==> levels.contains_key(shown[i].price) && shown[i].qty
                    == book.depth(side, shown[i].price)
            &&& forall|i: int, j: int|
                #![trigger shown[i], shown[j]]
                0 <= i < j < shown.len() ==> shown[i].price != shown[j].price && at_least_as_good(
                    side,
                    shown[i].price,
                    shown[j].price,
                )
            &&& forall|i: int, p: Price|
                #![trigger shown[i], levels.contains_key(p)]
                0 <= i < shown.len() && levels.contains_key(p) ==> at_least_as_good(
                    side,
                    shown[i].price,
                    p,
                ) || exists|j: int| 0 <= j < i && (#[trigger] shown[j]).price == p
        }),
{
    let levels = book.levels(side);
    assert forall|p: Price| #[trigger] levels.contains_key(p) implies total(levels[p])
        <= u64::MAX by {
        assert(book.levels(side).contains_key(p));
    }
    lemma_top_shown(levels, side, depth);
    let shown = top(levels, side, depth);
    assert forall|i: int|
        #![trigger shown[i]]
        0 <= i < shown.len() implies levels.contains_key(shown[i].price) && shown[i].qty
        == book.depth(side, shown[i].price) by {}
}

/// What the top of a side shows.
proof fn lemma_top_shown(levels: Levels, side: Side, depth: nat)
    requires
        levels.dom().finite(),
        forall|p: Price| #[trigger] levels.contains_key(p) ==> total(levels[p]) <= u64::MAX,
    ensures
        ({
            let shown = top(levels, side, depth);
            &&& shown.len() == (if depth < levels.dom().len() {
                depth
            } else {
                levels.dom().len()
            })
            &&& forall|i: int|
                #![trigger shown[i]]
                0 <= i < shown.len() ==> levels.contains_key(shown[i].price) && shown[i].qty
                    == total(levels[shown[i].price])
            &&& forall|i: int, j: int|
                #![trigger shown[i], shown[j]]
                0 <= i < j < shown.len() ==> shown[i].price != shown[j].price && at_least_as_good(
                    side,
                    shown[i].price,
                    shown[j].price,
                )
            &&& forall|i: int, p: Price|
                #![trigger shown[i], levels.contains_key(p)]
                0 <= i < shown.len() && levels.contains_key(p) ==> at_least_as_good(
                    side,
                    shown[i].price,
                    p,
                ) || exists|j: int| 0 <= j < i && (#[trigger] shown[j]).price == p
        }),
    decreases depth,
{
    let shown = top(levels, side, depth);
    lemma_best(levels, side);
    if depth > 0 {
        if let Some(price) = best(levels, side) {
            let others = levels.remove(price);
            let n = (depth - 1) as nat;
            let later = top(others, side, n);
            let first = Level2 { price, qty: total(levels[price]) as Qty };
            lemma_top_shown(others, side, n);
            assert(shown == seq![first] + later);
            assert(shown[0] == first);
            assert forall|i: int| 0 < i < shown.len() implies {
                &&& #[trigger] shown[i] == later[i - 1]
                &&& others.contains_key(shown[i].price)
            } by {}
            assert forall|i: int, j: int|
                #![trigger shown[i], shown[j]]
                0 <= i < j < shown.len() implies shown[i].price != shown[j].price
                && at_least_as_good(side, shown[i].price, shown[j].price) by {
                assert(shown[j] == later[j - 1]);
                if i == 0 {
                    assert(levels.contains_key(shown[j].price));
                } else {
                    assert(shown[i] == later[i - 1]);
                }
            }
            assert forall|i: int, p: Price|
                #![trigger shown[i], levels.contains_key(p)]
                0 <= i < shown.len() && levels.contains_key(p) implies at_least_as_good(
                side,
                shown[i].price,
                p,
            ) || exists|j: int| 0 <= j < i && (#[trigger] shown[j]).price == p by {
                if i > 0 && p != price {
                    assert(others.contains_key(p));
                    assert(shown[i] == later[i - 1]);
                    if !at_least_as_good(side, later[i - 1].price, p) {
                        let j = choose|j: int| 0 <= j < i - 1 && (#[trigger] later[j]).price == p;
                        assert(shown[j + 1] == later[j]);
                    }
                } else if i > 0 {
                    assert(shown[0].price == p);
                }
            }
        } else {
            assert(levels.dom().len() == 0);
        }
    }
}

/// A log may be replayed in parts: the book after all of it is the book after
/// the second part, replayed into the book after the first, and so are the
/// reports.
pub proof fn logs_replay_in_parts(book: Book, first: Seq<Event>, second: Seq<Event>)
    ensures
        book.replay(first + second) == book.replay(first).replay(second),
        book.reports(first + second) == book.reports(first) + book.replay(first).reports(second),
        book.all_fit(first + second) <==> book.all_fit(first) && book.replay(first).all_fit(second),
{
    let whole = first + second;
    lemma_replay_parts(book, first, second);
    lemma_reports_parts(book, first, second);
    assert(book.all_fit(whole) ==> book.all_fit(first) && book.replay(first).all_fit(second)) by {
        if book.all_fit(whole) {
            lemma_fit_parts(book, first, second);
        }
    }
    if book.all_fit(first) && book.replay(first).all_fit(second) {
        assert forall|i: int| 0 <= i < whole.len() implies book.replay(whole.take(i)).fits(
            #[trigger] whole[i],
        ) by {
            lemma_turn(book, first, second, i);
            if i < first.len() {
                assert(book.replay(first.take(i)).fits(first[i]));
            } else {
                let j = i - first.len();
                assert(book.replay(first).replay(second.take(j)).fits(second[j]));
            }
        }
    }
}

/// When its turn comes, an event of a log in two parts meets the book that it
/// meets in its part.
proof fn lemma_turn(book: Book, first: Seq<Event>, second: Seq<Event>, i: int)
    requires
        0 <= i < first.len() + second.len(),
    ensures
        ({
            let whole = first + second;
            let j = i - first.len();
            if i < first.len() {
                whole.take(i) == first.take(i) && whole[i] == first[i]
            } else {
                book.replay(whole.take(i)) == book.replay(first).replay(second.take(j)) && whole[i]
                    == second[j]
            }
        }),
{
    let whole = first + second;
    if i < first.len() {
        assert(whole.take(i) =~= first.take(i));
    } else {
        let j = i - first.len();
        assert(whole.take(i) =~= first + second.take(j));
        lemma_replay_parts(book, first, second.take(j));
    }
}

/// The reports of a log that is replayed in parts.
proof fn lemma_reports_parts(book: Book, first: Seq<Event>, second: Seq<Event>)
    ensures
        book.reports(first + second) == book.reports(first) + book.replay(first).reports(second),
{
    let whole = first + second;
    let parts = book.reports(first) + book.replay(first).reports(second);
    assert forall|i: int| 0 <= i < whole.len() implies #[trigger] book.reports(whole)[i]
        == parts[i] by {
        lemma_turn(book, first, second, i);
    }
    assert(book.reports(whole) =~= parts);
}

/// If all of a log can be taken, so can its parts.
proof fn lemma_fit_parts(book: Book, first: Seq<Event>, second: Seq<Event>)
    requires
        book.all_fit(first + second),
    ensures
        book.all_fit(first),
        book.replay(first).all_fit(second),
{
    let whole = first + second;
    assert forall|i: int| 0 <= i < first.len() implies book.replay(first.take(i)).fits(
        #[trigger] first[i],
    ) by {
        lemma_turn(book, first, second, i);
        assert(book.replay(whole.take(i)).fits(whole[i]));
    }
    assert forall|j: int| 0 <= j < second.len() implies book.replay(first).replay(
        second.take(j),
    ).fits(#[trigger] second[j]) by {
        let i = first.len() + j;
        lemma_turn(book, first, second, i);
        assert(book.replay(whole.take(i)).fits(whole[i]));
    }
}

/// The books of a log that is replayed in parts.
proof fn lemma_replay_parts(book: Book, first: Seq<Event>, second: Seq<Event>)
    ensures
        book.replay(first + second) == book.replay(first).replay(second),
    decreases second.len(),
{
    if second.len() == 0 {
        assert(first + second =~= first);
    } else {
        assert((first + second).drop_last() =~= first + second.drop_last());
        lemma_replay_parts(book, first, second.drop_last());
    }
}

/// Every book that a log leads to is well-formed, and the ids fall out of the
/// submit order: as many have been handed out as there were submits.
pub proof fn logs_lead_to_well_formed_books(book: Book, events: Seq<Event>)
    requires
        book.wf(),
        book.all_fit(events),
    ensures
        book.replay(events).wf(),
        book.replay(events).next_id == book.next_id + submits(events),
    decreases events.len(),
{
    if events.len() > 0 {
        let before = events.drop_last();
        let n = events.len() - 1;
        assert(events.take(n) =~= before);
        assert(before + seq![events.last()] =~= events);
        lemma_fit_parts(book, before, seq![events.last()]);
        logs_lead_to_well_formed_books(book, before);
        lemma_applied(book.replay(before), events.last());
    }
}

/// Order ids are implicit: what is reported of a submit is the number of the
/// submits before it, counted on from the first id the book had to give.
pub proof fn ids_fall_out_of_the_submit_order(book: Book, events: Seq<Event>, i: int)
    requires
        book.wf(),
        book.all_fit(events),
        0 <= i < events.len(),
    ensures
        book.reports(events)[i] is Submitted <==> events[i] is Limit || events[i] is Market,
        book.reports(events)[i] matches Report::Submitted(receipt) ==> receipt.id == book.next_id
            + submits(events.take(i)),
{
    let before = events.take(i);
    assert(before + events.skip(i) =~= events);
    lemma_fit_parts(book, before, events.skip(i));
    logs_lead_to_well_formed_books(book, before);
}

/// An event keeps a book well-formed, and hands out an id if it is a submit.
proof fn lemma_applied(book: Book, event: Event)
    requires
        book.wf(),
        book.fits(event),
    ensures
        book.apply(event).wf(),
        book.apply(event).next_id == book.next_id + submits(seq![event]),
{
    assert(seq![event].drop_last() =~= seq![]);
    reveal_with_fuel(submits, 2);
    match event {
        Event::Limit { side, price, qty } => {
            lemma_submitted(book, ANONYMOUS, side, Some(price), qty);
        },
        Event::Market { side, qty } => {
            lemma_submitted(book, ANONYMOUS, side, None, qty);
        },
        Event::Cancel { id } => {
            book.lemma_cancel_wf(id);
        },
        Event::Amend { id, new_qty } => {
            book.lemma_amend_wf(id, new_qty);
        },
    }
}

/// Replay is deterministic and independent of the engine: two engines of any
/// kind that stand for the same book report the same outcomes on the same log,
/// and stand for the same book afterwards.
pub proof fn replay_is_deterministic_and_engine_independent<A: Engine, B: Engine>(
    a0: A,
    a1: A,
    outcomes_a: Seq<Outcome>,
    b0: B,
    b1: B,
    outcomes_b: Seq<Outcome>,
    events: Seq<Event>,
)
    requires
        a0.book() == b0.book(),
        replays(&a0, events, &a1, outcomes_a),
        replays(&b0, events, &b1, outcomes_b),
    ensures
        a1.book() == b1.book(),
        outcomes_a.len() == outcomes_b.len(),
        forall|i: int|
            0 <= i < outcomes_a.len() ==> (#[trigger] outcomes_a[i])@ == outcomes_b[i]@,
{
    let said_a = outcomes_a.map_values(|o: Outcome| o@);
    let said_b = outcomes_b.map_values(|o: Outcome| o@);
    assert(said_a == said_b);
    assert forall|i: int| 0 <= i < outcomes_a.len() implies (#[trigger] outcomes_a[i])@
        == outcomes_b[i]@ by {
        assert(said_a[i] == said_b[i]);
    }
}

/// No resting order is for more than `cap`.
pub open spec fn capped(book: Book, cap: Qty) -> bool {
    forall|at: Place| #[trigger] book.holds(at) ==> book.order(at).qty <= cap
}

/// The total of a queue of orders of at most `cap` each.
proof fn lemma_total_capped(queue: Seq<Order>, cap: Qty)
    requires
        forall|i: int| 0 <= i < queue.len() ==> (#[trigger] queue[i]).qty <= cap,
    ensures
        total(queue) <= queue.len() * cap,
    decreases queue.len(),
{
    if queue.len() > 0 {
        lemma_total_capped(queue.drop_last(), cap);
        let n = queue.len() as int;
        assert((n - 1) * cap + cap == n * cap) by (nonlinear_arith);
    }
}

/// A queue is no longer than the number of ids handed out.
proof fn lemma_queue_bound(book: Book, side: Side, price: Price)
    requires
        book.wf(),
    ensures
        book.queue(side, price).len() <= book.next_id,
{
    let queue = book.queue(side, price);
    let ids = queue.map_values(|o: Order| o.id);
    assert forall|i: int, j: int| 0 <= i < ids.len() && 0 <= j < ids.len() && i != j implies ids[i]
        != ids[j] by {
        if ids[i] == ids[j] {
            book.lemma_ids_distinct(side, price, i, j);
        }
    }
    ids.unique_seq_to_set();
    lemma_ids_below(book.next_id);
    assert forall|id: OrderId| #[trigger] ids.to_set().contains(id) implies ids_below(
        book.next_id,
    ).contains(id) by {
        let i = choose|i: int| 0 <= i < ids.len() && ids[i] == id;
        assert(book.holds(Place { side, price, index: i }));
    }
    vstd::set_lib::lemma_len_subset(ids.to_set(), ids_below(book.next_id));
}

/// The depth of a level of a capped book.
proof fn lemma_depth_capped(book: Book, side: Side, price: Price, cap: Qty)
    requires
        book.wf(),
        capped(book, cap),
    ensures
        book.depth(side, price) <= book.next_id * cap,
{
    let queue = book.queue(side, price);
    lemma_queue_bound(book, side, price);
    assert forall|i: int| 0 <= i < queue.len() implies (#[trigger] queue[i]).qty <= cap by {
        assert(book.holds(Place { side, price, index: i }));
    }
    lemma_total_capped(queue, cap);
    let n = queue.len() as int;
    let m = book.next_id as int;
    assert(n * cap <= m * cap) by (nonlinear_arith)
        requires
            0 <= n <= m,
    ;
}

/// As long as all orders are for at most `cap`, and `cap` times the orders
/// submitted stays in range, another order for at most `cap` can be taken, and
/// so can an amendment to at most `cap`.
pub proof fn capped_orders_fit(
    book: Book,
    cap: Qty,
    owner: OrderId,
    side: Side,
    limit: Option<Price>,
    qty: Qty,
    id: OrderId,
)
    requires
        book.wf(),
        capped(book, cap),
        book.next_id < u32::MAX,
        (book.next_id + 1) * cap <= u64::MAX,
        0 < qty <= cap,
    ensures
        submittable(book, owner, side, limit, qty),
        book.amend_fits(id, qty),
{
    let m = book.next_id as int;
    assert((m + 1) * cap == m * cap + cap) by (nonlinear_arith);
    if let Some(price) = limit {
        lemma_depth_capped(book, side, price, cap);
        book.lemma_populated(side.opposite());
        lemma_sweep(book.taker(owner, side, limit), book.levels(side.opposite()), qty);
        let swept = book.matched(owner, side, limit, qty);
        assert(swept.queue(side, price) == book.queue(side, price));
    }
    if book.rests(id) {
        let at = book.place(id);
        assert(book.rests_at(id, at));
        lemma_depth_capped(book, at.side, at.price, cap);
    }
}

/// Events for at most `cap` keep a book capped.
proof fn lemma_applied_capped(book: Book, event: Event, cap: Qty)
    requires
        book.wf(),
        book.fits(event),
        capped(book, cap),
        event matches Event::Limit { qty, .. } ==> qty <= cap,
        event matches Event::Amend { new_qty, .. } ==> new_qty <= cap,
    ensures
        capped(book.apply(event), cap),
{
    let after = book.apply(event);
    match event {
        Event::Limit { side, price, qty } => {
            lemma_submitted_capped(book, side, Some(price), qty, cap);
        },
        Event::Market { side, qty } => {
            lemma_submitted_capped(book, side, None, qty, cap);
        },
        Event::Cancel { id } => {
            if book.rests(id) {
                let gap = book.place(id);
                assert(book.rests_at(id, gap));
                let queue = book.levels(gap.side)[gap.price];
                let rest = queue.remove(gap.index);
                assert forall|at: Place| #[trigger] after.holds(at) implies after.order(at).qty
                    <= cap by {
                    let here = at.side == gap.side && at.price == gap.price;
                    let was = Place {
                        index: if here && at.index >= gap.index { at.index + 1 } else { at.index },
                        ..at
                    };
                    if here {
                        assert(rest[at.index] == queue[was.index]);
                    }
                    assert(book.holds(was));
                }
            }
        },
        Event::Amend { id, new_qty } => {
            if book.rests(id) {
                let gap = book.place(id);
                assert(book.rests_at(id, gap));
                let queue = book.levels(gap.side)[gap.price];
                let rest = queue.remove(gap.index);
                assert forall|at: Place| #[trigger] after.holds(at) implies after.order(at).qty
                    <= cap by {
                    let here = at.side == gap.side && at.price == gap.price;
                    if !here {
                        assert(book.holds(at));
                    } else if new_qty <= book.order(gap).qty {
                        if at.index != gap.index {
                            assert(book.holds(at));
                        }
                    } else if at.index < rest.len() {
                        let was = Place {
                            index: if at.index >= gap.index { at.index + 1 } else { at.index },
                            ..at
                        };
                        assert(rest[at.index] == queue[was.index]);
                        assert(book.holds(was));
                    }
                }
            }
        },
    }
}

/// The same, for a submit.
proof fn lemma_submitted_capped(book: Book, side: Side, limit: Option<Price>, qty: Qty, cap: Qty)
    requires
        book.wf(),
        submittable(book, ANONYMOUS, side, limit, qty),
        capped(book, cap),
        limit is Some ==> qty <= cap,
    ensures
        capped(submitted(book, ANONYMOUS, side, limit, qty), cap),
{
    let other = side.opposite();
    let after = submitted(book, ANONYMOUS, side, limit, qty);
    lemma_submitted(book, ANONYMOUS, side, limit, qty);
    lemma_sweep(book.taker(ANONYMOUS, side, limit), book.levels(other), qty);
    assert forall|at: Place| #[trigger] after.holds(at) implies after.order(at).qty <= cap by {
        if at.side == other {
            let rest = after.levels(other)[at.price];
            let queue = book.levels(other)[at.price];
            assert(back_of(rest, queue));
            assert(rest[at.index].qty <= queue[at.index + queue.len() - rest.len()].qty);
            assert(book.holds(Place { index: at.index + queue.len() - rest.len(), ..at }));
        } else if after.order(at).id != book.next_id {
            assert(book.holds(at));
        } else {
            // Only the remainder has the new id.
            assert(!book.holds(at));
        }
    }
}

/// Every log whose events are in bounds, as a generated one is, can be replayed
/// into a fresh book if it is not too long for the ids and the quantities.
pub proof fn bounded_logs_replay(
    events: Seq<Event>,
    min_price: Price,
    max_price: Price,
    max_qty: Qty,
)
    requires
        log_in_bounds(events, min_price, max_price, max_qty),
        events.len() <= u32::MAX,
        events.len() * max_qty <= u64::MAX,
    ensures
        Book::empty().all_fit(events),
{
    assert forall|i: int| 0 <= i < events.len() implies Book::empty().replay(events.take(i)).fits(
        #[trigger] events[i],
    ) by {
        lemma_bounded_prefix(events, min_price, max_price, max_qty, i);
    }
}

/// What holds of the book when the turn of an event comes.
proof fn lemma_bounded_prefix(
    events: Seq<Event>,
    min_price: Price,
    max_price: Price,
    max_qty: Qty,
    i: int,
)
    requires
        log_in_bounds(events, min_price, max_price, max_qty),
        events.len() <= u32::MAX,
        events.len() * max_qty <= u64::MAX,
        0 <= i < events.len(),
    ensures
        ({
            let book = Book::empty().replay(events.take(i));
            &&& book.wf()
            &&& capped(book, max_qty)
            &&& book.next_id <= i
            &&& book.fits(events[i])
        }),
    decreases i,
{
    let book = Book::empty().replay(events.take(i));
    if i == 0 {
        assert(events.take(i) =~= seq![]);
        assert forall|at: Place| !#[trigger] book.holds(at) by {}
    } else {
        assert(events.take(i).drop_last() =~= events.take(i - 1));
        lemma_bounded_prefix(events, min_price, max_price, max_qty, i - 1);
        let before = Book::empty().replay(events.take(i - 1));
        let event = events[i - 1];
        assert(in_bounds(
            event,
            submits(events.take(i - 1)),
            min_price,
            max_price,
            max_qty,
        ));
        assert(book == before.apply(event));
        lemma_applied(before, event);
        assert(seq![event].drop_last() =~= seq![]);
        reveal_with_fuel(submits, 2);
        lemma_applied_capped(before, event, max_qty);
    }
    let event = events[i];
    assert(in_bounds(event, submits(events.take(i)), min_price, max_price, max_qty));
    let m = book.next_id as int;
    let n = events.len() as int;
    assert((m + 1) * max_qty <= n * max_qty) by (nonlinear_arith)
        requires
            0 <= m < n,
    ;
    match event {
        Event::Limit { side, price, qty } => {
            capped_orders_fit(book, max_qty, ANONYMOUS, side, Some(price), qty, 0);
        },
        Event::Market { side, qty } => {},
        Event::Cancel { id } => {},
        Event::Amend { id, new_qty } => {
            capped_orders_fit(book, max_qty, ANONYMOUS, Side::Bid, None, new_qty, id);
        },
    }
}

/// Marking a level occupied or empty is idempotent, and marking a level empty
/// undoes marking it occupied.
pub proof fn marks_are_idempotent(levels: Set<int>, i: int)
    ensures
        levels.insert(i).insert(i) == levels.insert(i),
        levels.remove(i).remove(i) == levels.remove(i),
        !levels.insert(i).remove(i).contains(i),
        levels.insert(i).remove(i) == levels.remove(i),
{
    assert(levels.insert(i).insert(i) =~= levels.insert(i));
    assert(levels.remove(i).remove(i) =~= levels.remove(i));
    assert(levels.insert(i).remove(i) =~= levels.remove(i));
}

} // verus!
