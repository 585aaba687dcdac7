//! What a caller can count on, said of what goes in and what comes out.
//!
//! The laws here speak of the orders on a book, the receipts handed back and
//! the book afterwards, and compare owners, prices and quantities themselves.
//! Those on submits are to be read together: they say which resting orders
//! trade, for how much and in which order, which ones go, and what becomes of
//! the order submitted.

use vstd::arithmetic::div_mod::{
    lemma_fundamental_div_mod, lemma_fundamental_div_mod_converse_mod,
};
use vstd::prelude::*;

use crate::book::OrderBook;
use crate::engine::{Engine, SelfTrade, ANONYMOUS};
use crate::journal::{fed, generated, listed, replays, submits, Event, Feed, Outcome, Report};
use crate::ladder::LadderBook;
use crate::laws::{
    cancel_aggressor_keeps_the_makers, cancel_both_takes_one_maker, lemma_side_distinct,
    lemma_submitted, lemma_survivor, makers_are_accounted_for, matching_is_exhaustive,
    own_makers_stop_the_aggressor, own_side_is_untouched, place_is_unique,
    remainders_rest_at_the_back, self_trades_are_prevented, submittable, submitted,
    submitted_quantity_is_conserved, trades_follow_price_time_priority,
    trades_print_at_the_makers_price,
};
use crate::ledger::{
    any, lemma_sweep_beyond, lemma_sweep_both, lemma_sweep_both_order, lemma_sweep_last,
    lemma_sweep_stopped, lemma_sweep_strangers, lemma_sweep_touched, lemma_sweep_trades, position,
    sound_trade, stands, volume, with_maker,
};
use crate::model::{
    at_least_as_good, back_of, lemma_best, lemma_sweep, top, total, Book, Order, Place,
};
use crate::sim::{advanced, coin, draw, drawn_limit, lemma_state_after_sum, mixed, state_after};
use crate::types::{OrderId, Price, Qty, Receipt, Side, SubmitResult};

verus! {

/// What the submitter of an order of either kind is told: a limit order, or a
/// market order where there is no limit.
pub open spec fn receipt(
    book: Book,
    owner: OrderId,
    side: Side,
    limit: Option<Price>,
    qty: Qty,
) -> Receipt {
    match limit {
        Some(price) => book.limit_receipt(owner, side, price, qty),
        None => book.market_receipt(owner, side, qty),
    }
}

/// The quantity that a submit trades.
pub open spec fn traded(
    book: Book,
    owner: OrderId,
    side: Side,
    limit: Option<Price>,
    qty: Qty,
) -> nat {
    volume(receipt(book, owner, side, limit, qty).trades, any())
}

/// Among the orders of `side`, those at `p` come before those at `q`: buyers
/// who pay more, sellers who ask less.
pub open spec fn better(side: Side, p: Price, q: Price) -> bool {
    match side {
        Side::Bid => p > q,
        Side::Ask => p < q,
    }
}

/// An order of `side` may trade at `p`: a buyer at the limit or below, a seller
/// at the limit or above.
pub open spec fn allows(side: Side, limit: Option<Price>, p: Price) -> bool {
    match (limit, side) {
        (None, _) => true,
        (Some(price), Side::Bid) => p <= price,
        (Some(price), Side::Ask) => p >= price,
    }
}

/// Two orders rest on the same side, and `first` comes before `second`: at a
/// better price, or ahead in the same queue.
pub open spec fn precedes(book: Book, first: OrderId, second: OrderId) -> bool {
    let a = book.place(first);
    let b = book.place(second);
    &&& book.rests(first)
    &&& book.rests(second)
    &&& a.side == b.side
    &&& better(a.side, a.price, b.price) || a.price == b.price && a.index < b.index
}

/// The order `id` rests on the side that an order of `side` trades with.
pub open spec fn faces(book: Book, id: OrderId, side: Side) -> bool {
    book.rests(id) && book.place(id).side != side
}

/// The resting order `id`.
pub open spec fn resting(book: Book, id: OrderId) -> Order {
    book.order(book.place(id))
}

/// The order `id` belongs to the submitter and rests where the submit could
/// trade with it.
pub open spec fn own_in_reach(
    book: Book,
    owner: OrderId,
    side: Side,
    limit: Option<Price>,
    id: OrderId,
) -> bool {
    &&& faces(book, id, side)
    &&& resting(book, id).owner == owner
    &&& allows(side, limit, book.place(id).price)
}

/// The policy stops the aggressor at an order of its own.
pub open spec fn stops(policy: SelfTrade) -> bool {
    policy == SelfTrade::CancelAggressor || policy == SelfTrade::CancelBoth
}

/// The policy takes an order off the book that the aggressor's own owner has
/// resting.
pub open spec fn evicts(policy: SelfTrade) -> bool {
    policy == SelfTrade::CancelResting || policy == SelfTrade::CancelBoth
}

/// Each trade of a submit names it as the taker, is for a positive quantity
/// that the maker has, and is with an order of the other side, at the price
/// that order rests at, which the limit allows. Unless self-trades are allowed
/// or the submitter is anonymous, the maker is somebody else's.
pub proof fn trades_are_with_makers_in_reach(
    book: Book,
    owner: OrderId,
    side: Side,
    limit: Option<Price>,
    qty: Qty,
    i: int,
)
    requires
        book.wf(),
        0 <= i < receipt(book, owner, side, limit, qty).trades.len(),
    ensures
        ({
            let trade = receipt(book, owner, side, limit, qty).trades[i];
            let maker = resting(book, trade.maker);
            &&& trade.taker == book.next_id
            &&& faces(book, trade.maker, side)
            &&& maker.id == trade.maker
            &&& trade.price == book.place(trade.maker).price
            &&& allows(side, limit, trade.price)
            &&& 0 < trade.qty <= maker.qty
            &&& maker.owner == owner ==> owner == ANONYMOUS || book.stp == SelfTrade::Allow
        }),
{
    let trade = receipt(book, owner, side, limit, qty).trades[i];
    trades_print_at_the_makers_price(book, owner, side, limit, qty, i);
    assert(book.rests_at(trade.maker, book.place(trade.maker)));
    if book.stp != SelfTrade::Allow && owner != ANONYMOUS {
        self_trades_are_prevented(book, owner, side, limit, qty, i);
    }
}

/// The trades of a submit come in the order of their makers: best price first,
/// and within a price in the order of the queue. No maker trades twice.
pub proof fn trades_come_in_the_order_of_their_makers(
    book: Book,
    owner: OrderId,
    side: Side,
    limit: Option<Price>,
    qty: Qty,
    i: int,
    j: int,
)
    requires
        book.wf(),
        0 <= i < j < receipt(book, owner, side, limit, qty).trades.len(),
    ensures
        ({
            let trades = receipt(book, owner, side, limit, qty).trades;
            precedes(book, trades[i].maker, trades[j].maker)
        }),
{
    trades_print_at_the_makers_price(book, owner, side, limit, qty, i);
    trades_print_at_the_makers_price(book, owner, side, limit, qty, j);
    trades_follow_price_time_priority(book, owner, side, limit, qty, i, j);
}

/// What a resting order of the other side traded comes off its quantity, and
/// nothing else about it changes. It goes if all of it traded. Otherwise it
/// goes only if it belongs to the submitter, who is not anonymous, under a
/// policy that evicts it, and then it traded nothing.
pub proof fn makers_lose_what_they_trade(
    book: Book,
    owner: OrderId,
    side: Side,
    limit: Option<Price>,
    qty: Qty,
    id: OrderId,
)
    requires
        book.wf(),
        submittable(book, owner, side, limit, qty),
        faces(book, id, side),
    ensures
        ({
            let after = submitted(book, owner, side, limit, qty);
            let order = resting(book, id);
            let t = volume(receipt(book, owner, side, limit, qty).trades, with_maker(id));
            &&& t <= order.qty
            &&& t == order.qty ==> !after.rests(id)
            &&& after.rests(id) ==> {
                &&& after.place(id).side == book.place(id).side
                &&& after.place(id).price == book.place(id).price
                &&& resting(after, id).id == id
                &&& resting(after, id).owner == order.owner
                &&& resting(after, id).qty == order.qty - t
            }
            &&& t < order.qty && !after.rests(id) ==> {
                &&& order.owner == owner
                &&& owner != ANONYMOUS
                &&& evicts(book.stp)
                &&& allows(side, limit, book.place(id).price)
                &&& t == 0
            }
        }),
{
    let other = side.opposite();
    let taker = book.taker(owner, side, limit);
    let at = book.place(id);
    assert(book.rests_at(id, at));
    lemma_submitted(book, owner, side, limit, qty);
    makers_are_accounted_for(book, owner, side, limit, qty, id);
    lemma_survivor(book, owner, side, limit, qty, id);
    lemma_sweep_beyond(taker, book.levels(other), qty);
}

/// Self-trade prevention never touches an order that the submitter does not
/// own: it is gone exactly if it has traded in full, whatever the policy. The
/// orders of others are not the submitter's own, be they anonymous or not, and
/// an anonymous submitter owns none at all. Nor does a policy touch any that
/// does not evict.
pub proof fn strangers_orders_only_leave_by_trading(
    book: Book,
    owner: OrderId,
    side: Side,
    limit: Option<Price>,
    qty: Qty,
    id: OrderId,
)
    requires
        book.wf(),
        submittable(book, owner, side, limit, qty),
        faces(book, id, side),
        resting(book, id).owner != owner || owner == ANONYMOUS || !evicts(book.stp),
    ensures
        submitted(book, owner, side, limit, qty).rests(id) <==> volume(
            receipt(book, owner, side, limit, qty).trades,
            with_maker(id),
        ) < resting(book, id).qty,
{
    makers_lose_what_they_trade(book, owner, side, limit, qty, id);
}

/// Orders are served in turn: if a submit changes or removes an order of the
/// other side, the limit allows its price, and every order that came before it
/// is gone.
pub proof fn orders_are_served_in_turn(
    book: Book,
    owner: OrderId,
    side: Side,
    limit: Option<Price>,
    qty: Qty,
    id: OrderId,
    earlier: OrderId,
)
    requires
        book.wf(),
        submittable(book, owner, side, limit, qty),
        faces(book, id, side),
        ({
            let after = submitted(book, owner, side, limit, qty);
            !after.rests(id) || resting(after, id) != resting(book, id)
        }),
    ensures
        allows(side, limit, book.place(id).price),
        precedes(book, earlier, id) ==> !submitted(book, owner, side, limit, qty).rests(earlier),
{
    let other = side.opposite();
    let taker = book.taker(owner, side, limit);
    let levels = book.levels(other);
    let s = book.matching(owner, side, limit, qty);
    let after = submitted(book, owner, side, limit, qty);
    let at = book.place(id);
    assert(book.rests_at(id, at));
    lemma_submitted(book, owner, side, limit, qty);
    lemma_survivor(book, owner, side, limit, qty, id);
    lemma_sweep(taker, levels, qty);
    lemma_sweep_beyond(taker, levels, qty);
    lemma_sweep_touched(taker, levels, qty);
    assert(levels.contains_key(at.price));
    if precedes(book, earlier, id) && after.rests(earlier) {
        let ahead = book.place(earlier);
        assert(book.rests_at(earlier, ahead));
        lemma_survivor(book, owner, side, limit, qty, earlier);
        assert(levels.contains_key(ahead.price));
        assert(s.levels.contains_key(ahead.price));
        if ahead.price == at.price {
            assert(back_of(s.levels[at.price], levels[at.price]));
            let gone = levels[at.price].len() - s.levels[at.price].len();
            assert(s.levels[at.price][at.index - gone] == levels[at.price][at.index]);
        }
    }
}

/// An order is evicted only when its turn comes while the submit still has
/// quantity to trade: if the submit trades in full, its last trade is with an
/// order that came after every one that was evicted.
pub proof fn evicted_orders_were_reached(
    book: Book,
    owner: OrderId,
    side: Side,
    limit: Option<Price>,
    qty: Qty,
    id: OrderId,
)
    requires
        book.wf(),
        submittable(book, owner, side, limit, qty),
        faces(book, id, side),
        !submitted(book, owner, side, limit, qty).rests(id),
        volume(receipt(book, owner, side, limit, qty).trades, with_maker(id)) == 0,
        traded(book, owner, side, limit, qty) == qty,
    ensures
        ({
            let trades = receipt(book, owner, side, limit, qty).trades;
            trades.len() > 0 && precedes(book, id, trades.last().maker)
        }),
{
    let other = side.opposite();
    let taker = book.taker(owner, side, limit);
    let levels = book.levels(other);
    let s = book.matching(owner, side, limit, qty);
    let at = book.place(id);
    assert(book.rests_at(id, at));
    lemma_submitted(book, owner, side, limit, qty);
    lemma_survivor(book, owner, side, limit, qty, id);
    lemma_sweep_trades(taker, levels, qty);
    lemma_sweep_last(taker, levels, qty);
    assert(stands(levels, at.price, at.index));
    let n = s.trades.len() - 1;
    let last = s.trades[n];
    trades_print_at_the_makers_price(book, owner, side, limit, qty, n);
    lemma_place_of_maker(book, owner, side, limit, qty, n);
    if last.price == at.price && book.place(last.maker).index == at.index {
        // The last maker traded, and this order did not.
        assert(book.rests_at(last.maker, book.place(last.maker)));
        assert(last.maker == id);
        crate::ledger::lemma_volume_some(s.trades, with_maker(id), n);
    }
}

/// Where the maker of a trade stands.
proof fn lemma_place_of_maker(
    book: Book,
    owner: OrderId,
    side: Side,
    limit: Option<Price>,
    qty: Qty,
    i: int,
)
    requires
        book.wf(),
        0 <= i < book.matching(owner, side, limit, qty).trades.len(),
    ensures
        ({
            let t = book.matching(owner, side, limit, qty).trades[i];
            let queue = book.levels(side.opposite())[t.price];
            &&& book.rests(t.maker)
            &&& book.place(t.maker) == (Place {
                side: side.opposite(),
                price: t.price,
                index: position(queue, t.maker),
            })
        }),
{
    let other = side.opposite();
    let taker = book.taker(owner, side, limit);
    let levels = book.levels(other);
    book.lemma_populated(other);
    lemma_side_distinct(book, other);
    lemma_sweep_trades(taker, levels, qty);
    let t = book.matching(owner, side, limit, qty).trades[i];
    assert(sound_trade(taker, levels, t));
    let k = position(levels[t.price], t.maker);
    assert(0 <= k < levels[t.price].len() && levels[t.price][k].id == t.maker);
    place_is_unique(book, t.maker, Place { side: other, price: t.price, index: k });
}

/// A submit trades no more than it is for. What a market order is left with is
/// reported; what a limit order is left with rests, all of it or nothing.
pub proof fn receipts_add_up(
    book: Book,
    owner: OrderId,
    side: Side,
    limit: Option<Price>,
    qty: Qty,
)
    requires
        book.wf(),
    ensures
        ({
            let r = receipt(book, owner, side, limit, qty);
            let t = traded(book, owner, side, limit, qty);
            &&& r.id == book.next_id
            &&& t <= qty
            &&& limit is None ==> r.resting == qty - t
            &&& limit is Some ==> r.resting == qty - t || r.resting == 0
        }),
{
    let price = match limit {
        Some(price) => price,
        None => 0,
    };
    submitted_quantity_is_conserved(book, owner, side, limit, price, qty);
}

/// Why self-trade prevention cancelled a submit: an order of its own in reach,
/// the result.
proof fn lemma_cause(
    book: Book,
    owner: OrderId,
    side: Side,
    limit: Option<Price>,
    qty: Qty,
) -> (own: OrderId)
    requires
        book.wf(),
        submittable(book, owner, side, limit, qty),
        book.matching(owner, side, limit, qty).cancelled,
    ensures
        owner != ANONYMOUS,
        stops(book.stp),
        own_in_reach(book, owner, side, limit, own),
        traded(book, owner, side, limit, qty) < qty,
        ({
            let after = submitted(book, owner, side, limit, qty);
            let trades = receipt(book, owner, side, limit, qty).trades;
            &&& book.stp == SelfTrade::CancelAggressor ==> {
                &&& after.rests(own)
                &&& resting(after, own) == resting(book, own)
                &&& forall|id: OrderId| #[trigger]
                    faces(after, id, side) && id != own ==> precedes(after, own, id)
            }
            &&& book.stp == SelfTrade::CancelBoth ==> {
                &&& !after.rests(own)
                &&& forall|id: OrderId| #[trigger]
                    faces(book, id, side) && id != own && resting(book, id).owner == owner
                        ==> after.rests(id)
                &&& forall|i: int|
                    0 <= i < trades.len() ==> precedes(book, (#[trigger] trades[i]).maker, own)
            }
        }),
{
    let other = side.opposite();
    let taker = book.taker(owner, side, limit);
    let levels = book.levels(other);
    let s = book.matching(owner, side, limit, qty);
    let after = submitted(book, owner, side, limit, qty);
    lemma_submitted(book, owner, side, limit, qty);
    lemma_sweep(taker, levels, qty);
    lemma_sweep_trades(taker, levels, qty);
    lemma_sweep_beyond(taker, levels, qty);
    let price = lemma_sweep_stopped(taker, levels, qty);
    if book.stp == SelfTrade::CancelAggressor {
        let k = levels[price].len() - s.levels[price].len();
        let own = levels[price][k].id;
        let at = Place { side: other, price, index: k };
        assert(book.rests_at(own, at));
        place_is_unique(book, own, at);
        lemma_survivor(book, owner, side, limit, qty, own);
        assert(stands(levels, price, k));
        assert forall|id: OrderId| #[trigger] faces(after, id, side) && id != own implies precedes(
            after,
            own,
            id,
        ) by {
            let there = after.place(id);
            assert(after.rests_at(id, there));
            assert(s.levels.contains_key(there.price));
            assert(at_least_as_good(other, price, there.price));
            assert(after.rests_at(own, after.place(own)));
        }
        own
    } else {
        let (p, k) = lemma_sweep_both(taker, levels, qty);
        let own = levels[p][k].id;
        let at = Place { side: other, price: p, index: k };
        assert(stands(levels, p, k));
        assert(book.rests_at(own, at));
        place_is_unique(book, own, at);
        lemma_survivor(book, owner, side, limit, qty, own);
        lemma_sweep_both_order(taker, levels, qty, p, k);
        assert forall|id: OrderId| #[trigger]
            faces(book, id, side) && id != own && resting(book, id).owner
                == owner implies after.rests(id) by {
            let there = book.place(id);
            assert(book.rests_at(id, there));
            lemma_survivor(book, owner, side, limit, qty, id);
            assert(stands(levels, there.price, there.index));
        }
        assert forall|i: int| 0 <= i < s.trades.len() implies precedes(
            book,
            (#[trigger] s.trades[i]).maker,
            own,
        ) by {
            lemma_place_of_maker(book, owner, side, limit, qty, i);
        }
        own
    }
}

/// An order that self-trade prevention does not stop takes all it can get: if
/// it is left with something, no order in its reach is left on the other side,
/// and all that is left of a limit order rests. Nothing stops it where the
/// policy does not, where it is anonymous, or where none of its owner's own
/// orders is in reach.
pub proof fn only_own_orders_stop_a_submit(
    book: Book,
    owner: OrderId,
    side: Side,
    limit: Option<Price>,
    qty: Qty,
)
    requires
        book.wf(),
        submittable(book, owner, side, limit, qty),
        traded(book, owner, side, limit, qty) < qty,
        ({
            ||| !stops(book.stp)
            ||| owner == ANONYMOUS
            ||| forall|id: OrderId| !#[trigger] own_in_reach(book, owner, side, limit, id)
        }),
    ensures
        receipt(book, owner, side, limit, qty).resting == qty - traded(
            book,
            owner,
            side,
            limit,
            qty,
        ),
        forall|id: OrderId| #[trigger]
            faces(submitted(book, owner, side, limit, qty), id, side) ==> !allows(
                side,
                limit,
                submitted(book, owner, side, limit, qty).place(id).price,
            ),
{
    let other = side.opposite();
    let after = submitted(book, owner, side, limit, qty);
    if book.matching(owner, side, limit, qty).cancelled {
        let own = lemma_cause(book, owner, side, limit, qty);
    }
    lemma_submitted(book, owner, side, limit, qty);
    lemma_sweep_trades(book.taker(owner, side, limit), book.levels(other), qty);
    matching_is_exhaustive(book, owner, side, limit, qty);
    assert forall|id: OrderId| #[trigger] faces(after, id, side) implies !allows(
        side,
        limit,
        after.place(id).price,
    ) by {
        assert(after.rests_at(id, after.place(id)));
        assert(after.levels(other).contains_key(after.place(id).price));
    }
}

/// A limit order that neither trades nor rests in full was cancelled, and only
/// an order of its owner's own, in its reach, under a policy that stops the
/// aggressor, does that. The result is such an order.
pub proof fn limit_orders_lose_quantity_only_to_own_orders(
    book: Book,
    owner: OrderId,
    side: Side,
    price: Price,
    qty: Qty,
) -> (own: OrderId)
    requires
        book.wf(),
        book.limit_fits(owner, side, price, qty),
        traded(book, owner, side, Some(price), qty) + book.limit_receipt(
            owner,
            side,
            price,
            qty,
        ).resting < qty,
    ensures
        owner != ANONYMOUS,
        stops(book.stp),
        own_in_reach(book, owner, side, Some(price), own),
{
    submitted_quantity_is_conserved(book, owner, side, Some(price), price, qty);
    lemma_cause(book, owner, side, Some(price), qty)
}

/// Under a policy that stops the aggressor, an order of its owner's own in its
/// reach does stop it: unless it trades in full before it gets there, nothing
/// of it rests. The result is the order it stopped at.
///
/// If the policy cancels the aggressor alone, that order still rests as it was,
/// and comes before all others that are left on its side. If the policy cancels
/// both, that order is gone, all trades were with orders that came before it,
/// and every other order of the same owner on that side still rests.
pub proof fn own_orders_in_reach_stop_a_submit(
    book: Book,
    owner: OrderId,
    side: Side,
    limit: Option<Price>,
    qty: Qty,
    id: OrderId,
) -> (own: OrderId)
    requires
        book.wf(),
        submittable(book, owner, side, limit, qty),
        stops(book.stp),
        owner != ANONYMOUS,
        own_in_reach(book, owner, side, limit, id),
        traded(book, owner, side, limit, qty) < qty,
    ensures
        own_in_reach(book, owner, side, limit, own),
        ({
            let after = submitted(book, owner, side, limit, qty);
            let trades = receipt(book, owner, side, limit, qty).trades;
            &&& limit is Some ==> receipt(book, owner, side, limit, qty).resting == 0
            &&& !after.rests(book.next_id)
            &&& book.stp == SelfTrade::CancelAggressor ==> {
                &&& after.rests(own)
                &&& resting(after, own) == resting(book, own)
                &&& forall|other: OrderId| #[trigger]
                    faces(after, other, side) && other != own ==> precedes(after, own, other)
            }
            &&& book.stp == SelfTrade::CancelBoth ==> {
                &&& !after.rests(own)
                &&& forall|other: OrderId| #[trigger]
                    faces(book, other, side) && other != own && resting(book, other).owner == owner
                        ==> after.rests(other)
                &&& forall|i: int|
                    0 <= i < trades.len() ==> precedes(book, (#[trigger] trades[i]).maker, own)
            }
        }),
{
    let other = side.opposite();
    lemma_submitted(book, owner, side, limit, qty);
    lemma_sweep_trades(book.taker(owner, side, limit), book.levels(other), qty);
    own_makers_stop_the_aggressor(book, owner, side, limit, qty, id);
    match limit {
        Some(price) => {
            remainders_rest_at_the_back(book, owner, side, price, qty);
        },
        None => {
            crate::laws::market_orders_never_rest(book, owner, side, qty);
        },
    }
    lemma_cause(book, owner, side, limit, qty)
}

/// Nothing is evicted without being met: a policy that evicts nothing leaves
/// every order of the submitter's own; so does one that cancels both orders, if
/// the submit trades in full.
pub proof fn own_orders_stay_unless_evicted(
    book: Book,
    owner: OrderId,
    side: Side,
    limit: Option<Price>,
    qty: Qty,
    id: OrderId,
)
    requires
        book.wf(),
        submittable(book, owner, side, limit, qty),
        owner != ANONYMOUS,
        book.stp == SelfTrade::CancelAggressor || book.stp == SelfTrade::CancelBoth && traded(
            book,
            owner,
            side,
            limit,
            qty,
        ) == qty,
        faces(book, id, side),
        resting(book, id).owner == owner,
    ensures
        submitted(book, owner, side, limit, qty).rests(id),
        resting(submitted(book, owner, side, limit, qty), id) == resting(book, id),
{
    if book.stp == SelfTrade::CancelAggressor {
        cancel_aggressor_keeps_the_makers(book, owner, side, limit, qty, id);
    } else {
        if book.matching(owner, side, limit, qty).cancelled {
            let own = lemma_cause(book, owner, side, limit, qty);
        }
        let hit = cancel_both_takes_one_maker(book, owner, side, limit, qty);
        lemma_survivor(book, owner, side, limit, qty, id);
    }
}

/// Among strangers the policy does not matter: a submitter who owns nothing on
/// the other side is told the same, and leaves the same orders, as with no
/// policy in force.
pub proof fn policies_do_not_matter_among_strangers(
    book: Book,
    owner: OrderId,
    side: Side,
    limit: Option<Price>,
    qty: Qty,
)
    requires
        book.wf(),
        owner == ANONYMOUS || forall|id: OrderId| #[trigger]
            faces(book, id, side) ==> resting(book, id).owner != owner,
    ensures
        ({
            let free = Book { stp: SelfTrade::Allow, ..book };
            &&& receipt(book, owner, side, limit, qty) == receipt(free, owner, side, limit, qty)
            &&& submitted(book, owner, side, limit, qty) == (Book {
                stp: book.stp,
                ..submitted(free, owner, side, limit, qty)
            })
        }),
{
    let other = side.opposite();
    let taker = book.taker(owner, side, limit);
    let levels = book.levels(other);
    let free = Book { stp: SelfTrade::Allow, ..book };
    book.lemma_populated(other);
    if owner == ANONYMOUS {
        crate::ledger::lemma_policy_idle(taker, levels, qty);
    } else {
        assert forall|p: Price, k: int| #[trigger] stands(levels, p, k) implies levels[p][k].owner
            != owner by {
            let at = Place { side: other, price: p, index: k };
            assert(book.rests_at(levels[p][k].id, at));
            place_is_unique(book, levels[p][k].id, at);
            assert(faces(book, levels[p][k].id, side));
        }
        lemma_sweep_strangers(taker, levels, qty);
    }
    assert(book.matching(owner, side, limit, qty) == free.matching(owner, side, limit, qty));
    assert(submitted(book, owner, side, limit, qty) =~= (Book {
        stp: book.stp,
        ..submitted(free, owner, side, limit, qty)
    }));
}

/// A submit changes nothing beyond what it trades and rests: the policy stays,
/// one id is handed out, every order of its own side stays where and as it was,
/// and no order appears but its own, which rests for what the receipt says, at
/// its limit, behind all others there.
pub proof fn submits_change_nothing_else(
    book: Book,
    owner: OrderId,
    side: Side,
    limit: Option<Price>,
    qty: Qty,
    id: OrderId,
)
    requires
        book.wf(),
        submittable(book, owner, side, limit, qty),
    ensures
        ({
            let after = submitted(book, owner, side, limit, qty);
            let new = book.next_id;
            &&& after.stp == book.stp
            &&& after.next_id == book.next_id + 1
            &&& book.rests(id) && book.place(id).side == side ==> {
                &&& after.rests(id)
                &&& after.place(id) == book.place(id)
                &&& resting(after, id) == resting(book, id)
            }
            &&& after.rests(id) && id != new ==> book.rests(id)
            &&& !book.rests(new)
            &&& after.rests(new) <==> limit is Some && receipt(
                book,
                owner,
                side,
                limit,
                qty,
            ).resting > 0
            &&& after.rests(new) ==> {
                &&& after.place(new).side == side
                &&& Some(after.place(new).price) == limit
                &&& resting(after, new).owner == owner
                &&& resting(after, new).qty == receipt(book, owner, side, limit, qty).resting
                &&& after.rests(id) && id != new && after.place(id).side == side
                    && after.place(id).price == after.place(new).price ==> after.place(id).index
                    < after.place(new).index
            }
        }),
{
    let after = submitted(book, owner, side, limit, qty);
    let new = book.next_id;
    lemma_submitted(book, owner, side, limit, qty);
    lemma_newcomer(book, owner, side, limit, qty);
    if book.rests(id) && book.place(id).side == side {
        own_side_is_untouched(book, owner, side, limit, qty, id);
    }
    if book.rests(new) {
        assert(book.rests_at(new, book.place(new)));
    }
    if after.rests(id) && id != new {
        lemma_was_there(book, owner, side, limit, qty, id);
    }
}

/// The new id, if it rests.
proof fn lemma_newcomer(
    book: Book,
    owner: OrderId,
    side: Side,
    limit: Option<Price>,
    qty: Qty,
)
    requires
        book.wf(),
        submittable(book, owner, side, limit, qty),
    ensures
        ({
            let after = submitted(book, owner, side, limit, qty);
            let new = book.next_id;
            let rest = receipt(book, owner, side, limit, qty).resting;
            &&& after.rests(new) <==> limit is Some && rest > 0
            &&& after.rests(new) ==> {
                &&& after.place(new).side == side
                &&& Some(after.place(new).price) == limit
                &&& after.place(new).index == book.queue(side, after.place(new).price).len()
                &&& resting(after, new) == (Order { id: new, owner, qty: rest })
            }
        }),
{
    match limit {
        Some(price) => {
            remainders_rest_at_the_back(book, owner, side, price, qty);
        },
        None => {
            crate::laws::market_orders_never_rest(book, owner, side, qty);
        },
    }
}

/// An order that rests after a submit, under another id than the new one,
/// rested before, and on its own side in the same place.
proof fn lemma_was_there(
    book: Book,
    owner: OrderId,
    side: Side,
    limit: Option<Price>,
    qty: Qty,
    id: OrderId,
)
    requires
        book.wf(),
        submittable(book, owner, side, limit, qty),
        submitted(book, owner, side, limit, qty).rests(id),
        id != book.next_id,
    ensures
        book.rests(id),
        ({
            let now = submitted(book, owner, side, limit, qty).place(id);
            now.side == side ==> {
                &&& book.place(id) == now
                &&& now.index < book.queue(side, now.price).len()
            }
        }),
{
    let other = side.opposite();
    let after = submitted(book, owner, side, limit, qty);
    lemma_submitted(book, owner, side, limit, qty);
    let now = after.place(id);
    assert(after.rests_at(id, now));
    if now.side == other {
        lemma_sweep(book.taker(owner, side, limit), book.levels(other), qty);
        let rest = after.levels(other)[now.price];
        let queue = book.levels(other)[now.price];
        assert(back_of(rest, queue));
        assert(rest[now.index].id == id);
        let was = Place { index: now.index + queue.len() - rest.len(), ..now };
        assert(book.rests_at(id, was));
        place_is_unique(book, id, was);
    } else {
        assert(book.rests_at(id, now));
        place_is_unique(book, id, now);
    }
}

/// A book is its orders: two books with the same orders in the same places,
/// the same policy and the same next id are the same book.
pub proof fn books_are_their_orders(a: Book, b: Book)
    requires
        a.wf(),
        b.wf(),
        a.stp == b.stp,
        a.next_id == b.next_id,
        forall|id: OrderId| #[trigger] a.rests(id) <==> b.rests(id),
        forall|id: OrderId| #[trigger]
            a.rests(id) ==> a.place(id) == b.place(id) && resting(a, id) == resting(b, id),
    ensures
        a == b,
{
    assert forall|at: Place| #[trigger] a.holds(at) <==> b.holds(at) by {
        if a.holds(at) {
            let id = a.order(at).id;
            assert(a.rests_at(id, at));
            place_is_unique(a, id, at);
            assert(b.rests_at(id, b.place(id)));
        }
        if b.holds(at) {
            let id = b.order(at).id;
            assert(b.rests_at(id, at));
            place_is_unique(b, id, at);
            assert(a.rests(id));
            assert(a.rests_at(id, a.place(id)));
        }
    }
    assert forall|at: Place| #[trigger] a.holds(at) implies a.order(at) == b.order(at) by {
        let id = a.order(at).id;
        assert(a.rests_at(id, at));
        place_is_unique(a, id, at);
    }
    lemma_same_side(a, b, Side::Bid);
    lemma_same_side(a, b, Side::Ask);
}

/// The same, for one side.
proof fn lemma_same_side(a: Book, b: Book, side: Side)
    requires
        a.wf(),
        b.wf(),
        forall|at: Place| #[trigger] a.holds(at) <==> b.holds(at),
        forall|at: Place| #[trigger] a.holds(at) ==> a.order(at) == b.order(at),
    ensures
        a.levels(side) == b.levels(side),
{
    let l = a.levels(side);
    let m = b.levels(side);
    assert forall|p: Price| #[trigger] l.contains_key(p) <==> m.contains_key(p) by {
        if l.contains_key(p) {
            assert(a.levels(side).contains_key(p));
            assert(a.holds(Place { side, price: p, index: 0 }));
        }
        if m.contains_key(p) {
            assert(b.levels(side).contains_key(p));
            assert(b.holds(Place { side, price: p, index: 0 }));
            assert(a.holds(Place { side, price: p, index: 0 }));
        }
    }
    assert forall|p: Price| #[trigger] l.contains_key(p) implies l[p] == m[p] by {
        let at_end = Place { side, price: p, index: m[p].len() as int };
        let at_end_too = Place { side, price: p, index: l[p].len() as int };
        assert(!b.holds(at_end) && !a.holds(at_end_too));
        assert(!a.holds(at_end) && !b.holds(at_end_too));
        assert(m.contains_key(p));
        assert(l[p].len() == m[p].len());
        assert forall|i: int| 0 <= i < l[p].len() implies #[trigger] l[p][i] == m[p][i] by {
            assert(a.holds(Place { side, price: p, index: i }));
        }
        assert(l[p] =~= m[p]);
    }
    assert(l =~= m);
}

/// Cancelling and amending hand out no id and leave the policy alone.
pub proof fn cancels_and_amends_keep_policy_and_ids(book: Book, id: OrderId, new_qty: Qty)
    ensures
        book.cancel(id).stp == book.stp,
        book.cancel(id).next_id == book.next_id,
        book.amend(id, new_qty).stp == book.stp,
        book.amend(id, new_qty).next_id == book.next_id,
{
}

/// An amended order rests for the new quantity, on the same side, at the same
/// price, for the same owner; a cancelled one does not rest.
pub proof fn amends_set_the_quantity(book: Book, id: OrderId, new_qty: Qty)
    requires
        book.wf(),
        book.rests(id),
        book.amend_fits(id, new_qty),
    ensures
        ({
            let after = book.amend(id, new_qty);
            &&& after.rests(id)
            &&& after.place(id).side == book.place(id).side
            &&& after.place(id).price == book.place(id).price
            &&& resting(after, id).owner == resting(book, id).owner
            &&& resting(after, id).qty == new_qty
            &&& !book.cancel(id).rests(id)
        }),
{
    if new_qty <= resting(book, id).qty {
        crate::laws::amending_down_keeps_every_place(book, id, new_qty, id);
    } else {
        let other = if id == 0 { 1 } else { 0 };
        crate::laws::amending_up_goes_to_the_back(book, id, new_qty, other, other);
    }
    crate::laws::cancelling_twice_is_cancelling_once(book, id);
}

/// On a fresh book nothing rests, self-trades are allowed, and the first id is
/// still to be given.
pub proof fn fresh_books_are_empty(id: OrderId, side: Side, price: Price)
    ensures
        !Book::empty().rests(id),
        !Book::empty().levels(side).contains_key(price),
        Book::empty().depth(side, price) == 0,
        Book::empty().stp == SelfTrade::Allow,
        Book::empty().next_id == 0,
{
    if Book::empty().rests(id) {
        assert(Book::empty().rests_at(id, Book::empty().place(id)));
    }
}

/// The depth at a price is the sum of the quantities of the orders that rest
/// there.
pub proof fn depth_is_the_sum_of_the_orders(book: Book, side: Side, price: Price)
    ensures
        book.depth(side, price) == (if book.levels(side).contains_key(price) {
            book.levels(side)[price].fold_left(0int, |sum: int, order: Order| sum + order.qty)
        } else {
            0
        }),
{
    if book.levels(side).contains_key(price) {
        lemma_total_is_the_sum(book.levels(side)[price]);
    }
}

/// The same, for one queue.
proof fn lemma_total_is_the_sum(queue: Seq<Order>)
    ensures
        total(queue) == queue.fold_left(0int, |sum: int, order: Order| sum + order.qty),
    decreases queue.len(),
{
    if queue.len() > 0 {
        lemma_total_is_the_sum(queue.drop_last());
    }
}

/// The best bid is the highest price that anybody bids, the best ask the lowest
/// that anybody asks, and the spread is what is between them.
pub proof fn best_prices_are_the_extremes(book: Book, price: Price)
    requires
        book.wf(),
    ensures
        book.levels(Side::Bid) == book.bids,
        book.levels(Side::Ask) == book.asks,
        match book.best_bid() {
            Some(bid) => book.bids.contains_key(bid) && (book.bids.contains_key(price) ==> price
                <= bid),
            None => !book.bids.contains_key(price),
        },
        match book.best_ask() {
            Some(ask) => book.asks.contains_key(ask) && (book.asks.contains_key(price) ==> price
                >= ask),
            None => !book.asks.contains_key(price),
        },
        match (book.best_bid(), book.best_ask()) {
            (Some(bid), Some(ask)) => bid < ask && book.spread() == Some((ask - bid) as Price),
            _ => book.spread() is None,
        },
{
    lemma_best(book.bids, Side::Bid);
    lemma_best(book.asks, Side::Ask);
    if book.best_bid() is None {
        assert(!book.bids.dom().contains(price));
    }
    if book.best_ask() is None {
        assert(!book.asks.dom().contains(price));
    }
}

/// A snapshot of a side starts at its best price and leaves no level out up to
/// its last: each level it shows has the quantity that rests there, each is
/// better than the next, and a level that it does not show is worse than all of
/// them and is missing only because the snapshot is full.
pub proof fn snapshots_show_the_best_levels(book: Book, side: Side, depth: nat, price: Price)
    requires
        book.wf(),
    ensures
        ({
            let shown = top(book.levels(side), side, depth);
            &&& shown.len() <= depth
            &&& forall|i: int|
                #![trigger shown[i]]
                0 <= i < shown.len() ==> {
                    &&& book.levels(side).contains_key(shown[i].price)
                    &&& shown[i].qty == book.depth(side, shown[i].price)
                }
            &&& forall|i: int, j: int|
                #![trigger shown[i], shown[j]]
                0 <= i < j < shown.len() ==> better(side, shown[i].price, shown[j].price)
            &&& book.levels(side).contains_key(price) ==> {
                ||| exists|i: int| 0 <= i < shown.len() && (#[trigger] shown[i]).price == price
                ||| shown.len() == depth && forall|i: int|
                    0 <= i < shown.len() ==> better(side, (#[trigger] shown[i]).price, price)
            }
        }),
{
    let levels = book.levels(side);
    let shown = top(levels, side, depth);
    crate::laws::snapshots_are_ordered_and_aggregated(book, side, depth);
    if levels.contains_key(price) && !(exists|i: int|
        0 <= i < shown.len() && (#[trigger] shown[i]).price == price) {
        assert forall|i: int| 0 <= i < shown.len() implies better(
            side,
            (#[trigger] shown[i]).price,
            price,
        ) by {
            assert(at_least_as_good(side, shown[i].price, price));
        }
        if shown.len() < depth {
            // All levels are shown, this one among them.
            lemma_all_shown(book, side, depth, price);
        }
    }
}

/// A snapshot that is not full shows every level.
proof fn lemma_all_shown(book: Book, side: Side, depth: nat, price: Price)
    requires
        book.wf(),
        book.levels(side).contains_key(price),
        top(book.levels(side), side, depth).len() < depth,
    ensures
        exists|i: int|
            0 <= i < top(book.levels(side), side, depth).len() && (#[trigger] top(
                book.levels(side),
                side,
                depth,
            )[i]).price == price,
{
    let levels = book.levels(side);
    let shown = top(levels, side, depth);
    crate::laws::snapshots_are_ordered_and_aggregated(book, side, depth);
    let prices = shown.map_values(|level: crate::types::Level2| level.price);
    assert(prices.no_duplicates()) by {
        assert forall|i: int, j: int|
            0 <= i < prices.len() && 0 <= j < prices.len() && i != j implies prices[i]
            != prices[j] by {
            if i < j {
                assert(shown[i].price != shown[j].price);
            } else {
                assert(shown[j].price != shown[i].price);
            }
        }
    }
    prices.unique_seq_to_set();
    assert(prices.to_set().subset_of(levels.dom())) by {
        assert forall|p: Price| #[trigger] prices.to_set().contains(p) implies levels.contains_key(
            p,
        ) by {
            let i = choose|i: int| 0 <= i < prices.len() && prices[i] == p;
            assert(levels.contains_key(shown[i].price));
        }
    }
    vstd::set_lib::lemma_subset_equality(prices.to_set(), levels.dom());
    assert(prices.to_set().contains(price));
    let i = choose|i: int| 0 <= i < prices.len() && prices[i] == price;
    assert(shown[i].price == price);
}

/// An event is the operation it records, with the fields it records, on behalf
/// of nobody: it can be taken when that operation can, does to the book what
/// that operation does, and reports what that operation returns.
pub proof fn events_are_the_operations_they_record(
    book: Book,
    side: Side,
    price: Price,
    qty: Qty,
    id: OrderId,
)
    ensures
        book.apply(Event::Limit { side, price, qty }) == book.limit(ANONYMOUS, side, price, qty),
        book.apply(Event::Market { side, qty }) == book.market(ANONYMOUS, side, qty),
        book.apply(Event::Cancel { id }) == book.cancel(id),
        book.apply(Event::Amend { id, new_qty: qty }) == book.amend(id, qty),
        book.report(Event::Limit { side, price, qty }) == Report::Submitted(
            book.limit_receipt(ANONYMOUS, side, price, qty),
        ),
        book.report(Event::Market { side, qty }) == Report::Submitted(
            book.market_receipt(ANONYMOUS, side, qty),
        ),
        book.report(Event::Cancel { id }) == Report::Cancelled(book.rests(id)),
        book.report(Event::Amend { id, new_qty: qty }) == Report::Amended(book.rests(id)),
        book.fits(Event::Limit { side, price, qty }) <==> book.limit_fits(
            ANONYMOUS,
            side,
            price,
            qty,
        ),
        book.fits(Event::Market { side, qty }) <==> book.market_fits(qty),
        book.fits(Event::Cancel { id }),
        book.fits(Event::Amend { id, new_qty: qty }) <==> book.amend_fits(id, qty),
{
}

/// After an amend event, the order rests for the quantity of the event; after a
/// cancel event, it does not rest.
pub proof fn events_do_what_they_say(book: Book, id: OrderId, new_qty: Qty)
    requires
        book.wf(),
        book.rests(id),
        book.fits(Event::Amend { id, new_qty }),
    ensures
        book.apply(Event::Amend { id, new_qty }).rests(id),
        resting(book.apply(Event::Amend { id, new_qty }), id).qty == new_qty,
        !book.apply(Event::Cancel { id }).rests(id),
{
    amends_set_the_quantity(book, id, new_qty);
}

/// Replaying an empty log changes nothing and reports nothing. Replaying one
/// event is applying it. A log replays as its first part and then the rest.
pub proof fn logs_replay_event_by_event(book: Book, first: Seq<Event>, event: Event)
    ensures
        book.replay(seq![]) == book,
        book.reports(seq![]).len() == 0,
        book.all_fit(seq![]),
        book.replay(first.push(event)) == book.replay(first).apply(event),
        book.reports(first.push(event)) == book.reports(first).push(
            book.replay(first).report(event),
        ),
        book.all_fit(first.push(event)) <==> book.all_fit(first) && book.replay(first).fits(event),
{
    let log = first.push(event);
    let one = seq![event];
    assert(log.drop_last() =~= first);
    assert(log =~= first + one);
    assert(one.take(0) =~= seq![]);
    crate::laws::logs_replay_in_parts(book, first, one);
    let mid = book.replay(first);
    assert(mid.replay(one.take(0)) == mid);
    assert(mid.reports(one) =~= seq![mid.report(event)]);
    assert(book.reports(log) =~= book.reports(first).push(mid.report(event)));
    assert(mid.all_fit(one) <==> mid.fits(event)) by {
        if mid.fits(event) {
            assert forall|i: int| 0 <= i < one.len() implies mid.replay(one.take(i)).fits(
                #[trigger] one[i],
            ) by {
                assert(i == 0);
            }
        }
        if mid.all_fit(one) {
            assert(mid.replay(one.take(0)).fits(one[0]));
        }
    }
}

/// A replay leaves the book that the events lead to, taken one after the other,
/// and gives an outcome for each: what is reported of it on the book that the
/// events before it lead to.
pub proof fn replays_report_every_event<E: Engine>(
    before: E,
    after: E,
    events: Seq<Event>,
    outcomes: Seq<Outcome>,
    i: int,
)
    requires
        replays(&before, events, &after, outcomes),
        0 <= i < events.len(),
    ensures
        after.book() == before.book().replay(events),
        outcomes.len() == events.len(),
        outcomes[i]@ == before.book().replay(events.take(i)).report(events[i]),
{
    let said = outcomes.map_values(|o: Outcome| o@);
    assert(said == before.book().reports(events));
    assert(said[i] == outcomes[i]@);
}

/// How many of the events of a log are submits is counted event by event.
pub proof fn submits_are_limit_and_market_orders(first: Seq<Event>, event: Event)
    ensures
        submits(seq![]) == 0,
        submits(first.push(event)) == submits(first) + (match event {
            Event::Limit { .. } | Event::Market { .. } => 1nat,
            Event::Cancel { .. } | Event::Amend { .. } => 0nat,
        }),
{
    assert(first.push(event).drop_last() =~= first);
}

/// An engine must list the price of a limit order, and nothing else of an
/// event. The `BTreeMap` engine lists every price.
pub proof fn engines_list_prices<E: Engine>(
    engine: E,
    book: OrderBook,
    ladder: LadderBook,
    side: Side,
    price: Price,
    qty: Qty,
    id: OrderId,
)
    ensures
        listed(&engine, Event::Limit { side, price, qty }) <==> engine.accepts(price),
        listed(&engine, Event::Market { side, qty }),
        listed(&engine, Event::Cancel { id }),
        listed(&engine, Event::Amend { id, new_qty: qty }),
        book.accepts(price),
        ladder.accepts(price) <==> ladder.lists(price),
{
}

/// What the specifications say of a result is what its fields hold.
pub proof fn results_say_what_they_hold(result: SubmitResult, found: bool)
    ensures
        result@.id == result.id,
        result@.trades == result.trades@,
        result@.resting == result.resting,
        Outcome::Submitted(result)@ == Report::Submitted(result@),
        Outcome::Cancelled(found)@ == Report::Cancelled(found),
        Outcome::Amended(found)@ == Report::Amended(found),
{
}

/// Which orders can be taken: all for a positive quantity, as long as the ids
/// last, the arena has a slot for what comes to rest, and the total of its
/// level stays in range. Amendments hand out no id and take no slot.
pub proof fn orders_fit_unless_a_limit_is_reached(
    book: Book,
    owner: OrderId,
    side: Side,
    price: Price,
    qty: Qty,
    id: OrderId,
)
    ensures
        book.market_fits(qty) <==> 0 < qty && book.next_id < u64::MAX,
        book.limit_fits(owner, side, price, qty) <==> {
            let rest = book.limit_receipt(owner, side, price, qty).resting;
            &&& 0 < qty
            &&& book.next_id < u64::MAX
            &&& rest > 0 ==> book.depth(side, price) + rest <= u64::MAX && (book.next_id
                < u32::MAX || book.matched(owner, side, Some(price), qty).resting_ids().len()
                < u32::MAX)
        },
        book.amend_fits(id, qty) <==> 0 < qty && (book.rests(id) ==> book.depth(
            book.place(id).side,
            book.place(id).price,
        ) - resting(book, id).qty + qty <= u64::MAX),
{
    assert(book.matched(owner, side, Some(price), qty).queue(side, price) == book.queue(
        side,
        price,
    ));
}

/// The generator counts up from its seed in equal steps, modulo `2^64`, and
/// each draw is that count, scrambled by two rounds of folding the high bits in
/// and multiplying, and a last fold. So the draws depend on the seed and their
/// number alone, and a generator that has been drawn from `j` times goes on as
/// one seeded with the count it has reached.
pub proof fn draws_scramble_an_even_count(seed: u64, j: nat, k: nat)
    ensures
        state_after(seed, k) == (seed + k * 0x9E37_79B9_7F4A_7C15) % 0x1_0000_0000_0000_0000,
        draw(seed, k) == ({
            let z = ((seed + k * 0x9E37_79B9_7F4A_7C15) % 0x1_0000_0000_0000_0000) as u64;
            let a = (((z ^ (z >> 30)) * 0xBF58_476D_1CE4_E5B9) % 0x1_0000_0000_0000_0000) as u64;
            let b = (((a ^ (a >> 27)) * 0x94D0_49BB_1331_11EB) % 0x1_0000_0000_0000_0000) as u64;
            b ^ (b >> 31)
        }),
        draw(state_after(seed, j), k) == draw(seed, j + k),
        advanced(state_after(seed, k)) == state_after(seed, k + 1),
        mixed(advanced(state_after(seed, k))) == draw(seed, k + 1),
{
    lemma_count(seed, k);
    lemma_state_after_sum(seed, j, k);
}

/// What the generator has counted up to.
proof fn lemma_count(seed: u64, k: nat)
    ensures
        state_after(seed, k) == (seed + k * 0x9E37_79B9_7F4A_7C15) % 0x1_0000_0000_0000_0000,
    decreases k,
{
    if k > 0 {
        lemma_count(seed, (k - 1) as nat);
        lemma_step(seed + (k - 1) * 0x9E37_79B9_7F4A_7C15, state_after(seed, (k - 1) as nat));
    }
}

/// One step of the count.
proof fn lemma_step(count: int, state: u64)
    requires
        state == count % 0x1_0000_0000_0000_0000,
    ensures
        advanced(state) == (count + 0x9E37_79B9_7F4A_7C15) % 0x1_0000_0000_0000_0000,
{
    let m = 0x1_0000_0000_0000_0000int;
    let g = 0x9E37_79B9_7F4A_7C15int;
    let q = count / m;
    lemma_fundamental_div_mod(count, m);
    if state + g < m {
        lemma_fundamental_div_mod_converse_mod(count + g, m, q, state + g);
    } else {
        lemma_fundamental_div_mod_converse_mod(count + g, m, q + 1, state + g - m);
    }
}

/// A drawn value stands for a buy if it is even, and for a sell if it is odd.
pub proof fn even_draws_are_buys(value: u64)
    ensures
        coin(value) == (if value % 2 == 0 {
            Side::Bid
        } else {
            Side::Ask
        }),
{
    assert((value & 1 == 0) == (value % 2 == 0)) by (bit_vector);
}

/// Each order of a random flow takes three draws of its own: whether the first
/// is even says its side, the second, modulo the number of prices in the band,
/// how far its price is above the lowest, and the third, modulo the largest
/// quantity, how far its quantity is above one. So buys and sells alike take
/// every price that is drawn.
pub proof fn flows_follow_their_draws(
    seed: u64,
    i: nat,
    mid: Price,
    band: Price,
    max_qty: Qty,
)
    requires
        band <= mid,
        mid + band <= u64::MAX,
        band * 2 + 1 <= u64::MAX,
        max_qty > 0,
    ensures
        ({
            let order = drawn_limit(state_after(seed, 3 * i), mid, band, max_qty);
            &&& order.side == (if draw(seed, 3 * i + 1) % 2 == 0 {
                Side::Bid
            } else {
                Side::Ask
            })
            &&& order.price - (mid - band) == draw(seed, 3 * i + 2) as int % (band * 2 + 1)
            &&& order.qty - 1 == draw(seed, 3 * i + 3) as int % max_qty as int
        }),
{
    lemma_state_after_sum(seed, 3 * i, 1);
    lemma_state_after_sum(seed, 3 * i, 2);
    lemma_state_after_sum(seed, 3 * i, 3);
    even_draws_are_buys(draw(seed, 3 * i + 1));
}

/// Two flows from the same seed differ only by their ranges: moving the middle
/// moves every price along, and neither the middle, nor the band, nor the
/// largest quantity has a part in the sides.
pub proof fn flows_move_with_their_middle(
    state: u64,
    mid: Price,
    moved: Price,
    band: Price,
    wider: Price,
    max_qty: Qty,
    larger: Qty,
)
    requires
        band <= mid <= moved,
        moved + band <= u64::MAX,
        band * 2 + 1 <= u64::MAX,
        max_qty > 0,
    ensures
        ({
            let a = drawn_limit(state, mid, band, max_qty);
            let b = drawn_limit(state, moved, band, max_qty);
            let c = drawn_limit(state, moved, wider, larger);
            &&& b.price - a.price == moved - mid
            &&& b.qty == a.qty
            &&& b.side == a.side
            &&& c.side == a.side
        }),
{
    flows_follow_their_draws(state, 0, mid, band, max_qty);
    flows_follow_their_draws(state, 0, moved, band, max_qty);
}

/// The draws that a log takes: two for each event, for its side and what kind it
/// is, and one for each further field.
pub open spec fn draws(events: Seq<Event>) -> nat
    decreases events.len(),
{
    if events.len() == 0 {
        0
    } else {
        draws(events.drop_last()) + (match events.last() {
            Event::Limit { .. } => 4nat,
            Event::Market { .. } => 3nat,
            Event::Cancel { .. } => 3nat,
            Event::Amend { .. } => 4nat,
        })
    }
}

/// `event` is what the draws after those of `before` make of it. An even first
/// draw is a buy, an odd one a sell. Of a hundred values of the second, the
/// first fifty-five are limit orders, the next twenty market orders, the next
/// thirteen cancels, and the rest amends; without an id to name, the last two
/// are limit orders instead. Prices, quantities and ids are draws modulo the
/// number of prices, of quantities, and of the ids handed out so far.
pub open spec fn follows_its_draws(
    seed: u64,
    before: Seq<Event>,
    event: Event,
    min_price: Price,
    max_price: Price,
    max_qty: Qty,
) -> bool {
    let k = draws(before);
    let ids = submits(before) as int;
    let drawn_side = if draw(seed, k + 1) % 2 == 0 {
        Side::Bid
    } else {
        Side::Ask
    };
    let roll = draw(seed, k + 2) as int % 100;
    let third = draw(seed, k + 3) as int;
    let fourth = draw(seed, k + 4) as int;
    match event {
        Event::Limit { side, price, qty } => {
            &&& roll < 55 || roll >= 75 && ids == 0
            &&& side == drawn_side
            &&& price - min_price == third % (max_price - min_price + 1)
            &&& qty - 1 == fourth % max_qty as int
        },
        Event::Market { side, qty } => {
            &&& 55 <= roll < 75
            &&& side == drawn_side
            &&& qty - 1 == third % max_qty as int
        },
        Event::Cancel { id } => {
            &&& 75 <= roll < 88
            &&& ids > 0
            &&& id == third % ids
        },
        Event::Amend { id, new_qty } => {
            &&& 88 <= roll
            &&& ids > 0
            &&& id == third % ids
            &&& new_qty - 1 == fourth % max_qty as int
        },
    }
}

/// A generated log has as many events as asked for, and each is what the draws
/// after those of the events before it make of it.
pub proof fn logs_follow_their_draws(
    seed: u64,
    n: nat,
    min_price: Price,
    max_price: Price,
    max_qty: Qty,
    i: int,
)
    requires
        min_price <= max_price,
        max_price - min_price < u64::MAX,
        max_qty > 0,
        n <= u64::MAX,
        0 <= i < n,
    ensures
        ({
            let events = generated(seed, n, min_price, max_price, max_qty).events;
            &&& events.len() == n
            &&& follows_its_draws(seed, events.take(i), events[i], min_price, max_price, max_qty)
        }),
    decreases n,
{
    let feed = generated(seed, n, min_price, max_price, max_qty);
    let before = generated(seed, (n - 1) as nat, min_price, max_price, max_qty);
    lemma_feed(seed, (n - 1) as nat, min_price, max_price, max_qty);
    lemma_fed(seed, before, min_price, max_price, max_qty);
    if i == n - 1 {
        assert(feed.events.take(i) =~= before.events);
    } else {
        logs_follow_their_draws(seed, (n - 1) as nat, min_price, max_price, max_qty, i);
        assert(feed.events.take(i) =~= before.events.take(i));
        assert(feed.events[i] == before.events[i]);
    }
}

/// The state of a log under construction.
proof fn lemma_feed(seed: u64, n: nat, min_price: Price, max_price: Price, max_qty: Qty)
    requires
        min_price <= max_price,
        max_price - min_price < u64::MAX,
        max_qty > 0,
        n <= u64::MAX,
    ensures
        ({
            let feed = generated(seed, n, min_price, max_price, max_qty);
            &&& feed.events.len() == n
            &&& feed.state == state_after(seed, draws(feed.events))
            &&& feed.submitted == submits(feed.events)
            &&& feed.submitted <= n
        }),
    decreases n,
{
    if n > 0 {
        let before = generated(seed, (n - 1) as nat, min_price, max_price, max_qty);
        lemma_feed(seed, (n - 1) as nat, min_price, max_price, max_qty);
        lemma_fed(seed, before, min_price, max_price, max_qty);
    }
}

/// One more event.
proof fn lemma_fed(
    seed: u64,
    feed: Feed,
    min_price: Price,
    max_price: Price,
    max_qty: Qty,
)
    requires
        min_price <= max_price,
        max_price - min_price < u64::MAX,
        max_qty > 0,
        feed.state == state_after(seed, draws(feed.events)),
        feed.submitted == submits(feed.events),
        feed.submitted < u64::MAX,
    ensures
        ({
            let after = fed(feed, min_price, max_price, max_qty);
            &&& after.events.len() == feed.events.len() + 1
            &&& after.events.drop_last() == feed.events
            &&& after.state == state_after(seed, draws(after.events))
            &&& after.submitted == submits(after.events)
            &&& after.submitted <= feed.submitted + 1
            &&& follows_its_draws(
                seed,
                feed.events,
                after.events.last(),
                min_price,
                max_price,
                max_qty,
            )
        }),
{
    let after = fed(feed, min_price, max_price, max_qty);
    let k = draws(feed.events);
    assert(after.events.drop_last() =~= feed.events);
    assert(advanced(state_after(seed, k)) == state_after(seed, k + 1));
    assert(advanced(state_after(seed, k + 1)) == state_after(seed, k + 2));
    assert(advanced(state_after(seed, k + 2)) == state_after(seed, k + 3));
    assert(advanced(state_after(seed, k + 3)) == state_after(seed, k + 4));
    even_draws_are_buys(draw(seed, k + 1));
}

/// A longer log from the same seed begins with the shorter one.
pub proof fn longer_logs_begin_alike(
    seed: u64,
    n: nat,
    more: nat,
    min_price: Price,
    max_price: Price,
    max_qty: Qty,
)
    requires
        min_price <= max_price,
        max_price - min_price < u64::MAX,
        max_qty > 0,
        n + more <= u64::MAX,
    ensures
        generated(seed, n + more, min_price, max_price, max_qty).events.take(n as int)
            == generated(seed, n, min_price, max_price, max_qty).events,
    decreases more,
{
    let short = generated(seed, n, min_price, max_price, max_qty);
    let long = generated(seed, n + more, min_price, max_price, max_qty);
    lemma_feed(seed, n, min_price, max_price, max_qty);
    lemma_feed(seed, n + more, min_price, max_price, max_qty);
    if more == 0 {
        assert(long.events.take(n as int) =~= short.events);
    } else {
        let less = (more - 1) as nat;
        let before = generated(seed, n + less, min_price, max_price, max_qty);
        longer_logs_begin_alike(seed, n, less, min_price, max_price, max_qty);
        lemma_feed(seed, n + less, min_price, max_price, max_qty);
        lemma_fed(seed, before, min_price, max_price, max_qty);
        assert(long.events.take(n as int) =~= before.events.take(n as int));
    }
}

} // verus!
