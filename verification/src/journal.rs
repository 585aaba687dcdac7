//! An event log for the order book: every mutating operation as a plain,
//! copyable [`Event`], plus [`apply`]/[`replay`] to feed events into any
//! [`Engine`].
//!
//! # Why
//!
//! The engines are deterministic: the same operations in the same order always
//! produce the same trades and the same book. An event log turns that property
//! into something useful: record the stream once and you can reconstruct the
//! exact book state on a fresh engine (or a *different* engine implementation),
//! which is the backbone of crash recovery and audit. Order ids are implicit:
//! they fall out of the submit order, so events never carry them for submits,
//! only reference them for cancel/amend.

use vstd::prelude::*;

use crate::engine::{Engine, ANONYMOUS};
use crate::model::Book;
use crate::sim::{advanced, coin, flip, mixed, Rng};
use crate::types::{OrderId, Price, Qty, Receipt, Side, SubmitResult};

verus! {

/// A single mutating operation against a book.
#[derive(Debug, Clone, Copy, PartialEq, Eq, Structural)]
pub enum Event {
    /// Submit a limit order.
    Limit { side: Side, price: Price, qty: Qty },
    /// Submit a market order.
    Market { side: Side, qty: Qty },
    /// Cancel a resting order by id.
    Cancel { id: OrderId },
    /// Change a resting order's quantity.
    Amend { id: OrderId, new_qty: Qty },
}

/// The result of applying one [`Event`].
#[derive(Debug, Clone, PartialEq, Eq)]
pub enum Outcome {
    /// A submit (limit or market) and its fills/remainder.
    Submitted(SubmitResult),
    /// Whether a cancel found a resting order.
    Cancelled(bool),
    /// Whether an amend found a resting order.
    Amended(bool),
}

/// What an [`Outcome`] says, as a mathematical value.
pub enum Report {
    Submitted(Receipt),
    Cancelled(bool),
    Amended(bool),
}

impl View for Outcome {
    type V = Report;

    open spec fn view(&self) -> Report {
        match *self {
            Outcome::Submitted(result) => Report::Submitted(result@),
            Outcome::Cancelled(found) => Report::Cancelled(found),
            Outcome::Amended(found) => Report::Amended(found),
        }
    }
}

impl Book {
    /// The book after an event.
    pub open spec fn apply(self, event: Event) -> Book {
        match event {
            Event::Limit { side, price, qty } => self.limit(ANONYMOUS, side, price, qty),
            Event::Market { side, qty } => self.market(ANONYMOUS, side, qty),
            Event::Cancel { id } => self.cancel(id),
            Event::Amend { id, new_qty } => self.amend(id, new_qty),
        }
    }

    /// What is reported of an event.
    pub open spec fn report(self, event: Event) -> Report {
        match event {
            Event::Limit { side, price, qty } => Report::Submitted(
                self.limit_receipt(ANONYMOUS, side, price, qty),
            ),
            Event::Market { side, qty } => Report::Submitted(
                self.market_receipt(ANONYMOUS, side, qty),
            ),
            Event::Cancel { id } => Report::Cancelled(self.rests(id)),
            Event::Amend { id, new_qty } => Report::Amended(self.rests(id)),
        }
    }

    /// An event can be taken.
    pub open spec fn fits(self, event: Event) -> bool {
        match event {
            Event::Limit { side, price, qty } => self.limit_fits(ANONYMOUS, side, price, qty),
            Event::Market { side, qty } => self.market_fits(qty),
            Event::Cancel { id } => true,
            Event::Amend { id, new_qty } => self.amend_fits(id, new_qty),
        }
    }

    /// The book after a log of events.
    pub open spec fn replay(self, events: Seq<Event>) -> Book
        decreases events.len(),
    {
        if events.len() == 0 {
            self
        } else {
            self.replay(events.drop_last()).apply(events.last())
        }
    }

    /// What is reported of a log of events, event by event.
    pub open spec fn reports(self, events: Seq<Event>) -> Seq<Report> {
        Seq::new(events.len(), |i: int| self.replay(events.take(i)).report(events[i]))
    }

    /// Each event of a log can be taken when its turn comes.
    pub open spec fn all_fit(self, events: Seq<Event>) -> bool {
        forall|i: int|
            0 <= i < events.len() ==> self.replay(events.take(i)).fits(#[trigger] events[i])
    }
}

/// The engine takes limit orders at the price of the event, if it has one.
pub open spec fn listed<E: Engine + ?Sized>(engine: &E, event: Event) -> bool {
    event matches Event::Limit { price, .. } ==> engine.accepts(price)
}

/// Apply one event to `engine`, returning its outcome.
pub fn apply<E: Engine + ?Sized>(engine: &mut E, event: &Event) -> (outcome: Outcome)
    requires
        old(engine).in_order(),
        old(engine).book().fits(*event),
        listed(&*old(engine), *event),
    ensures
        final(engine).in_order(),
        final(engine).book() == old(engine).book().apply(*event),
        outcome@ == old(engine).book().report(*event),
        forall|p: Price| #[trigger] final(engine).accepts(p) == old(engine).accepts(p),
{
    match *event {
        Event::Limit { side, price, qty } => Outcome::Submitted(
            engine.submit_limit(side, price, qty),
        ),
        Event::Market { side, qty } => Outcome::Submitted(engine.submit_market(side, qty)),
        Event::Cancel { id } => Outcome::Cancelled(engine.cancel(id)),
        Event::Amend { id, new_qty } => Outcome::Amended(engine.amend(id, new_qty)),
    }
}

/// Replaying `events` took an engine from `before` to `after` and gave
/// `outcomes`.
pub open spec fn replays<E: Engine + ?Sized>(
    before: &E,
    events: Seq<Event>,
    after: &E,
    outcomes: Seq<Outcome>,
) -> bool {
    &&& after.in_order()
    &&& after.book() == before.book().replay(events)
    &&& outcomes.map_values(|o: Outcome| o@) == before.book().reports(events)
    &&& forall|p: Price| #[trigger] after.accepts(p) == before.accepts(p)
}

/// Replay a whole event stream into `engine`, collecting every outcome.
pub fn replay<E: Engine + ?Sized>(engine: &mut E, events: &[Event]) -> (outcomes: Vec<Outcome>)
    requires
        old(engine).in_order(),
        old(engine).book().all_fit(events@),
        forall|i: int| 0 <= i < events@.len() ==> listed(&*old(engine), #[trigger] events@[i]),
    ensures
        replays(&*old(engine), events@, &*final(engine), outcomes@),
        final(engine).in_order(),
        final(engine).book() == old(engine).book().replay(events@),
        outcomes.len() == events@.len(),
        forall|i: int|
            #![trigger outcomes@[i]]
            0 <= i < outcomes.len() ==> outcomes@[i]@ == old(engine).book().replay(
                events@.take(i),
            ).report(events@[i]),
        forall|p: Price| #[trigger] final(engine).accepts(p) == old(engine).accepts(p),
{
    let ghost start = engine.book();
    let ghost log = events@;
    let mut outcomes: Vec<Outcome> = Vec::new();
    let mut i: usize = 0;
    assert(log.take(0) =~= Seq::<Event>::empty());
    while i < events.len()
        invariant
            i <= events.len(),
            log == events@,
            start == old(engine).book(),
            start.all_fit(log),
            forall|j: int| 0 <= j < log.len() ==> listed(&*old(engine), #[trigger] log[j]),
            engine.in_order(),
            engine.book() == start.replay(log.take(i as int)),
            forall|p: Price| #[trigger] engine.accepts(p) == old(engine).accepts(p),
            outcomes.len() == i,
            forall|j: int|
                0 <= j < i ==> (#[trigger] outcomes@[j])@ == start.replay(log.take(j)).report(
                    log[j],
                ),
        decreases events.len() - i,
    {
        proof {
            assert(listed(&*old(engine), log[i as int]));
            assert(log.take(i + 1).drop_last() =~= log.take(i as int));
        }
        let outcome = apply(engine, &events[i]);
        outcomes.push(outcome);
        i = i + 1;
    }
    proof {
        assert(log.take(log.len() as int) =~= log);
        assert(outcomes@.map_values(|o: Outcome| o@) =~= start.reports(log));
    }
    outcomes
}

/// A log under construction: the events so far, the state of the generator,
/// and how many of the events are submits.
pub struct Feed {
    pub events: Seq<Event>,
    pub state: u64,
    pub submitted: OrderId,
}

/// A log with one more event. The first draw is the side, the second what kind
/// of event it is: a limit order below 55, a market order below 75, a cancel
/// below 88, else an amend. While there is nothing to cancel or amend, it is a
/// limit order instead. Each field of the event is one more draw.
pub open spec fn fed(feed: Feed, min_price: Price, max_price: Price, max_qty: Qty) -> Feed {
    let s1 = advanced(feed.state);
    let s2 = advanced(s1);
    let s3 = advanced(s2);
    let s4 = advanced(s3);
    let side = coin(mixed(s1));
    let roll = mixed(s2) % 100;
    let span = (max_price - min_price + 1) as u64;
    if 55 <= roll < 75 {
        Feed {
            events: feed.events.push(
                Event::Market { side, qty: (1 + mixed(s3) % max_qty) as Qty },
            ),
            state: s3,
            submitted: (feed.submitted + 1) as OrderId,
        }
    } else if 75 <= roll < 88 && feed.submitted > 0 {
        Feed {
            events: feed.events.push(Event::Cancel { id: mixed(s3) % feed.submitted }),
            state: s3,
            submitted: feed.submitted,
        }
    } else if 88 <= roll && feed.submitted > 0 {
        Feed {
            events: feed.events.push(
                Event::Amend {
                    id: mixed(s3) % feed.submitted,
                    new_qty: (1 + mixed(s4) % max_qty) as Qty,
                },
            ),
            state: s4,
            submitted: feed.submitted,
        }
    } else {
        Feed {
            events: feed.events.push(
                Event::Limit {
                    side,
                    price: (min_price + mixed(s3) % span) as Price,
                    qty: (1 + mixed(s4) % max_qty) as Qty,
                },
            ),
            state: s4,
            submitted: (feed.submitted + 1) as OrderId,
        }
    }
}

/// The log of `n` events generated from `seed`.
pub open spec fn generated(
    seed: u64,
    n: nat,
    min_price: Price,
    max_price: Price,
    max_qty: Qty,
) -> Feed
    decreases n,
{
    if n == 0 {
        Feed { events: seq![], state: seed, submitted: 0 }
    } else {
        fed(
            generated(seed, (n - 1) as nat, min_price, max_price, max_qty),
            min_price,
            max_price,
            max_qty,
        )
    }
}

/// How many of the events are submits.
pub open spec fn submits(events: Seq<Event>) -> nat
    decreases events.len(),
{
    if events.len() == 0 {
        0
    } else {
        submits(events.drop_last()) + (if events.last() is Limit || events.last() is Market {
            1nat
        } else {
            0nat
        })
    }
}

/// The prices of an event are in `[min_price, max_price]`, its quantities in
/// `1..=max_qty`, and the ids it refers to below `ids`.
pub open spec fn in_bounds(
    event: Event,
    ids: nat,
    min_price: Price,
    max_price: Price,
    max_qty: Qty,
) -> bool {
    match event {
        Event::Limit { side, price, qty } => min_price <= price <= max_price && 1 <= qty
            <= max_qty,
        Event::Market { side, qty } => 1 <= qty <= max_qty,
        Event::Cancel { id } => id < ids,
        Event::Amend { id, new_qty } => id < ids && 1 <= new_qty <= max_qty,
    }
}

/// Each event of a log is in bounds, and cancels and amends only ids handed
/// out by the submits before it.
pub open spec fn log_in_bounds(
    events: Seq<Event>,
    min_price: Price,
    max_price: Price,
    max_qty: Qty,
) -> bool {
    forall|i: int|
        0 <= i < events.len() ==> in_bounds(
            #[trigger] events[i],
            submits(events.take(i)),
            min_price,
            max_price,
            max_qty,
        )
}

/// Generate a deterministic, realistic mix of events for tests and demos.
///
/// Prices fall in `[min_price, max_price]` and quantities in `1..=max_qty`.
/// Cancels and amends target ids drawn from the submits generated so far
/// (some will already be filled, exercising the "not resting" paths too).
pub fn random_events(
    seed: u64,
    n: usize,
    min_price: Price,
    max_price: Price,
    max_qty: Qty,
) -> (events: Vec<Event>)
    requires
        min_price <= max_price,
        max_price - min_price < u64::MAX,
        n > 0 ==> max_qty > 0,
    ensures
        events@ == generated(seed, n as nat, min_price, max_price, max_qty).events,
        events.len() == n,
        log_in_bounds(events@, min_price, max_price, max_qty),
{
    let mut rng = Rng::new(seed);
    let span: u64 = max_price - min_price + 1;
    let mut submitted: OrderId = 0;
    let mut out: Vec<Event> = Vec::with_capacity(n);
    while out.len() < n
        invariant
            min_price <= max_price,
            span == max_price - min_price + 1,
            n > 0 ==> max_qty > 0,
            out.len() <= n,
            submitted <= out.len(),
            submitted == submits(out@),
            log_in_bounds(out@, min_price, max_price, max_qty),
            generated(seed, out.len() as nat, min_price, max_price, max_qty) == (Feed {
                events: out@,
                state: rng@,
                submitted,
            }),
        decreases n - out.len(),
    {
        let ghost out1 = out@;
        let side = flip(&mut rng);
        let roll: u64 = rng.below(100);
        let event = if 55 <= roll && roll < 75 {
            submitted = submitted + 1;
            Event::Market { side, qty: 1 + rng.below(max_qty) }
        } else if 75 <= roll && roll < 88 && submitted > 0 {
            Event::Cancel { id: rng.below(submitted) }
        } else if 88 <= roll && submitted > 0 {
            let id: OrderId = rng.below(submitted);
            Event::Amend { id, new_qty: 1 + rng.below(max_qty) }
        } else {
            // A limit order, or nothing to cancel/amend yet.
            submitted = submitted + 1;
            let price: Price = min_price + rng.below(span);
            Event::Limit { side, price, qty: 1 + rng.below(max_qty) }
        };
        out.push(event);
        proof {
            assert(out@.drop_last() =~= out1);
            assert forall|i: int| 0 <= i < out@.len() implies in_bounds(
                #[trigger] out@[i],
                submits(out@.take(i)),
                min_price,
                max_price,
                max_qty,
            ) by {
                assert(out@.take(i) =~= out1.take(i));
                if i < out1.len() {
                    assert(out@[i] == out1[i]);
                } else {
                    assert(out1.take(i) =~= out1);
                }
            }
        }
    }
    out
}

} // verus!
