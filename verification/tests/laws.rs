//! The laws of the library on concrete books, each on both engines.

use tome::engine::{SelfTrade, ANONYMOUS};
use tome::journal::{apply, random_events, replay};
use tome::{Engine, Event, L2Snapshot, LadderBook, Level2, OrderBook, Outcome, Side, Trade};

fn engines() -> Vec<Box<dyn Engine>> {
    vec![Box::new(OrderBook::new()), Box::new(LadderBook::new(50, 150))]
}

fn trade(taker: u64, maker: u64, price: u64, qty: u64) -> Trade {
    Trade { taker, maker, price, qty }
}

#[test]
fn books_never_cross() {
    for mut e in engines() {
        for event in random_events(11, 3_000, 95, 105, 7) {
            apply(&mut *e, &event);
            if let (Some(bid), Some(ask)) = (e.best_bid(), e.best_ask()) {
                assert!(bid < ask);
                assert_eq!(e.spread(), Some(ask - bid));
            } else {
                assert_eq!(e.spread(), None);
            }
        }
    }
}

#[test]
fn trades_print_at_the_makers_price_within_the_limit() {
    for mut e in engines() {
        let maker = e.submit_limit(Side::Ask, 98, 4).id;
        e.submit_limit(Side::Ask, 103, 4);
        let res = e.submit_limit(Side::Bid, 102, 9);
        assert_eq!(res.trades, vec![trade(res.id, maker, 98, 4)]);
        assert_eq!(res.resting, 5);
        assert_eq!(e.depth_at(Side::Bid, 102), 5);
        assert_eq!(e.depth_at(Side::Ask, 103), 4);
    }
}

#[test]
fn trades_follow_price_time_priority() {
    for mut e in engines() {
        let a = e.submit_limit(Side::Ask, 101, 1).id;
        let b = e.submit_limit(Side::Ask, 100, 1).id;
        let c = e.submit_limit(Side::Ask, 100, 1).id;
        let d = e.submit_limit(Side::Ask, 99, 1).id;
        let res = e.submit_market(Side::Bid, 10);
        let id = res.id;
        assert_eq!(
            res.trades,
            vec![trade(id, d, 99, 1), trade(id, b, 100, 1), trade(id, c, 100, 1), trade(id, a, 101, 1)]
        );
        assert_eq!(res.resting, 6);
        assert_eq!(e.best_ask(), None);
    }
}

#[test]
fn better_levels_empty_before_worse_ones_are_touched() {
    for mut e in engines() {
        e.submit_limit(Side::Bid, 100, 5);
        e.submit_limit(Side::Bid, 99, 5);
        e.submit_limit(Side::Ask, 90, 3);
        assert_eq!(e.depth_at(Side::Bid, 100), 2);
        assert_eq!(e.depth_at(Side::Bid, 99), 5);
    }
}

#[test]
fn submitted_quantity_is_conserved() {
    for mut e in engines() {
        for event in random_events(5, 3_000, 90, 110, 9) {
            let qty = match event {
                Event::Limit { qty, .. } | Event::Market { qty, .. } => qty,
                _ => 0,
            };
            if let Outcome::Submitted(res) = apply(&mut *e, &event) {
                let traded: u64 = res.trades.iter().map(|t| t.qty).sum();
                assert_eq!(traded + res.resting, qty);
            }
        }
    }
}

#[test]
fn makers_are_accounted_for() {
    for mut e in engines() {
        let full = e.submit_limit(Side::Bid, 100, 3).id;
        let part = e.submit_limit(Side::Bid, 100, 5).id;
        let idle = e.submit_limit(Side::Bid, 100, 2).id;
        let res = e.submit_market(Side::Ask, 4);
        assert_eq!(res.trades, vec![trade(res.id, full, 100, 3), trade(res.id, part, 100, 1)]);
        assert_eq!(e.depth_at(Side::Bid, 100), 6);
        assert!(!e.cancel(full)); // filled, so no longer resting
        let res = e.submit_market(Side::Ask, 5);
        assert_eq!(res.trades, vec![trade(res.id, part, 100, 4), trade(res.id, idle, 100, 1)]);
        assert!(!e.cancel(part));
        assert!(e.cancel(idle));
    }
}

#[test]
fn market_orders_never_rest() {
    for mut e in engines() {
        let res = e.submit_market(Side::Bid, 7);
        assert_eq!((res.id, res.trades.len(), res.resting), (0, 0, 7));
        assert_eq!(e.best_bid(), None);
        assert!(!e.cancel(res.id));
        assert!(!e.amend(res.id, 3));
    }
}

#[test]
fn self_trades_happen_where_they_are_allowed() {
    for mut e in engines() {
        let maker = e.submit_limit_as(7, Side::Ask, 100, 2).id;
        let res = e.submit_limit_as(7, Side::Bid, 100, 2);
        assert_eq!(res.trades, vec![trade(res.id, maker, 100, 2)]);
    }
}

#[test]
fn cancel_resting_removes_own_makers_and_goes_on() {
    for mut e in engines() {
        e.set_self_trade(SelfTrade::CancelResting);
        let own = e.submit_limit_as(7, Side::Ask, 100, 2).id;
        let other = e.submit_limit_as(8, Side::Ask, 100, 2).id;
        let own_too = e.submit_limit_as(7, Side::Ask, 101, 2).id;
        let res = e.submit_limit_as(7, Side::Bid, 101, 5);
        assert_eq!(res.trades, vec![trade(res.id, other, 100, 2)]);
        assert_eq!(res.resting, 3);
        assert!(!e.cancel(own));
        assert!(!e.cancel(own_too));
        assert_eq!(e.best_ask(), None);
        assert_eq!(e.best_bid(), Some(101));
    }
}

#[test]
fn cancel_aggressor_stops_at_its_own_maker() {
    for mut e in engines() {
        e.set_self_trade(SelfTrade::CancelAggressor);
        let other = e.submit_limit_as(8, Side::Ask, 100, 2).id;
        let own = e.submit_limit_as(7, Side::Ask, 100, 2).id;
        let res = e.submit_limit_as(7, Side::Bid, 100, 5);
        assert_eq!(res.trades, vec![trade(res.id, other, 100, 2)]);
        assert_eq!(res.resting, 0); // cancelled, so nothing rests
        assert_eq!(e.best_bid(), None);
        assert_eq!(e.depth_at(Side::Ask, 100), 2);
        assert!(e.cancel(own));
        // A cancelled market order still reports what it was left with.
        e.submit_limit_as(7, Side::Ask, 100, 2);
        assert_eq!(e.submit_market_as(7, Side::Bid, 5).resting, 5);
    }
}

#[test]
fn cancel_both_takes_one_maker() {
    for mut e in engines() {
        e.set_self_trade(SelfTrade::CancelBoth);
        let own = e.submit_limit_as(7, Side::Bid, 100, 2).id;
        let own_too = e.submit_limit_as(7, Side::Bid, 99, 2).id;
        let res = e.submit_limit_as(7, Side::Ask, 99, 5);
        assert!(res.trades.is_empty());
        assert_eq!(res.resting, 0);
        assert_eq!(e.best_bid(), Some(99));
        assert_eq!(e.best_ask(), None);
        assert!(!e.cancel(own));
        assert!(e.cancel(own_too));
    }
}

#[test]
fn anonymous_orders_ignore_the_policy() {
    let policies = [SelfTrade::Allow, SelfTrade::CancelResting, SelfTrade::CancelAggressor, SelfTrade::CancelBoth];
    for policy in policies {
        for mut e in engines() {
            e.set_self_trade(policy);
            let maker = e.submit_limit(Side::Ask, 100, 3).id;
            let res = e.submit_limit_as(ANONYMOUS, Side::Bid, 100, 3);
            assert_eq!(res.trades, vec![trade(res.id, maker, 100, 3)]);
        }
    }
    assert_eq!(SelfTrade::default(), SelfTrade::Allow);
    assert_eq!(ANONYMOUS, u64::MAX);
}

#[test]
fn cancelling_undoes_an_idle_submit() {
    for mut e in engines() {
        e.submit_limit(Side::Bid, 99, 2);
        e.submit_limit(Side::Ask, 101, 2);
        let before = e.l2(10);
        for price in [98, 99, 100] {
            let id = e.submit_limit(Side::Bid, price, 4).id;
            assert_ne!(e.l2(10), before);
            assert!(e.cancel(id));
            assert_eq!(e.l2(10), before);
            assert!(!e.cancel(id));
        }
    }
}

#[test]
fn amending_keeps_id_owner_side_and_price() {
    for mut e in engines() {
        e.set_self_trade(SelfTrade::CancelResting);
        let own = e.submit_limit_as(7, Side::Bid, 100, 2).id;
        let other = e.submit_limit_as(8, Side::Bid, 100, 2).id;
        assert!(e.amend(own, 9)); // to the back, still owned by 7
        assert!(e.amend(other, 2)); // nothing changes
        assert_eq!(e.depth_at(Side::Bid, 100), 11);
        let res = e.submit_limit_as(7, Side::Ask, 100, 3);
        assert_eq!(res.trades, vec![trade(res.id, other, 100, 2)]);
        assert_eq!(res.resting, 1);
        assert!(!e.cancel(own)); // removed by self-trade prevention
    }
}

#[test]
fn ids_count_the_submits() {
    for mut e in engines() {
        assert_eq!(e.submit_limit(Side::Bid, 100, 1).id, 0);
        assert_eq!(e.submit_market(Side::Ask, 1).id, 1);
        assert!(!e.cancel(0));
        assert_eq!(e.submit_limit_as(4, Side::Ask, 100, 1).id, 2);
        assert!(e.amend(2, 5));
        assert_eq!(e.submit_market_as(4, Side::Ask, 1).id, 3);
    }
}

#[test]
fn snapshots_are_ordered_aggregated_and_limited() {
    for mut e in engines() {
        assert_eq!(e.l2(3), L2Snapshot::default());
        e.submit_limit(Side::Ask, 105, 1);
        e.submit_limit(Side::Ask, 101, 2);
        e.submit_limit(Side::Ask, 103, 3);
        e.submit_limit(Side::Ask, 101, 4);
        e.submit_limit(Side::Bid, 97, 5);
        let snap = e.l2(2);
        assert_eq!(snap.asks, vec![Level2 { price: 101, qty: 6 }, Level2 { price: 103, qty: 3 }]);
        assert_eq!(snap.bids, vec![Level2 { price: 97, qty: 5 }]);
        assert_eq!(e.l2(0), L2Snapshot::default());
        assert_eq!(e.l2(9).asks.len(), 3);
    }
}

#[test]
fn logs_replay_in_parts() {
    let events = random_events(23, 2_000, 60, 140, 10);
    let (first, second) = events.split_at(777);
    let mut whole = OrderBook::new();
    let outcomes = replay(&mut whole, &events);
    let mut parts = LadderBook::new(60, 140);
    let mut joined = replay(&mut parts, first);
    joined.extend(replay(&mut parts, second));
    assert_eq!(joined, outcomes);
    assert_eq!(parts.l2(100), whole.l2(100));
}

#[test]
fn events_report_what_they_did() {
    for mut e in engines() {
        let limit = apply(&mut *e, &Event::Limit { side: Side::Ask, price: 100, qty: 5 });
        assert!(matches!(limit, Outcome::Submitted(r) if r.id == 0 && r.resting == 5));
        assert_eq!(apply(&mut *e, &Event::Amend { id: 0, new_qty: 3 }), Outcome::Amended(true));
        assert_eq!(apply(&mut *e, &Event::Amend { id: 9, new_qty: 3 }), Outcome::Amended(false));
        let market = apply(&mut *e, &Event::Market { side: Side::Bid, qty: 1 });
        assert!(matches!(market, Outcome::Submitted(r) if r.id == 1 && r.resting == 0));
        assert_eq!(apply(&mut *e, &Event::Cancel { id: 0 }), Outcome::Cancelled(true));
        assert_eq!(apply(&mut *e, &Event::Cancel { id: 0 }), Outcome::Cancelled(false));
    }
}

/// The ladder tells the sides of a tick apart, and knows the edges of its band.
#[test]
fn ladder_depth_is_by_side() {
    let mut b = LadderBook::new(90, 110);
    b.submit_limit(Side::Bid, 90, 3);
    b.submit_limit(Side::Ask, 110, 4);
    assert_eq!(b.depth_at(Side::Bid, 90), 3);
    assert_eq!(b.depth_at(Side::Ask, 90), 0);
    assert_eq!(b.depth_at(Side::Ask, 110), 4);
    assert_eq!(b.depth_at(Side::Bid, 110), 0);
    assert_eq!(b.depth_at(Side::Bid, 89), 0);
    assert_eq!(b.depth_at(Side::Ask, 111), 0);
    assert_eq!(b.depth_at(Side::Ask, u64::MAX), 0);
    assert_eq!(b.spread(), Some(20));
}

/// A ladder of one tick, at the top of the range of prices.
#[test]
fn ladder_of_one_tick() {
    let mut b = LadderBook::new(u64::MAX, u64::MAX);
    let maker = b.submit_limit(Side::Bid, u64::MAX, 2).id;
    assert_eq!(b.best_bid(), Some(u64::MAX));
    let res = b.submit_limit(Side::Ask, u64::MAX, 3);
    assert_eq!(res.trades, vec![trade(res.id, maker, u64::MAX, 2)]);
    assert_eq!(b.best_bid(), None);
    assert_eq!(b.best_ask(), Some(u64::MAX));
    assert_eq!(b.depth_at(Side::Ask, u64::MAX), 1);
}

/// Quantities up to the largest there is.
#[test]
fn levels_hold_the_largest_quantity() {
    for mut e in engines() {
        e.submit_limit(Side::Bid, 100, u64::MAX - 1);
        e.submit_limit(Side::Bid, 100, 1);
        assert_eq!(e.depth_at(Side::Bid, 100), u64::MAX);
        assert_eq!(e.submit_market(Side::Ask, u64::MAX).resting, 0);
        assert_eq!(e.depth_at(Side::Bid, 100), 0);
    }
}

#[test]
fn sides_are_opposite() {
    assert_eq!(Side::Bid.opposite(), Side::Ask);
    assert_eq!(Side::Ask.opposite(), Side::Bid);
    assert_eq!(OrderBook::default().best_bid(), None);
}
