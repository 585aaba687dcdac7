use tome::{LadderBook, Side, Trade};

fn book() -> LadderBook {
    LadderBook::new(90, 110)
}

#[test]
fn ladder_walks_levels_cheapest_first_then_rests() {
    let mut b = book();
    let a1 = b.submit_limit(Side::Ask, 100, 2).id;
    let a2 = b.submit_limit(Side::Ask, 101, 2).id;

    let res = b.submit_limit(Side::Bid, 101, 5);
    assert_eq!(
        res.trades,
        vec![
            Trade { taker: res.id, maker: a1, price: 100, qty: 2 },
            Trade { taker: res.id, maker: a2, price: 101, qty: 2 },
        ]
    );
    assert_eq!(res.resting, 1);
    assert_eq!(b.best_bid(), Some(101));
    assert_eq!(b.best_ask(), None);
}

#[test]
fn ladder_sell_hits_highest_bid_first() {
    let mut b = book();
    let low = b.submit_limit(Side::Bid, 99, 2).id;
    let high = b.submit_limit(Side::Bid, 100, 2).id;

    let res = b.submit_limit(Side::Ask, 99, 3);
    assert_eq!(
        res.trades,
        vec![
            Trade { taker: res.id, maker: high, price: 100, qty: 2 },
            Trade { taker: res.id, maker: low, price: 99, qty: 1 },
        ]
    );
    assert_eq!(b.depth_at(Side::Bid, 99), 1);
}

#[test]
fn cancel_advances_cursor() {
    let mut b = book();
    let top = b.submit_limit(Side::Bid, 100, 1).id;
    b.submit_limit(Side::Bid, 99, 1);
    assert_eq!(b.best_bid(), Some(100));

    assert!(b.cancel(top));
    assert_eq!(b.best_bid(), Some(99)); // cursor stepped down
}

#[test]
fn ladder_cancel_middle_preserves_fifo() {
    let mut b = book();
    let a = b.submit_limit(Side::Bid, 100, 1).id;
    let mid = b.submit_limit(Side::Bid, 100, 1).id;
    let c = b.submit_limit(Side::Bid, 100, 1).id;
    assert!(b.cancel(mid));

    let res = b.submit_limit(Side::Ask, 100, 2);
    assert_eq!(
        res.trades,
        vec![
            Trade { taker: res.id, maker: a, price: 100, qty: 1 },
            Trade { taker: res.id, maker: c, price: 100, qty: 1 },
        ]
    );
}
