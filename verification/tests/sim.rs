use tome::journal::random_events;
use tome::sim::{random_limit_flow, Rng};
use tome::{Event, Side};

/// Published values of SplitMix64.
#[test]
fn rng_is_splitmix64() {
    let mut rng = Rng::new(0);
    assert_eq!(rng.next_u64(), 0xE220_A839_7B1D_CDAF);
    assert_eq!(rng.next_u64(), 0x6E78_9E6A_A1B9_65F4);
    assert_eq!(rng.next_u64(), 0x06C4_5D18_8009_454F);
    let mut rng = Rng::new(1_234_567);
    assert_eq!(rng.next_u64(), 6_457_827_717_110_365_317);
    assert_eq!(rng.next_u64(), 3_203_168_211_198_807_973);
}

#[test]
fn below_takes_the_remainder() {
    let mut rng = Rng::new(0);
    assert_eq!(rng.below(1_000), 0xE220_A839_7B1D_CDAF % 1_000);
    assert_eq!(rng.below(1), 0);
    assert_eq!(rng.next_u64(), 0x06C4_5D18_8009_454F);
}

#[test]
fn same_seed_same_flow() {
    let a = random_limit_flow(9, 500, 1_000, 50, 20);
    let b = random_limit_flow(9, 500, 1_000, 50, 20);
    assert_eq!(a.len(), 500);
    for (x, y) in a.iter().zip(&b) {
        assert_eq!((x.side, x.price, x.qty), (y.side, y.price, y.qty));
    }
    assert_eq!(random_events(9, 500, 1_000, 1_100, 20), random_events(9, 500, 1_000, 1_100, 20));
}

/// The first order of a flow, from the first three draws.
#[test]
fn flow_draws_side_price_quantity() {
    let flow = random_limit_flow(0, 2, 100, 10, 7);
    assert_eq!(flow[0].side, Side::Ask); // an odd first draw
    assert_eq!(flow[0].price, 90 + 0x6E78_9E6A_A1B9_65F4 % 21);
    assert_eq!(flow[0].qty, 1 + 0x06C4_5D18_8009_454F % 7);
    let mut rng = Rng::new(0);
    for _ in 0..3 {
        rng.next_u64();
    }
    let side = if rng.next_u64() & 1 == 0 { Side::Bid } else { Side::Ask };
    assert_eq!(flow[1].side, side);
}

#[test]
fn flow_stays_in_its_ranges() {
    for o in random_limit_flow(77, 2_000, 100, 3, 4) {
        assert!((97..=103).contains(&o.price));
        assert!((1..=4).contains(&o.qty));
    }
    assert!(random_limit_flow(1, 0, 0, 5, 0).is_empty());
}

#[test]
fn events_stay_in_their_ranges() {
    let mut submitted: u64 = 0;
    for event in random_events(31, 5_000, 40, 44, 3) {
        match event {
            Event::Limit { price, qty, .. } => {
                assert!((40..=44).contains(&price));
                assert!((1..=3).contains(&qty));
                submitted += 1;
            }
            Event::Market { qty, .. } => {
                assert!((1..=3).contains(&qty));
                submitted += 1;
            }
            Event::Cancel { id } => assert!(id < submitted),
            Event::Amend { id, new_qty } => {
                assert!(id < submitted);
                assert!((1..=3).contains(&new_qty));
            }
        }
    }
}

/// Each field of an event is one draw, in the order of the fields.
#[test]
fn events_draw_in_order() {
    let events = random_events(123, 300, 1_000, 1_199, 10);
    let mut rng = Rng::new(123);
    let mut submitted: u64 = 0;
    for event in events {
        let side = if rng.next_u64() & 1 == 0 { Side::Bid } else { Side::Ask };
        let roll = rng.below(100);
        let expected = if roll < 55 || roll >= 75 && submitted == 0 {
            submitted += 1;
            let price = 1_000 + rng.below(200);
            Event::Limit { side, price, qty: 1 + rng.below(10) }
        } else if roll < 75 {
            submitted += 1;
            Event::Market { side, qty: 1 + rng.below(10) }
        } else if roll < 88 {
            Event::Cancel { id: rng.below(submitted) }
        } else {
            let id = rng.below(submitted);
            Event::Amend { id, new_qty: 1 + rng.below(10) }
        };
        assert_eq!(event, expected);
    }
}
