use match_engine::book::OrderBook;
use match_engine::types::{Order, OrderId, Price, Quantity, Side};
use rand::distr::Distribution;
use rand::SeedableRng;

fn order(price: u32, quantity: u32) -> Order {
    Order::new(Price(price), Quantity(quantity))
}

#[test]
fn execution_works_correctly() {
    let mut book = OrderBook::default();
    let ask0 = order(100, 100);
    let ask1 = order(100, 100);
    let ask2 = order(100, 100);
    let bid0 = order(100, 250);
    let bid1 = order(100, 50);
    let ask0_id = book.insert_ask(ask0);
    let ask1_id = book.insert_ask(ask1);
    let ask2_id = book.insert_ask(ask2);
    let bid0_id = book.insert_bid(bid0);
    let bid1_id = book.insert_bid(bid1);

    assert_eq!(book.ask_limit_level(Price(100)), Some(vec![ask0, ask1, ask2]));
    assert_eq!(book.ask_market_price(), Some(Price(100)));
    assert_eq!(
        book.execute_bid(bid0_id),
        vec![
            (ask0_id, Quantity(100)),
            (ask1_id, Quantity(100)),
            (ask2_id, Quantity(50)),
        ]
    );
    assert_eq!(
        book.ask_limit_level(Price(100)),
        Some(vec![Order {
            price: Price(100),
            quantity: Quantity(100),
            filled: Quantity(50),
            is_cancelled: false,
        }])
    );
    assert_eq!(book.execute_bid(bid1_id), vec![(ask2_id, Quantity(50))]);
    assert_eq!(book.ask_limit_level(Price(100)), None);
}

#[test]
fn cancel_operates_correctly() {
    let mut book = OrderBook::default();
    let order0 = order(100, 100);
    let order1 = order(100, 50);

    let id0 = book.insert_ask(order0);
    let id1 = book.insert_ask(order1);
    assert_eq!(book.ask_limit_level(Price(100)), Some(vec![order0, order1]));
    assert!(!book.asks.limit_levels.is_empty());

    assert_eq!(book.get_ask(id1).map(|order| order.is_cancelled), Some(false));
    assert_eq!(book.cancel_ask(id1), true);
    assert_eq!(book.get_ask(id1).map(|order| order.is_cancelled), Some(true));
    assert_eq!(book.ask_limit_level(Price(100)), Some(vec![order0]));
    assert!(!book.asks.limit_levels.is_empty());

    assert_eq!(book.get_ask(id0).map(|order| order.is_cancelled), Some(false));
    assert_eq!(book.cancel_ask(id0), true);
    assert_eq!(book.get_ask(id0).map(|order| order.is_cancelled), Some(true));
    assert_eq!(book.ask_limit_level(Price(100)), None);
    assert!(book.asks.limit_levels.is_empty());
}

#[test]
fn cancel_is_idempotent() {
    let mut book = OrderBook::default();
    let id0 = book.insert_ask(order(100, 100));
    let id1 = book.insert_ask(order(100, 50));
    assert!(book.cancel_ask(id1));
    assert!(book.cancel_ask(id0));
    assert_eq!(book.cancel_ask(id0), false);
    assert_eq!(book.cancel_ask(id1), false);
    assert_eq!(book.get_ask(id0).map(|o| o.is_cancelled), Some(true));
    assert_eq!(book.get_ask(id1).map(|o| o.is_cancelled), Some(true));
}

#[test]
fn market_ask_price_is_lowest_price() {
    let mut book = OrderBook::default();
    let mut rng = rand::rngs::SmallRng::from_seed([0; 32]);
    let normal = rand_distr::Normal::new(5_000.0, 10.0).unwrap();
    let orders: Vec<_> = (0..100_000)
        .map(|_| Order::new(Price(normal.sample(&mut rng) as u32), Quantity(100)))
        .collect();

    orders.iter().for_each(|&x| {
        book.insert_ask(x);
    });

    let lowest = orders.iter().map(|x| x.price.0).min().map(Price);

    assert_eq!(lowest, book.ask_market_price());
}

#[test]
fn market_ask_price_is_lowest_resting_price() {
    // a deterministic stand-in for a price distribution
    let mut book = OrderBook::default();
    let mut prices: Vec<u32> = Vec::new();
    let mut x: u32 = 12345;
    for _ in 0..20_000 {
        // linear congruential step, prices in 5_000..5_512
        x = x.wrapping_mul(1_103_515_245).wrapping_add(12_345);
        let p = 5_000 + (x >> 16) % 512;
        prices.push(p);
        book.insert_ask(order(p, 100));
    }
    let lowest = prices.iter().min().copied().map(Price);
    assert_eq!(lowest, book.ask_market_price());
}

#[test]
fn time_priority_under_identical_prices() {
    let mut book = OrderBook::default();
    let n: u32 = 1000;
    let mut ids = Vec::new();
    for _ in 0..n {
        ids.push(book.insert_ask(order(100, 100)));
    }
    // a bid for three full asks fills exactly the first three in insertion order
    let b0 = book.insert_bid(order(100, 300));
    let fills = book.execute_bid(b0);
    assert_eq!(
        fills,
        vec![
            (ids[0], Quantity(100)),
            (ids[1], Quantity(100)),
            (ids[2], Quantity(100)),
        ]
    );
    // a bid for three-and-a-half leaves a half-filled head at the level
    let b1 = book.insert_bid(order(100, 350));
    let fills = book.execute_bid(b1);
    assert_eq!(
        fills,
        vec![
            (ids[3], Quantity(100)),
            (ids[4], Quantity(100)),
            (ids[5], Quantity(100)),
            (ids[6], Quantity(50)),
        ]
    );
    let head = book.first_ask().unwrap();
    assert_eq!(head.price, Price(100));
    assert_eq!(head.quantity, Quantity(100));
    assert_eq!(head.filled, Quantity(50));
    assert!(!head.is_cancelled);
    let level = book.level(Side::Ask, Price(100)).unwrap();
    assert_eq!(level[0], ids[6]);
    assert_eq!(level.len(), (n - 7 + 1) as usize);
}

#[test]
fn empty_execute_leaves_order_resting() {
    let mut book = OrderBook::default();
    let b0 = book.insert_bid(order(100, 100));
    let fills = book.execute_bid(b0);
    assert_eq!(fills, Vec::new());
    let resting = book.get_bid(b0).unwrap();
    assert_eq!(resting.filled, Quantity(0));
    assert!(!resting.is_cancelled);
    assert_eq!(book.level(Side::Bid, Price(100)), Some(vec![b0]));
}

#[test]
fn spread_is_absolute_difference_of_best_prices() {
    let mut book = OrderBook::default();
    assert_eq!(book.spread(), None);
    book.insert_bid(order(95, 10));
    assert_eq!(book.spread(), None);
    book.insert_ask(order(105, 10));
    assert_eq!(book.spread(), Some(Price(10)));
    book.insert_bid(order(99, 10));
    book.insert_ask(order(101, 10));
    assert_eq!(book.spread(), Some(Price(2)));
}

#[test]
fn best_price_uses_zero_sentinel_when_empty() {
    let mut book = OrderBook::default();
    assert_eq!(book.best_price(Side::Ask), Price(0));
    assert_eq!(book.best_price(Side::Bid), Price(0));
    book.insert_ask(order(42, 1));
    assert_eq!(book.best_price(Side::Ask), Price(42));
    assert_eq!(book.bid_market_price(), None);
}

#[test]
fn first_prefers_lowest_id_with_ties_to_asks() {
    let mut book = OrderBook::default();
    assert_eq!(book.first(), None);
    let b0 = book.insert_bid(order(90, 10));
    assert_eq!(book.first(), Some((Side::Bid, b0)));
    let a0 = book.insert_ask(order(110, 10));
    // both heads carry book-local id zero; the tie goes to the asks
    assert_eq!(a0, OrderId(0));
    assert_eq!(book.first(), Some((Side::Ask, a0)));
}

#[test]
fn update_rejects_price_changes_and_shrinking_below_filled() {
    let mut book = OrderBook::default();
    let a0 = book.insert_ask(order(100, 100));
    let b0 = book.insert_bid(order(100, 30));
    let fills = book.execute_bid(b0);
    assert_eq!(fills, vec![(a0, Quantity(30))]);
    // quantity below the filled 30 is rejected
    assert_eq!(book.update_ask(a0, None, Some(Quantity(20))), false);
    // re-pricing a resting order is rejected
    assert_eq!(book.update_ask(a0, Some(Price(101)), None), false);
    assert_eq!(book.get_ask(a0).unwrap().quantity, Quantity(100));
    assert_eq!(book.get_ask(a0).unwrap().price, Price(100));
    // growing the quantity is accepted
    assert_eq!(book.update_ask(a0, Some(Price(100)), Some(Quantity(200))), true);
    assert_eq!(book.get_ask(a0).unwrap().quantity, Quantity(200));
    // an unknown id is rejected
    assert_eq!(book.update_ask(OrderId(99), None, Some(Quantity(5))), false);
}

#[test]
fn filled_total_is_twice_executed_volume() {
    let mut book = OrderBook::default();
    let mut volume: u64 = 0;
    for i in 0..10u32 {
        book.insert_ask(order(100 + (i % 3), 40 + i));
    }
    for i in 0..6u32 {
        let b = book.insert_bid(order(100 + (i % 3), 70));
        for (_, q) in book.execute_bid(b) {
            volume += q.0 as u64;
        }
    }
    let mut filled_sum: u64 = 0;
    for o in book.asks.orders.iter() {
        filled_sum += o.filled.0 as u64;
    }
    for o in book.bids.orders.iter() {
        filled_sum += o.filled.0 as u64;
    }
    assert!(volume > 0);
    assert_eq!(filled_sum, 2 * volume);
}

#[test]
fn level_key_exists_iff_live_orders_rest_there() {
    let mut book = OrderBook::default();
    let a0 = book.insert_ask(order(100, 50));
    let a1 = book.insert_ask(order(100, 50));
    assert!(book.level(Side::Ask, Price(100)).is_some());
    // fill the first completely; the level keeps the second
    let b0 = book.insert_bid(order(100, 50));
    assert_eq!(book.execute_bid(b0), vec![(a0, Quantity(50))]);
    assert_eq!(book.level(Side::Ask, Price(100)), Some(vec![a1]));
    // cancel the second; the level disappears
    assert!(book.cancel_ask(a1));
    assert_eq!(book.level(Side::Ask, Price(100)), None);
}

#[test]
fn book_stays_uncrossed_without_crossing_inserts() {
    let mut book = OrderBook::default();
    let b0 = book.insert_bid(order(98, 40));
    book.insert_bid(order(97, 40));
    let a0 = book.insert_ask(order(101, 40));
    book.insert_ask(order(102, 40));
    assert!(book.bid_market_price().unwrap().0 < book.ask_market_price().unwrap().0);
    // executes at resting prices find no opposite level and change nothing
    assert_eq!(book.execute_bid(b0), Vec::new());
    assert_eq!(book.execute_ask(a0), Vec::new());
    assert!(book.bid_market_price().unwrap().0 < book.ask_market_price().unwrap().0);
    // cancelling the best bid only widens the spread
    assert!(book.cancel_bid(b0));
    assert_eq!(book.bid_market_price(), Some(Price(97)));
    assert!(book.bid_market_price().unwrap().0 < book.ask_market_price().unwrap().0);
}
