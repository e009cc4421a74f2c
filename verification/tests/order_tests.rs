use match_engine::order::{AskOrder, BidOrder};
use match_engine::types::{Price, Quantity};

#[test]
fn fill_returns_remaining_quantity_when_price_is_equal() {
    let bid = BidOrder {
        price: Price(100),
        quantity: Quantity(100),
        filled: Quantity(20),
    };
    let ask = AskOrder::new(Price(100), Quantity(100));

    assert_eq!(BidOrder::fill(&bid, &ask), Quantity(80));
}

#[test]
fn fill_is_zero_when_prices_differ() {
    let bid = BidOrder::new(Price(99), Quantity(100));
    let ask = AskOrder::new(Price(100), Quantity(100));
    assert_eq!(BidOrder::fill(&bid, &ask), Quantity(0));
}

#[test]
fn fill_is_zero_when_either_side_is_full() {
    let bid = BidOrder {
        price: Price(100),
        quantity: Quantity(50),
        filled: Quantity(50),
    };
    let ask = AskOrder::new(Price(100), Quantity(100));
    assert_eq!(BidOrder::fill(&bid, &ask), Quantity(0));

    let bid = BidOrder::new(Price(100), Quantity(50));
    let ask = AskOrder {
        price: Price(100),
        quantity: Quantity(30),
        filled: Quantity(30),
    };
    assert_eq!(BidOrder::fill(&bid, &ask), Quantity(0));
}

#[test]
fn fill_takes_the_smaller_remaining_side() {
    let bid = BidOrder::new(Price(7), Quantity(10));
    let ask = AskOrder {
        price: Price(7),
        quantity: Quantity(100),
        filled: Quantity(95),
    };
    assert_eq!(BidOrder::fill(&bid, &ask), Quantity(5));
}
