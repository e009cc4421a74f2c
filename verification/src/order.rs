//! Side-specific order records and the pairwise fill rule: how much of a
//! bid and an ask trade when they meet at one price.

use vstd::prelude::*;

use crate::types::{Price, Quantity};

verus! {

/// A buy order: price, original size, and filled amount.
#[derive(Clone, Copy, PartialEq, Eq, Debug, Structural)]
pub struct BidOrder {
    pub price: Price,
    pub quantity: Quantity,
    pub filled: Quantity,
}

/// A sell order: price, original size, and filled amount.
#[derive(Clone, Copy, PartialEq, Eq, Debug, Structural)]
pub struct AskOrder {
    pub price: Price,
    pub quantity: Quantity,
    pub filled: Quantity,
}

impl BidOrder {
    /// The unfilled part.
    pub open spec fn spec_remaining(self) -> int {
        self.quantity.0 - self.filled.0
    }

    /// Whether the bid is fully filled.
    pub open spec fn spec_is_filled(self) -> bool {
        self.filled.0 >= self.quantity.0
    }

    /// Never filled past the size.
    pub open spec fn wf(self) -> bool {
        self.filled.0 <= self.quantity.0
    }

    /// Build a fresh, unfilled bid.
    pub fn new(price: Price, quantity: Quantity) -> (o: BidOrder)
        ensures
            o == (BidOrder { price, quantity, filled: Quantity(0) }),
    {
        BidOrder { price, quantity, filled: Quantity(0) }
    }

    /// The quantity a bid and an ask fill each other for: the smaller
    /// remaining quantity when neither is fully filled and the prices
    /// meet, and nothing otherwise.
    pub fn fill(bid: &BidOrder, ask: &AskOrder) -> (r: Quantity)
        requires
            bid.wf(),
            ask.wf(),
        ensures
            r.0 == if !bid.spec_is_filled() && !ask.spec_is_filled() && bid.price == ask.price {
                if bid.spec_remaining() < ask.spec_remaining() {
                    bid.spec_remaining()
                } else {
                    ask.spec_remaining()
                }
            } else {
                0
            },
    {
        let bid_filled = bid.filled.0 >= bid.quantity.0;
        let ask_filled = ask.filled.0 >= ask.quantity.0;
        if !bid_filled && !ask_filled && bid.price == ask.price {
            let br = bid.quantity.0 - bid.filled.0;
            let ar = ask.quantity.0 - ask.filled.0;
            if br < ar {
                Quantity(br)
            } else {
                Quantity(ar)
            }
        } else {
            Quantity(0)
        }
    }
}

impl AskOrder {
    /// The unfilled part.
    pub open spec fn spec_remaining(self) -> int {
        self.quantity.0 - self.filled.0
    }

    /// Whether the ask is fully filled.
    pub open spec fn spec_is_filled(self) -> bool {
        self.filled.0 >= self.quantity.0
    }

    /// Never filled past the size.
    pub open spec fn wf(self) -> bool {
        self.filled.0 <= self.quantity.0
    }

    /// Build a fresh, unfilled ask.
    pub fn new(price: Price, quantity: Quantity) -> (o: AskOrder)
        ensures
            o == (AskOrder { price, quantity, filled: Quantity(0) }),
    {
        AskOrder { price, quantity, filled: Quantity(0) }
    }
}

} // verus!
