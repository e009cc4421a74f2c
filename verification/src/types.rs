//! Scalar domain types: prices, quantities, identifiers, sides and orders.

use vstd::prelude::*;

verus! {

/// An integer price.
#[derive(Clone, Copy, PartialEq, Eq, Debug, Structural)]
pub struct Price(pub u32);

/// An integer quantity.
#[derive(Clone, Copy, PartialEq, Eq, Debug, Structural)]
pub struct Quantity(pub u32);

/// An order id local to one price ladder: a dense index into its order store.
#[derive(Clone, Copy, PartialEq, Eq, Debug, Structural)]
pub struct OrderId(pub usize);

/// An account id, assigned sequentially by the engine.
#[derive(Clone, Copy, PartialEq, Eq, Debug, Structural)]
pub struct AccountId(pub usize);

/// A product symbol: exactly four characters, compared by character sequence.
#[derive(Clone, Copy, PartialEq, Eq, Debug, Structural)]
pub struct Symbol {
    pub c0: char,
    pub c1: char,
    pub c2: char,
    pub c3: char,
}

impl Symbol {
    /// Build a symbol from its four characters.
    pub fn new(c0: char, c1: char, c2: char, c3: char) -> (s: Symbol)
        ensures
            s == (Symbol { c0, c1, c2, c3 }),
    {
        Symbol { c0, c1, c2, c3 }
    }
}

/// Side of an order.
#[derive(Clone, Copy, PartialEq, Eq, Debug, Structural)]
pub enum Side {
    Bid,
    Ask,
}

impl Side {
    /// The side a taker on this side matches against.
    pub open spec fn spec_opposite(self) -> Side {
        match self {
            Side::Bid => Side::Ask,
            Side::Ask => Side::Bid,
        }
    }

    /// Return the other side.
    #[verifier::when_used_as_spec(spec_opposite)]
    pub fn opposite(self) -> (r: Side)
        ensures
            r == self.spec_opposite(),
    {
        match self {
            Side::Bid => Side::Ask,
            Side::Ask => Side::Bid,
        }
    }
}

/// A limit order: an immutable price and original size, plus the mutable
/// fill progress and cancellation flag.
#[derive(Clone, Copy, PartialEq, Eq, Debug, Structural)]
pub struct Order {
    pub price: Price,
    pub quantity: Quantity,
    pub filled: Quantity,
    pub is_cancelled: bool,
}

impl Order {
    /// The unfilled part of the order.
    pub open spec fn spec_remaining(self) -> int {
        self.quantity.0 - self.filled.0
    }

    /// Whether the order is fully filled.
    pub open spec fn spec_is_filled(self) -> bool {
        self.filled.0 >= self.quantity.0
    }

    /// A well-formed order never has more filled than its size.
    pub open spec fn wf(self) -> bool {
        self.filled.0 <= self.quantity.0
    }

    /// Build a fresh, unfilled, live order.
    pub fn new(price: Price, quantity: Quantity) -> (o: Order)
        ensures
            o == (Order { price, quantity, filled: Quantity(0), is_cancelled: false }),
    {
        Order { price, quantity, filled: Quantity(0), is_cancelled: false }
    }

    /// Build a live order with part of its size already filled.
    pub fn new_partially_filled(price: Price, quantity: Quantity, filled: Quantity) -> (o: Order)
        requires
            filled.0 < quantity.0,
        ensures
            o == (Order { price, quantity, filled, is_cancelled: false }),
    {
        Order { price, quantity, filled, is_cancelled: false }
    }

    /// Return the unfilled quantity.
    pub fn remaining(&self) -> (r: Quantity)
        requires
            self.wf(),
        ensures
            r.0 == self.spec_remaining(),
    {
        Quantity(self.quantity.0 - self.filled.0)
    }

    /// Return whether the order is fully filled.
    pub fn is_filled(&self) -> (r: bool)
        ensures
            r == self.spec_is_filled(),
    {
        self.filled.0 >= self.quantity.0
    }
}

} // verus!
