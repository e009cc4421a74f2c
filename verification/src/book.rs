//! A two-sided order book: a descending-price bid ladder and an
//! ascending-price ask ladder over one instrument, with side-tagged
//! dispatch, spread, and taker execution against the opposite side.

use vstd::prelude::*;

use crate::ladder::{lemma_best_price_bound, lemma_overwrite_filled_wf, LimitLevels};
use crate::matching::{fills_total, lemma_sum_filled_update, match_at_level, sum_filled};
use crate::types::{Order, OrderId, Price, Quantity, Side};

verus! {

/// One instrument's order book: bids (best is the highest price) and asks
/// (best is the lowest price). The two ladders share no state.
#[derive(Clone, Debug)]
pub struct OrderBook {
    pub bids: LimitLevels,
    pub asks: LimitLevels,
}

impl OrderBook {
    /// The ladder holding the given side.
    pub open spec fn ladder_of(self, side: Side) -> LimitLevels {
        match side {
            Side::Bid => self.bids,
            Side::Ask => self.asks,
        }
    }

    /// Both ladders well-formed, bids descending, asks ascending.
    pub open spec fn wf(self) -> bool {
        &&& self.bids.wf()
        &&& !self.bids.ascending
        &&& self.asks.wf()
        &&& self.asks.ascending
    }

    /// The book is uncrossed: when both sides are non-empty, the best bid
    /// is strictly below the best ask.
    pub open spec fn uncrossed(self) -> bool {
        self.bids.n_levels() > 0 && self.asks.n_levels() > 0 ==> self.bids.price_at(0).0
            < self.asks.price_at(0).0
    }

    /// Whether resting an order at price `p` on `side` would cross the
    /// best price of the other side.
    pub open spec fn crosses(self, side: Side, p: Price) -> bool {
        match side {
            Side::Bid => self.asks.n_levels() > 0 && p.0 >= self.asks.price_at(0).0,
            Side::Ask => self.bids.n_levels() > 0 && p.0 <= self.bids.price_at(0).0,
        }
    }

    /// Build an empty book.
    pub fn new() -> (b: OrderBook)
        ensures
            b.wf(),
            b.bids.tight(),
            b.asks.tight(),
            b.uncrossed(),
            b.bids.n_levels() == 0,
            b.bids.n_orders() == 0,
            b.asks.n_levels() == 0,
            b.asks.n_orders() == 0,
    {
        OrderBook { bids: LimitLevels::new(false), asks: LimitLevels::new(true) }
    }

    /// The absolute difference of the two best prices, or none when either
    /// side is empty.
    pub fn spread(&self) -> (r: Option<Price>)
        ensures
            r == match (self.asks.spec_best_price(), self.bids.spec_best_price()) {
                (Some(a), Some(b)) => Some(
                    Price(if a.0 > b.0 {
                        (a.0 - b.0) as u32
                    } else {
                        (b.0 - a.0) as u32
                    }),
                ),
                _ => None::<Price>,
            },
    {
        match (self.asks.price(), self.bids.price()) {
            (Some(ask), Some(bid)) => {
                if ask.0 > bid.0 {
                    Some(Price(ask.0 - bid.0))
                } else {
                    Some(Price(bid.0 - ask.0))
                }
            },
            _ => None,
        }
    }

    /// Best price on the given side, with the zero price standing in for
    /// an empty side.
    pub fn best_price(&self, side: Side) -> (r: Price)
        ensures
            r == match self.ladder_of(side).spec_best_price() {
                Some(p) => p,
                None => Price(0),
            },
    {
        match side {
            Side::Ask => self.asks.best_price(),
            Side::Bid => self.bids.best_price(),
        }
    }

    /// Best asking price, if any ask rests.
    pub fn ask_market_price(&self) -> (r: Option<Price>)
        ensures
            r == self.asks.spec_best_price(),
    {
        self.asks.price()
    }

    /// Best bidding price, if any bid rests.
    pub fn bid_market_price(&self) -> (r: Option<Price>)
        ensures
            r == self.bids.spec_best_price(),
    {
        self.bids.price()
    }

    /// Insert an order on the given side; returns its new book-local id.
    /// An uncrossed book stays uncrossed unless the new order itself
    /// crosses the other side.
    pub fn insert(&mut self, side: Side, order: Order) -> (id: OrderId)
        requires
            old(self).wf(),
            !order.is_cancelled,
            order.filled.0 == 0,
            order.quantity.0 > 0,
        ensures
            final(self).wf(),
            old(self).ladder_of(side).tight() ==> final(self).ladder_of(side).tight(),
            final(self).ladder_of(side.spec_opposite()) == old(self).ladder_of(
                side.spec_opposite(),
            ),
            id.0 == old(self).ladder_of(side).n_orders(),
            final(self).ladder_of(side).orders@ == old(self).ladder_of(side).orders@.push(order),
            final(self).ladder_of(side).has_level(order.price),
            final(self).ladder_of(side).level_ids(order.price) == old(self).ladder_of(
                side,
            ).level_ids(order.price).push(id),
            forall|q: Price|
                q != order.price ==> #[trigger] final(self).ladder_of(side).has_level(q) == old(self).ladder_of(side).has_level(q),
            forall|q: Price|
                q != order.price ==> #[trigger] final(self).ladder_of(side).level_ids(q) == old(self).ladder_of(side).level_ids(q),
            (old(self).uncrossed() && !old(self).crosses(side, order.price)) ==> final(self).uncrossed(),
    {
        let ghost pre = *self;
        let id = match side {
            Side::Ask => self.asks.insert(order),
            Side::Bid => self.bids.insert(order),
        };
        proof {
            lemma_insert_uncrossed(pre, *self, side, order.price);
        }
        id
    }

    /// Insert an ask.
    pub fn insert_ask(&mut self, order: Order) -> (id: OrderId)
        requires
            old(self).wf(),
            !order.is_cancelled,
            order.filled.0 == 0,
            order.quantity.0 > 0,
        ensures
            final(self).wf(),
            final(self).bids == old(self).bids,
            id.0 == old(self).asks.n_orders(),
            final(self).asks.orders@ == old(self).asks.orders@.push(order),
            final(self).asks.level_ids(order.price) == old(self).asks.level_ids(
                order.price,
            ).push(id),
            forall|q: Price|
                q != order.price ==> #[trigger] final(self).asks.level_ids(q) == old(self).asks.level_ids(q),
            forall|q: Price|
                q != order.price ==> #[trigger] final(self).asks.has_level(q) == old(self).asks.has_level(q),
            final(self).asks.has_level(order.price),
            old(self).asks.tight() ==> final(self).asks.tight(),
    {
        self.insert(Side::Ask, order)
    }

    /// Insert a bid.
    pub fn insert_bid(&mut self, order: Order) -> (id: OrderId)
        requires
            old(self).wf(),
            !order.is_cancelled,
            order.filled.0 == 0,
            order.quantity.0 > 0,
        ensures
            final(self).wf(),
            final(self).asks == old(self).asks,
            id.0 == old(self).bids.n_orders(),
            final(self).bids.orders@ == old(self).bids.orders@.push(order),
            final(self).bids.level_ids(order.price) == old(self).bids.level_ids(
                order.price,
            ).push(id),
            forall|q: Price|
                q != order.price ==> #[trigger] final(self).bids.level_ids(q) == old(self).bids.level_ids(q),
            forall|q: Price|
                q != order.price ==> #[trigger] final(self).bids.has_level(q) == old(self).bids.has_level(q),
            final(self).bids.has_level(order.price),
            old(self).bids.tight() ==> final(self).bids.tight(),
    {
        self.insert(Side::Bid, order)
    }

    /// Cancel the order with the given id on the given side. An uncrossed
    /// book stays uncrossed: cancelling only removes levels.
    pub fn cancel(&mut self, side: Side, id: OrderId) -> (r: bool)
        requires
            old(self).wf(),
        ensures
            final(self).wf(),
            old(self).ladder_of(side).tight() ==> final(self).ladder_of(side).tight(),
            final(self).ladder_of(side.spec_opposite()) == old(self).ladder_of(
                side.spec_opposite(),
            ),
            r == old(self).ladder_of(side).cancel_ok(id),
            !final(self).ladder_of(side).cancel_ok(id),
            !r ==> *final(self) == *old(self),
            r ==> final(self).ladder_of(side).orders@ == old(self).ladder_of(
                side,
            ).orders@.update(
                id.0 as int,
                Order {
                    is_cancelled: true,
                    ..old(self).ladder_of(side).order_at(id.0 as int)
                },
            ),
            r ==> ({
                let p = old(self).ladder_of(side).order_at(id.0 as int).price;
                &&& exists|k: int|
                    0 <= k < old(self).ladder_of(side).level_ids(p).len() && #[trigger] old(self).ladder_of(side).level_ids(p)[k] == id && final(self).ladder_of(
                        side,
                    ).level_ids(p) == old(self).ladder_of(side).level_ids(p).remove(k)
                &&& final(self).ladder_of(side).has_level(p) == (old(self).ladder_of(
                    side,
                ).level_ids(p).len() > 1)
                &&& forall|q: Price|
                    q != p ==> #[trigger] final(self).ladder_of(side).has_level(q) == old(self).ladder_of(side).has_level(q)
                &&& forall|q: Price|
                    q != p ==> #[trigger] final(self).ladder_of(side).level_ids(q) == old(self).ladder_of(side).level_ids(q)
            }),
            old(self).uncrossed() ==> final(self).uncrossed(),
    {
        let ghost pre = *self;
        let r = match side {
            Side::Bid => self.bids.cancel(id),
            Side::Ask => self.asks.cancel(id),
        };
        proof {
            lemma_shrink_uncrossed(pre, *self, side);
        }
        r
    }

    /// Cancel an ask.
    pub fn cancel_ask(&mut self, id: OrderId) -> (r: bool)
        requires
            old(self).wf(),
        ensures
            final(self).wf(),
            final(self).bids == old(self).bids,
            r == old(self).asks.cancel_ok(id),
            !final(self).asks.cancel_ok(id),
            !r ==> *final(self) == *old(self),
            r ==> final(self).asks.orders@ == old(self).asks.orders@.update(
                id.0 as int,
                Order { is_cancelled: true, ..old(self).asks.order_at(id.0 as int) },
            ),
            r ==> ({
                let p = old(self).asks.order_at(id.0 as int).price;
                &&& exists|k: int|
                    0 <= k < old(self).asks.level_ids(p).len() && #[trigger] old(self).asks.level_ids(p)[k] == id && final(self).asks.level_ids(p) == old(self).asks.level_ids(p).remove(k)
                &&& final(self).asks.has_level(p) == (old(self).asks.level_ids(p).len() > 1)
                &&& forall|q: Price|
                    q != p ==> #[trigger] final(self).asks.has_level(q) == old(self).asks.has_level(q)
                &&& forall|q: Price|
                    q != p ==> #[trigger] final(self).asks.level_ids(q) == old(self).asks.level_ids(q)
            }),
            old(self).asks.tight() ==> final(self).asks.tight(),
    {
        self.cancel(Side::Ask, id)
    }

    /// Cancel a bid.
    pub fn cancel_bid(&mut self, id: OrderId) -> (r: bool)
        requires
            old(self).wf(),
        ensures
            final(self).wf(),
            final(self).asks == old(self).asks,
            r == old(self).bids.cancel_ok(id),
            !final(self).bids.cancel_ok(id),
            !r ==> *final(self) == *old(self),
            r ==> final(self).bids.orders@ == old(self).bids.orders@.update(
                id.0 as int,
                Order { is_cancelled: true, ..old(self).bids.order_at(id.0 as int) },
            ),
            r ==> ({
                let p = old(self).bids.order_at(id.0 as int).price;
                &&& exists|k: int|
                    0 <= k < old(self).bids.level_ids(p).len() && #[trigger] old(
                        self,
                    ).bids.level_ids(p)[k] == id && final(self).bids.level_ids(p) == old(
                        self,
                    ).bids.level_ids(p).remove(k)
                &&& final(self).bids.has_level(p) == (old(self).bids.level_ids(p).len() > 1)
                &&& forall|q: Price|
                    q != p ==> #[trigger] final(self).bids.has_level(q) == old(
                        self,
                    ).bids.has_level(q)
                &&& forall|q: Price|
                    q != p ==> #[trigger] final(self).bids.level_ids(q) == old(
                        self,
                    ).bids.level_ids(q)
            }),
            old(self).bids.tight() ==> final(self).bids.tight(),
    {
        self.cancel(Side::Bid, id)
    }

    /// Look up an order on the given side.
    pub fn get(&self, side: Side, id: OrderId) -> (r: Option<Order>)
        ensures
            id.0 < self.ladder_of(side).n_orders() ==> r == Some(
                self.ladder_of(side).order_at(id.0 as int),
            ),
            id.0 >= self.ladder_of(side).n_orders() ==> r is None,
    {
        match side {
            Side::Ask => self.asks.get(id),
            Side::Bid => self.bids.get(id),
        }
    }

    /// Look up an ask.
    pub fn get_ask(&self, id: OrderId) -> (r: Option<Order>)
        ensures
            id.0 < self.asks.n_orders() ==> r == Some(self.asks.order_at(id.0 as int)),
            id.0 >= self.asks.n_orders() ==> r is None,
    {
        self.asks.get(id)
    }

    /// Look up a bid.
    pub fn get_bid(&self, id: OrderId) -> (r: Option<Order>)
        ensures
            id.0 < self.bids.n_orders() ==> r == Some(self.bids.order_at(id.0 as int)),
            id.0 >= self.bids.n_orders() ==> r is None,
    {
        self.bids.get(id)
    }

    /// Update an order's quantity on the given side (a differing price is
    /// rejected, see [`LimitLevels::update`]).
    pub fn update(
        &mut self,
        side: Side,
        id: OrderId,
        maybe_price: Option<Price>,
        maybe_quantity: Option<Quantity>,
    ) -> (r: bool)
        requires
            old(self).wf(),
        ensures
            final(self).wf(),
            final(self).ladder_of(side.spec_opposite()) == old(self).ladder_of(
                side.spec_opposite(),
            ),
            r == old(self).ladder_of(side).update_ok(id, maybe_price, maybe_quantity),
            !r ==> *final(self) == *old(self),
            r ==> final(self).ladder_of(side).orders@ == old(self).ladder_of(
                side,
            ).orders@.update(
                id.0 as int,
                Order {
                    quantity: match maybe_quantity {
                        Some(nq) => nq,
                        None => old(self).ladder_of(side).order_at(id.0 as int).quantity,
                    },
                    ..old(self).ladder_of(side).order_at(id.0 as int)
                },
            ),
            final(self).ladder_of(side).limit_levels@ == old(self).ladder_of(
                side,
            ).limit_levels@,
            old(self).uncrossed() ==> final(self).uncrossed(),
    {
        let r = match side {
            Side::Bid => self.bids.update(id, maybe_price, maybe_quantity),
            Side::Ask => self.asks.update(id, maybe_price, maybe_quantity),
        };
        r
    }

    /// Update a bid.
    pub fn update_bid(
        &mut self,
        id: OrderId,
        maybe_price: Option<Price>,
        maybe_quantity: Option<Quantity>,
    ) -> (r: bool)
        requires
            old(self).wf(),
        ensures
            final(self).wf(),
            final(self).asks == old(self).asks,
            r == old(self).bids.update_ok(id, maybe_price, maybe_quantity),
            !r ==> *final(self) == *old(self),
            r ==> final(self).bids.orders@ == old(self).bids.orders@.update(
                id.0 as int,
                Order {
                    quantity: match maybe_quantity {
                        Some(nq) => nq,
                        None => old(self).bids.order_at(id.0 as int).quantity,
                    },
                    ..old(self).bids.order_at(id.0 as int)
                },
            ),
            final(self).bids.limit_levels@ == old(self).bids.limit_levels@,
    {
        self.update(Side::Bid, id, maybe_price, maybe_quantity)
    }

    /// Update an ask.
    pub fn update_ask(
        &mut self,
        id: OrderId,
        maybe_price: Option<Price>,
        maybe_quantity: Option<Quantity>,
    ) -> (r: bool)
        requires
            old(self).wf(),
        ensures
            final(self).wf(),
            final(self).bids == old(self).bids,
            r == old(self).asks.update_ok(id, maybe_price, maybe_quantity),
            !r ==> *final(self) == *old(self),
            r ==> final(self).asks.orders@ == old(self).asks.orders@.update(
                id.0 as int,
                Order {
                    quantity: match maybe_quantity {
                        Some(nq) => nq,
                        None => old(self).asks.order_at(id.0 as int).quantity,
                    },
                    ..old(self).asks.order_at(id.0 as int)
                },
            ),
            final(self).asks.limit_levels@ == old(self).asks.limit_levels@,
    {
        self.update(Side::Ask, id, maybe_price, maybe_quantity)
    }

    /// Snapshot of the resting ids at a price on the given side.
    pub fn level(&self, side: Side, price: Price) -> (r: Option<Vec<OrderId>>)
        requires
            self.wf(),
        ensures
            match r {
                Some(v) => self.ladder_of(side).has_level(price) && v@ == self.ladder_of(
                    side,
                ).level_ids(price),
                None => !self.ladder_of(side).has_level(price),
            },
    {
        match side {
            Side::Bid => self.bids.level(price),
            Side::Ask => self.asks.level(price),
        }
    }

    /// Snapshot of the resting ask orders at a price, in FIFO order.
    pub fn ask_limit_level(&self, price: Price) -> (r: Option<Vec<Order>>)
        requires
            self.wf(),
        ensures
            match r {
                Some(v) => {
                    &&& self.asks.has_level(price)
                    &&& v@.len() == self.asks.level_ids(price).len()
                    &&& forall|k: int|
                        0 <= k < v@.len() ==> #[trigger] v@[k] == self.asks.order_at(
                            self.asks.level_ids(price)[k].0 as int,
                        )
                },
                None => !self.asks.has_level(price),
            },
    {
        self.asks.level_orders(price)
    }

    /// The head of the best bid level, as an order.
    pub fn first_bid(&self) -> (r: Option<Order>)
        requires
            self.wf(),
        ensures
            self.bids.n_levels() == 0 ==> r is None,
            self.bids.n_levels() > 0 ==> r == Some(
                self.bids.order_at(self.bids.fifo_at(0)[0].0 as int),
            ),
    {
        match self.bids.first() {
            Some(id) => {
                proof {
                    assert(self.bids.entry_ok(0, 0));
                }
                self.bids.get(id)
            },
            None => None,
        }
    }

    /// The head of the best ask level, as an order.
    pub fn first_ask(&self) -> (r: Option<Order>)
        requires
            self.wf(),
        ensures
            self.asks.n_levels() == 0 ==> r is None,
            self.asks.n_levels() > 0 ==> r == Some(
                self.asks.order_at(self.asks.fifo_at(0)[0].0 as int),
            ),
    {
        match self.asks.first() {
            Some(id) => {
                proof {
                    assert(self.asks.entry_ok(0, 0));
                }
                self.asks.get(id)
            },
            None => None,
        }
    }

    /// The side whose best-level head carries the lower id, with ties
    /// going to the asks; the oldest order at a best price.
    pub fn first(&self) -> (r: Option<(Side, OrderId)>)
        requires
            self.wf(),
        ensures
            r == match (
                (if self.asks.n_levels() > 0 {
                    Some(self.asks.fifo_at(0)[0])
                } else {
                    None::<OrderId>
                }),
                (if self.bids.n_levels() > 0 {
                    Some(self.bids.fifo_at(0)[0])
                } else {
                    None::<OrderId>
                }),
            ) {
                (Some(a), Some(b)) => if a.0 <= b.0 {
                    Some((Side::Ask, a))
                } else {
                    Some((Side::Bid, b))
                },
                (Some(a), None) => Some((Side::Ask, a)),
                (None, Some(b)) => Some((Side::Bid, b)),
                (None, None) => None::<(Side, OrderId)>,
            },
    {
        match (self.asks.first(), self.bids.first()) {
            (Some(a), Some(b)) => {
                if a.0 <= b.0 {
                    Some((Side::Ask, a))
                } else {
                    Some((Side::Bid, b))
                }
            },
            (Some(a), None) => Some((Side::Ask, a)),
            (None, Some(b)) => Some((Side::Bid, b)),
            (None, None) => None,
        }
    }
}

/// Execution: the taker's own record lives in its side's ladder and is
/// mutated in place; its queue position there is untouched, even when it
/// ends fully filled (the one way a fully filled order stays queued).
impl OrderBook {
    /// Execute the order with the given id on `side` as the taker,
    /// matching it against the opposite ladder at the taker's own price.
    /// Returns whether the taker ended fully filled and the fills
    /// `(opposite book id, quantity, resting_filled)` in match order.
    pub fn execute(&mut self, side: Side, id: OrderId) -> (r: (
        bool,
        Vec<(OrderId, Quantity, bool)>,
    ))
        requires
            old(self).wf(),
            id.0 < old(self).ladder_of(side).n_orders(),
        ensures
            final(self).wf(),
            ({
                let own = old(self).ladder_of(side);
                let opp = old(self).ladder_of(side.spec_opposite());
                let taker0 = own.order_at(id.0 as int);
                let m = match_at_level(opp.orders@, opp.level_ids(taker0.price), taker0);
                &&& final(self).ladder_of(side.spec_opposite()).orders@ == m.orders
                &&& final(self).ladder_of(side.spec_opposite()).level_ids(taker0.price) == m.fifo
                &&& final(self).ladder_of(side.spec_opposite()).has_level(taker0.price) == (
                m.fifo.len() > 0)
                &&& (forall|q: Price|
                    q != taker0.price ==> #[trigger] final(self).ladder_of(
                        side.spec_opposite(),
                    ).has_level(q) == opp.has_level(q))
                &&& (forall|q: Price|
                    q != taker0.price ==> #[trigger] final(self).ladder_of(
                        side.spec_opposite(),
                    ).level_ids(q) == opp.level_ids(q))
                &&& final(self).ladder_of(side).orders@ == own.orders@.update(
                    id.0 as int,
                    m.taker,
                )
                &&& final(self).ladder_of(side).limit_levels@ == own.limit_levels@
                &&& r.1@ == m.fills
                &&& r.0 == m.taker.spec_is_filled()
                &&& (opp.tight() ==> final(self).ladder_of(side.spec_opposite()).tight())
                &&& ((own.tight() && (!m.taker.spec_is_filled() || !own.is_resting(id)))
                    ==> final(self).ladder_of(side).tight())
                &&& (forall|k: int|
                    0 <= k < r.1@.len() ==> (#[trigger] r.1@[k]).0.0 < opp.n_orders())
            }),
            sum_filled(final(self).bids.orders@) + sum_filled(final(self).asks.orders@)
                == sum_filled(old(self).bids.orders@) + sum_filled(old(self).asks.orders@) + 2
                * fills_total(r.1@),
            old(self).uncrossed() ==> final(self).uncrossed(),
            final(self).bids.n_orders() == old(self).bids.n_orders(),
            final(self).asks.n_orders() == old(self).asks.n_orders(),
    {
        let ghost pre = *self;
        match side {
            Side::Bid => {
                let mut taker = self.bids.orders[id.0];
                proof {
                    assert(pre.bids.order_at(id.0 as int).wf());
                }
                let r = self.asks.execute(&mut taker);
                self.bids.orders[id.0] = taker;
                proof {
                    lemma_overwrite_filled_wf(pre.bids, self.bids, id);
                    lemma_sum_filled_update(pre.bids.orders@, id.0 as int, taker);
                    lemma_shrink_uncrossed(pre, *self, Side::Ask);
                }
                r
            },
            Side::Ask => {
                let mut taker = self.asks.orders[id.0];
                proof {
                    assert(pre.asks.order_at(id.0 as int).wf());
                }
                let r = self.bids.execute(&mut taker);
                self.asks.orders[id.0] = taker;
                proof {
                    lemma_overwrite_filled_wf(pre.asks, self.asks, id);
                    lemma_sum_filled_update(pre.asks.orders@, id.0 as int, taker);
                    lemma_shrink_uncrossed(pre, *self, Side::Bid);
                }
                r
            },
        }
    }

    /// Execute the bid with the given id against the asks, returning the
    /// fills as `(ask book id, quantity)` pairs; an unknown id yields no
    /// fills and no change.
    pub fn execute_bid(&mut self, id: OrderId) -> (r: Vec<(OrderId, Quantity)>)
        requires
            old(self).wf(),
        ensures
            final(self).wf(),
            id.0 >= old(self).bids.n_orders() ==> *final(self) == *old(self) && r@.len() == 0,
            id.0 < old(self).bids.n_orders() ==> ({
                let taker0 = old(self).bids.order_at(id.0 as int);
                let m = match_at_level(
                    old(self).asks.orders@,
                    old(self).asks.level_ids(taker0.price),
                    taker0,
                );
                &&& final(self).asks.orders@ == m.orders
                &&& final(self).asks.level_ids(taker0.price) == m.fifo
                &&& final(self).asks.has_level(taker0.price) == (m.fifo.len() > 0)
                &&& (forall|q: Price|
                    q != taker0.price ==> #[trigger] final(self).asks.has_level(q) == old(
                        self,
                    ).asks.has_level(q))
                &&& (forall|q: Price|
                    q != taker0.price ==> #[trigger] final(self).asks.level_ids(q) == old(
                        self,
                    ).asks.level_ids(q))
                &&& final(self).bids.orders@ == old(self).bids.orders@.update(
                    id.0 as int,
                    m.taker,
                )
                &&& final(self).bids.limit_levels@ == old(self).bids.limit_levels@
                &&& r@.len() == m.fills.len()
                &&& (forall|k: int|
                    0 <= k < r@.len() ==> #[trigger] r@[k] == (m.fills[k].0, m.fills[k].1))
                &&& (old(self).asks.tight() ==> final(self).asks.tight())
            }),
            old(self).uncrossed() ==> final(self).uncrossed(),
    {
        if id.0 >= self.bids.orders.len() {
            let out: Vec<(OrderId, Quantity)> = Vec::new();
            return out;
        }
        let (_filled, fills) = self.execute(Side::Bid, id);
        pairs_of_fills(fills)
    }

    /// Execute the ask with the given id against the bids, returning the
    /// fills as `(bid book id, quantity)` pairs; an unknown id yields no
    /// fills and no change.
    pub fn execute_ask(&mut self, id: OrderId) -> (r: Vec<(OrderId, Quantity)>)
        requires
            old(self).wf(),
        ensures
            final(self).wf(),
            id.0 >= old(self).asks.n_orders() ==> *final(self) == *old(self) && r@.len() == 0,
            id.0 < old(self).asks.n_orders() ==> ({
                let taker0 = old(self).asks.order_at(id.0 as int);
                let m = match_at_level(
                    old(self).bids.orders@,
                    old(self).bids.level_ids(taker0.price),
                    taker0,
                );
                &&& final(self).bids.orders@ == m.orders
                &&& final(self).bids.level_ids(taker0.price) == m.fifo
                &&& final(self).bids.has_level(taker0.price) == (m.fifo.len() > 0)
                &&& (forall|q: Price|
                    q != taker0.price ==> #[trigger] final(self).bids.has_level(q) == old(
                        self,
                    ).bids.has_level(q))
                &&& (forall|q: Price|
                    q != taker0.price ==> #[trigger] final(self).bids.level_ids(q) == old(
                        self,
                    ).bids.level_ids(q))
                &&& final(self).asks.orders@ == old(self).asks.orders@.update(
                    id.0 as int,
                    m.taker,
                )
                &&& final(self).asks.limit_levels@ == old(self).asks.limit_levels@
                &&& r@.len() == m.fills.len()
                &&& (forall|k: int|
                    0 <= k < r@.len() ==> #[trigger] r@[k] == (m.fills[k].0, m.fills[k].1))
                &&& (old(self).bids.tight() ==> final(self).bids.tight())
            }),
            old(self).uncrossed() ==> final(self).uncrossed(),
    {
        if id.0 >= self.asks.orders.len() {
            let out: Vec<(OrderId, Quantity)> = Vec::new();
            return out;
        }
        let (_filled, fills) = self.execute(Side::Ask, id);
        pairs_of_fills(fills)
    }
}

/// Strip the resting-filled flag from a list of fills.
fn pairs_of_fills(fills: Vec<(OrderId, Quantity, bool)>) -> (r: Vec<(OrderId, Quantity)>)
    ensures
        r@.len() == fills@.len(),
        forall|k: int| 0 <= k < r@.len() ==> #[trigger] r@[k] == (fills@[k].0, fills@[k].1),
{
    let mut out: Vec<(OrderId, Quantity)> = Vec::new();
    let n = fills.len();
    let mut i: usize = 0;
    while i < n
        invariant
            0 <= i <= n,
            n == fills@.len(),
            out@.len() == i,
            forall|k: int| 0 <= k < i ==> #[trigger] out@[k] == (fills@[k].0, fills@[k].1),
        decreases n - i,
    {
        let f = fills[i];
        out.push((f.0, f.1));
        i = i + 1;
    }
    out
}

/// Default is the empty book.
impl Default for OrderBook {
    fn default() -> (b: OrderBook)
        ensures
            b.wf(),
            b.bids.tight(),
            b.asks.tight(),
            b.uncrossed(),
            b.bids.n_levels() == 0,
            b.bids.n_orders() == 0,
            b.asks.n_levels() == 0,
            b.asks.n_orders() == 0,
    {
        OrderBook::new()
    }
}

/// Inserting at a non-crossing price keeps the book uncrossed: the other
/// side is untouched, and the inserted side's new best is either the old
/// best or the inserted price.
proof fn lemma_insert_uncrossed(pre: OrderBook, post: OrderBook, side: Side, p: Price)
    requires
        pre.wf(),
        post.wf(),
        post.ladder_of(side.spec_opposite()) == pre.ladder_of(side.spec_opposite()),
        post.ladder_of(side).has_level(p),
        forall|q: Price|
            q != p ==> #[trigger] post.ladder_of(side).has_level(q) == pre.ladder_of(
                side,
            ).has_level(q),
    ensures
        (pre.uncrossed() && !pre.crosses(side, p)) ==> post.uncrossed(),
{
    if pre.uncrossed() && !pre.crosses(side, p) {
        if post.bids.n_levels() > 0 && post.asks.n_levels() > 0 {
            let lnew = post.ladder_of(side);
            let lold = pre.ladder_of(side);
            let bp = lnew.price_at(0);
            lnew.lemma_level_at(0);
            match side {
                Side::Bid => {
                    assert(post.asks == pre.asks);
                    if bp == p {
                        assert(pre.asks.n_levels() > 0);
                        assert(p.0 < pre.asks.price_at(0).0);
                    } else {
                        assert(lold.has_level(bp));
                        lemma_best_price_bound(lold, bp);
                        assert(lold.n_levels() > 0);
                        assert(pre.bids.price_at(0).0 >= bp.0);
                        assert(pre.bids.price_at(0).0 < pre.asks.price_at(0).0);
                    }
                },
                Side::Ask => {
                    assert(post.bids == pre.bids);
                    if bp == p {
                        assert(pre.bids.n_levels() > 0);
                        assert(p.0 > pre.bids.price_at(0).0);
                    } else {
                        assert(lold.has_level(bp));
                        lemma_best_price_bound(lold, bp);
                        assert(lold.n_levels() > 0);
                        assert(pre.asks.price_at(0).0 <= bp.0);
                        assert(pre.bids.price_at(0).0 < pre.asks.price_at(0).0);
                    }
                },
            }
        }
    }
}

/// An operation that only removes levels from one side (its remaining
/// level prices all existed before) and leaves the other side untouched
/// keeps the book uncrossed.
proof fn lemma_shrink_uncrossed(pre: OrderBook, post: OrderBook, side: Side)
    requires
        pre.wf(),
        post.wf(),
        post.ladder_of(side.spec_opposite()).limit_levels@ == pre.ladder_of(
            side.spec_opposite(),
        ).limit_levels@,
        forall|q: Price|
            #[trigger] post.ladder_of(side).has_level(q) ==> pre.ladder_of(side).has_level(q),
    ensures
        pre.uncrossed() ==> post.uncrossed(),
{
    if pre.uncrossed() {
        if post.bids.n_levels() > 0 && post.asks.n_levels() > 0 {
            let lnew = post.ladder_of(side);
            let lold = pre.ladder_of(side);
            let bp = lnew.price_at(0);
            lnew.lemma_level_at(0);
            assert(lold.has_level(bp));
            lemma_best_price_bound(lold, bp);
            match side {
                Side::Bid => {
                    assert(post.asks.price_at(0) == pre.asks.price_at(0));
                    assert(pre.asks.n_levels() > 0);
                    assert(pre.bids.n_levels() > 0);
                    assert(pre.bids.price_at(0).0 >= bp.0);
                },
                Side::Ask => {
                    assert(post.bids.price_at(0) == pre.bids.price_at(0));
                    assert(pre.bids.n_levels() > 0);
                    assert(pre.asks.price_at(0).0 <= bp.0);
                },
            }
        }
    }
}

} // verus!
