//! One-sided price ladder: an ordered list of price levels, each holding a
//! FIFO of order ids, over a dense append-only store of orders.
//!
//! The same structure serves both sides of a book: `ascending` is true for
//! asks (best price is the lowest) and false for bids (best is the highest).
//! The level list is kept strictly sorted with the best price first, so the
//! first level is always the best-priced one.

use vstd::prelude::*;

use crate::matching::{fills_total, lemma_match_at_level, match_at_level, spec_min, sum_filled};
use crate::types::{Order, OrderId, Price, Quantity};

verus! {

/// One price level: a price and the FIFO of ids of the orders resting at it.
#[derive(Clone, Debug)]
pub struct Level {
    pub price: Price,
    pub fifo: Vec<OrderId>,
}

/// A one-sided price ladder.
#[derive(Clone, Debug)]
pub struct LimitLevels {
    /// True when lower prices are better (asks); false for bids.
    pub ascending: bool,
    /// The price levels, best first, strictly sorted by price.
    pub limit_levels: Vec<Level>,
    /// Dense order store; an order's id is its index here. Never shrinks.
    pub orders: Vec<Order>,
}

impl LimitLevels {
    /// Number of price levels.
    pub open spec fn n_levels(self) -> int {
        self.limit_levels@.len() as int
    }

    /// The FIFO of the level at position `i` (best level is position 0).
    pub open spec fn fifo_at(self, i: int) -> Seq<OrderId> {
        self.limit_levels@[i].fifo@
    }

    /// The price of the level at position `i`.
    pub open spec fn price_at(self, i: int) -> Price {
        self.limit_levels@[i].price
    }

    /// Number of orders ever inserted.
    pub open spec fn n_orders(self) -> int {
        self.orders@.len() as int
    }

    /// The order with id `id`.
    pub open spec fn order_at(self, id: int) -> Order {
        self.orders@[id]
    }

    /// Whether price `a` is strictly better than `b` on this side.
    pub open spec fn before(self, a: Price, b: Price) -> bool {
        if self.ascending {
            a.0 < b.0
        } else {
            a.0 > b.0
        }
    }

    /// The entry at position `k` of the FIFO of level `i` indexes a valid,
    /// live order whose price is the level's price.
    pub open spec fn entry_ok(self, i: int, k: int) -> bool {
        let id = self.fifo_at(i)[k];
        &&& id.0 < self.n_orders()
        &&& self.order_at(id.0 as int).price == self.price_at(i)
        &&& !self.order_at(id.0 as int).is_cancelled
    }

    /// Structural well-formedness: levels strictly sorted best-first, no
    /// empty level, every FIFO entry valid and non-cancelled, FIFOs in
    /// strictly ascending id order (insertion order), and no order filled
    /// past its size.
    pub open spec fn wf(self) -> bool {
        &&& (forall|i: int| 0 <= i < self.n_levels() ==> #[trigger] self.fifo_at(i).len() > 0)
        &&& (forall|i: int, j: int|
            0 <= i < j < self.n_levels() ==> self.before(
                #[trigger] self.price_at(i),
                #[trigger] self.price_at(j),
            ))
        &&& (forall|i: int, k: int|
            0 <= i < self.n_levels() && 0 <= k < self.fifo_at(i).len()
                ==> #[trigger] self.entry_ok(i, k))
        &&& (forall|i: int, k1: int, k2: int|
            0 <= i < self.n_levels() && 0 <= k1 < k2 < self.fifo_at(i).len() ==> (
            #[trigger] self.fifo_at(i)[k1]).0 < (#[trigger] self.fifo_at(i)[k2]).0)
        &&& (forall|id: int| 0 <= id < self.n_orders() ==> (#[trigger] self.order_at(id)).wf())
    }

    /// No resting order is fully filled. Holds under every ladder operation;
    /// a book-level execute may leave a fully filled taker resting on its own
    /// side, which is the one way out of this state.
    pub open spec fn tight(self) -> bool {
        forall|i: int, k: int|
            0 <= i < self.n_levels() && 0 <= k < self.fifo_at(i).len() ==> (self.order_at(
                (#[trigger] self.fifo_at(i)[k]).0 as int,
            ).filled.0 as int) < (self.order_at(self.fifo_at(i)[k].0 as int).quantity.0 as int)
    }

    /// Whether some level has price `p`.
    pub open spec fn has_level(self, p: Price) -> bool {
        exists|i: int| 0 <= i < self.n_levels() && #[trigger] self.price_at(i) == p
    }

    /// The position of the level with price `p` (meaningful when `has_level`).
    pub open spec fn level_index(self, p: Price) -> int {
        choose|i: int| 0 <= i < self.n_levels() && #[trigger] self.price_at(i) == p
    }

    /// The FIFO at price `p`, or the empty sequence if no such level exists.
    pub open spec fn level_ids(self, p: Price) -> Seq<OrderId> {
        if self.has_level(p) {
            self.fifo_at(self.level_index(p))
        } else {
            Seq::empty()
        }
    }

    /// Whether the order with id `id` rests in some FIFO.
    pub open spec fn is_resting(self, id: OrderId) -> bool {
        exists|i: int, k: int|
            0 <= i < self.n_levels() && 0 <= k < self.fifo_at(i).len()
                && #[trigger] self.fifo_at(i)[k] == id
    }

    /// The best price on this side, if any level exists.
    pub open spec fn spec_best_price(self) -> Option<Price> {
        if self.n_levels() == 0 {
            None
        } else {
            Some(self.price_at(0))
        }
    }

    /// In a well-formed ladder each price occurs in at most one level, so a
    /// level's position is recovered exactly by `level_index` of its price.
    pub proof fn lemma_level_at(self, i: int)
        requires
            self.wf(),
            0 <= i < self.n_levels(),
        ensures
            self.has_level(self.price_at(i)),
            self.level_index(self.price_at(i)) == i,
            self.level_ids(self.price_at(i)) == self.fifo_at(i),
    {
        let p = self.price_at(i);
        assert(self.has_level(p));
        let j = self.level_index(p);
        if j < i {
            assert(self.before(self.price_at(j), self.price_at(i)));
            assert(false);
        } else if i < j {
            assert(self.before(self.price_at(i), self.price_at(j)));
            assert(false);
        }
    }

    /// Build an empty ladder for the given side.
    pub fn new(ascending: bool) -> (l: LimitLevels)
        ensures
            l.wf(),
            l.tight(),
            l.ascending == ascending,
            l.n_levels() == 0,
            l.n_orders() == 0,
    {
        LimitLevels { ascending, limit_levels: Vec::new(), orders: Vec::new() }
    }

    /// Position where a level of price `p` sits or would be inserted: all
    /// earlier levels are strictly better than `p`, and the level at the
    /// returned position (if any) is not strictly better than `p`.
    fn find_pos(&self, p: Price) -> (pos: usize)
        requires
            self.wf(),
        ensures
            pos <= self.n_levels(),
            forall|j: int| 0 <= j < pos ==> self.before(#[trigger] self.price_at(j), p),
            pos < self.n_levels() ==> !self.before(self.price_at(pos as int), p),
    {
        let n = self.limit_levels.len();
        let mut i: usize = 0;
        while i < n
            invariant
                self.wf(),
                n == self.n_levels(),
                i <= n,
                forall|j: int| 0 <= j < i ==> self.before(#[trigger] self.price_at(j), p),
            decreases n - i,
        {
            let better = if self.ascending {
                self.limit_levels[i].price.0 < p.0
            } else {
                self.limit_levels[i].price.0 > p.0
            };
            if !better {
                return i;
            }
            i = i + 1;
        }
        i
    }

    /// Insert a fresh order, enqueueing its new id at the tail of the FIFO for
    /// its price (creating the level if absent), and return the id.
    pub fn insert(&mut self, order: Order) -> (id: OrderId)
        requires
            old(self).wf(),
            !order.is_cancelled,
            order.filled.0 == 0,
            order.quantity.0 > 0,
        ensures
            final(self).wf(),
            old(self).tight() ==> final(self).tight(),
            final(self).ascending == old(self).ascending,
            id.0 == old(self).n_orders(),
            final(self).orders@ == old(self).orders@.push(order),
            final(self).has_level(order.price),
            final(self).level_ids(order.price) == old(self).level_ids(order.price).push(id),
            forall|q: Price|
                q != order.price ==> #[trigger] final(self).has_level(q) == old(self).has_level(q),
            forall|q: Price|
                q != order.price ==> #[trigger] final(self).level_ids(q) == old(self).level_ids(q),
    {
        let ghost pre = *self;
        let id = OrderId(self.orders.len());
        let p = order.price;
        let pos = self.find_pos(p);
        self.orders.push(order);
        let has = pos < self.limit_levels.len() && self.limit_levels[pos].price == p;
        proof {
            if has {
                pre.lemma_level_at(pos as int);
            } else {
                assert(!pre.has_level(p)) by {
                    if pre.has_level(p) {
                        let i = pre.level_index(p);
                        if i < pos as int {
                            assert(pre.before(pre.price_at(i), p));
                        } else {
                            assert(!pre.before(pre.price_at(pos as int), p));
                            if (pos as int) < i {
                                assert(pre.before(pre.price_at(pos as int), pre.price_at(i)));
                            }
                        }
                    }
                };
            }
        }
        if has {
            self.limit_levels[pos].fifo.push(id);
        } else {
            let mut fifo: Vec<OrderId> = Vec::new();
            fifo.push(id);
            self.limit_levels.insert(pos, Level { price: p, fifo });
        }
        proof {
            let post = *self;
            let posi = pos as int;
            let nl = post.limit_levels@[posi];
            if has {
                assert(post.limit_levels@ == pre.limit_levels@.update(posi, nl));
            } else {
                pre.limit_levels@.insert_ensures(posi, nl);
            }
            assert forall|i2: int| 0 <= i2 < post.n_levels() implies #[trigger] post.price_at(i2)
                == (if i2 < posi {
                pre.price_at(i2)
            } else if i2 == posi {
                p
            } else if has {
                pre.price_at(i2)
            } else {
                pre.price_at(i2 - 1)
            }) by {
                if has {
                } else if i2 > posi {
                    assert(pre.limit_levels@.insert(posi, nl)[(i2 - 1) + 1] == pre.limit_levels@[i2
                        - 1]);
                }
            }
            assert forall|i2: int| 0 <= i2 < post.n_levels() && i2 != posi
                implies #[trigger] post.fifo_at(i2) == (if i2 < posi {
                pre.fifo_at(i2)
            } else if has {
                pre.fifo_at(i2)
            } else {
                pre.fifo_at(i2 - 1)
            }) by {
                if has {
                } else if i2 > posi {
                    assert(pre.limit_levels@.insert(posi, nl)[(i2 - 1) + 1] == pre.limit_levels@[i2
                        - 1]);
                }
            }
            assert(post.fifo_at(posi) == pre.level_ids(p).push(id)) by {
                if has {
                    pre.lemma_level_at(posi);
                } else {
                    assert(post.fifo_at(posi) =~= Seq::<OrderId>::empty().push(id));
                }
            }
            if has {
                pre.lemma_level_at(posi);
            } else {
                assert(pre.has_level(p) == false) by {
                    if pre.has_level(p) {
                        let i = pre.level_index(p);
                        if i < posi {
                            assert(pre.before(pre.price_at(i), p));
                        } else if i > posi {
                            assert(pre.before(pre.price_at(posi), pre.price_at(i)));
                        }
                    }
                };
            }
            assert(post.wf()) by {
                assert forall|i: int| 0 <= i < post.n_levels() implies #[trigger] post.fifo_at(
                    i,
                ).len() > 0 by {}
                assert forall|i: int, j: int| 0 <= i < j < post.n_levels() implies post.before(
                    #[trigger] post.price_at(i),
                    #[trigger] post.price_at(j),
                ) by {
                    lemma_insert_sorted_helper(pre, post, posi, p, has, i, j);
                }
                assert forall|idx: int| 0 <= idx < post.n_orders() implies (
                #[trigger] post.order_at(idx)).wf() by {
                    if idx < pre.n_orders() {
                        assert(post.order_at(idx) == pre.order_at(idx));
                    } else {
                        assert(post.order_at(idx) == order);
                    }
                }
                assert forall|i: int, k: int|
                    0 <= i < post.n_levels() && 0 <= k < post.fifo_at(i).len()
                        implies #[trigger] post.entry_ok(i, k) by {
                    let oi = if has {
                        i
                    } else if i > posi {
                        i - 1
                    } else {
                        i
                    };
                    if i == posi {
                        if has && k < pre.fifo_at(i).len() {
                            assert(pre.entry_ok(i, k));
                            assert(post.fifo_at(i)[k] == pre.fifo_at(i)[k]);
                            assert(post.order_at(pre.fifo_at(i)[k].0 as int) == pre.order_at(
                                pre.fifo_at(i)[k].0 as int,
                            ));
                        } else {
                            assert(post.fifo_at(posi)[k] == id);
                            assert(post.order_at(id.0 as int) == order);
                        }
                    } else {
                        assert(pre.entry_ok(oi, k));
                        assert(post.fifo_at(i)[k] == pre.fifo_at(oi)[k]);
                        assert(post.order_at(pre.fifo_at(oi)[k].0 as int) == pre.order_at(
                            pre.fifo_at(oi)[k].0 as int,
                        ));
                    }
                }
                assert forall|i: int, k1: int, k2: int|
                    0 <= i < post.n_levels() && 0 <= k1 < k2 < post.fifo_at(i).len() implies (
                #[trigger] post.fifo_at(i)[k1]).0 < (#[trigger] post.fifo_at(i)[k2]).0 by {
                    let oi = if has {
                        i
                    } else if i > posi {
                        i - 1
                    } else {
                        i
                    };
                    if i == posi {
                        if has {
                            if k2 < pre.fifo_at(i).len() {
                            } else {
                                assert(pre.entry_ok(i, k1));
                            }
                        }
                    } else {
                        assert(pre.fifo_at(oi)[k1] == post.fifo_at(i)[k1]);
                        assert(pre.fifo_at(oi)[k2] == post.fifo_at(i)[k2]);
                    }
                }
            }
            assert(post.level_ids(p) == pre.level_ids(p).push(id)) by {
                post.lemma_level_at(posi);
            }
            if pre.tight() {
                assert forall|i: int, k: int|
                    0 <= i < post.n_levels() && 0 <= k < post.fifo_at(i).len() implies (post.order_at(
                    (#[trigger] post.fifo_at(i)[k]).0 as int,
                ).filled.0 as int) < (post.order_at(post.fifo_at(i)[k].0 as int).quantity.0
                    as int) by {
                    let oi = if has {
                        i
                    } else if i > posi {
                        i - 1
                    } else {
                        i
                    };
                    if i == posi {
                        if has && k < pre.fifo_at(i).len() {
                            assert(pre.fifo_at(i)[k] == post.fifo_at(i)[k]);
                            assert(pre.entry_ok(i, k));
                            assert(post.order_at(pre.fifo_at(i)[k].0 as int) == pre.order_at(
                                pre.fifo_at(i)[k].0 as int,
                            ));
                        } else {
                            assert(post.fifo_at(posi)[k] == id);
                            assert(post.order_at(id.0 as int) == order);
                        }
                    } else {
                        assert(pre.fifo_at(oi)[k] == post.fifo_at(i)[k]);
                        assert(pre.entry_ok(oi, k));
                        assert(post.order_at(pre.fifo_at(oi)[k].0 as int) == pre.order_at(
                            pre.fifo_at(oi)[k].0 as int,
                        ));
                    }
                }
            }
            assert forall|q: Price| q != p implies #[trigger] post.has_level(q) == pre.has_level(
                q,
            ) && post.level_ids(q) == pre.level_ids(q) by {
                lemma_insert_other_levels(pre, post, posi, p, has, q);
            }
        }
        id
    }

    /// Best price, or none when the side is empty.
    pub fn price(&self) -> (r: Option<Price>)
        ensures
            r == self.spec_best_price(),
    {
        if self.limit_levels.len() == 0 {
            None
        } else {
            Some(self.limit_levels[0].price)
        }
    }

    /// Best price, with the zero price standing in for an empty side.
    /// The zero sentinel mirrors the quote interface; `price` is the
    /// explicit form.
    pub fn best_price(&self) -> (r: Price)
        ensures
            r == match self.spec_best_price() {
                Some(p) => p,
                None => Price(0),
            },
    {
        match self.price() {
            Some(p) => p,
            None => Price(0),
        }
    }

    /// Id at the front of the best level's FIFO: the oldest order at the
    /// best price.
    pub fn first(&self) -> (r: Option<OrderId>)
        requires
            self.wf(),
        ensures
            self.n_levels() == 0 ==> r is None,
            self.n_levels() > 0 ==> r == Some(self.fifo_at(0)[0]),
    {
        if self.limit_levels.len() == 0 {
            None
        } else {
            proof {
                assert(self.fifo_at(0).len() > 0);
            }
            Some(self.limit_levels[0].fifo[0])
        }
    }

    /// Look up an order by id, whatever its cancelled or filled state.
    pub fn get(&self, id: OrderId) -> (r: Option<Order>)
        ensures
            id.0 < self.n_orders() ==> r == Some(self.order_at(id.0 as int)),
            id.0 >= self.n_orders() ==> r is None,
    {
        if id.0 < self.orders.len() {
            Some(self.orders[id.0])
        } else {
            None
        }
    }

    /// Position of the level with price `p`, if one exists.
    fn find_level(&self, p: Price) -> (r: Option<usize>)
        requires
            self.wf(),
        ensures
            match r {
                Some(pos) => self.has_level(p) && pos as int == self.level_index(p) && pos
                    < self.n_levels() && self.price_at(pos as int) == p,
                None => !self.has_level(p),
            },
    {
        let pos = self.find_pos(p);
        if pos < self.limit_levels.len() && self.limit_levels[pos].price == p {
            proof {
                self.lemma_level_at(pos as int);
            }
            Some(pos)
        } else {
            proof {
                if self.has_level(p) {
                    let i = self.level_index(p);
                    if i < pos as int {
                        assert(self.before(self.price_at(i), p));
                    } else if i > pos as int {
                        assert(self.before(self.price_at(pos as int), self.price_at(i)));
                    }
                }
            }
            None
        }
    }

    /// Snapshot of the FIFO of ids at price `p`, in FIFO order.
    pub fn level(&self, p: Price) -> (r: Option<Vec<OrderId>>)
        requires
            self.wf(),
        ensures
            match r {
                Some(v) => self.has_level(p) && v@ == self.level_ids(p),
                None => !self.has_level(p),
            },
    {
        match self.find_level(p) {
            Some(pos) => {
                let n = self.limit_levels[pos].fifo.len();
                let mut v: Vec<OrderId> = Vec::new();
                let mut k: usize = 0;
                while k < n
                    invariant
                        0 <= k <= n,
                        pos < self.limit_levels@.len(),
                        n == self.fifo_at(pos as int).len(),
                        v@ == self.fifo_at(pos as int).subrange(0, k as int),
                    decreases n - k,
                {
                    v.push(self.limit_levels[pos].fifo[k]);
                    proof {
                        assert(v@ =~= self.fifo_at(pos as int).subrange(0, k as int + 1));
                    }
                    k = k + 1;
                }
                proof {
                    assert(v@ =~= self.fifo_at(pos as int));
                }
                Some(v)
            },
            None => None,
        }
    }

    /// Snapshot of the orders resting at price `p`, in FIFO order.
    pub fn level_orders(&self, p: Price) -> (r: Option<Vec<Order>>)
        requires
            self.wf(),
        ensures
            match r {
                Some(v) => {
                    &&& self.has_level(p)
                    &&& v@.len() == self.level_ids(p).len()
                    &&& forall|k: int|
                        0 <= k < v@.len() ==> #[trigger] v@[k] == self.order_at(
                            self.level_ids(p)[k].0 as int,
                        )
                },
                None => !self.has_level(p),
            },
    {
        match self.find_level(p) {
            Some(pos) => {
                let n = self.limit_levels[pos].fifo.len();
                let mut v: Vec<Order> = Vec::new();
                let mut k: usize = 0;
                while k < n
                    invariant
                        self.wf(),
                        0 <= k <= n,
                        pos < self.limit_levels@.len(),
                        n == self.fifo_at(pos as int).len(),
                        v@.len() == k,
                        forall|j: int|
                            0 <= j < k ==> #[trigger] v@[j] == self.order_at(self.fifo_at(
                                pos as int,
                            )[j].0 as int),
                    decreases n - k,
                {
                    proof {
                        assert(self.entry_ok(pos as int, k as int));
                    }
                    let id = self.limit_levels[pos].fifo[k];
                    v.push(self.orders[id.0]);
                    k = k + 1;
                }
                Some(v)
            },
            None => None,
        }
    }

    /// Position of `id` in the FIFO of the level at `pos`, if present.
    fn find_in_fifo(&self, pos: usize, id: OrderId) -> (r: Option<usize>)
        requires
            self.wf(),
            pos < self.n_levels(),
        ensures
            match r {
                Some(k) => k < self.fifo_at(pos as int).len() && self.fifo_at(pos as int)[k as int]
                    == id,
                None => forall|j: int|
                    0 <= j < self.fifo_at(pos as int).len() ==> #[trigger] self.fifo_at(
                        pos as int,
                    )[j] != id,
            },
    {
        let n = self.limit_levels[pos].fifo.len();
        let mut k: usize = 0;
        while k < n
            invariant
                self.wf(),
                0 <= k <= n,
                pos < self.limit_levels@.len(),
                n == self.fifo_at(pos as int).len(),
                forall|j: int| 0 <= j < k ==> #[trigger] self.fifo_at(pos as int)[j] != id,
            decreases n - k,
        {
            if self.limit_levels[pos].fifo[k] == id {
                return Some(k);
            }
            k = k + 1;
        }
        None
    }

    /// Whether a cancel of `id` takes effect: the id is known and the order
    /// still rests in its FIFO. A cancelled or fully filled order no longer
    /// rests, so a repeated cancel cannot succeed.
    pub open spec fn cancel_ok(self, id: OrderId) -> bool {
        id.0 < self.n_orders() && self.is_resting(id)
    }

    /// A resting order's id is found exactly in the FIFO of its own price
    /// level.
    pub proof fn lemma_resting_in_level(self, id: OrderId)
        requires
            self.wf(),
            self.is_resting(id),
        ensures
            id.0 < self.n_orders(),
            self.has_level(self.order_at(id.0 as int).price),
            exists|k: int|
                0 <= k < self.level_ids(self.order_at(id.0 as int).price).len()
                    && #[trigger] self.level_ids(self.order_at(id.0 as int).price)[k] == id,
    {
        let (i, k): (int, int) = choose|i: int, k: int|
            0 <= i < self.n_levels() && 0 <= k < self.fifo_at(i).len() && #[trigger] self.fifo_at(
                i,
            )[k] == id;
        assert(self.entry_ok(i, k));
        self.lemma_level_at(i);
    }

    /// Cancel the order with id `id`: mark it cancelled and remove it from
    /// its FIFO, dropping the level if it empties. Returns whether the
    /// cancel took effect; a second cancel of the same id returns false and
    /// the mark stays set.
    pub fn cancel(&mut self, id: OrderId) -> (r: bool)
        requires
            old(self).wf(),
        ensures
            final(self).wf(),
            old(self).tight() ==> final(self).tight(),
            final(self).ascending == old(self).ascending,
            r == old(self).cancel_ok(id),
            !final(self).cancel_ok(id),
            !r ==> *final(self) == *old(self),
            r ==> final(self).orders@ == old(self).orders@.update(
                id.0 as int,
                Order { is_cancelled: true, ..old(self).order_at(id.0 as int) },
            ),
            r ==> ({
                let p = old(self).order_at(id.0 as int).price;
                &&& exists|k: int|
                    0 <= k < old(self).level_ids(p).len() && #[trigger] old(self).level_ids(p)[k]
                        == id && final(self).level_ids(p) == old(self).level_ids(p).remove(k)
                &&& final(self).has_level(p) == (old(self).level_ids(p).len() > 1)
                &&& forall|q: Price|
                    q != p ==> #[trigger] final(self).has_level(q) == old(self).has_level(q)
                &&& forall|q: Price|
                    q != p ==> #[trigger] final(self).level_ids(q) == old(self).level_ids(q)
            }),
            forall|q: Price| #[trigger] final(self).has_level(q) ==> old(self).has_level(q),
    {
        let ghost pre = *self;
        if id.0 >= self.orders.len() {
            proof {
                if pre.is_resting(id) {
                    pre.lemma_resting_in_level(id);
                }
            }
            return false;
        }
        let p = self.orders[id.0].price;
        let found = match self.find_level(p) {
            Some(pos) => {
                match self.find_in_fifo(pos, id) {
                    Some(k) => Some((pos, k)),
                    None => {
                        proof {
                            if pre.is_resting(id) {
                                pre.lemma_resting_in_level(id);
                                let kk = choose|kk: int|
                                    0 <= kk < pre.level_ids(p).len() && #[trigger] pre.level_ids(
                                        p,
                                    )[kk] == id;
                                assert(pre.fifo_at(pos as int)[kk] == id);
                            }
                        }
                        None
                    },
                }
            },
            None => {
                proof {
                    if pre.is_resting(id) {
                        pre.lemma_resting_in_level(id);
                    }
                }
                None
            },
        };
        match found {
            None => false,
            Some((pos, k)) => {
                proof {
                    assert(pre.fifo_at(pos as int)[k as int] == id);
                    assert(pre.is_resting(id));
                }
                let mut o = self.orders[id.0];
                o.is_cancelled = true;
                self.orders[id.0] = o;
                let _ = self.limit_levels[pos].fifo.remove(k);
                let ghost mid = self.limit_levels@;
                let removed_level = self.limit_levels[pos].fifo.len() == 0;
                if removed_level {
                    let _ = self.limit_levels.remove(pos);
                }
                proof {
                    if removed_level {
                        assert(self.limit_levels@ =~= pre.limit_levels@.remove(pos as int)) by {
                            mid.remove_ensures(pos as int);
                            pre.limit_levels@.remove_ensures(pos as int);
                        };
                    }
                    lemma_cancel_post(pre, *self, id, p, pos as int, k as int, removed_level);
                }
                true
            },
        }
    }

    /// Match `taker` against this ladder's single level at the taker's own
    /// price, front of the FIFO first (time priority). Fully filled resting
    /// orders leave the FIFO; a partially filled head keeps its place. The
    /// level is dropped when its FIFO empties. Returns whether the taker
    /// ended fully filled, and the fills `(id, quantity, resting_filled)`
    /// in the order they happened. The whole effect equals the
    /// [`match_at_level`] model applied to the prior state.
    pub fn execute(&mut self, taker: &mut Order) -> (r: (bool, Vec<(OrderId, Quantity, bool)>))
        requires
            old(self).wf(),
            old(taker).wf(),
        ensures
            final(self).wf(),
            final(self).ascending == old(self).ascending,
            old(self).tight() ==> final(self).tight(),
            final(self).n_orders() == old(self).n_orders(),
            final(taker).wf(),
            ({
                let m = match_at_level(
                    old(self).orders@,
                    old(self).level_ids(old(taker).price),
                    *old(taker),
                );
                &&& final(self).orders@ == m.orders
                &&& *final(taker) == m.taker
                &&& r.1@ == m.fills
                &&& r.0 == m.taker.spec_is_filled()
                &&& final(self).level_ids(old(taker).price) == m.fifo
                &&& final(self).has_level(old(taker).price) == (m.fifo.len() > 0)
            }),
            forall|q: Price|
                q != old(taker).price
                    ==> #[trigger] final(self).has_level(q) == old(self).has_level(q),
            forall|q: Price|
                q != old(taker).price
                    ==> #[trigger] final(self).level_ids(q) == old(self).level_ids(q),
            forall|q: Price| #[trigger] final(self).has_level(q) ==> old(self).has_level(q),
            forall|k: int|
                0 <= k < r.1@.len() ==> (#[trigger] r.1@[k]).0.0 < old(self).n_orders(),
            sum_filled(final(self).orders@) - sum_filled(old(self).orders@)
                == final(taker).filled.0 - old(taker).filled.0,
            fills_total(r.1@) == final(taker).filled.0 - old(taker).filled.0,
            final(taker).price == old(taker).price,
            final(taker).quantity == old(taker).quantity,
            final(taker).is_cancelled == old(taker).is_cancelled,
            final(taker).filled.0 >= old(taker).filled.0,
    {
        let ghost pre = *self;
        let ghost taker0 = *taker;
        let p = taker.price;
        let mut fills: Vec<(OrderId, Quantity, bool)> = Vec::new();
        if taker.remaining().0 == 0 {
            proof {
                assert(fills@ =~= match_at_level(pre.orders@, pre.level_ids(p), taker0).fills);
            }
            return (true, fills);
        }
        let found = self.find_level(p);
        match found {
            None => {
                proof {
                    assert(pre.level_ids(p) == Seq::<OrderId>::empty());
                    assert(fills@ =~= match_at_level(
                        pre.orders@,
                        pre.level_ids(p),
                        taker0,
                    ).fills);
                }
                (taker.is_filled(), fills)
            },
            Some(pos) => {
                let ghost fifo0 = pre.fifo_at(pos as int);
                proof {
                    assert(pre.level_ids(p) == fifo0);
                    assert forall|k: int| 0 <= k < fifo0.len() implies (#[trigger] fifo0[k]).0
                        < pre.n_orders() && pre.order_at(fifo0[k].0 as int).price == p
                        && !pre.order_at(fifo0[k].0 as int).is_cancelled by {
                        assert(pre.entry_ok(pos as int, k));
                    }
                    assert forall|j: int| 0 <= j < pre.orders@.len() implies (
                    #[trigger] pre.orders@[j]).wf() by {
                        assert(pre.order_at(j).wf());
                    }
                    lemma_match_at_level(pre.orders@, fifo0, taker0, p);
                }
                let ghost big = match_at_level(pre.orders@, fifo0, taker0);
                let mut done: bool = false;
                while !done && self.limit_levels[pos].fifo.len() > 0
                    invariant
                        pre.wf(),
                        taker0.wf(),
                        0 <= (pos as int) < pre.n_levels(),
                        pre.price_at(pos as int) == p,
                        fifo0 == pre.fifo_at(pos as int),
                        big == match_at_level(pre.orders@, fifo0, taker0),
                        self.ascending == pre.ascending,
                        self.limit_levels@.len() == pre.limit_levels@.len(),
                        forall|i: int|
                            0 <= i < pre.n_levels() && i != pos as int
                                ==> #[trigger] self.limit_levels@[i] == pre.limit_levels@[i],
                        self.limit_levels@[pos as int].price == p,
                        self.orders@.len() == pre.orders@.len(),
                        forall|j: int|
                            0 <= j < pre.n_orders() ==> {
                                let o = #[trigger] self.order_at(j);
                                &&& o.price == pre.order_at(j).price
                                &&& o.quantity == pre.order_at(j).quantity
                                &&& o.is_cancelled == pre.order_at(j).is_cancelled
                                &&& o.wf()
                            },
                        forall|j: int|
                            0 <= j < pre.n_orders() && pre.order_at(j).price != p
                                ==> #[trigger] self.order_at(j) == pre.order_at(j),
                        forall|k: int|
                            0 <= k < self.fifo_at(pos as int).len() ==> (#[trigger] self.fifo_at(
                                pos as int,
                            )[k]).0 < pre.n_orders(),
                        forall|k: int|
                            0 <= k < self.fifo_at(pos as int).len() ==> self.order_at(
                                (#[trigger] self.fifo_at(pos as int)[k]).0 as int,
                            ).price == p,
                        forall|k: int|
                            0 <= k < self.fifo_at(pos as int).len() ==> !self.order_at(
                                (#[trigger] self.fifo_at(pos as int)[k]).0 as int,
                            ).is_cancelled,
                        forall|k1: int, k2: int|
                            0 <= k1 < k2 < self.fifo_at(pos as int).len() ==> (
                            #[trigger] self.fifo_at(pos as int)[k1]).0 < (#[trigger] self.fifo_at(
                                pos as int,
                            )[k2]).0,
                        pre.tight() ==> forall|k: int|
                            0 <= k < self.fifo_at(pos as int).len() ==> self.order_at(
                                (#[trigger] self.fifo_at(pos as int)[k]).0 as int,
                            ).filled.0 < self.order_at(
                                self.fifo_at(pos as int)[k].0 as int,
                            ).quantity.0,
                        taker.wf(),
                        taker.price == taker0.price,
                        taker.quantity == taker0.quantity,
                        taker.is_cancelled == taker0.is_cancelled,
                        taker.filled.0 >= taker0.filled.0,
                        taker.price == p,
                        done == taker.spec_is_filled(),
                        ({
                            let cur = match_at_level(
                                self.orders@,
                                self.fifo_at(pos as int),
                                *taker,
                            );
                            &&& big.orders == cur.orders
                            &&& big.taker == cur.taker
                            &&& big.fifo == cur.fifo
                            &&& big.fills == fills@ + cur.fills
                        }),
                    decreases self.limit_levels@[pos as int].fifo@.len() + (if done {
                        0int
                    } else {
                        1int
                    }),
                {
                    let ghost self_a = *self;
                    let ghost orders_a = self.orders@;
                    let ghost fifo_a = self.fifo_at(pos as int);
                    let ghost taker_a = *taker;
                    let ghost cur_a = match_at_level(orders_a, fifo_a, taker_a);
                    let id = self.limit_levels[pos].fifo.remove(0);
                    let resting = self.orders[id.0];
                    let rrem = resting.remaining();
                    let trem = taker.remaining();
                    let to_fill = if rrem.0 < trem.0 {
                        rrem
                    } else {
                        trem
                    };
                    let mut r2 = resting;
                    r2.filled = Quantity(r2.filled.0 + to_fill.0);
                    self.orders[id.0] = r2;
                    taker.filled = Quantity(taker.filled.0 + to_fill.0);
                    let is_f = r2.filled.0 >= r2.quantity.0;
                    if !is_f {
                        self.limit_levels[pos].fifo.insert(0, id);
                    }
                    fills.push((id, to_fill, is_f));
                    if taker.filled.0 == taker.quantity.0 {
                        done = true;
                    }
                    proof {
                        let orders_b = self.orders@;
                        let fifo_b = self.fifo_at(pos as int);
                        let taker_b = *taker;
                        let cur_b = match_at_level(orders_b, fifo_b, taker_b);
                        assert(id == fifo_a[0]);
                        assert(to_fill.0 == spec_min(
                            resting.spec_remaining(),
                            taker_a.spec_remaining(),
                        ));
                        assert(r2 == Order {
                            filled: Quantity((resting.filled.0 + to_fill.0) as u32),
                            ..resting
                        });
                        assert(orders_b == orders_a.update(id.0 as int, r2));
                        assert(taker_b == Order {
                            filled: Quantity((taker_a.filled.0 + to_fill.0) as u32),
                            ..taker_a
                        });
                        assert(r2.wf());
                        assert forall|j: int| 0 <= j < pre.n_orders() implies {
                            let o = #[trigger] self.order_at(j);
                            &&& o.price == pre.order_at(j).price
                            &&& o.quantity == pre.order_at(j).quantity
                            &&& o.is_cancelled == pre.order_at(j).is_cancelled
                            &&& o.wf()
                        } by {
                            if j == id.0 as int {
                                assert(self.order_at(j) == r2);
                                assert(self_a.order_at(j) == resting);
                            } else {
                                assert(self.order_at(j) == self_a.order_at(j));
                            }
                        }
                        assert forall|j: int|
                            0 <= j < pre.n_orders() && pre.order_at(j).price != p
                                implies #[trigger] self.order_at(j) == pre.order_at(j) by {
                            if j == id.0 as int {
                                assert(self_a.order_at(j) == resting);
                                assert(resting.price == p);
                            } else {
                                assert(self.order_at(j) == self_a.order_at(j));
                            }
                        }
                        if is_f {
                            assert(fifo_b =~= fifo_a.drop_first());
                            assert(cur_a.orders == cur_b.orders && cur_a.taker == cur_b.taker
                                && cur_a.fifo == cur_b.fifo && cur_a.fills == seq![
                                (id, to_fill, is_f),
                            ] + cur_b.fills);
                            assert(big.fills =~= fills@ + cur_b.fills);
                        } else {
                            assert(fifo_b =~= fifo_a);
                            assert(taker_b.spec_is_filled());
                            assert(cur_a.orders == orders_b && cur_a.taker == taker_b
                                && cur_a.fifo == fifo_a && cur_a.fills == seq![
                                (id, to_fill, is_f),
                            ]);
                            assert(cur_b.fills =~= Seq::<(OrderId, Quantity, bool)>::empty());
                            assert(cur_b.orders == orders_b && cur_b.taker == taker_b
                                && cur_b.fifo == fifo_b);
                            assert(big.fills =~= fills@ + cur_b.fills);
                        }
                    }
                }
                proof {
                    let cur = match_at_level(self.orders@, self.fifo_at(pos as int), *taker);
                    assert(cur.fills =~= Seq::<(OrderId, Quantity, bool)>::empty());
                    assert(big.fills =~= fills@);
                    assert(big.orders == self.orders@ && big.taker == *taker && big.fifo
                        == self.fifo_at(pos as int));
                }
                let ghost mid = *self;
                let removed_level = self.limit_levels[pos].fifo.len() == 0;
                if removed_level {
                    let _ = self.limit_levels.remove(pos);
                }
                proof {
                    if removed_level {
                        assert(self.limit_levels@ =~= pre.limit_levels@.remove(pos as int)) by {
                            mid.limit_levels@.remove_ensures(pos as int);
                            pre.limit_levels@.remove_ensures(pos as int);
                        };
                    }
                    lemma_execute_post(pre, *self, p, pos as int, big.fifo, removed_level);
                    assert forall|k: int| 0 <= k < fills@.len() implies (
                    #[trigger] fills@[k]).0.0 < pre.n_orders() by {
                        assert(big.fills[k].0 == fifo0[k]);
                    }
                }
                (taker.is_filled(), fills)
            },
        }
    }

    /// Whether an update of `id` is accepted: the id must be known, a new
    /// price must equal the stored price (re-pricing a resting order is
    /// rejected rather than silently breaking the price index), and a new
    /// quantity may not drop below what is already filled.
    pub open spec fn update_ok(
        self,
        id: OrderId,
        maybe_price: Option<Price>,
        maybe_quantity: Option<Quantity>,
    ) -> bool {
        &&& id.0 < self.n_orders()
        &&& (maybe_price matches Some(np) ==> np == self.order_at(id.0 as int).price)
        &&& (maybe_quantity matches Some(nq) ==> nq.0 >= self.order_at(id.0 as int).filled.0)
    }

    /// Update the stored order in place: overwrite its quantity (and
    /// accept a price equal to the current one). Returns false, changing
    /// nothing, when the id is unknown, the price differs, or the new
    /// quantity is below the filled amount.
    pub fn update(
        &mut self,
        id: OrderId,
        maybe_price: Option<Price>,
        maybe_quantity: Option<Quantity>,
    ) -> (r: bool)
        requires
            old(self).wf(),
        ensures
            final(self).wf(),
            final(self).ascending == old(self).ascending,
            r == old(self).update_ok(id, maybe_price, maybe_quantity),
            !r ==> *final(self) == *old(self),
            r ==> final(self).orders@ == old(self).orders@.update(
                id.0 as int,
                Order {
                    quantity: match maybe_quantity {
                        Some(nq) => nq,
                        None => old(self).order_at(id.0 as int).quantity,
                    },
                    ..old(self).order_at(id.0 as int)
                },
            ),
            final(self).limit_levels@ == old(self).limit_levels@,
            (old(self).tight() && (r ==> final(self).order_at(id.0 as int).filled.0
                < final(self).order_at(id.0 as int).quantity.0 || !old(self).is_resting(id)))
                ==> final(self).tight(),
    {
        let ghost pre = *self;
        if id.0 >= self.orders.len() {
            return false;
        }
        let o = self.orders[id.0];
        if let Some(np) = maybe_price {
            if np != o.price {
                return false;
            }
        }
        if let Some(nq) = maybe_quantity {
            if nq.0 < o.filled.0 {
                return false;
            }
        }
        let mut o2 = o;
        if let Some(np) = maybe_price {
            o2.price = np;
        }
        if let Some(nq) = maybe_quantity {
            o2.quantity = nq;
        }
        self.orders[id.0] = o2;
        proof {
            let post = *self;
            assert(o == pre.order_at(id.0 as int));
            assert(o.wf());
            assert(o2.wf());
            assert(o2.price == o.price);
            assert(post.orders@ == pre.orders@.update(id.0 as int, o2));
            assert(post.limit_levels@ == pre.limit_levels@);
            assert(post.wf()) by {
                assert forall|i: int| 0 <= i < post.n_levels() implies #[trigger] post.fifo_at(
                    i,
                ).len() > 0 by {
                    assert(post.fifo_at(i) == pre.fifo_at(i));
                }
                assert forall|i: int, j: int| 0 <= i < j < post.n_levels() implies post.before(
                    #[trigger] post.price_at(i),
                    #[trigger] post.price_at(j),
                ) by {
                    assert(post.price_at(i) == pre.price_at(i));
                    assert(post.price_at(j) == pre.price_at(j));
                    assert(pre.before(pre.price_at(i), pre.price_at(j)));
                }
                assert forall|i: int, k1: int, k2: int|
                    0 <= i < post.n_levels() && 0 <= k1 < k2 < post.fifo_at(i).len() implies (
                #[trigger] post.fifo_at(i)[k1]).0 < (#[trigger] post.fifo_at(i)[k2]).0 by {
                    assert(post.fifo_at(i) == pre.fifo_at(i));
                }
                assert forall|i: int, k: int|
                    0 <= i < post.n_levels() && 0 <= k < post.fifo_at(i).len()
                        implies #[trigger] post.entry_ok(i, k) by {
                    assert(post.fifo_at(i) == pre.fifo_at(i));
                    assert(pre.entry_ok(i, k));
                    let eid = pre.fifo_at(i)[k];
                    if eid.0 != id.0 {
                        assert(post.order_at(eid.0 as int) == pre.order_at(eid.0 as int));
                    }
                }
                assert forall|j: int| 0 <= j < post.n_orders() implies (
                #[trigger] post.order_at(j)).wf() by {
                    if j != id.0 as int {
                        assert(post.order_at(j) == pre.order_at(j));
                    }
                }
            }
            if pre.tight() && (post.order_at(id.0 as int).filled.0 < post.order_at(
                id.0 as int,
            ).quantity.0 || !pre.is_resting(id)) {
                assert forall|i: int, k: int|
                    0 <= i < post.n_levels() && 0 <= k < post.fifo_at(i).len() implies (post.order_at(
                    (#[trigger] post.fifo_at(i)[k]).0 as int,
                ).filled.0 as int) < (post.order_at(post.fifo_at(i)[k].0 as int).quantity.0
                    as int) by {
                    let eid = pre.fifo_at(i)[k];
                    assert(pre.entry_ok(i, k));
                    if eid.0 != id.0 {
                        assert(post.order_at(eid.0 as int) == pre.order_at(eid.0 as int));
                    } else {
                        assert(pre.fifo_at(i)[k] == id);
                        assert(pre.is_resting(id));
                    }
                }
            }
        }
        true
    }
}

/// Time priority (law): at any price level the resting ids stand in
/// strictly increasing insertion order, so of two orders at the same
/// price the earlier one is nearer the front of the FIFO, and `execute`
/// fills the FIFO from the front.
pub proof fn lemma_time_priority(l: LimitLevels, p: Price, k1: int, k2: int)
    requires
        l.wf(),
        l.has_level(p),
        0 <= k1 < k2 < l.level_ids(p).len(),
    ensures
        l.level_ids(p)[k1].0 < l.level_ids(p)[k2].0,
{
    let i = l.level_index(p);
    assert(l.fifo_at(i)[k1].0 < l.fifo_at(i)[k2].0);
}

/// Time priority at execution (law): the fills that matching a taker
/// produces walk the price level's FIFO from the front, so they carry
/// strictly increasing resting ids: an earlier order at the price is
/// always filled before a later one.
pub proof fn lemma_fills_follow_time_priority(l: LimitLevels, taker: Order)
    requires
        l.wf(),
        taker.wf(),
    ensures
        ({
            let m = match_at_level(l.orders@, l.level_ids(taker.price), taker);
            forall|k1: int, k2: int|
                0 <= k1 < k2 < m.fills.len() ==> (#[trigger] m.fills[k1]).0.0 < (
                #[trigger] m.fills[k2]).0.0
        }),
{
    let p = taker.price;
    let fifo = l.level_ids(p);
    let m = match_at_level(l.orders@, fifo, taker);
    if l.has_level(p) {
        let i = l.level_index(p);
        assert forall|k: int| 0 <= k < fifo.len() implies (#[trigger] fifo[k]).0 < l.n_orders()
            && l.order_at(fifo[k].0 as int).price == p && !l.order_at(
            fifo[k].0 as int,
        ).is_cancelled by {
            assert(l.entry_ok(i, k));
        }
        assert forall|j: int| 0 <= j < l.orders@.len() implies (#[trigger] l.orders@[j]).wf() by {
            assert(l.order_at(j).wf());
        }
        lemma_match_at_level(l.orders@, fifo, taker, p);
        assert forall|k1: int, k2: int| 0 <= k1 < k2 < m.fills.len() implies (
        #[trigger] m.fills[k1]).0.0 < (#[trigger] m.fills[k2]).0.0 by {
            assert(m.fills[k1].0 == fifo[k1]);
            assert(m.fills[k2].0 == fifo[k2]);
            assert(l.fifo_at(i)[k1].0 < l.fifo_at(i)[k2].0);
        }
    } else {
        assert(m.fills.len() == 0);
    }
}

/// Price priority (law): the first level's price is the best on its side,
/// at least as good as every other level's price.
pub proof fn lemma_price_priority(l: LimitLevels, i: int)
    requires
        l.wf(),
        0 <= i < l.n_levels(),
    ensures
        l.ascending ==> l.price_at(0).0 <= l.price_at(i).0,
        !l.ascending ==> l.price_at(0).0 >= l.price_at(i).0,
{
    if i > 0 {
        assert(l.before(l.price_at(0), l.price_at(i)));
    }
}

/// The best price is at least as good as the price of any existing level.
pub proof fn lemma_best_price_bound(l: LimitLevels, p: Price)
    requires
        l.wf(),
        l.has_level(p),
    ensures
        l.n_levels() > 0,
        l.ascending ==> l.price_at(0).0 <= p.0,
        !l.ascending ==> l.price_at(0).0 >= p.0,
{
    let i = l.level_index(p);
    lemma_price_priority(l, i);
}

/// No double match (law): in a well-formed ladder no order is ever
/// filled past its size; `execute`'s contract adds that the filled sums
/// of the two sides each grow by exactly the matched volume.
pub proof fn lemma_no_overfill(l: LimitLevels, id: OrderId)
    requires
        l.wf(),
        id.0 < l.n_orders(),
    ensures
        l.order_at(id.0 as int).filled.0 <= l.order_at(id.0 as int).quantity.0,
{
    assert(l.order_at(id.0 as int).wf());
}

/// Level presence (law): in a well-formed, tight ladder a price level
/// exists exactly when at least one non-cancelled, not fully filled order
/// rests at that price.
pub proof fn lemma_level_presence(l: LimitLevels, p: Price)
    requires
        l.wf(),
        l.tight(),
    ensures
        l.has_level(p) <==> exists|k: int|
            {
                &&& 0 <= k < l.level_ids(p).len()
                &&& (#[trigger] l.level_ids(p)[k]).0 < l.n_orders()
                &&& l.order_at(l.level_ids(p)[k].0 as int).price == p
                &&& !l.order_at(l.level_ids(p)[k].0 as int).is_cancelled
                &&& l.order_at(l.level_ids(p)[k].0 as int).filled.0 < l.order_at(
                    l.level_ids(p)[k].0 as int,
                ).quantity.0
            },
{
    if l.has_level(p) {
        let i = l.level_index(p);
        assert(l.fifo_at(i).len() > 0);
        assert(l.entry_ok(i, 0));
        assert(l.order_at(l.level_ids(p)[0].0 as int).filled.0 < l.order_at(
            l.level_ids(p)[0].0 as int,
        ).quantity.0) by {
            assert(l.fifo_at(i)[0] == l.level_ids(p)[0]);
        };
    }
}

/// After marking `id` cancelled and removing it from position `k` of the
/// FIFO of level `pos` (dropping the level when it empties), the ladder is
/// still well-formed and every other level is untouched.
proof fn lemma_cancel_post(
    pre: LimitLevels,
    post: LimitLevels,
    id: OrderId,
    p: Price,
    pos: int,
    k: int,
    removed_level: bool,
)
    requires
        pre.wf(),
        0 <= pos < pre.n_levels(),
        pre.price_at(pos) == p,
        pre.level_index(p) == pos,
        pre.has_level(p),
        0 <= k < pre.fifo_at(pos).len(),
        pre.fifo_at(pos)[k] == id,
        id.0 < pre.n_orders(),
        pre.order_at(id.0 as int).price == p,
        post.ascending == pre.ascending,
        post.orders@ == pre.orders@.update(
            id.0 as int,
            Order { is_cancelled: true, ..pre.order_at(id.0 as int) },
        ),
        removed_level <==> pre.fifo_at(pos).len() == 1,
        removed_level ==> post.limit_levels@ == pre.limit_levels@.remove(pos),
        !removed_level ==> post.n_levels() == pre.n_levels() && (forall|i: int|
            0 <= i < post.n_levels() && i != pos ==> #[trigger] post.limit_levels@[i]
                == pre.limit_levels@[i]) && post.price_at(pos) == p && post.fifo_at(pos)
            == pre.fifo_at(pos).remove(k),
    ensures
        post.wf(),
        pre.tight() ==> post.tight(),
        !post.cancel_ok(id),
        post.orders@ == pre.orders@.update(
            id.0 as int,
            Order { is_cancelled: true, ..pre.order_at(id.0 as int) },
        ),
        post.level_ids(p) == pre.level_ids(p).remove(k),
        post.has_level(p) == (pre.level_ids(p).len() > 1),
        forall|q: Price| q != p ==> #[trigger] post.has_level(q) == pre.has_level(q),
        forall|q: Price| q != p ==> #[trigger] post.level_ids(q) == pre.level_ids(q),
        forall|q: Price| #[trigger] post.has_level(q) ==> pre.has_level(q),
{
    pre.limit_levels@.remove_ensures(pos);
    pre.fifo_at(pos).remove_ensures(k);
    // Map each post level back to its pre position.
    assert forall|i: int| 0 <= i < post.n_levels() implies #[trigger] post.price_at(i)
        == pre.price_at(level_pre_index(removed_level, pos, i)) && post.fifo_at(i) == (if i == pos
        && !removed_level {
        pre.fifo_at(pos).remove(k)
    } else {
        pre.fifo_at(level_pre_index(removed_level, pos, i))
    }) by {
        if removed_level && i >= pos {
            assert(pre.limit_levels@.remove(pos)[i] == pre.limit_levels@[i + 1]);
        }
    }
    assert forall|i: int| 0 <= i < post.n_levels() implies #[trigger] post.fifo_at(i).len()
        > 0 by {
        let oi = level_pre_index(removed_level, pos, i);
        if i == pos && !removed_level {
            assert(pre.fifo_at(pos).len() > 1);
        } else {
            assert(pre.fifo_at(oi).len() > 0);
        }
    }
    assert forall|i: int, j: int| 0 <= i < j < post.n_levels() implies post.before(
        #[trigger] post.price_at(i),
        #[trigger] post.price_at(j),
    ) by {
        let oi = level_pre_index(removed_level, pos, i);
        let oj = level_pre_index(removed_level, pos, j);
        assert(pre.before(pre.price_at(oi), pre.price_at(oj)));
    }
    assert forall|i: int, kk: int|
        0 <= i < post.n_levels() && 0 <= kk < post.fifo_at(i).len()
            implies #[trigger] post.entry_ok(i, kk) by {
        let oi = level_pre_index(removed_level, pos, i);
        let ok = if i == pos && !removed_level && kk >= k {
            kk + 1
        } else {
            kk
        };
        assert(pre.entry_ok(oi, ok));
        let eid = pre.fifo_at(oi)[ok];
        assert(post.fifo_at(i)[kk] == eid);
        if eid.0 == id.0 {
            // the removed id occurs exactly once in its level, and only at
            // its own price level
            assert(pre.order_at(eid.0 as int).price == pre.price_at(oi));
            pre.lemma_level_at(oi);
            assert(oi == pos);
            if ok < k {
                assert(pre.fifo_at(pos)[ok].0 < pre.fifo_at(pos)[k].0);
            } else if ok > k {
                assert(pre.fifo_at(pos)[k].0 < pre.fifo_at(pos)[ok].0);
            }
            assert(false);
        }
        assert(post.order_at(eid.0 as int) == pre.order_at(eid.0 as int));
    }
    assert forall|i: int, k1: int, k2: int|
        0 <= i < post.n_levels() && 0 <= k1 < k2 < post.fifo_at(i).len() implies (
    #[trigger] post.fifo_at(i)[k1]).0 < (#[trigger] post.fifo_at(i)[k2]).0 by {
        let oi = level_pre_index(removed_level, pos, i);
        let ok1 = if i == pos && !removed_level && k1 >= k {
            k1 + 1
        } else {
            k1
        };
        let ok2 = if i == pos && !removed_level && k2 >= k {
            k2 + 1
        } else {
            k2
        };
        assert(pre.fifo_at(oi)[ok1] == post.fifo_at(i)[k1]);
        assert(pre.fifo_at(oi)[ok2] == post.fifo_at(i)[k2]);
    }
    assert forall|idx: int| 0 <= idx < post.n_orders() implies (
    #[trigger] post.order_at(idx)).wf() by {
        if idx != id.0 as int {
            assert(post.order_at(idx) == pre.order_at(idx));
        }
    }
    assert(post.wf());
    if pre.tight() {
        assert forall|i: int, kk: int|
            0 <= i < post.n_levels() && 0 <= kk < post.fifo_at(i).len() implies (post.order_at(
            (#[trigger] post.fifo_at(i)[kk]).0 as int,
        ).filled.0 as int) < (post.order_at(post.fifo_at(i)[kk].0 as int).quantity.0 as int) by {
            let oi = level_pre_index(removed_level, pos, i);
            let ok = if i == pos && !removed_level && kk >= k {
                kk + 1
            } else {
                kk
            };
            assert(pre.fifo_at(oi)[ok] == post.fifo_at(i)[kk]);
            assert(pre.entry_ok(oi, ok));
            let eid = pre.fifo_at(oi)[ok];
            if eid.0 != id.0 {
                assert(post.order_at(eid.0 as int) == pre.order_at(eid.0 as int));
            } else {
                assert(post.order_at(eid.0 as int).filled == pre.order_at(eid.0 as int).filled);
                assert(post.order_at(eid.0 as int).quantity == pre.order_at(
                    eid.0 as int,
                ).quantity);
            }
        }
    }
    // the cancelled order no longer rests anywhere
    assert(post.order_at(id.0 as int).is_cancelled);
    if post.is_resting(id) {
        let (i, kk): (int, int) = choose|i: int, kk: int|
            0 <= i < post.n_levels() && 0 <= kk < post.fifo_at(i).len() && #[trigger] post.fifo_at(
                i,
            )[kk] == id;
        assert(post.entry_ok(i, kk));
        assert(false);
    }
    // level bookkeeping
    pre.lemma_level_at(pos);
    if removed_level {
        assert(!post.has_level(p)) by {
            if post.has_level(p) {
                let i = post.level_index(p);
                let oi = level_pre_index(true, pos, i);
                assert(pre.price_at(oi) == p);
                pre.lemma_level_at(oi);
            }
        };
        assert(post.level_ids(p) =~= pre.level_ids(p).remove(k));
    } else {
        post.lemma_level_at(pos);
        assert(post.level_ids(p) == post.fifo_at(pos));
        assert(post.level_ids(p) =~= pre.level_ids(p).remove(k));
    }
    assert forall|q: Price| q != p implies #[trigger] post.has_level(q) == pre.has_level(q)
        && post.level_ids(q) == pre.level_ids(q) by {
        if pre.has_level(q) {
            let i = pre.level_index(q);
            pre.lemma_level_at(i);
            let ni = if removed_level && i > pos {
                i - 1
            } else {
                i
            };
            assert(level_pre_index(removed_level, pos, ni) == i);
            assert(post.price_at(ni) == q);
            post.lemma_level_at(ni);
        } else {
            if post.has_level(q) {
                let i = post.level_index(q);
                let oi = level_pre_index(removed_level, pos, i);
                assert(pre.price_at(oi) == q);
                pre.lemma_level_at(oi);
            }
        }
    }
    assert forall|q: Price| #[trigger] post.has_level(q) implies pre.has_level(q) by {
        if q != p {
        }
    }
}

/// The pre-state position of the post-state level `i` after a level at
/// `pos` was (or was not) removed.
spec fn level_pre_index(removed_level: bool, pos: int, i: int) -> int {
    if removed_level && i >= pos {
        i + 1
    } else {
        i
    }
}


/// After replacing the FIFO of the level at `pos` with `newfifo` (dropping
/// the level when `newfifo` is empty) and rewriting the order store in a
/// way that keeps every order's price, size and cancellation flag, the
/// ladder is still well-formed and every other level is untouched.
proof fn lemma_execute_post(
    pre: LimitLevels,
    post: LimitLevels,
    p: Price,
    pos: int,
    newfifo: Seq<OrderId>,
    removed_level: bool,
)
    requires
        pre.wf(),
        0 <= pos < pre.n_levels(),
        pre.price_at(pos) == p,
        post.ascending == pre.ascending,
        post.n_orders() == pre.n_orders(),
        forall|j: int|
            0 <= j < pre.n_orders() ==> {
                let o = #[trigger] post.order_at(j);
                &&& o.price == pre.order_at(j).price
                &&& o.quantity == pre.order_at(j).quantity
                &&& o.is_cancelled == pre.order_at(j).is_cancelled
                &&& o.wf()
            },
        forall|j: int|
            0 <= j < pre.n_orders() && pre.order_at(j).price != p ==> #[trigger] post.order_at(j)
                == pre.order_at(j),
        forall|k: int| 0 <= k < newfifo.len() ==> (#[trigger] newfifo[k]).0 < pre.n_orders(),
        forall|k: int|
            0 <= k < newfifo.len() ==> pre.order_at((#[trigger] newfifo[k]).0 as int).price == p,
        forall|k: int|
            0 <= k < newfifo.len() ==> !pre.order_at((#[trigger] newfifo[k]).0 as int).is_cancelled,
        forall|k1: int, k2: int|
            0 <= k1 < k2 < newfifo.len() ==> (#[trigger] newfifo[k1]).0 < (
            #[trigger] newfifo[k2]).0,
        removed_level <==> newfifo.len() == 0,
        removed_level ==> post.limit_levels@ == pre.limit_levels@.remove(pos),
        !removed_level ==> post.n_levels() == pre.n_levels() && (forall|i: int|
            0 <= i < post.n_levels() && i != pos ==> #[trigger] post.limit_levels@[i]
                == pre.limit_levels@[i]) && post.price_at(pos) == p && post.fifo_at(pos)
            == newfifo,
    ensures
        post.wf(),
        post.level_ids(p) == newfifo,
        post.has_level(p) == (newfifo.len() > 0),
        forall|q: Price| q != p ==> #[trigger] post.has_level(q) == pre.has_level(q),
        forall|q: Price| q != p ==> #[trigger] post.level_ids(q) == pre.level_ids(q),
        forall|q: Price| #[trigger] post.has_level(q) ==> pre.has_level(q),
        (pre.tight() && (forall|k: int|
            0 <= k < newfifo.len() ==> post.order_at((#[trigger] newfifo[k]).0 as int).filled.0
                < post.order_at(newfifo[k].0 as int).quantity.0)) ==> post.tight(),
{
    if removed_level {
        pre.limit_levels@.remove_ensures(pos);
    }
    assert forall|i: int| 0 <= i < post.n_levels() implies #[trigger] post.price_at(i)
        == pre.price_at(level_pre_index(removed_level, pos, i)) && post.fifo_at(i) == (if i == pos
        && !removed_level {
        newfifo
    } else {
        pre.fifo_at(level_pre_index(removed_level, pos, i))
    }) by {
        if removed_level && i >= pos {
            assert(pre.limit_levels@.remove(pos)[i] == pre.limit_levels@[i + 1]);
        }
    }
    assert forall|i: int| 0 <= i < post.n_levels() implies #[trigger] post.fifo_at(i).len()
        > 0 by {
        let oi = level_pre_index(removed_level, pos, i);
        if i == pos && !removed_level {
        } else {
            assert(pre.fifo_at(oi).len() > 0);
        }
    }
    assert forall|i: int, j: int| 0 <= i < j < post.n_levels() implies post.before(
        #[trigger] post.price_at(i),
        #[trigger] post.price_at(j),
    ) by {
        let oi = level_pre_index(removed_level, pos, i);
        let oj = level_pre_index(removed_level, pos, j);
        assert(pre.before(pre.price_at(oi), pre.price_at(oj)));
    }
    assert forall|i: int, kk: int|
        0 <= i < post.n_levels() && 0 <= kk < post.fifo_at(i).len()
            implies #[trigger] post.entry_ok(i, kk) by {
        let oi = level_pre_index(removed_level, pos, i);
        if i == pos && !removed_level {
            assert(post.order_at(newfifo[kk].0 as int).price == p);
            assert(post.order_at(newfifo[kk].0 as int).is_cancelled == pre.order_at(
                newfifo[kk].0 as int,
            ).is_cancelled);
        } else {
            assert(pre.entry_ok(oi, kk));
            let eid = pre.fifo_at(oi)[kk];
            assert(post.order_at(eid.0 as int).price == pre.order_at(eid.0 as int).price);
        }
    }
    assert forall|i: int, k1: int, k2: int|
        0 <= i < post.n_levels() && 0 <= k1 < k2 < post.fifo_at(i).len() implies (
    #[trigger] post.fifo_at(i)[k1]).0 < (#[trigger] post.fifo_at(i)[k2]).0 by {
        let oi = level_pre_index(removed_level, pos, i);
        if i == pos && !removed_level {
        } else {
            assert(pre.fifo_at(oi)[k1] == post.fifo_at(i)[k1]);
            assert(pre.fifo_at(oi)[k2] == post.fifo_at(i)[k2]);
        }
    }
    assert(post.wf());
    pre.lemma_level_at(pos);
    if removed_level {
        assert(post.has_level(p) == false) by {
            if post.has_level(p) {
                let i = post.level_index(p);
                let oi = level_pre_index(true, pos, i);
                assert(pre.price_at(oi) == p);
                pre.lemma_level_at(oi);
            }
        };
        assert(post.level_ids(p) =~= newfifo);
    } else {
        post.lemma_level_at(pos);
    }
    assert forall|q: Price| q != p implies #[trigger] post.has_level(q) == pre.has_level(q)
        && post.level_ids(q) == pre.level_ids(q) by {
        if pre.has_level(q) {
            let i = pre.level_index(q);
            pre.lemma_level_at(i);
            let ni = if removed_level && i > pos {
                i - 1
            } else {
                i
            };
            assert(level_pre_index(removed_level, pos, ni) == i);
            assert(post.price_at(ni) == q);
            post.lemma_level_at(ni);
        } else {
            if post.has_level(q) {
                let i = post.level_index(q);
                let oi = level_pre_index(removed_level, pos, i);
                assert(pre.price_at(oi) == q);
                pre.lemma_level_at(oi);
            }
        }
    }
    assert forall|q: Price| #[trigger] post.has_level(q) implies pre.has_level(q) by {
        if q != p {
        }
    }
    if pre.tight() && (forall|k: int|
        0 <= k < newfifo.len() ==> post.order_at((#[trigger] newfifo[k]).0 as int).filled.0
            < post.order_at(newfifo[k].0 as int).quantity.0) {
        assert forall|i: int, kk: int|
            0 <= i < post.n_levels() && 0 <= kk < post.fifo_at(i).len() implies (post.order_at(
            (#[trigger] post.fifo_at(i)[kk]).0 as int,
        ).filled.0 as int) < (post.order_at(post.fifo_at(i)[kk].0 as int).quantity.0 as int) by {
            let oi = level_pre_index(removed_level, pos, i);
            if i == pos && !removed_level {
                assert(post.order_at(newfifo[kk].0 as int).filled.0 < post.order_at(
                    newfifo[kk].0 as int,
                ).quantity.0);
            } else {
                let eid = pre.fifo_at(oi)[kk];
                assert(pre.entry_ok(oi, kk));
                assert(pre.order_at(eid.0 as int).filled.0 < pre.order_at(
                    eid.0 as int,
                ).quantity.0);
                assert(pre.order_at(eid.0 as int).price == pre.price_at(oi));
                assert(pre.price_at(oi) != p) by {
                    if oi != pos {
                        if oi < pos {
                            assert(pre.before(pre.price_at(oi), pre.price_at(pos)));
                        } else {
                            assert(pre.before(pre.price_at(pos), pre.price_at(oi)));
                        }
                    }
                };
                assert(post.order_at(eid.0 as int) == pre.order_at(eid.0 as int));
            }
        }
    }
}

/// After inserting or extending a level at `pos`, the level list is still

/// strictly sorted.
proof fn lemma_insert_sorted_helper(
    pre: LimitLevels,
    post: LimitLevels,
    pos: int,
    p: Price,
    has: bool,
    i: int,
    j: int,
)
    requires
        pre.wf(),
        0 <= pos <= pre.n_levels(),
        forall|j2: int| 0 <= j2 < pos ==> pre.before(#[trigger] pre.price_at(j2), p),
        pos < pre.n_levels() ==> !pre.before(pre.price_at(pos), p),
        has <==> (pos < pre.n_levels() && pre.price_at(pos) == p),
        post.ascending == pre.ascending,
        post.n_levels() == if has {
            pre.n_levels()
        } else {
            pre.n_levels() + 1
        },
        forall|i2: int| 0 <= i2 < post.n_levels() ==> #[trigger] post.price_at(i2) == if i2 < pos {
            pre.price_at(i2)
        } else if i2 == pos {
            p
        } else if has {
            pre.price_at(i2)
        } else {
            pre.price_at(i2 - 1)
        },
        0 <= i < j < post.n_levels(),
    ensures
        post.before(post.price_at(i), post.price_at(j)),
{
    if has {
        if i == pos || j == pos {
            assert(pre.price_at(pos) == p);
        }
        assert(pre.before(pre.price_at(i), pre.price_at(j)));
    } else {
        if j < pos {
        } else if j == pos {
        } else {
            // j > pos: post price at j is pre price at j-1, not better than p
            if pos < pre.n_levels() {
                assert(!pre.before(pre.price_at(pos), p));
                if pos < j - 1 {
                    assert(pre.before(pre.price_at(pos), pre.price_at(j - 1)));
                }
            }
            if i < pos {
                assert(pre.before(pre.price_at(i), p));
            }
        }
    }
}

/// Inserting at price `p` leaves every other price's level untouched.
proof fn lemma_insert_other_levels(
    pre: LimitLevels,
    post: LimitLevels,
    pos: int,
    p: Price,
    has: bool,
    q: Price,
)
    requires
        pre.wf(),
        post.wf(),
        0 <= pos <= pre.n_levels(),
        has <==> (pos < pre.n_levels() && pre.price_at(pos) == p),
        post.n_levels() == if has {
            pre.n_levels()
        } else {
            pre.n_levels() + 1
        },
        forall|i2: int| 0 <= i2 < post.n_levels() ==> #[trigger] post.price_at(i2) == if i2 < pos {
            pre.price_at(i2)
        } else if i2 == pos {
            p
        } else if has {
            pre.price_at(i2)
        } else {
            pre.price_at(i2 - 1)
        },
        forall|i2: int|
            0 <= i2 < post.n_levels() && i2 != pos ==> #[trigger] post.fifo_at(i2) == if i2 < pos {
                pre.fifo_at(i2)
            } else if has {
                pre.fifo_at(i2)
            } else {
                pre.fifo_at(i2 - 1)
            },
        q != p,
    ensures
        post.has_level(q) == pre.has_level(q),
        post.level_ids(q) == pre.level_ids(q),
{
    if pre.has_level(q) {
        let i = pre.level_index(q);
        pre.lemma_level_at(i);
        let ni = if i < pos || has {
            i
        } else {
            i + 1
        };
        assert(post.price_at(ni) == q);
        post.lemma_level_at(ni);
        assert(post.fifo_at(ni) == pre.fifo_at(i));
    } else {
        if post.has_level(q) {
            let i = post.level_index(q);
            post.lemma_level_at(i);
            let oi = if i < pos || has {
                i
            } else {
                i - 1
            };
            assert(pre.price_at(oi) == q);
            assert(pre.has_level(q));
        }
    }
}

/// Two ladders with the same level list agree on every level query.
pub proof fn lemma_same_levels(a: LimitLevels, b: LimitLevels)
    requires
        a.wf(),
        a.limit_levels@ == b.limit_levels@,
    ensures
        a.n_levels() == b.n_levels(),
        forall|q: Price| #[trigger] a.has_level(q) == b.has_level(q),
        forall|q: Price| #[trigger] a.level_ids(q) == b.level_ids(q),
        forall|i: int| 0 <= i < a.n_levels() ==> #[trigger] a.price_at(i) == b.price_at(i),
        forall|i: int| 0 <= i < a.n_levels() ==> #[trigger] a.fifo_at(i) == b.fifo_at(i),
        forall|id: OrderId| #[trigger] a.is_resting(id) == b.is_resting(id),
{
    assert forall|q: Price| #[trigger] a.has_level(q) == b.has_level(q) && a.level_ids(q)
        == b.level_ids(q) by {
        if a.has_level(q) {
            let i = a.level_index(q);
            assert(b.price_at(i) == q);
            assert(b.has_level(q));
            let j = b.level_index(q);
            assert(a.price_at(j) == q);
            a.lemma_level_at(j);
            assert(j == i);
        } else {
            if b.has_level(q) {
                let i = b.level_index(q);
                assert(a.price_at(i) == q);
            }
        }
    }
    assert forall|id: OrderId| #[trigger] a.is_resting(id) == b.is_resting(id) by {
        if a.is_resting(id) {
            let (i, k): (int, int) = choose|i: int, k: int|
                0 <= i < a.n_levels() && 0 <= k < a.fifo_at(i).len() && #[trigger] a.fifo_at(i)[k]
                    == id;
            assert(b.fifo_at(i)[k] == id);
        }
        if b.is_resting(id) {
            let (i, k): (int, int) = choose|i: int, k: int|
                0 <= i < b.n_levels() && 0 <= k < b.fifo_at(i).len() && #[trigger] b.fifo_at(i)[k]
                    == id;
            assert(a.fifo_at(i)[k] == id);
        }
    }
}

/// Overwriting one order's fill progress, keeping its price, size and
/// cancellation flag, preserves well-formedness and every level query.
pub proof fn lemma_overwrite_filled_wf(pre: LimitLevels, post: LimitLevels, id: OrderId)
    requires
        pre.wf(),
        id.0 < pre.n_orders(),
        post.ascending == pre.ascending,
        post.limit_levels@ == pre.limit_levels@,
        post.orders@ == pre.orders@.update(id.0 as int, post.order_at(id.0 as int)),
        post.order_at(id.0 as int).price == pre.order_at(id.0 as int).price,
        post.order_at(id.0 as int).quantity == pre.order_at(id.0 as int).quantity,
        post.order_at(id.0 as int).is_cancelled == pre.order_at(id.0 as int).is_cancelled,
        post.order_at(id.0 as int).wf(),
    ensures
        post.wf(),
        post.n_orders() == pre.n_orders(),
        forall|q: Price| #[trigger] post.has_level(q) == pre.has_level(q),
        forall|q: Price| #[trigger] post.level_ids(q) == pre.level_ids(q),
        forall|i: int| 0 <= i < post.n_levels() ==> #[trigger] post.price_at(i) == pre.price_at(i),
        post.n_levels() == pre.n_levels(),
        (pre.tight() && (post.order_at(id.0 as int).filled.0 < post.order_at(
            id.0 as int,
        ).quantity.0 || !pre.is_resting(id))) ==> post.tight(),
{
    assert(post.wf()) by {
        assert forall|i: int| 0 <= i < post.n_levels() implies #[trigger] post.fifo_at(i).len()
            > 0 by {
            assert(post.fifo_at(i) == pre.fifo_at(i));
        }
        assert forall|i: int, j: int| 0 <= i < j < post.n_levels() implies post.before(
            #[trigger] post.price_at(i),
            #[trigger] post.price_at(j),
        ) by {
            assert(post.price_at(i) == pre.price_at(i));
            assert(post.price_at(j) == pre.price_at(j));
            assert(pre.before(pre.price_at(i), pre.price_at(j)));
        }
        assert forall|i: int, k1: int, k2: int|
            0 <= i < post.n_levels() && 0 <= k1 < k2 < post.fifo_at(i).len() implies (
        #[trigger] post.fifo_at(i)[k1]).0 < (#[trigger] post.fifo_at(i)[k2]).0 by {
            assert(post.fifo_at(i) == pre.fifo_at(i));
        }
        assert forall|i: int, k: int|
            0 <= i < post.n_levels() && 0 <= k < post.fifo_at(i).len()
                implies #[trigger] post.entry_ok(i, k) by {
            assert(post.fifo_at(i) == pre.fifo_at(i));
            assert(pre.entry_ok(i, k));
            let eid = pre.fifo_at(i)[k];
            if eid.0 != id.0 {
                assert(post.order_at(eid.0 as int) == pre.order_at(eid.0 as int));
            }
        }
        assert forall|j: int| 0 <= j < post.n_orders() implies (
        #[trigger] post.order_at(j)).wf() by {
            if j != id.0 as int {
                assert(post.order_at(j) == pre.order_at(j));
            }
        }
    }
    lemma_same_levels(pre, post);
    if pre.tight() && (post.order_at(id.0 as int).filled.0 < post.order_at(id.0 as int).quantity.0
        || !pre.is_resting(id)) {
        assert forall|i: int, k: int|
            0 <= i < post.n_levels() && 0 <= k < post.fifo_at(i).len() implies (post.order_at(
            (#[trigger] post.fifo_at(i)[k]).0 as int,
        ).filled.0 as int) < (post.order_at(post.fifo_at(i)[k].0 as int).quantity.0 as int) by {
            assert(post.fifo_at(i) == pre.fifo_at(i));
            assert(pre.entry_ok(i, k));
            let eid = pre.fifo_at(i)[k];
            if eid.0 != id.0 {
                assert(post.order_at(eid.0 as int) == pre.order_at(eid.0 as int));
                assert(pre.order_at(eid.0 as int).filled.0 < pre.order_at(
                    eid.0 as int,
                ).quantity.0);
            } else {
                assert(pre.fifo_at(i)[k] == id);
                assert(pre.is_resting(id));
            }
        }
    }
}

} // verus!
