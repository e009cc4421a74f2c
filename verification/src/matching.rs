//! The mathematical model of matching a taker order against one price
//! level: a recursive specification that walks the level's FIFO from the
//! front, filling the least remaining side of each pair, and the lemmas
//! that characterise it.

use vstd::prelude::*;

use crate::types::{Order, OrderId, Price, Quantity};

verus! {

/// The outcome of matching a taker against one FIFO of resting orders:
/// the updated order store, what is left of the FIFO, the updated taker,
/// and the fills in the order they happened.
pub struct MatchOutcome {
    pub orders: Seq<Order>,
    pub fifo: Seq<OrderId>,
    pub taker: Order,
    pub fills: Seq<(OrderId, Quantity, bool)>,
}

/// The smaller of two quantities.
pub open spec fn spec_min(a: int, b: int) -> int {
    if a < b {
        a
    } else {
        b
    }
}

/// Sum of the `filled` fields of a store of orders.
pub open spec fn sum_filled(s: Seq<Order>) -> int
    decreases s.len(),
{
    if s.len() == 0 {
        0
    } else {
        sum_filled(s.drop_last()) + s.last().filled.0
    }
}

/// Total quantity across a list of fills.
pub open spec fn fills_total(s: Seq<(OrderId, Quantity, bool)>) -> int
    decreases s.len(),
{
    if s.len() == 0 {
        0
    } else {
        s[0].1.0 + fills_total(s.drop_first())
    }
}

/// How many FIFO entries a list of fills consumed: every fill removes its
/// resting order from the FIFO except a final partial one, which leaves
/// the head resting with priority intact.
pub open spec fn consumed_count(fills: Seq<(OrderId, Quantity, bool)>) -> int {
    if fills.len() == 0 {
        0
    } else if fills.last().2 {
        fills.len() as int
    } else {
        fills.len() - 1
    }
}

/// Match `taker` against the resting orders of one price level, front
/// first. Each step fills the least remaining side; a resting order that
/// ends exactly filled leaves the FIFO, otherwise it keeps the front spot
/// and the taker must be exhausted. Matching stops when the taker is
/// filled or the FIFO is empty.
pub open spec fn match_at_level(orders: Seq<Order>, fifo: Seq<OrderId>, taker: Order) -> MatchOutcome
    decreases fifo.len(),
{
    if taker.spec_remaining() <= 0 || fifo.len() == 0 {
        MatchOutcome { orders, fifo, taker, fills: Seq::empty() }
    } else {
        let id = fifo[0];
        let resting = orders[id.0 as int];
        let to_fill = spec_min(resting.spec_remaining(), taker.spec_remaining());
        let resting2 = Order {
            filled: Quantity((resting.filled.0 + to_fill) as u32),
            ..resting
        };
        let taker2 = Order { filled: Quantity((taker.filled.0 + to_fill) as u32), ..taker };
        let orders2 = orders.update(id.0 as int, resting2);
        let fill = (id, Quantity(to_fill as u32), resting2.spec_is_filled());
        if !resting2.spec_is_filled() {
            MatchOutcome { orders: orders2, fifo, taker: taker2, fills: seq![fill] }
        } else {
            let rec = match_at_level(orders2, fifo.drop_first(), taker2);
            MatchOutcome {
                orders: rec.orders,
                fifo: rec.fifo,
                taker: rec.taker,
                fills: seq![fill] + rec.fills,
            }
        }
    }
}

/// Updating one order changes the filled sum by exactly that order's
/// change.
pub proof fn lemma_sum_filled_update(s: Seq<Order>, j: int, v: Order)
    requires
        0 <= j < s.len(),
    ensures
        sum_filled(s.update(j, v)) == sum_filled(s) + v.filled.0 - s[j].filled.0,
    decreases s.len(),
{
    if s.len() > 0 {
        if j == s.len() - 1 {
            assert(s.update(j, v).drop_last() =~= s.drop_last());
            assert(s.update(j, v).last() == v);
        } else {
            lemma_sum_filled_update(s.drop_last(), j, v);
            assert(s.update(j, v).drop_last() =~= s.drop_last().update(j, v));
            assert(s.update(j, v).last() == s.last());
        }
    }
}

/// What matching does, stated over the model: sizes, prices and flags are
/// preserved, fills walk the FIFO in order from the front (time priority),
/// the remaining FIFO is the unconsumed suffix, every fill is conservative
/// (the taker gains exactly what the resting side gains), and no order is
/// ever filled past its size.
#[verifier::rlimit(80)]
pub proof fn lemma_match_at_level(orders: Seq<Order>, fifo: Seq<OrderId>, taker: Order, p: Price)
    requires
        taker.wf(),
        forall|j: int| 0 <= j < orders.len() ==> (#[trigger] orders[j]).wf(),
        forall|k: int| 0 <= k < fifo.len() ==> (#[trigger] fifo[k]).0 < orders.len(),
        forall|k: int|
            0 <= k < fifo.len() ==> orders[(#[trigger] fifo[k]).0 as int].price == p,
        forall|k: int|
            0 <= k < fifo.len() ==> !orders[(#[trigger] fifo[k]).0 as int].is_cancelled,
        forall|k1: int, k2: int|
            0 <= k1 < k2 < fifo.len() ==> (#[trigger] fifo[k1]).0 < (#[trigger] fifo[k2]).0,
    ensures
        ({
            let m = match_at_level(orders, fifo, taker);
            &&& m.orders.len() == orders.len()
            &&& m.taker.price == taker.price
            &&& m.taker.quantity == taker.quantity
            &&& m.taker.is_cancelled == taker.is_cancelled
            &&& m.taker.filled.0 >= taker.filled.0
            &&& m.taker.wf()
            &&& forall|j: int|
                0 <= j < orders.len() ==> {
                    let o = #[trigger] m.orders[j];
                    &&& o.price == orders[j].price
                    &&& o.quantity == orders[j].quantity
                    &&& o.is_cancelled == orders[j].is_cancelled
                    &&& o.filled.0 >= orders[j].filled.0
                    &&& o.wf()
                }
            &&& forall|j: int|
                0 <= j < orders.len() && orders[j].price != p ==> #[trigger] m.orders[j]
                    == orders[j]
            &&& 0 <= m.fills.len() <= fifo.len()
            &&& 0 <= consumed_count(m.fills) <= m.fills.len()
            &&& forall|k: int| 0 <= k < m.fills.len() ==> (#[trigger] m.fills[k]).0 == fifo[k]
            &&& forall|k: int| 0 <= k < m.fills.len() - 1 ==> (#[trigger] m.fills[k]).2
            &&& m.fifo == fifo.skip(consumed_count(m.fills))
            &&& sum_filled(m.orders) == sum_filled(orders) + m.taker.filled.0 - taker.filled.0
            &&& fills_total(m.fills) == m.taker.filled.0 - taker.filled.0
            &&& (m.fills.len() > 0 && !m.fills.last().2 ==> m.taker.spec_is_filled())
            &&& forall|k: int|
                0 <= k < m.fifo.len() && (orders[(#[trigger] m.fifo[k]).0 as int].filled.0
                    < orders[m.fifo[k].0 as int].quantity.0) ==> m.orders[m.fifo[k].0
                    as int].filled.0 < m.orders[m.fifo[k].0 as int].quantity.0
        }),
    decreases fifo.len(),
{
    let m = match_at_level(orders, fifo, taker);
    if taker.spec_remaining() <= 0 || fifo.len() == 0 {
        assert(m.fifo == fifo.skip(0)) by {
            assert(fifo.skip(0) =~= fifo);
        };
        assert(fills_total(m.fills) == 0);
    } else {
        let id = fifo[0];
        let resting = orders[id.0 as int];
        let to_fill = spec_min(resting.spec_remaining(), taker.spec_remaining());
        let resting2 = Order {
            filled: Quantity((resting.filled.0 + to_fill) as u32),
            ..resting
        };
        let taker2 = Order { filled: Quantity((taker.filled.0 + to_fill) as u32), ..taker };
        let orders2 = orders.update(id.0 as int, resting2);
        let fill = (id, Quantity(to_fill as u32), resting2.spec_is_filled());
        assert(resting.wf());
        assert(0 <= to_fill <= resting.quantity.0);
        assert(fill.1.0 == to_fill);
        assert(resting2.filled.0 == resting.filled.0 + to_fill);
        assert(taker2.filled.0 == taker.filled.0 + to_fill);
        lemma_sum_filled_update(orders, id.0 as int, resting2);
        if !resting2.spec_is_filled() {
            assert(m.fifo == fifo.skip(consumed_count(m.fills))) by {
                assert(consumed_count(m.fills) == 0);
                assert(fifo.skip(0) =~= fifo);
            };
            assert(fills_total(m.fills) == to_fill) by {
                assert(m.fills[0] == fill);
                assert(m.fills.len() == 1);
                assert(m.fills.drop_first() =~= Seq::<(OrderId, Quantity, bool)>::empty());
                assert(fills_total(Seq::<(OrderId, Quantity, bool)>::empty()) == 0);
                assert(fills_total(m.fills) == m.fills[0].1.0 + fills_total(
                    m.fills.drop_first(),
                ));
            };
        } else {
            let rec = match_at_level(orders2, fifo.drop_first(), taker2);
            assert forall|j: int| 0 <= j < orders2.len() implies (#[trigger] orders2[j]).wf() by {
                if j != id.0 as int {
                    assert(orders2[j] == orders[j]);
                }
            }
            assert forall|k: int| 0 <= k < fifo.drop_first().len() implies (
            #[trigger] fifo.drop_first()[k]).0 < orders2.len() && orders2[fifo.drop_first()[k].0
                as int].price == p && !orders2[fifo.drop_first()[k].0 as int].is_cancelled by {
                assert(fifo.drop_first()[k] == fifo[k + 1]);
                if fifo[k + 1].0 != id.0 {
                    assert(orders2[fifo[k + 1].0 as int] == orders[fifo[k + 1].0 as int]);
                } else {
                    assert(fifo[0].0 < fifo[k + 1].0);
                }
            }
            assert forall|k1: int, k2: int| 0 <= k1 < k2 < fifo.drop_first().len() implies (
            #[trigger] fifo.drop_first()[k1]).0 < (#[trigger] fifo.drop_first()[k2]).0 by {
                assert(fifo.drop_first()[k1] == fifo[k1 + 1]);
                assert(fifo.drop_first()[k2] == fifo[k2 + 1]);
            }
            lemma_match_at_level(orders2, fifo.drop_first(), taker2, p);
            assert forall|k: int| 0 <= k < m.fills.len() implies (#[trigger] m.fills[k]).0
                == fifo[k] by {
                if k == 0 {
                    assert(m.fills[0] == fill);
                } else {
                    assert(m.fills[k] == rec.fills[k - 1]);
                    assert(rec.fills[k - 1].0 == fifo.drop_first()[k - 1]);
                    assert(fifo.drop_first()[k - 1] == fifo[k]);
                }
            }
            assert forall|k: int| 0 <= k < m.fills.len() - 1 implies (#[trigger] m.fills[k]).2 by {
                if k == 0 {
                    assert(m.fills[0] == fill);
                } else {
                    assert(m.fills[k] == rec.fills[k - 1]);
                }
            }
            assert(m.fifo == fifo.skip(consumed_count(m.fills))) by {
                if rec.fills.len() == 0 {
                    assert(m.fills =~= seq![fill]);
                    assert(consumed_count(m.fills) == 1);
                    assert(rec.fifo == fifo.drop_first().skip(0));
                    assert(fifo.drop_first().skip(0) =~= fifo.skip(1));
                } else {
                    assert(m.fills.last() == rec.fills.last());
                    assert(consumed_count(m.fills) == 1 + consumed_count(rec.fills));
                    assert(fifo.drop_first().skip(consumed_count(rec.fills)) =~= fifo.skip(
                        1 + consumed_count(rec.fills),
                    ));
                }
            };
            assert(fills_total(m.fills) == m.taker.filled.0 - taker.filled.0) by {
                assert(m.fills[0] == fill);
                assert(m.fills.drop_first() =~= rec.fills);
            };
            assert forall|j: int|
                0 <= j < orders.len() && orders[j].price != p implies #[trigger] m.orders[j]
                == orders[j] by {
                assert(orders2[j] == orders[j]);
            }
            assert forall|k: int|
                0 <= k < m.fifo.len() && (orders[(#[trigger] m.fifo[k]).0 as int].filled.0
                    < orders[m.fifo[k].0 as int].quantity.0) implies m.orders[m.fifo[k].0
                as int].filled.0 < m.orders[m.fifo[k].0 as int].quantity.0 by {
                let c = consumed_count(m.fills);
                assert(m.fifo[k] == fifo[k + c]);
                if m.fifo[k].0 == id.0 {
                    assert(fifo[0].0 < fifo[k + c].0 || k + c == 0);
                    assert(k + c == 0);
                    assert(false);
                } else {
                    assert(orders2[m.fifo[k].0 as int] == orders[m.fifo[k].0 as int]);
                    assert(m.fifo == rec.fifo);
                    assert(rec.fifo[k] == fifo.drop_first()[k + consumed_count(rec.fills)]);
                }
            }
        }
    }
}

} // verus!
