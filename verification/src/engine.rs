//! The match engine: books multiplexed by symbol, engine-wide order ids
//! mapped bijectively to `(symbol, side, book id)` paths, an account
//! registry, and the command dispatcher.

use vstd::prelude::*;

use crate::book::OrderBook;
use crate::ladder::LimitLevels;
use crate::matching::{fills_total, match_at_level, sum_filled};
use crate::types::{AccountId, Order, OrderId, Price, Quantity, Side, Symbol};

verus! {

/// An engine-wide order id, assigned sequentially at placement and never
/// reused.
#[derive(Clone, Copy, PartialEq, Eq, Debug, Structural)]
pub struct Id(pub usize);

/// Where an engine id points: the symbol's book, a side, and the
/// book-local id there.
pub type OrderPath = (Symbol, Side, OrderId);

/// Why a command failed. Each error names the offending id or symbol.
#[derive(Clone, Copy, PartialEq, Eq, Debug, Structural)]
pub enum Error {
    AccountDoesNotExist { id: AccountId },
    SymbolDoesNotExist { symbol: Symbol },
    IdDoesNotExist { id: Id },
}

/// A command, tagged with the account submitting it.
#[derive(Clone, Copy, PartialEq, Eq, Debug, Structural)]
pub struct Command {
    pub account_id: AccountId,
    pub kind: CommandKind,
}

/// The kinds of command the engine processes.
#[derive(Clone, Copy, PartialEq, Eq, Debug, Structural)]
pub enum CommandKind {
    CancelOrder(Id),
    PlaceOrder(Side, Symbol, Order),
    GetOrder(Id),
    ExecuteOrder(Id),
    GetQuote(Symbol, Side),
    GetAccount(AccountId),
}

/// What a successful command returns.
#[derive(Clone, PartialEq, Eq, Debug)]
pub enum Success {
    GetOrder(Order),
    PlaceOrder(Id),
    CancelOrder(bool),
    ExecuteOrder(Vec<(Id, Quantity)>),
    GetQuote(Price),
    GetAccount(Account),
}

/// A user account: a placeholder entity on which the core performs no
/// validation.
#[derive(Clone, PartialEq, Eq, Debug)]
pub struct Account {
    pub balance: Price,
    pub orders: Vec<Id>,
    pub portfolio: Vec<(Symbol, Quantity)>,
}

/// A fresh account: zero balance, no orders, empty portfolio.
impl Default for Account {
    fn default() -> (a: Account)
        ensures
            a.balance == Price(0),
            a.orders@.len() == 0,
            a.portfolio@.len() == 0,
    {
        Account { balance: Price(0), orders: Vec::new(), portfolio: Vec::new() }
    }
}

/// A central limit order book matching engine.
#[derive(Clone, Debug)]
pub struct MatchEngine {
    /// One book per registered symbol; symbols are unique.
    pub books: Vec<(Symbol, OrderBook)>,
    /// Forward index: the path of each engine id, dense by id.
    pub id_to_order_path_index: Vec<OrderPath>,
    /// Reverse index: path to engine id, appended in step with the
    /// forward index.
    pub order_path_to_id_index: Vec<(OrderPath, Id)>,
    /// Accounts, dense by account id.
    pub accounts: Vec<Account>,
    /// The next engine order id to assign.
    pub next_order_id: Id,
    /// The next account id to assign.
    pub next_account_id: AccountId,
}

impl MatchEngine {
    /// Number of registered symbols.
    pub open spec fn n_books(self) -> int {
        self.books@.len() as int
    }

    /// The symbol of the book at position `i`.
    pub open spec fn book_sym(self, i: int) -> Symbol {
        self.books@[i].0
    }

    /// The book at position `i`.
    pub open spec fn book_at_index(self, i: int) -> OrderBook {
        self.books@[i].1
    }

    /// Whether a book for `s` exists.
    pub open spec fn has_book(self, s: Symbol) -> bool {
        exists|i: int| 0 <= i < self.n_books() && #[trigger] self.book_sym(i) == s
    }

    /// The position of the book for `s` (meaningful when `has_book`).
    pub open spec fn book_index(self, s: Symbol) -> int {
        choose|i: int| 0 <= i < self.n_books() && #[trigger] self.book_sym(i) == s
    }

    /// The book for `s`.
    pub open spec fn spec_book(self, s: Symbol) -> OrderBook {
        self.book_at_index(self.book_index(s))
    }

    /// The forward index as a sequence of paths.
    pub open spec fn forward(self) -> Seq<OrderPath> {
        self.id_to_order_path_index@
    }

    /// The reverse index as a sequence of path-id pairs.
    pub open spec fn reverse(self) -> Seq<(OrderPath, Id)> {
        self.order_path_to_id_index@
    }

    /// Whether the engine id `id` has been assigned.
    pub open spec fn has_path(self, id: Id) -> bool {
        id.0 < self.forward().len()
    }

    /// Whether `a` is a registered account.
    pub open spec fn has_account(self, a: AccountId) -> bool {
        a.0 < self.accounts@.len()
    }

    /// The ladder an order path points into.
    pub open spec fn path_ladder(self, path: OrderPath) -> LimitLevels {
        self.spec_book(path.0).ladder_of(path.1)
    }

    /// A path is valid: its symbol has a book and its book id is in range
    /// on its side.
    pub open spec fn path_valid(self, path: OrderPath) -> bool {
        &&& self.has_book(path.0)
        &&& path.2.0 < self.path_ladder(path).n_orders()
    }

    /// Some engine id maps to `path`.
    pub open spec fn path_known(self, path: OrderPath) -> bool {
        exists|n: int| 0 <= n < self.forward().len() && #[trigger] self.forward()[n] == path
    }

    /// Some engine id maps to book order `k` of the given symbol and side.
    pub open spec fn book_order_known(self, s: Symbol, side: Side, k: int) -> bool {
        self.path_known((s, side, OrderId(k as usize)))
    }

    /// Engine well-formedness: symbols unique, every book well-formed, id
    /// counters dense, the two indices aligned (the bijection), forward
    /// entries valid and pairwise distinct, and every book order reachable
    /// from some engine id.
    pub open spec fn wf(self) -> bool {
        &&& (forall|i: int, j: int|
            0 <= i < j < self.n_books() ==> #[trigger] self.book_sym(i) != #[trigger] self.book_sym(
                j,
            ))
        &&& (forall|i: int| 0 <= i < self.n_books() ==> (#[trigger] self.book_at_index(i)).wf())
        &&& self.next_order_id.0 == self.forward().len()
        &&& self.next_account_id.0 == self.accounts@.len()
        &&& self.reverse().len() == self.forward().len()
        &&& (forall|n: int|
            0 <= n < self.forward().len() ==> #[trigger] self.reverse()[n] == (
            self.forward()[n],
            Id(n as usize),
            ))
        &&& (forall|n: int|
            0 <= n < self.forward().len() ==> self.path_valid(#[trigger] self.forward()[n]))
        &&& (forall|n1: int, n2: int|
            0 <= n1 < n2 < self.forward().len() ==> #[trigger] self.forward()[n1]
                != #[trigger] self.forward()[n2])
        &&& (forall|i: int, side: Side, k: int|
            0 <= i < self.n_books() && 0 <= k < self.book_at_index(i).ladder_of(side).n_orders()
                ==> #[trigger] self.book_order_known(self.book_sym(i), side, k))
    }

    /// In a well-formed engine each symbol names at most one book, so a
    /// book's position is recovered exactly by `book_index` of its symbol.
    pub proof fn lemma_book_at(self, i: int)
        requires
            forall|i2: int, j2: int|
                0 <= i2 < j2 < self.n_books() ==> #[trigger] self.book_sym(i2)
                    != #[trigger] self.book_sym(j2),
            0 <= i < self.n_books(),
        ensures
            self.has_book(self.book_sym(i)),
            self.book_index(self.book_sym(i)) == i,
            self.spec_book(self.book_sym(i)) == self.book_at_index(i),
    {
        let s = self.book_sym(i);
        assert(self.has_book(s));
        let j = self.book_index(s);
        if j < i {
            assert(self.book_sym(j) != self.book_sym(i));
        } else if i < j {
            assert(self.book_sym(i) != self.book_sym(j));
        }
    }

    /// Index bijection (law): the reverse index maps each assigned path
    /// back to its engine id, and no two engine ids share a path.
    pub proof fn lemma_index_bijection(self, n: int)
        requires
            self.wf(),
            0 <= n < self.forward().len(),
        ensures
            self.reverse()[n] == (self.forward()[n], Id(n as usize)),
            forall|n2: int|
                0 <= n2 < self.forward().len() && #[trigger] self.forward()[n2]
                    == self.forward()[n] ==> n2 == n,
    {
        assert forall|n2: int|
            0 <= n2 < self.forward().len() && #[trigger] self.forward()[n2] == self.forward()[n]
            implies n2 == n by {
            if n2 < n {
                assert(self.forward()[n2] != self.forward()[n]);
            } else if n < n2 {
                assert(self.forward()[n] != self.forward()[n2]);
            }
        }
    }

    /// Position of the book for `symbol`, if registered.
    fn find_book_index(&self, symbol: Symbol) -> (r: Option<usize>)
        requires
            forall|i2: int, j2: int|
                0 <= i2 < j2 < self.n_books() ==> #[trigger] self.book_sym(i2)
                    != #[trigger] self.book_sym(j2),
        ensures
            match r {
                Some(bi) => self.has_book(symbol) && bi as int == self.book_index(symbol) && bi
                    < self.n_books() && self.book_sym(bi as int) == symbol,
                None => !self.has_book(symbol),
            },
    {
        let n = self.books.len();
        let mut i: usize = 0;
        while i < n
            invariant
                0 <= i <= n,
                n == self.n_books(),
                forall|i2: int, j2: int|
                    0 <= i2 < j2 < self.n_books() ==> #[trigger] self.book_sym(i2)
                        != #[trigger] self.book_sym(j2),
                forall|j: int| 0 <= j < i ==> #[trigger] self.book_sym(j) != symbol,
            decreases n - i,
        {
            if self.books[i].0 == symbol {
                proof {
                    self.lemma_book_at(i as int);
                }
                return Some(i);
            }
            i = i + 1;
        }
        None
    }

    /// The engine id mapped to `path` by the reverse index, if any.
    fn find_reverse(&self, path: OrderPath) -> (r: Option<Id>)
        requires
            self.wf(),
        ensures
            match r {
                Some(eid) => eid.0 < self.forward().len() && self.forward()[eid.0 as int] == path,
                None => !self.path_known(path),
            },
    {
        let n = self.order_path_to_id_index.len();
        let mut i: usize = 0;
        while i < n
            invariant
                self.wf(),
                0 <= i <= n,
                n == self.reverse().len(),
                forall|j: int| 0 <= j < i ==> (#[trigger] self.forward()[j]) != path,
            decreases n - i,
        {
            let entry = self.order_path_to_id_index[i];
            let cand = entry.0;
            if cand.0 == path.0 && cand.1 == path.1 && cand.2 == path.2 {
                proof {
                    assert(self.reverse()[i as int] == (self.forward()[i as int], Id(i)));
                    assert(self.forward()[i as int] == path);
                }
                return Some(entry.1);
            }
            proof {
                assert(self.reverse()[i as int] == (self.forward()[i as int], Id(i)));
                assert(self.forward()[i as int] != path);
            }
            i = i + 1;
        }
        proof {
            if self.path_known(path) {
                let n2 = choose|n2: int|
                    0 <= n2 < self.forward().len() && #[trigger] self.forward()[n2] == path;
                assert(self.forward()[n2] != path);
            }
        }
        None
    }

    /// Build an empty engine: no symbols, no accounts, no ids assigned.
    pub fn new() -> (e: MatchEngine)
        ensures
            e.wf(),
            e.n_books() == 0,
            e.forward().len() == 0,
            e.accounts@.len() == 0,
            e.next_order_id == Id(0),
            e.next_account_id == AccountId(0),
    {
        MatchEngine {
            books: Vec::new(),
            id_to_order_path_index: Vec::new(),
            order_path_to_id_index: Vec::new(),
            accounts: Vec::new(),
            next_order_id: Id(0),
            next_account_id: AccountId(0),
        }
    }

    /// Register a fresh, empty book for `symbol` iff it is new; an
    /// existing book is never overwritten. Returns true on creation.
    pub fn insert_new_symbol(&mut self, symbol: Symbol) -> (r: bool)
        requires
            old(self).wf(),
        ensures
            final(self).wf(),
            r == !old(self).has_book(symbol),
            !r ==> *final(self) == *old(self),
            final(self).has_book(symbol),
            r ==> final(self).books@ == old(self).books@.push(
                (symbol, final(self).spec_book(symbol)),
            ) && final(self).spec_book(symbol).bids.n_orders() == 0 && final(self).spec_book(
                symbol,
            ).asks.n_orders() == 0 && final(self).spec_book(symbol).bids.n_levels() == 0 && final(self).spec_book(symbol).asks.n_levels() == 0,
            forall|q: Symbol|
                q != symbol ==> #[trigger] final(self).has_book(q) == old(self).has_book(q),
            forall|q: Symbol|
                old(self).has_book(q) ==> #[trigger] final(self).spec_book(q) == old(self).spec_book(q),
            final(self).forward() == old(self).forward(),
            final(self).reverse() == old(self).reverse(),
            final(self).accounts@ == old(self).accounts@,
            final(self).next_order_id == old(self).next_order_id,
            final(self).next_account_id == old(self).next_account_id,
    {
        let ghost pre = *self;
        match self.find_book_index(symbol) {
            Some(_) => false,
            None => {
                let book = OrderBook::new();
                let ghost gbook = book;
                self.books.push((symbol, book));
                proof {
                    let post = *self;
                    assert forall|i2: int, j2: int| 0 <= i2 < j2 < post.n_books()
                        implies #[trigger] post.book_sym(i2) != #[trigger] post.book_sym(j2) by {
                        if j2 < post.n_books() - 1 {
                            assert(pre.book_sym(i2) != pre.book_sym(j2));
                        } else {
                            assert(post.book_sym(i2) == pre.book_sym(i2));
                            assert(post.book_sym(j2) == symbol);
                        }
                    }
                    post.lemma_book_at(post.n_books() - 1);
                    lemma_books_extended(pre, post, symbol);
                    assert(post.wf()) by {
                        assert forall|i: int| 0 <= i < post.n_books() implies (
                        #[trigger] post.book_at_index(i)).wf() by {
                            if i < pre.n_books() {
                                assert(post.book_at_index(i) == pre.book_at_index(i));
                                assert(pre.book_at_index(i).wf());
                            } else {
                                assert(post.book_at_index(i) == gbook);
                            }
                        }
                        assert forall|n: int| 0 <= n < post.forward().len() implies post.path_valid(
                            #[trigger] post.forward()[n],
                        ) by {
                            assert(pre.path_valid(pre.forward()[n]));
                            let path = pre.forward()[n];
                            assert(post.spec_book(path.0) == pre.spec_book(path.0));
                        }
                        assert forall|i: int, side: Side, k: int|
                            0 <= i < post.n_books() && 0 <= k < post.book_at_index(i).ladder_of(
                                side,
                            ).n_orders() implies #[trigger] post.book_order_known(
                            post.book_sym(i),
                            side,
                            k,
                        ) by {
                            if i < pre.n_books() {
                                assert(post.book_at_index(i) == pre.book_at_index(i));
                                assert(pre.book_order_known(pre.book_sym(i), side, k));
                                let nw = choose|nw: int|
                                    0 <= nw < pre.forward().len() && #[trigger] pre.forward()[nw]
                                        == (pre.book_sym(i), side, OrderId(k as usize));
                                assert(post.forward()[nw] == (
                                    post.book_sym(i),
                                    side,
                                    OrderId(k as usize),
                                ));
                            } else {
                                assert(post.book_at_index(i).ladder_of(side).n_orders() == 0);
                            }
                        }
                    }
                }
                true
            },
        }
    }

    /// Process one command against the engine state. An unknown account
    /// fails first; each remaining command resolves its symbol or engine
    /// id, mutates at most one book, and reports through the tagged
    /// result. Errors never change state.
    pub fn try_process(&mut self, command: Command) -> (r: Result<Success, Error>)
        requires
            old(self).wf(),
            command.kind matches CommandKind::PlaceOrder(side, symbol, order)
                ==> !order.is_cancelled && order.filled.0 == 0 && order.quantity.0 > 0,
        ensures
            final(self).wf(),
            !old(self).has_account(command.account_id) ==> r == Err::<Success, Error>(
                Error::AccountDoesNotExist { id: command.account_id },
            ) && *final(self) == *old(self),
            old(self).has_account(command.account_id) ==> match command.kind {
                CommandKind::PlaceOrder(side, symbol, order) => {
                    if !old(self).has_book(symbol) {
                        r == Err::<Success, Error>(Error::SymbolDoesNotExist { symbol })
                            && *final(self) == *old(self)
                    } else {
                        let b0 = old(self).spec_book(symbol);
                        let l0 = b0.ladder_of(side);
                        let bid = OrderId(l0.orders@.len() as usize);
                        let path = (symbol, side, bid);
                        &&& r == Ok::<Success, Error>(
                            Success::PlaceOrder(old(self).next_order_id),
                        )
                        &&& final(self).next_order_id.0 == old(self).next_order_id.0 + 1
                        &&& final(self).forward() == old(self).forward().push(path)
                        &&& final(self).accounts@ == old(self).accounts@
                        &&& final(self).spec_book(symbol).ladder_of(side).orders@
                            == l0.orders@.push(order)
                        &&& final(self).spec_book(symbol).ladder_of(side).level_ids(order.price)
                            == l0.level_ids(order.price).push(bid)
                        &&& (forall|q: Price|
                            q != order.price ==> #[trigger] final(self).spec_book(
                                symbol,
                            ).ladder_of(side).level_ids(q) == l0.level_ids(q))
                        &&& final(self).spec_book(symbol).ladder_of(side.spec_opposite())
                            == b0.ladder_of(side.spec_opposite())
                        &&& (forall|q: Symbol|
                            q != symbol && old(self).has_book(q) ==> #[trigger] final(self).spec_book(q) == old(self).spec_book(q))
                        &&& (forall|q: Symbol|
                            #[trigger] final(self).has_book(q) == old(self).has_book(q))
                        &&& ((b0.uncrossed() && !b0.crosses(side, order.price)) ==> final(self).spec_book(symbol).uncrossed())
                        &&& (l0.tight() ==> final(self).spec_book(symbol).ladder_of(
                            side,
                        ).tight())
                    }
                },
                CommandKind::CancelOrder(id) => {
                    if !old(self).has_path(id) {
                        r == Err::<Success, Error>(Error::IdDoesNotExist { id }) && *final(self)
                            == *old(self)
                    } else {
                        let path = old(self).forward()[id.0 as int];
                        let l0 = old(self).path_ladder(path);
                        &&& r == Ok::<Success, Error>(
                            Success::CancelOrder(l0.cancel_ok(path.2)),
                        )
                        &&& final(self).forward() == old(self).forward()
                        &&& final(self).reverse() == old(self).reverse()
                        &&& final(self).accounts@ == old(self).accounts@
                        &&& final(self).next_order_id == old(self).next_order_id
                        &&& (forall|q: Symbol|
                            #[trigger] final(self).has_book(q) == old(self).has_book(q))
                        &&& (!l0.cancel_ok(path.2) ==> final(self).books@ == old(self).books@
                            && final(self).accounts@ == old(self).accounts@)
                        &&& (l0.cancel_ok(path.2) ==> {
                            &&& final(self).path_ladder(path).orders@ == l0.orders@.update(
                                path.2.0 as int,
                                Order { is_cancelled: true, ..l0.order_at(path.2.0 as int) },
                            )
                            &&& !final(self).path_ladder(path).cancel_ok(path.2)
                            &&& final(self).spec_book(path.0).ladder_of(path.1.spec_opposite())
                                == old(self).spec_book(path.0).ladder_of(path.1.spec_opposite())
                            &&& (forall|q: Symbol|
                                q != path.0 && old(self).has_book(q) ==> #[trigger] final(self).spec_book(q) == old(self).spec_book(q))
                            &&& (l0.tight() ==> final(self).path_ladder(path).tight())
                            &&& (old(self).spec_book(path.0).uncrossed() ==> final(self).spec_book(path.0).uncrossed())
                        })
                    }
                },
                CommandKind::GetOrder(id) => {
                    if !old(self).has_path(id) {
                        r == Err::<Success, Error>(Error::IdDoesNotExist { id }) && *final(self)
                            == *old(self)
                    } else {
                        let path = old(self).forward()[id.0 as int];
                        r == Ok::<Success, Error>(
                            Success::GetOrder(
                                old(self).path_ladder(path).order_at(path.2.0 as int),
                            ),
                        ) && *final(self) == *old(self)
                    }
                },
                CommandKind::ExecuteOrder(id) => {
                    if !old(self).has_path(id) {
                        r == Err::<Success, Error>(Error::IdDoesNotExist { id }) && *final(self)
                            == *old(self)
                    } else {
                        let path = old(self).forward()[id.0 as int];
                        let b0 = old(self).spec_book(path.0);
                        let own = b0.ladder_of(path.1);
                        let opp = b0.ladder_of(path.1.spec_opposite());
                        let taker0 = own.order_at(path.2.0 as int);
                        let m = match_at_level(
                            opp.orders@,
                            opp.level_ids(taker0.price),
                            taker0,
                        );
                        &&& final(self).forward() == old(self).forward()
                        &&& final(self).reverse() == old(self).reverse()
                        &&& final(self).accounts@ == old(self).accounts@
                        &&& final(self).next_order_id == old(self).next_order_id
                        &&& (forall|q: Symbol|
                            #[trigger] final(self).has_book(q) == old(self).has_book(q))
                        &&& final(self).spec_book(path.0).ladder_of(
                            path.1.spec_opposite(),
                        ).orders@ == m.orders
                        &&& final(self).spec_book(path.0).ladder_of(
                            path.1.spec_opposite(),
                        ).level_ids(taker0.price) == m.fifo
                        &&& final(self).path_ladder(path).orders@ == own.orders@.update(
                            path.2.0 as int,
                            m.taker,
                        )
                        &&& final(self).path_ladder(path).limit_levels@ == own.limit_levels@
                        &&& (forall|q: Symbol|
                            q != path.0 && old(self).has_book(q) ==> #[trigger] final(self).spec_book(q) == old(self).spec_book(q))
                        &&& (r matches Ok(s) && s matches Success::ExecuteOrder(pairs)
                            && pairs@.len() == m.fills.len() && (forall|k: int|
                            0 <= k < pairs@.len() ==> (#[trigger] pairs@[k]).1 == m.fills[k].1
                                && pairs@[k].0.0 < old(self).forward().len() && old(self).forward()[pairs@[k].0.0 as int] == (
                            path.0,
                            path.1.spec_opposite(),
                            m.fills[k].0,
                            )))
                        &&& (b0.uncrossed() ==> final(self).spec_book(path.0).uncrossed())
                        &&& sum_filled(final(self).spec_book(path.0).bids.orders@) + sum_filled(
                            final(self).spec_book(path.0).asks.orders@,
                        ) == sum_filled(b0.bids.orders@) + sum_filled(b0.asks.orders@) + 2
                            * fills_total(m.fills)
                        &&& (opp.tight() ==> final(self).spec_book(path.0).ladder_of(
                            path.1.spec_opposite(),
                        ).tight())
                    }
                },
                CommandKind::GetQuote(symbol, side) => {
                    if old(self).has_book(symbol) {
                        r == Ok::<Success, Error>(
                            Success::GetQuote(
                                match old(self).spec_book(symbol).ladder_of(
                                    side,
                                ).spec_best_price() {
                                    Some(p) => p,
                                    None => Price(0),
                                },
                            ),
                        ) && *final(self) == *old(self)
                    } else {
                        r == Err::<Success, Error>(Error::SymbolDoesNotExist { symbol })
                            && *final(self) == *old(self)
                    }
                },
                CommandKind::GetAccount(aid) => {
                    if old(self).has_account(aid) {
                        &&& *final(self) == *old(self)
                        &&& (r matches Ok(s) && s matches Success::GetAccount(acc)
                            && acc.balance == old(self).accounts@[aid.0 as int].balance
                            && acc.orders@ == old(self).accounts@[aid.0 as int].orders@
                            && acc.portfolio@ == old(self).accounts@[aid.0 as int].portfolio@)
                    } else {
                        r == Err::<Success, Error>(Error::AccountDoesNotExist { id: aid })
                            && *final(self) == *old(self)
                    }
                },
            },
    {
        let ghost pre = *self;
        if command.account_id.0 >= self.accounts.len() {
            return Err(Error::AccountDoesNotExist { id: command.account_id });
        }
        match command.kind {
            CommandKind::PlaceOrder(side, symbol, order) => {
                match self.find_book_index(symbol) {
                    None => Err(Error::SymbolDoesNotExist { symbol }),
                    Some(bi) => {
                        proof {
                            assert(pre.book_at_index(bi as int).wf());
                            assert(pre.book_at_index(bi as int).ladder_of(side).orders.len()
                                as int == pre.book_at_index(bi as int).ladder_of(
                                side,
                            ).n_orders());
                        }
                        let book_id = self.books[bi].1.insert(side, order);
                        let id = self.next_order_id;
                        let path = (symbol, side, book_id);
                        self.id_to_order_path_index.push(path);
                        self.order_path_to_id_index.push((path, id));
                        let n = self.id_to_order_path_index.len();
                        proof {
                            assert(id.0 < n);
                        }
                        self.next_order_id = Id(id.0 + 1);
                        proof {
                            lemma_engine_place(pre, *self, bi as int, side);
                        }
                        Ok(Success::PlaceOrder(id))
                    },
                }
            },
            CommandKind::CancelOrder(id) => {
                if id.0 >= self.id_to_order_path_index.len() {
                    return Err(Error::IdDoesNotExist { id });
                }
                let (symbol, side, book_id) = self.id_to_order_path_index[id.0];
                proof {
                    assert(pre.path_valid(pre.forward()[id.0 as int]));
                }
                let bi = match self.find_book_index(symbol) {
                    Some(bi) => bi,
                    None => {
                        proof {
                            assert(false);
                        }
                        return Err(Error::SymbolDoesNotExist { symbol });
                    },
                };
                proof {
                    assert(pre.book_at_index(bi as int).wf());
                }
                let ok = self.books[bi].1.cancel(side, book_id);
                proof {
                    lemma_engine_update_book(pre, *self, bi as int);
                    pre.lemma_book_at(bi as int);
                    if !ok {
                        assert(self.books@[bi as int] == pre.books@[bi as int]);
                        assert(self.books@ =~= pre.books@);
                    }
                }
                Ok(Success::CancelOrder(ok))
            },
            CommandKind::GetOrder(id) => {
                if id.0 >= self.id_to_order_path_index.len() {
                    return Err(Error::IdDoesNotExist { id });
                }
                let (symbol, side, book_id) = self.id_to_order_path_index[id.0];
                proof {
                    assert(pre.path_valid(pre.forward()[id.0 as int]));
                }
                let bi = match self.find_book_index(symbol) {
                    Some(bi) => bi,
                    None => {
                        proof {
                            assert(false);
                        }
                        return Err(Error::SymbolDoesNotExist { symbol });
                    },
                };
                proof {
                    assert(pre.book_at_index(bi as int).wf());
                    pre.lemma_book_at(bi as int);
                }
                let got = self.books[bi].1.get(side, book_id);
                match got {
                    Some(order) => Ok(Success::GetOrder(order)),
                    None => {
                        proof {
                            assert(false);
                        }
                        Err(Error::IdDoesNotExist { id })
                    },
                }
            },
            CommandKind::ExecuteOrder(id) => {
                if id.0 >= self.id_to_order_path_index.len() {
                    return Err(Error::IdDoesNotExist { id });
                }
                let (symbol, side, book_id) = self.id_to_order_path_index[id.0];
                proof {
                    assert(pre.path_valid(pre.forward()[id.0 as int]));
                }
                let bi = match self.find_book_index(symbol) {
                    Some(bi) => bi,
                    None => {
                        proof {
                            assert(false);
                        }
                        return Err(Error::SymbolDoesNotExist { symbol });
                    },
                };
                proof {
                    assert(pre.book_at_index(bi as int).wf());
                    pre.lemma_book_at(bi as int);
                    match side {
                        Side::Bid => {},
                        Side::Ask => {},
                    }
                }
                let (_is_filled, fills) = self.books[bi].1.execute(side, book_id);
                proof {
                    lemma_engine_update_book(pre, *self, bi as int);
                }
                let opp_side = side.opposite();
                let mut out: Vec<(Id, Quantity)> = Vec::new();
                let nf = fills.len();
                let mut k: usize = 0;
                while k < nf
                    invariant
                        self.wf(),
                        pre.wf(),
                        0 <= k <= nf,
                        nf == fills@.len(),
                        out@.len() == k,
                        self.forward() == pre.forward(),
                        (bi as int) < self.n_books(),
                        self.book_sym(bi as int) == symbol,
                        opp_side == side.spec_opposite(),
                        forall|j: int|
                            0 <= j < nf ==> (#[trigger] fills@[j]).0.0 < self.book_at_index(
                                bi as int,
                            ).ladder_of(opp_side).n_orders(),
                        forall|j: int|
                            0 <= j < k ==> (#[trigger] out@[j]).1 == fills@[j].1 && out@[j].0.0
                                < pre.forward().len() && pre.forward()[out@[j].0.0 as int] == (
                            symbol,
                            opp_side,
                            fills@[j].0,
                            ),
                    decreases nf - k,
                {
                    let f = fills[k];
                    let eid_opt = self.find_reverse((symbol, opp_side, f.0));
                    proof {
                        assert(self.book_order_known(
                            self.book_sym(bi as int),
                            opp_side,
                            f.0.0 as int,
                        ));
                        assert(OrderId((f.0.0 as int) as usize) == f.0);
                        if eid_opt is None {
                            assert(false);
                        }
                    }
                    let eid = eid_opt.unwrap();
                    out.push((eid, f.1));
                    k = k + 1;
                }
                Ok(Success::ExecuteOrder(out))
            },
            CommandKind::GetQuote(symbol, side) => {
                match self.find_book_index(symbol) {
                    None => Err(Error::SymbolDoesNotExist { symbol }),
                    Some(bi) => {
                        proof {
                            assert(pre.book_at_index(bi as int).wf());
                            pre.lemma_book_at(bi as int);
                        }
                        let quote = self.books[bi].1.best_price(side);
                        proof {
                            match side {
                                Side::Bid => {},
                                Side::Ask => {},
                            }
                        }
                        Ok(Success::GetQuote(quote))
                    },
                }
            },
            CommandKind::GetAccount(aid) => {
                if aid.0 >= self.accounts.len() {
                    return Err(Error::AccountDoesNotExist { id: aid });
                }
                let acc = clone_account(&self.accounts[aid.0]);
                Ok(Success::GetAccount(acc))
            },
        }
    }

    /// Allocate the next account id and store a fresh account under it.
    pub fn create_account(&mut self) -> (r: AccountId)
        requires
            old(self).wf(),
        ensures
            final(self).wf(),
            r == old(self).next_account_id,
            final(self).next_account_id.0 == old(self).next_account_id.0 + 1,
            final(self).accounts@.len() == old(self).accounts@.len() + 1,
            final(self).has_account(r),
            forall|i: int|
                0 <= i < old(self).accounts@.len() ==> #[trigger] final(self).accounts@[i] == old(
                    self,
                ).accounts@[i],
            final(self).accounts@[old(self).accounts@.len() as int].balance == Price(0),
            final(self).accounts@[old(self).accounts@.len() as int].orders@.len() == 0,
            final(self).accounts@[old(self).accounts@.len() as int].portfolio@.len() == 0,
            final(self).books@ == old(self).books@,
            final(self).forward() == old(self).forward(),
            final(self).reverse() == old(self).reverse(),
            final(self).next_order_id == old(self).next_order_id,
    {
        let ghost pre = *self;
        let id = self.next_account_id;
        self.accounts.push(Account::default());
        let n = self.accounts.len();
        proof {
            assert(id.0 < n);
        }
        self.next_account_id = AccountId(id.0 + 1);
        proof {
            lemma_wf_same_core(pre, *self);
        }
        id
    }
}

/// Id monotonicity (law): each successful placement returns the engine's
/// id counter and advances it, so ids handed out by successive placements
/// are strictly increasing.
pub proof fn lemma_place_ids_increase(
    e0: MatchEngine,
    e1: MatchEngine,
    e2: MatchEngine,
    id1: Id,
    id2: Id,
)
    requires
        id1 == e0.next_order_id,
        e1.next_order_id.0 == e0.next_order_id.0 + 1,
        id2 == e1.next_order_id,
        e2.next_order_id.0 == e1.next_order_id.0 + 1,
    ensures
        id2.0 > id1.0,
{
}

/// Default is the empty engine.
impl Default for MatchEngine {
    fn default() -> (e: MatchEngine)
        ensures
            e.wf(),
            e.n_books() == 0,
            e.forward().len() == 0,
            e.accounts@.len() == 0,
            e.next_order_id == Id(0),
            e.next_account_id == AccountId(0),
    {
        MatchEngine::new()
    }
}

/// A field-for-field copy of an account.
fn clone_account(a: &Account) -> (r: Account)
    ensures
        r.balance == a.balance,
        r.orders@ == a.orders@,
        r.portfolio@ == a.portfolio@,
{
    let mut orders: Vec<Id> = Vec::new();
    let n = a.orders.len();
    let mut i: usize = 0;
    while i < n
        invariant
            0 <= i <= n,
            n == a.orders@.len(),
            orders@ == a.orders@.subrange(0, i as int),
        decreases n - i,
    {
        orders.push(a.orders[i]);
        proof {
            assert(orders@ =~= a.orders@.subrange(0, i as int + 1));
        }
        i = i + 1;
    }
    proof {
        assert(orders@ =~= a.orders@);
    }
    let mut portfolio: Vec<(Symbol, Quantity)> = Vec::new();
    let np = a.portfolio.len();
    let mut j: usize = 0;
    while j < np
        invariant
            0 <= j <= np,
            np == a.portfolio@.len(),
            portfolio@ == a.portfolio@.subrange(0, j as int),
        decreases np - j,
    {
        portfolio.push(a.portfolio[j]);
        proof {
            assert(portfolio@ =~= a.portfolio@.subrange(0, j as int + 1));
        }
        j = j + 1;
    }
    proof {
        assert(portfolio@ =~= a.portfolio@);
    }
    Account { balance: a.balance, orders, portfolio }
}

/// Replacing the book at one position, keeping its symbol, both order
/// stores' lengths and its well-formedness, with every index untouched,
/// preserves engine well-formedness.
proof fn lemma_engine_update_book(pre: MatchEngine, post: MatchEngine, bi: int)
    requires
        pre.wf(),
        0 <= bi < pre.n_books(),
        post.books@.len() == pre.books@.len(),
        forall|i: int|
            0 <= i < pre.n_books() && i != bi ==> #[trigger] post.books@[i] == pre.books@[i],
        post.book_sym(bi) == pre.book_sym(bi),
        post.book_at_index(bi).wf(),
        post.book_at_index(bi).bids.n_orders() == pre.book_at_index(bi).bids.n_orders(),
        post.book_at_index(bi).asks.n_orders() == pre.book_at_index(bi).asks.n_orders(),
        post.id_to_order_path_index@ == pre.id_to_order_path_index@,
        post.order_path_to_id_index@ == pre.order_path_to_id_index@,
        post.accounts@ == pre.accounts@,
        post.next_order_id == pre.next_order_id,
        post.next_account_id == pre.next_account_id,
    ensures
        post.wf(),
        forall|q: Symbol| #[trigger] post.has_book(q) == pre.has_book(q),
        post.has_book(pre.book_sym(bi)),
        post.spec_book(pre.book_sym(bi)) == post.book_at_index(bi),
        forall|q: Symbol|
            q != pre.book_sym(bi) && pre.has_book(q) ==> #[trigger] post.spec_book(q)
                == pre.spec_book(q),
{
    assert forall|i: int, j: int| 0 <= i < j < post.n_books() implies #[trigger] post.book_sym(i)
        != #[trigger] post.book_sym(j) by {
        assert(post.book_sym(i) == pre.book_sym(i));
        assert(post.book_sym(j) == pre.book_sym(j));
    }
    assert forall|i: int| 0 <= i < post.n_books() implies (
    #[trigger] post.book_at_index(i)).wf() by {
        if i != bi {
            assert(post.book_at_index(i) == pre.book_at_index(i));
        }
    }
    post.lemma_book_at(bi);
    assert forall|q: Symbol| #[trigger] post.has_book(q) == pre.has_book(q) by {
        if pre.has_book(q) {
            let i = pre.book_index(q);
            assert(post.book_sym(i) == q);
        }
        if post.has_book(q) {
            let i = post.book_index(q);
            assert(pre.book_sym(i) == q);
        }
    }
    assert forall|q: Symbol| q != pre.book_sym(bi) && pre.has_book(q)
        implies #[trigger] post.spec_book(q) == pre.spec_book(q) by {
        let i = pre.book_index(q);
        pre.lemma_book_at(i);
        assert(i != bi);
        assert(post.book_sym(i) == q);
        post.lemma_book_at(i);
        assert(post.books@[i] == pre.books@[i]);
    }
    assert forall|n: int| 0 <= n < post.forward().len() implies post.path_valid(
        #[trigger] post.forward()[n],
    ) by {
        assert(pre.forward()[n] == post.forward()[n]);
        assert(pre.path_valid(pre.forward()[n]));
        let path = pre.forward()[n];
        if path.0 == pre.book_sym(bi) {
            pre.lemma_book_at(bi);
            assert(pre.spec_book(path.0) == pre.book_at_index(bi));
            assert(post.spec_book(path.0) == post.book_at_index(bi));
            match path.1 {
                Side::Bid => {},
                Side::Ask => {},
            }
        } else {
            assert(post.spec_book(path.0) == pre.spec_book(path.0));
        }
    }
    assert forall|n: int| 0 <= n < post.forward().len() implies #[trigger] post.reverse()[n] == (
        post.forward()[n],
        Id(n as usize),
    ) by {
        assert(pre.reverse()[n] == (pre.forward()[n], Id(n as usize)));
    }
    assert forall|n1: int, n2: int| 0 <= n1 < n2 < post.forward().len()
        implies #[trigger] post.forward()[n1] != #[trigger] post.forward()[n2] by {
        assert(pre.forward()[n1] != pre.forward()[n2]);
    }
    assert forall|i: int, side: Side, k: int|
        0 <= i < post.n_books() && 0 <= k < post.book_at_index(i).ladder_of(side).n_orders()
        implies #[trigger] post.book_order_known(post.book_sym(i), side, k) by {
        assert(post.book_sym(i) == pre.book_sym(i));
        if i != bi {
            assert(post.book_at_index(i) == pre.book_at_index(i));
        } else {
            match side {
                Side::Bid => {
                    assert(post.book_at_index(i).ladder_of(side).n_orders()
                        == pre.book_at_index(i).ladder_of(side).n_orders());
                },
                Side::Ask => {
                    assert(post.book_at_index(i).ladder_of(side).n_orders()
                        == pre.book_at_index(i).ladder_of(side).n_orders());
                },
            }
        }
        assert(pre.book_order_known(pre.book_sym(i), side, k));
        let path = (pre.book_sym(i), side, OrderId(k as usize));
        let nw = choose|nw: int|
            0 <= nw < pre.forward().len() && #[trigger] pre.forward()[nw] == path;
        assert(post.forward()[nw] == path);
    }
}

/// Placing an order appends one order to one ladder and one entry to each
/// index; the engine stays well-formed.
proof fn lemma_engine_place(pre: MatchEngine, post: MatchEngine, bi: int, side: Side)
    requires
        pre.wf(),
        0 <= bi < pre.n_books(),
        post.books@.len() == pre.books@.len(),
        forall|i: int|
            0 <= i < pre.n_books() && i != bi ==> #[trigger] post.books@[i] == pre.books@[i],
        post.book_sym(bi) == pre.book_sym(bi),
        post.book_at_index(bi).wf(),
        post.book_at_index(bi).ladder_of(side).n_orders() == pre.book_at_index(bi).ladder_of(
            side,
        ).n_orders() + 1,
        post.book_at_index(bi).ladder_of(side.spec_opposite()) == pre.book_at_index(
            bi,
        ).ladder_of(side.spec_opposite()),
        post.id_to_order_path_index@ == pre.id_to_order_path_index@.push(
            (
                pre.book_sym(bi),
                side,
                OrderId(pre.book_at_index(bi).ladder_of(side).n_orders() as usize),
            ),
        ),
        post.order_path_to_id_index@ == pre.order_path_to_id_index@.push(
            (
                (
                    pre.book_sym(bi),
                    side,
                    OrderId(pre.book_at_index(bi).ladder_of(side).n_orders() as usize),
                ),
                Id(pre.forward().len() as usize),
            ),
        ),
        post.accounts@ == pre.accounts@,
        post.next_order_id.0 == pre.next_order_id.0 + 1,
        post.next_account_id == pre.next_account_id,
    ensures
        post.wf(),
        forall|q: Symbol| #[trigger] post.has_book(q) == pre.has_book(q),
        post.has_book(pre.book_sym(bi)),
        post.spec_book(pre.book_sym(bi)) == post.book_at_index(bi),
        forall|q: Symbol|
            q != pre.book_sym(bi) && pre.has_book(q) ==> #[trigger] post.spec_book(q)
                == pre.spec_book(q),
{
    let sym = pre.book_sym(bi);
    assert(pre.book_at_index(bi).ladder_of(side).orders.len() as int == pre.book_at_index(
        bi,
    ).ladder_of(side).n_orders());
    assert(pre.book_at_index(bi).ladder_of(side).n_orders() <= usize::MAX);
    let newbid = OrderId(pre.book_at_index(bi).ladder_of(side).n_orders() as usize);
    let newpath = (sym, side, newbid);
    assert(newbid.0 == pre.book_at_index(bi).ladder_of(side).n_orders());
    assert forall|i: int, j: int| 0 <= i < j < post.n_books() implies #[trigger] post.book_sym(i)
        != #[trigger] post.book_sym(j) by {
        assert(post.book_sym(i) == pre.book_sym(i));
        assert(post.book_sym(j) == pre.book_sym(j));
    }
    assert forall|i: int| 0 <= i < post.n_books() implies (
    #[trigger] post.book_at_index(i)).wf() by {
        if i != bi {
            assert(post.book_at_index(i) == pre.book_at_index(i));
        }
    }
    post.lemma_book_at(bi);
    assert forall|q: Symbol| #[trigger] post.has_book(q) == pre.has_book(q) by {
        if pre.has_book(q) {
            let i = pre.book_index(q);
            assert(post.book_sym(i) == q);
        }
        if post.has_book(q) {
            let i = post.book_index(q);
            assert(pre.book_sym(i) == q);
        }
    }
    assert forall|q: Symbol| q != sym && pre.has_book(q) implies #[trigger] post.spec_book(q)
        == pre.spec_book(q) by {
        let i = pre.book_index(q);
        pre.lemma_book_at(i);
        assert(i != bi);
        assert(post.book_sym(i) == q);
        post.lemma_book_at(i);
        assert(post.books@[i] == pre.books@[i]);
    }
    // ladder growth is monotone on the placed side, untouched elsewhere
    assert forall|i: int, side2: Side|
        0 <= i < post.n_books() implies (#[trigger] post.book_at_index(i).ladder_of(
        side2,
    )).n_orders() >= pre.book_at_index(i).ladder_of(side2).n_orders() by {
        if i != bi {
            assert(post.book_at_index(i) == pre.book_at_index(i));
        } else {
            match (side, side2) {
                (Side::Bid, Side::Bid) => {},
                (Side::Bid, Side::Ask) => {},
                (Side::Ask, Side::Bid) => {},
                (Side::Ask, Side::Ask) => {},
            }
        }
    }
    assert forall|n: int| 0 <= n < post.forward().len() implies post.path_valid(
        #[trigger] post.forward()[n],
    ) by {
        if n < pre.forward().len() {
            assert(post.forward()[n] == pre.forward()[n]);
            assert(pre.path_valid(pre.forward()[n]));
            let path = pre.forward()[n];
            if path.0 == sym {
                pre.lemma_book_at(bi);
                assert(pre.spec_book(path.0) == pre.book_at_index(bi));
                assert(post.spec_book(path.0) == post.book_at_index(bi));
            } else {
                assert(post.spec_book(path.0) == pre.spec_book(path.0));
            }
        } else {
            assert(post.forward()[n] == newpath);
            assert(post.spec_book(sym) == post.book_at_index(bi));
            match side {
                Side::Bid => {},
                Side::Ask => {},
            }
        }
    }
    assert forall|n: int| 0 <= n < post.forward().len() implies #[trigger] post.reverse()[n] == (
        post.forward()[n],
        Id(n as usize),
    ) by {
        if n < pre.forward().len() {
            assert(pre.reverse()[n] == (pre.forward()[n], Id(n as usize)));
            assert(post.reverse()[n] == pre.reverse()[n]);
            assert(post.forward()[n] == pre.forward()[n]);
        } else {
            assert(post.reverse()[n] == (newpath, Id(pre.forward().len() as usize)));
            assert(post.forward()[n] == newpath);
        }
    }
    assert forall|n1: int, n2: int| 0 <= n1 < n2 < post.forward().len()
        implies #[trigger] post.forward()[n1] != #[trigger] post.forward()[n2] by {
        if n2 < pre.forward().len() {
            assert(pre.forward()[n1] != pre.forward()[n2]);
        } else {
            assert(post.forward()[n2] == newpath);
            assert(post.forward()[n1] == pre.forward()[n1]);
            assert(pre.path_valid(pre.forward()[n1]));
            let path1 = pre.forward()[n1];
            if path1.0 == sym && path1.1 == side {
                pre.lemma_book_at(bi);
                assert(pre.spec_book(path1.0) == pre.book_at_index(bi));
                assert(path1.2.0 < pre.book_at_index(bi).ladder_of(side).n_orders());
            }
        }
    }
    assert forall|i: int, side2: Side, k: int|
        0 <= i < post.n_books() && 0 <= k < post.book_at_index(i).ladder_of(side2).n_orders()
        implies #[trigger] post.book_order_known(post.book_sym(i), side2, k) by {
        assert(post.book_sym(i) == pre.book_sym(i));
        let path = (pre.book_sym(i), side2, OrderId(k as usize));
        if i == bi && side2 == side && k == pre.book_at_index(bi).ladder_of(side).n_orders() {
            assert(path == newpath);
            assert(post.forward()[pre.forward().len() as int] == newpath);
        } else {
            assert(k < pre.book_at_index(i).ladder_of(side2).n_orders()) by {
                if i != bi {
                    assert(post.book_at_index(i) == pre.book_at_index(i));
                } else {
                    match (side, side2) {
                        (Side::Bid, Side::Bid) => {},
                        (Side::Bid, Side::Ask) => {},
                        (Side::Ask, Side::Bid) => {},
                        (Side::Ask, Side::Ask) => {},
                    }
                }
            };
            assert(pre.book_order_known(pre.book_sym(i), side2, k));
            let nw = choose|nw: int|
                0 <= nw < pre.forward().len() && #[trigger] pre.forward()[nw] == path;
            assert(post.forward()[nw] == path);
        }
    }
}

/// Two engines with the same book list agree on every book query.
proof fn lemma_books_same(a: MatchEngine, b: MatchEngine)
    requires
        a.books@ == b.books@,
        forall|i2: int, j2: int|
            0 <= i2 < j2 < a.n_books() ==> #[trigger] a.book_sym(i2) != #[trigger] a.book_sym(j2),
    ensures
        a.n_books() == b.n_books(),
        forall|q: Symbol| #[trigger] a.has_book(q) == b.has_book(q),
        forall|q: Symbol| a.has_book(q) ==> #[trigger] a.spec_book(q) == b.spec_book(q),
        forall|i: int| 0 <= i < a.n_books() ==> #[trigger] a.book_sym(i) == b.book_sym(i),
        forall|i: int| 0 <= i < a.n_books() ==> #[trigger] a.book_at_index(i) == b.book_at_index(i),
{
    assert forall|q: Symbol| #[trigger] a.has_book(q) == b.has_book(q) by {
        if a.has_book(q) {
            let i = a.book_index(q);
            assert(b.book_sym(i) == q);
        }
        if b.has_book(q) {
            let i = b.book_index(q);
            assert(a.book_sym(i) == q);
        }
    }
    assert forall|q: Symbol| a.has_book(q) implies #[trigger] a.spec_book(q) == b.spec_book(q) by {
        let i = a.book_index(q);
        let j = b.book_index(q);
        assert(b.book_sym(j) == q);
        assert(a.book_sym(j) == q);
        a.lemma_book_at(j);
        assert(i == j);
    }
}

/// An engine whose books, indices and order counter are unchanged stays
/// well-formed whatever happened to its accounts.
proof fn lemma_wf_same_core(pre: MatchEngine, post: MatchEngine)
    requires
        pre.wf(),
        post.books@ == pre.books@,
        post.id_to_order_path_index@ == pre.id_to_order_path_index@,
        post.order_path_to_id_index@ == pre.order_path_to_id_index@,
        post.next_order_id == pre.next_order_id,
        post.next_account_id.0 == post.accounts@.len(),
    ensures
        post.wf(),
{
    lemma_books_same(pre, post);
    assert forall|i: int, j: int| 0 <= i < j < post.n_books() implies #[trigger] post.book_sym(i)
        != #[trigger] post.book_sym(j) by {
        assert(post.book_sym(i) == pre.book_sym(i));
        assert(post.book_sym(j) == pre.book_sym(j));
    }
    assert forall|i: int| 0 <= i < post.n_books() implies (
    #[trigger] post.book_at_index(i)).wf() by {
        assert(post.book_at_index(i) == pre.book_at_index(i));
        assert(pre.book_at_index(i).wf());
    }
    assert forall|n: int| 0 <= n < post.forward().len() implies post.path_valid(
        #[trigger] post.forward()[n],
    ) by {
        assert(pre.forward()[n] == post.forward()[n]);
        assert(pre.path_valid(pre.forward()[n]));
        let path = pre.forward()[n];
        assert(post.spec_book(path.0) == pre.spec_book(path.0));
    }
    assert forall|n: int| 0 <= n < post.forward().len() implies #[trigger] post.reverse()[n] == (
        post.forward()[n],
        Id(n as usize),
    ) by {
        assert(pre.reverse()[n] == (pre.forward()[n], Id(n as usize)));
    }
    assert forall|n1: int, n2: int| 0 <= n1 < n2 < post.forward().len()
        implies #[trigger] post.forward()[n1] != #[trigger] post.forward()[n2] by {
        assert(pre.forward()[n1] != pre.forward()[n2]);
    }
    assert forall|i: int, side: Side, k: int|
        0 <= i < post.n_books() && 0 <= k < post.book_at_index(i).ladder_of(side).n_orders()
        implies #[trigger] post.book_order_known(post.book_sym(i), side, k) by {
        assert(post.book_at_index(i) == pre.book_at_index(i));
        assert(pre.book_order_known(pre.book_sym(i), side, k));
        let path = (pre.book_sym(i), side, OrderId(k as usize));
        let nw = choose|nw: int|
            0 <= nw < pre.forward().len() && #[trigger] pre.forward()[nw] == path;
        assert(post.forward()[nw] == path);
    }
}

/// Appending a book for a fresh symbol leaves every existing book where
/// it was.
proof fn lemma_books_extended(pre: MatchEngine, post: MatchEngine, symbol: Symbol)
    requires
        forall|i2: int, j2: int|
            0 <= i2 < j2 < post.n_books() ==> #[trigger] post.book_sym(i2)
                != #[trigger] post.book_sym(j2),
        !pre.has_book(symbol),
        post.books@.len() == pre.books@.len() + 1,
        forall|i: int| 0 <= i < pre.n_books() ==> #[trigger] post.books@[i] == pre.books@[i],
        post.book_sym(pre.n_books()) == symbol,
    ensures
        forall|q: Symbol|
            q != symbol ==> #[trigger] post.has_book(q) == pre.has_book(q),
        forall|q: Symbol|
            pre.has_book(q) ==> #[trigger] post.spec_book(q) == pre.spec_book(q),
        post.has_book(symbol),
        post.book_index(symbol) == pre.n_books(),
{
    assert forall|i2: int, j2: int| 0 <= i2 < j2 < pre.n_books()
        implies #[trigger] pre.book_sym(i2) != #[trigger] pre.book_sym(j2) by {
        assert(post.book_sym(i2) == pre.book_sym(i2));
        assert(post.book_sym(j2) == pre.book_sym(j2));
    }
    post.lemma_book_at(pre.n_books());
    assert forall|q: Symbol| q != symbol implies #[trigger] post.has_book(q) == pre.has_book(
        q,
    ) by {
        if pre.has_book(q) {
            let i = pre.book_index(q);
            assert(post.book_sym(i) == q);
        }
        if post.has_book(q) {
            let i = post.book_index(q);
            assert(post.book_sym(i) == q);
            assert(i != pre.n_books());
            assert(pre.book_sym(i) == q);
        }
    }
    assert forall|q: Symbol| pre.has_book(q) implies #[trigger] post.spec_book(q)
        == pre.spec_book(q) by {
        let i = pre.book_index(q);
        assert(post.book_sym(i) == q);
        post.lemma_book_at(i);
        pre.lemma_book_at(i);
        assert(post.books@[i] == pre.books@[i]);
    }
}

} // verus!
