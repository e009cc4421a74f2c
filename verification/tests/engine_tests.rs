use match_engine::engine::{Command, CommandKind, Error, Id, MatchEngine, Success};
use match_engine::types::{AccountId, Order, Price, Quantity, Side, Symbol};

fn adbe() -> Symbol {
    Symbol::new('A', 'D', 'B', 'E')
}

fn order(price: u32, quantity: u32) -> Order {
    Order::new(Price(price), Quantity(quantity))
}

fn ready_engine() -> (MatchEngine, AccountId) {
    let mut engine = MatchEngine::new();
    assert!(engine.insert_new_symbol(adbe()));
    let account = engine.create_account();
    (engine, account)
}

fn place(engine: &mut MatchEngine, account: AccountId, side: Side, o: Order) -> Id {
    let r = engine.try_process(Command {
        account_id: account,
        kind: CommandKind::PlaceOrder(side, adbe(), o),
    });
    match r {
        Ok(Success::PlaceOrder(id)) => id,
        other => panic!("placement failed: {:?}", other),
    }
}

fn execute(engine: &mut MatchEngine, account: AccountId, id: Id) -> Vec<(Id, Quantity)> {
    let r = engine.try_process(Command {
        account_id: account,
        kind: CommandKind::ExecuteOrder(id),
    });
    match r {
        Ok(Success::ExecuteOrder(fills)) => fills,
        other => panic!("execution failed: {:?}", other),
    }
}

fn get(engine: &mut MatchEngine, account: AccountId, id: Id) -> Order {
    let r = engine.try_process(Command { account_id: account, kind: CommandKind::GetOrder(id) });
    match r {
        Ok(Success::GetOrder(o)) => o,
        other => panic!("lookup failed: {:?}", other),
    }
}

fn cancel(engine: &mut MatchEngine, account: AccountId, id: Id) -> bool {
    let r = engine.try_process(Command {
        account_id: account,
        kind: CommandKind::CancelOrder(id),
    });
    match r {
        Ok(Success::CancelOrder(b)) => b,
        other => panic!("cancel failed: {:?}", other),
    }
}

#[test]
fn empty_execute_returns_no_fills() {
    let (mut engine, account) = ready_engine();
    let bid = place(&mut engine, account, Side::Bid, order(100, 100));
    assert_eq!(execute(&mut engine, account, bid), Vec::new());
    let resting = get(&mut engine, account, bid);
    assert_eq!(resting.price, Price(100));
    assert_eq!(resting.quantity, Quantity(100));
    assert_eq!(resting.filled, Quantity(0));
    assert!(!resting.is_cancelled);
}

#[test]
fn symmetric_fill_at_one_level() {
    let (mut engine, account) = ready_engine();
    let a0 = place(&mut engine, account, Side::Ask, order(100, 100));
    let a1 = place(&mut engine, account, Side::Ask, order(100, 100));
    let a2 = place(&mut engine, account, Side::Ask, order(100, 100));
    let b0 = place(&mut engine, account, Side::Bid, order(100, 250));
    assert_eq!(
        execute(&mut engine, account, b0),
        vec![(a0, Quantity(100)), (a1, Quantity(100)), (a2, Quantity(50))]
    );
    let survivor = get(&mut engine, account, a2);
    assert_eq!(survivor.filled, Quantity(50));
    assert_eq!(survivor.quantity, Quantity(100));
    let b1 = place(&mut engine, account, Side::Bid, order(100, 50));
    assert_eq!(execute(&mut engine, account, b1), vec![(a2, Quantity(50))]);
    // the ask level is now gone; the quote falls back to the zero sentinel
    let quote = engine.try_process(Command {
        account_id: account,
        kind: CommandKind::GetQuote(adbe(), Side::Ask),
    });
    assert_eq!(quote, Ok(Success::GetQuote(Price(0))));
}

#[test]
fn cancel_via_engine_is_idempotent() {
    let (mut engine, account) = ready_engine();
    let a0 = place(&mut engine, account, Side::Ask, order(100, 100));
    assert_eq!(cancel(&mut engine, account, a0), true);
    assert_eq!(cancel(&mut engine, account, a0), false);
    assert!(get(&mut engine, account, a0).is_cancelled);
}

#[test]
fn place_then_get_round_trips() {
    let (mut engine, account) = ready_engine();
    let id = place(&mut engine, account, Side::Ask, order(123, 456));
    let o = get(&mut engine, account, id);
    assert_eq!(o.price, Price(123));
    assert_eq!(o.quantity, Quantity(456));
    assert_eq!(o.filled, Quantity(0));
    assert!(!o.is_cancelled);
}

#[test]
fn successive_placements_return_increasing_ids() {
    let (mut engine, account) = ready_engine();
    let mut last: Option<Id> = None;
    for i in 0..50u32 {
        let side = if i % 2 == 0 { Side::Ask } else { Side::Bid };
        let id = place(&mut engine, account, side, order(100 + i, 10));
        if let Some(prev) = last {
            assert!(id.0 > prev.0);
        }
        last = Some(id);
    }
}

#[test]
fn unknown_account_is_rejected() {
    let mut engine = MatchEngine::new();
    engine.insert_new_symbol(adbe());
    let r = engine.try_process(Command {
        account_id: AccountId(7),
        kind: CommandKind::GetQuote(adbe(), Side::Ask),
    });
    assert_eq!(r, Err(Error::AccountDoesNotExist { id: AccountId(7) }));
}

#[test]
fn unknown_symbol_is_rejected() {
    let (mut engine, account) = ready_engine();
    let other = Symbol::new('M', 'S', 'F', 'T');
    let r = engine.try_process(Command {
        account_id: account,
        kind: CommandKind::PlaceOrder(Side::Bid, other, order(10, 10)),
    });
    assert_eq!(r, Err(Error::SymbolDoesNotExist { symbol: other }));
    let r = engine.try_process(Command {
        account_id: account,
        kind: CommandKind::GetQuote(other, Side::Bid),
    });
    assert_eq!(r, Err(Error::SymbolDoesNotExist { symbol: other }));
}

#[test]
fn unknown_order_id_is_rejected() {
    let (mut engine, account) = ready_engine();
    for kind in [
        CommandKind::CancelOrder(Id(3)),
        CommandKind::GetOrder(Id(3)),
        CommandKind::ExecuteOrder(Id(3)),
    ] {
        let r = engine.try_process(Command { account_id: account, kind });
        assert_eq!(r, Err(Error::IdDoesNotExist { id: Id(3) }));
    }
}

#[test]
fn unknown_account_lookup_is_rejected() {
    let (mut engine, account) = ready_engine();
    let r = engine.try_process(Command {
        account_id: account,
        kind: CommandKind::GetAccount(AccountId(9)),
    });
    assert_eq!(r, Err(Error::AccountDoesNotExist { id: AccountId(9) }));
}

#[test]
fn fresh_account_snapshot_is_empty() {
    let (mut engine, account) = ready_engine();
    let r = engine.try_process(Command {
        account_id: account,
        kind: CommandKind::GetAccount(account),
    });
    match r {
        Ok(Success::GetAccount(acc)) => {
            assert_eq!(acc.balance, Price(0));
            assert!(acc.orders.is_empty());
            assert!(acc.portfolio.is_empty());
        }
        other => panic!("account lookup failed: {:?}", other),
    }
}

#[test]
fn insert_new_symbol_does_not_overwrite() {
    let (mut engine, account) = ready_engine();
    let id = place(&mut engine, account, Side::Ask, order(77, 5));
    // registering the same symbol again is refused and keeps the book
    assert_eq!(engine.insert_new_symbol(adbe()), false);
    let o = get(&mut engine, account, id);
    assert_eq!(o.price, Price(77));
}

#[test]
fn quote_tracks_best_prices_per_side() {
    let (mut engine, account) = ready_engine();
    place(&mut engine, account, Side::Ask, order(105, 10));
    place(&mut engine, account, Side::Ask, order(103, 10));
    place(&mut engine, account, Side::Bid, order(95, 10));
    place(&mut engine, account, Side::Bid, order(98, 10));
    let ask_quote = engine.try_process(Command {
        account_id: account,
        kind: CommandKind::GetQuote(adbe(), Side::Ask),
    });
    assert_eq!(ask_quote, Ok(Success::GetQuote(Price(103))));
    let bid_quote = engine.try_process(Command {
        account_id: account,
        kind: CommandKind::GetQuote(adbe(), Side::Bid),
    });
    assert_eq!(bid_quote, Ok(Success::GetQuote(Price(98))));
}

#[test]
fn execute_rewrites_fills_to_engine_ids() {
    let (mut engine, account) = ready_engine();
    // interleave sides so engine ids and book ids diverge
    let _b0 = place(&mut engine, account, Side::Bid, order(90, 10));
    let a0 = place(&mut engine, account, Side::Ask, order(100, 60));
    let _b1 = place(&mut engine, account, Side::Bid, order(91, 10));
    let a1 = place(&mut engine, account, Side::Ask, order(100, 60));
    let b2 = place(&mut engine, account, Side::Bid, order(100, 90));
    let fills = execute(&mut engine, account, b2);
    assert_eq!(fills, vec![(a0, Quantity(60)), (a1, Quantity(30))]);
}
