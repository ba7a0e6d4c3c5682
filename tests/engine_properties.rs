use matching_engine::{
    process_event, EventType, MatchError, MatchingEngine, MatchingResult, Order, OrderSide,
    OrderType,
};

fn rel(id: &str, side: OrderSide, kind: OrderType, price: u64, qty: u32, time: u64) -> Order {
    Order {
        id_: String::from(id),
        symbol_: String::from("REL"),
        qty_: qty,
        price_: price,
        entry_time_: time,
        side_: side,
        type_: kind,
    }
}

fn run(engine: &mut MatchingEngine, kind: EventType, o: &mut Order) -> MatchingResult {
    process_event(kind, o, engine).expect("event refused")
}

fn ids(r: &MatchingResult) -> Vec<String> {
    r.matched_order_ids_.clone()
}

#[test]
fn first_order_is_passive() {
    let mut e = MatchingEngine::new();
    let mut o = rel("1", OrderSide::Buy, OrderType::Limit, 10000, 200, 1);
    let r = run(&mut e, EventType::New, &mut o);
    assert!(r.is_empty());
    assert!(r.matched_order_ids_.is_empty());
    assert_eq!(r.executed_price(), 0);
    assert_eq!(o.qty_, 200);
    assert!(e.contains(&String::from("REL")));
    assert!(e.has_resting_order(&o));
}

#[test]
fn full_cross_on_price_equality() {
    let mut e = MatchingEngine::new();
    let mut o1 = rel("1", OrderSide::Buy, OrderType::Limit, 10000, 200, 1);
    run(&mut e, EventType::New, &mut o1);
    let mut o2 = rel("2", OrderSide::Sell, OrderType::Limit, 10000, 200, 2);
    let r = run(&mut e, EventType::New, &mut o2);
    assert_eq!(ids(&r), vec!["1".to_string()]);
    assert_eq!(r.executed_qty_, 200);
    assert_eq!(r.executed_price(), 10000);
    assert_eq!(o2.qty_, 0);
    assert!(!e.has_resting_order(&o1));
    assert!(!e.has_resting_order(&o2));
}

#[test]
fn partial_fill_then_residual_rests() {
    let mut e = MatchingEngine::new();
    let mut o1 = rel("1", OrderSide::Buy, OrderType::Limit, 10000, 200, 1);
    run(&mut e, EventType::New, &mut o1);
    let mut o2 = rel("2", OrderSide::Sell, OrderType::Limit, 10000, 100, 2);
    let r = run(&mut e, EventType::New, &mut o2);
    assert_eq!(ids(&r), vec!["1".to_string()]);
    assert_eq!(r.executed_qty_, 100);
    assert_eq!(r.executed_price(), 10000);
    assert!(e.has_resting_order(&o1));
    assert!(!e.has_resting_order(&o2));
    // the 100 left on order 1 is all that trades next
    let mut o3 = rel("3", OrderSide::Sell, OrderType::Limit, 10000, 300, 3);
    let r = run(&mut e, EventType::New, &mut o3);
    assert_eq!(ids(&r), vec!["1".to_string()]);
    assert_eq!(r.executed_qty_, 100);
    assert_eq!(o3.qty_, 200);
    assert!(e.has_resting_order(&o3));
}

#[test]
fn market_buy_matches_best_ask() {
    let mut e = MatchingEngine::new();
    let mut o1 = rel("1", OrderSide::Sell, OrderType::Limit, 10200, 200, 1);
    run(&mut e, EventType::New, &mut o1);
    let mut o2 = rel("2", OrderSide::Sell, OrderType::Limit, 10100, 200, 2);
    run(&mut e, EventType::New, &mut o2);
    let mut o3 = rel("3", OrderSide::Buy, OrderType::Mkt, 0, 200, 3);
    let r = run(&mut e, EventType::New, &mut o3);
    assert_eq!(ids(&r), vec!["2".to_string()]);
    assert_eq!(r.executed_qty_, 200);
    assert_eq!(r.executed_price(), 10100);
}

#[test]
fn time_priority_at_one_level() {
    let mut e = MatchingEngine::new();
    let mut o1 = rel("1", OrderSide::Buy, OrderType::Limit, 10000, 200, 1);
    run(&mut e, EventType::New, &mut o1);
    let mut o2 = rel("2", OrderSide::Buy, OrderType::Limit, 10000, 200, 2);
    run(&mut e, EventType::New, &mut o2);
    let mut o3 = rel("3", OrderSide::Sell, OrderType::Mkt, 0, 200, 3);
    let r = run(&mut e, EventType::New, &mut o3);
    assert_eq!(ids(&r), vec!["1".to_string()]);
    assert_eq!(r.executed_qty_, 200);
    assert_eq!(r.executed_price(), 10000);
}

#[test]
fn replace_loses_priority_and_may_execute() {
    let mut e = MatchingEngine::new();
    let mut o1 = rel("1", OrderSide::Buy, OrderType::Limit, 10010, 200, 1);
    run(&mut e, EventType::New, &mut o1);
    let mut o2 = rel("2", OrderSide::Sell, OrderType::Limit, 10010, 200, 2);
    let r = run(&mut e, EventType::New, &mut o2);
    assert_eq!(ids(&r), vec!["1".to_string()]);
    assert_eq!(r.executed_qty_, 200);

    let mut e = MatchingEngine::new();
    let mut o1 = rel("1", OrderSide::Buy, OrderType::Limit, 10010, 200, 1);
    run(&mut e, EventType::New, &mut o1);
    let mut r1 = rel("1", OrderSide::Buy, OrderType::Limit, 10000, 200, 2);
    assert!(run(&mut e, EventType::Rpl, &mut r1).is_empty());
    let mut o2 = rel("2", OrderSide::Sell, OrderType::Limit, 10010, 200, 3);
    assert!(run(&mut e, EventType::New, &mut o2).is_empty());
    assert!(e.has_resting_order(&r1));
    assert!(e.has_resting_order(&o2));
    let mut r2 = rel("2", OrderSide::Sell, OrderType::Limit, 10000, 200, 4);
    let r = run(&mut e, EventType::Rpl, &mut r2);
    assert_eq!(ids(&r), vec!["1".to_string()]);
    assert_eq!(r.executed_qty_, 200);
    assert_eq!(r.executed_price(), 10000);
}

#[test]
fn replaced_order_goes_behind_younger_orders() {
    let mut e = MatchingEngine::new();
    let mut a = rel("a", OrderSide::Buy, OrderType::Limit, 10000, 100, 1);
    run(&mut e, EventType::New, &mut a);
    let mut b = rel("b", OrderSide::Buy, OrderType::Limit, 10000, 100, 2);
    run(&mut e, EventType::New, &mut b);
    let mut a2 = rel("a", OrderSide::Buy, OrderType::Limit, 10000, 100, 3);
    run(&mut e, EventType::Rpl, &mut a2);
    let mut s = rel("s", OrderSide::Sell, OrderType::Mkt, 0, 150, 4);
    let r = run(&mut e, EventType::New, &mut s);
    assert_eq!(ids(&r), vec!["b".to_string(), "a".to_string()]);
    assert_eq!(r.executed_qty_, 150);
}

#[test]
fn sweep_walks_levels_while_marketable() {
    let mut e = MatchingEngine::new();
    let mut a1 = rel("a1", OrderSide::Sell, OrderType::Limit, 10100, 100, 1);
    run(&mut e, EventType::New, &mut a1);
    let mut a2 = rel("a2", OrderSide::Sell, OrderType::Limit, 10000, 100, 2);
    run(&mut e, EventType::New, &mut a2);
    let mut a3 = rel("a3", OrderSide::Sell, OrderType::Limit, 10200, 100, 3);
    run(&mut e, EventType::New, &mut a3);
    let mut b = rel("b", OrderSide::Buy, OrderType::Limit, 10100, 250, 4);
    let r = run(&mut e, EventType::New, &mut b);
    assert_eq!(ids(&r), vec!["a2".to_string(), "a1".to_string()]);
    assert_eq!(r.executed_qty_, 200);
    assert_eq!(r.executed_notional_, 10000 * 100 + 10100 * 100);
    assert_eq!(r.executed_price(), 10050);
    // 50 left rests as the best bid at 10100, below the remaining ask at 10200
    assert_eq!(b.qty_, 50);
    assert!(e.has_resting_order(&b));
    assert!(e.has_resting_order(&a3));
}

#[test]
fn price_priority_consumes_better_level_first() {
    let mut e = MatchingEngine::new();
    let mut lo = rel("lo", OrderSide::Buy, OrderType::Limit, 10000, 100, 1);
    run(&mut e, EventType::New, &mut lo);
    let mut hi = rel("hi", OrderSide::Buy, OrderType::Limit, 10100, 100, 2);
    run(&mut e, EventType::New, &mut hi);
    let mut s = rel("s", OrderSide::Sell, OrderType::Mkt, 0, 150, 3);
    let r = run(&mut e, EventType::New, &mut s);
    assert_eq!(ids(&r), vec!["hi".to_string(), "lo".to_string()]);
    assert_eq!(r.executed_qty_, 150);
    assert_eq!(r.executed_notional_, 10100 * 100 + 10000 * 50);
    assert_eq!(r.executed_price(), 10066);
    assert!(!e.has_resting_order(&hi));
    assert!(e.has_resting_order(&lo));
}

#[test]
fn time_priority_fills_older_completely_first() {
    let mut e = MatchingEngine::new();
    let mut a = rel("A", OrderSide::Buy, OrderType::Limit, 10000, 100, 1);
    run(&mut e, EventType::New, &mut a);
    let mut b = rel("B", OrderSide::Buy, OrderType::Limit, 10000, 100, 2);
    run(&mut e, EventType::New, &mut b);
    let mut s = rel("S", OrderSide::Sell, OrderType::Limit, 10000, 200, 3);
    let r = run(&mut e, EventType::New, &mut s);
    assert_eq!(ids(&r), vec!["A".to_string(), "B".to_string()]);
    assert_eq!(r.executed_qty_, 200);
}

#[test]
fn entry_time_orders_a_level() {
    let mut e = MatchingEngine::new();
    let mut late = rel("late", OrderSide::Sell, OrderType::Limit, 10000, 100, 20);
    run(&mut e, EventType::New, &mut late);
    let mut early = rel("early", OrderSide::Sell, OrderType::Limit, 10000, 100, 10);
    run(&mut e, EventType::New, &mut early);
    let mut b = rel("b", OrderSide::Buy, OrderType::Mkt, 0, 100, 30);
    let r = run(&mut e, EventType::New, &mut b);
    assert_eq!(ids(&r), vec!["early".to_string()]);
}

#[test]
fn market_order_residual_does_not_rest() {
    let mut e = MatchingEngine::new();
    let mut a = rel("a", OrderSide::Sell, OrderType::Limit, 10000, 100, 1);
    run(&mut e, EventType::New, &mut a);
    let mut m = rel("m", OrderSide::Buy, OrderType::Mkt, 0, 300, 2);
    let r = run(&mut e, EventType::New, &mut m);
    assert_eq!(r.executed_qty_, 100);
    assert_eq!(m.qty_, 200);
    assert!(!e.has_resting_order(&m));
    let mut s = rel("s", OrderSide::Sell, OrderType::Mkt, 0, 100, 3);
    assert!(run(&mut e, EventType::New, &mut s).is_empty());
}

#[test]
fn limit_sell_not_marketable_rests() {
    let mut e = MatchingEngine::new();
    let mut b = rel("b", OrderSide::Buy, OrderType::Limit, 9900, 100, 1);
    run(&mut e, EventType::New, &mut b);
    let mut s = rel("s", OrderSide::Sell, OrderType::Limit, 10000, 100, 2);
    let r = run(&mut e, EventType::New, &mut s);
    assert!(r.is_empty());
    assert_eq!(s.qty_, 100);
    assert!(e.has_resting_order(&s));
    assert!(e.has_resting_order(&b));
}

#[test]
fn cancel_unknown_symbol_is_refused() {
    let mut e = MatchingEngine::new();
    let mut o = rel("1", OrderSide::Buy, OrderType::Limit, 10000, 100, 1);
    assert_eq!(process_event(EventType::Cxl, &mut o, &mut e).unwrap_err(), MatchError::UnknownSymbol);
    assert!(!e.contains(&String::from("REL")));
}

#[test]
fn replace_unknown_symbol_is_refused() {
    let mut e = MatchingEngine::new();
    let mut o = rel("1", OrderSide::Buy, OrderType::Limit, 10000, 100, 1);
    assert_eq!(process_event(EventType::Rpl, &mut o, &mut e).unwrap_err(), MatchError::UnknownSymbol);
}

#[test]
fn cancel_absent_id_leaves_book_unchanged() {
    let mut e = MatchingEngine::new();
    let mut a = rel("a", OrderSide::Buy, OrderType::Limit, 10000, 100, 1);
    run(&mut e, EventType::New, &mut a);
    let mut x = rel("x", OrderSide::Buy, OrderType::Limit, 10000, 100, 2);
    assert_eq!(process_event(EventType::Cxl, &mut x, &mut e).unwrap_err(), MatchError::OrderNotFound);
    assert_eq!(process_event(EventType::Cxl, &mut x, &mut e).unwrap_err(), MatchError::OrderNotFound);
    assert!(e.has_resting_order(&a));
    let mut s = rel("s", OrderSide::Sell, OrderType::Limit, 10000, 100, 3);
    let r = run(&mut e, EventType::New, &mut s);
    assert_eq!(ids(&r), vec!["a".to_string()]);
}

#[test]
fn cancel_on_wrong_side_is_not_found() {
    let mut e = MatchingEngine::new();
    let mut a = rel("a", OrderSide::Buy, OrderType::Limit, 10000, 100, 1);
    run(&mut e, EventType::New, &mut a);
    let mut x = rel("a", OrderSide::Sell, OrderType::Limit, 10000, 100, 2);
    assert_eq!(process_event(EventType::Cxl, &mut x, &mut e).unwrap_err(), MatchError::OrderNotFound);
    assert_eq!(process_event(EventType::Rpl, &mut x, &mut e).unwrap_err(), MatchError::OrderNotFound);
    assert!(e.has_resting_order(&a));
}

#[test]
fn replace_equals_cancel_then_new() {
    let mut e1 = MatchingEngine::new();
    let mut e2 = MatchingEngine::new();
    for e in [&mut e1, &mut e2] {
        let mut a = rel("a", OrderSide::Sell, OrderType::Limit, 10100, 100, 1);
        run(e, EventType::New, &mut a);
        let mut b = rel("b", OrderSide::Buy, OrderType::Limit, 10000, 100, 2);
        run(e, EventType::New, &mut b);
    }
    let mut r = rel("b", OrderSide::Buy, OrderType::Limit, 10100, 150, 3);
    let via_replace = run(&mut e1, EventType::Rpl, &mut r);
    let mut c = rel("b", OrderSide::Buy, OrderType::Limit, 10000, 100, 3);
    run(&mut e2, EventType::Cxl, &mut c);
    let mut n = rel("b", OrderSide::Buy, OrderType::Limit, 10100, 150, 3);
    let via_new = run(&mut e2, EventType::New, &mut n);
    assert_eq!(via_replace.matched_order_ids_, via_new.matched_order_ids_);
    assert_eq!(via_replace.executed_qty_, via_new.executed_qty_);
    assert_eq!(via_replace.executed_notional_, via_new.executed_notional_);
    assert_eq!(r.qty_, n.qty_);
    assert_eq!(r.qty_, 50);
}

#[test]
fn symbols_are_independent() {
    let mut e = MatchingEngine::new();
    let mut a = rel("a", OrderSide::Buy, OrderType::Limit, 10000, 100, 1);
    run(&mut e, EventType::New, &mut a);
    let mut other = rel("b", OrderSide::Sell, OrderType::Limit, 10000, 100, 2);
    other.symbol_ = String::from("TCS");
    let r = run(&mut e, EventType::New, &mut other);
    assert!(r.is_empty());
    assert!(e.contains(&String::from("TCS")));
    assert!(e.has_resting_order(&other));
    assert!(e.has_resting_order(&a));
}

#[test]
fn executed_price_rounds_down() {
    let r = MatchingResult {
        matched_order_ids_: vec![String::from("x")],
        executed_qty_: 3,
        executed_notional_: 10,
    };
    assert_eq!(r.executed_price(), 3);
    assert_eq!(MatchingResult::new().executed_price(), 0);
}

#[test]
fn largest_price_and_quantity() {
    let mut e = MatchingEngine::new();
    let mut a = rel("a", OrderSide::Sell, OrderType::Limit, u64::MAX, u32::MAX, 1);
    run(&mut e, EventType::New, &mut a);
    let mut b = rel("b", OrderSide::Buy, OrderType::Mkt, 0, u32::MAX, 2);
    let r = run(&mut e, EventType::New, &mut b);
    assert_eq!(r.executed_qty_, u32::MAX);
    assert_eq!(r.executed_notional_, (u64::MAX as u128) * (u32::MAX as u128));
    assert_eq!(r.executed_price(), u64::MAX);
}
