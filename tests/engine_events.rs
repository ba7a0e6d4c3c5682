use matching_engine::{
    process_event, EventType, MatchError, MatchingEngine, MatchingResult, Order, OrderSide,
    OrderType,
};

fn order(id: &str, price: u64, qty: u32, side: OrderSide, kind: OrderType, time: u64) -> Order {
    Order {
        id_: String::from(id),
        price_: price,
        symbol_: String::from("REL"),
        qty_: qty,
        side_: side,
        type_: kind,
        entry_time_: time,
    }
}

fn validate_result(
    p_result: &Result<MatchingResult, MatchError>,
    p_exp_exec_qty: u32,
    p_exp_exec_price: u64,
    p_matched_order_ids: Option<&Vec<String>>,
) {
    match p_result {
        Ok(match_result) => {
            assert_eq!(match_result.executed_qty_, p_exp_exec_qty);
            match p_matched_order_ids {
                None => {
                    assert!(match_result.matched_order_ids_.is_empty());
                }
                Some(matched_ord_ids) => {
                    assert_eq!(match_result.executed_price(), p_exp_exec_price);
                    assert_eq!(&match_result.matched_order_ids_, matched_ord_ids);
                }
            }
        }
        Err(error) => {
            panic!("process event failed with error {:?}", error);
        }
    }
}

#[test]
fn create_first_order() {
    let mut engine = MatchingEngine::new();
    let mut o = order("1", 10000, 200, OrderSide::Buy, OrderType::Limit, 1);
    let result = process_event(EventType::New, &mut o, &mut engine);
    validate_result(&result, 0, 0, None);
}

#[test]
fn qty_match_simple_order() {
    let mut engine = MatchingEngine::new();
    let mut matched_order_ids = Vec::new();
    let mut o = order("1", 10000, 200, OrderSide::Buy, OrderType::Limit, 1);
    let result = process_event(EventType::New, &mut o, &mut engine);
    validate_result(&result, 0, 0, None);

    let mut o = order("2", 10000, 200, OrderSide::Sell, OrderType::Limit, 2);
    matched_order_ids.push("1".to_string());
    let result = process_event(EventType::New, &mut o, &mut engine);
    validate_result(&result, 200, o.price_, Some(&matched_order_ids));

    let mut o = order("3", 10000, 200, OrderSide::Sell, OrderType::Limit, 3);
    let result = process_event(EventType::New, &mut o, &mut engine);
    validate_result(&result, 0, 0, None);

    let mut o = order("4", 10000, 200, OrderSide::Buy, OrderType::Limit, 4);
    matched_order_ids.clear();
    matched_order_ids.push("3".to_string());
    let result = process_event(EventType::New, &mut o, &mut engine);
    validate_result(&result, 200, o.price_, Some(&matched_order_ids));
}

#[test]
fn qty_macth_test_partial_match() {
    let mut engine = MatchingEngine::new();
    let mut matched_order_ids = Vec::new();
    let mut o = order("1", 10000, 200, OrderSide::Buy, OrderType::Limit, 1);
    let result = process_event(EventType::New, &mut o, &mut engine);
    validate_result(&result, 0, 0, None);

    let mut o = order("2", 10000, 100, OrderSide::Sell, OrderType::Limit, 2);
    let result = process_event(EventType::New, &mut o, &mut engine);
    matched_order_ids.clear();
    matched_order_ids.push("1".to_string());
    validate_result(&result, 100, o.price_, Some(&matched_order_ids));

    let mut o = order("3", 10000, 200, OrderSide::Sell, OrderType::Limit, 3);
    let result = process_event(EventType::New, &mut o, &mut engine);
    validate_result(&result, 100, o.price_, Some(&matched_order_ids));

    let mut o = order("4", 10000, 100, OrderSide::Buy, OrderType::Limit, 4);
    let result = process_event(EventType::New, &mut o, &mut engine);
    matched_order_ids.clear();
    matched_order_ids.push("3".to_string());
    validate_result(&result, 100, o.price_, Some(&matched_order_ids));

    let mut o = order("5", 10000, 200, OrderSide::Buy, OrderType::Limit, 5);
    let result = process_event(EventType::New, &mut o, &mut engine);
    matched_order_ids.clear();
    validate_result(&result, 0, 0, None);

    let mut o = order("6", 10000, 200, OrderSide::Sell, OrderType::Limit, 6);
    let result = process_event(EventType::New, &mut o, &mut engine);
    matched_order_ids.push("5".to_string());
    validate_result(&result, 200, o.price_, Some(&matched_order_ids));
}

#[test]
fn mkt_order_match_simple() {
    let mut engine = MatchingEngine::new();
    let mut matched_order_ids = Vec::new();
    let mut o = order("1", 10000, 200, OrderSide::Buy, OrderType::Limit, 1);
    let result = process_event(EventType::New, &mut o, &mut engine);
    validate_result(&result, 0, 0, None);

    let mut o = order("2", 0, 200, OrderSide::Sell, OrderType::Mkt, 2);
    let result = process_event(EventType::New, &mut o, &mut engine);
    matched_order_ids.push("1".to_string());
    validate_result(&result, 200, 10000, Some(&matched_order_ids));

    let mut o = order("3", 10000, 200, OrderSide::Buy, OrderType::Limit, 3);
    let result = process_event(EventType::New, &mut o, &mut engine);
    validate_result(&result, 0, 0, None);

    let mut o = order("4", 0, 200, OrderSide::Buy, OrderType::Mkt, 4);
    let result = process_event(EventType::New, &mut o, &mut engine);
    validate_result(&result, 0, 0, None);
}

#[test]
fn mkt_order_match_time() {
    let mut engine = MatchingEngine::new();
    let mut matched_order_ids = Vec::new();
    let mut o = order("1", 10000, 200, OrderSide::Buy, OrderType::Limit, 1);
    let result = process_event(EventType::New, &mut o, &mut engine);
    validate_result(&result, 0, 0, None);

    let mut o = order("2", 10000, 200, OrderSide::Buy, OrderType::Limit, 2);
    let result = process_event(EventType::New, &mut o, &mut engine);
    validate_result(&result, 0, 0, None);

    let mut o = order("3", 0, 200, OrderSide::Sell, OrderType::Mkt, 3);
    let result = process_event(EventType::New, &mut o, &mut engine);
    matched_order_ids.push("1".to_string());
    validate_result(&result, 200, 10000, Some(&matched_order_ids));

    let mut o = order("4", 0, 200, OrderSide::Sell, OrderType::Mkt, 4);
    let result = process_event(EventType::New, &mut o, &mut engine);
    matched_order_ids.clear();
    matched_order_ids.push("2".to_string());
    validate_result(&result, 200, 10000, Some(&matched_order_ids));
}

#[test]
fn mkt_order_match_price() {
    let mut engine = MatchingEngine::new();
    let mut matched_order_ids = Vec::new();
    let mut o = order("1", 10000, 200, OrderSide::Buy, OrderType::Limit, 1);
    let result = process_event(EventType::New, &mut o, &mut engine);
    validate_result(&result, 0, 0, None);

    let mut o = order("2", 10100, 200, OrderSide::Buy, OrderType::Limit, 2);
    let result = process_event(EventType::New, &mut o, &mut engine);
    validate_result(&result, 0, 0, None);

    let mut o = order("3", 0, 200, OrderSide::Sell, OrderType::Mkt, 3);
    let result = process_event(EventType::New, &mut o, &mut engine);
    matched_order_ids.push("2".to_string());
    validate_result(&result, 200, 10100, Some(&matched_order_ids));

    let mut o = order("4", 0, 200, OrderSide::Sell, OrderType::Mkt, 4);
    let result = process_event(EventType::New, &mut o, &mut engine);
    matched_order_ids.clear();
    matched_order_ids.push("1".to_string());
    validate_result(&result, 200, 10000, Some(&matched_order_ids));
}

#[test]
fn mkt_order_match_price_sell_buy() {
    let mut engine = MatchingEngine::new();
    let mut matched_order_ids = Vec::new();
    let mut o = order("1", 10200, 200, OrderSide::Sell, OrderType::Limit, 1);
    let result = process_event(EventType::New, &mut o, &mut engine);
    validate_result(&result, 0, 0, None);

    let mut o = order("2", 10100, 200, OrderSide::Sell, OrderType::Limit, 2);
    let result = process_event(EventType::New, &mut o, &mut engine);
    validate_result(&result, 0, 0, None);

    let mut o = order("3", 0, 200, OrderSide::Buy, OrderType::Mkt, 3);
    let result = process_event(EventType::New, &mut o, &mut engine);
    matched_order_ids.push("2".to_string());
    validate_result(&result, 200, 10100, Some(&matched_order_ids));

    let mut o = order("4", 0, 200, OrderSide::Buy, OrderType::Mkt, 4);
    let result = process_event(EventType::New, &mut o, &mut engine);
    matched_order_ids.clear();
    matched_order_ids.push("1".to_string());
    validate_result(&result, 200, 10200, Some(&matched_order_ids));
}

#[test]
fn cancel_order_simple() {
    let mut engine = MatchingEngine::new();
    let mut o = order("1", 10010, 200, OrderSide::Buy, OrderType::Limit, 1);
    let result = process_event(EventType::New, &mut o, &mut engine);
    let mut matched_order_ids = Vec::new();
    validate_result(&result, 0, 0, Some(&matched_order_ids));

    let mut o = order("1", 10010, 200, OrderSide::Buy, OrderType::Limit, 2);
    let result = process_event(EventType::Cxl, &mut o, &mut engine);
    matched_order_ids.clear();
    validate_result(&result, 0, 0, Some(&matched_order_ids));

    let mut o = order("2", 10010, 200, OrderSide::Sell, OrderType::Limit, 3);
    let result = process_event(EventType::New, &mut o, &mut engine);
    matched_order_ids.clear();
    validate_result(&result, 0, 0, Some(&matched_order_ids));

    let mut o = order("3", 10010, 200, OrderSide::Buy, OrderType::Limit, 4);
    let result = process_event(EventType::New, &mut o, &mut engine);
    matched_order_ids.push(String::from("2"));
    validate_result(&result, 200, 10010, Some(&matched_order_ids));
}

#[test]
fn simple_replace_order() {
    let mut engine = MatchingEngine::new();
    let mut o = order("1", 10010, 200, OrderSide::Buy, OrderType::Limit, 1);
    let result = process_event(EventType::New, &mut o, &mut engine);
    let mut matched_order_ids = Vec::new();
    validate_result(&result, 0, 0, Some(&matched_order_ids));

    let mut o = order("1", 10000, 200, OrderSide::Buy, OrderType::Limit, 2);
    let result = process_event(EventType::Rpl, &mut o, &mut engine);
    matched_order_ids.clear();
    validate_result(&result, 0, 0, Some(&matched_order_ids));

    let mut o = order("2", 10010, 200, OrderSide::Sell, OrderType::Limit, 3);
    let result = process_event(EventType::New, &mut o, &mut engine);
    matched_order_ids.clear();
    validate_result(&result, 0, 0, Some(&matched_order_ids));

    let mut o = order("2", 10000, 200, OrderSide::Sell, OrderType::Limit, 4);
    let result = process_event(EventType::Rpl, &mut o, &mut engine);
    matched_order_ids.push(String::from("1"));
    validate_result(&result, 200, 10000, Some(&matched_order_ids));
}
