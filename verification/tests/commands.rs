// Validation, cancel, amend and fairness scenarios on concrete values.

use orderbook::{BrokerAsset, Failed, Orderbook, OrderSide, OrderType, Success, ValidationReason};
use orderbook::orders;
use orderbook::parse_asset;

#[test]
fn parse_asset_known_and_unknown() {
    assert_eq!(parse_asset("USD"), Some(BrokerAsset::USD));
    assert_eq!(parse_asset("EUR"), Some(BrokerAsset::EUR));
    assert_eq!(parse_asset("BTC"), Some(BrokerAsset::BTC));
    assert_eq!(parse_asset("ETH"), Some(BrokerAsset::ETH));
    assert_eq!(parse_asset("XYZ"), None);
    assert_eq!(parse_asset(""), None);
    assert_eq!(parse_asset("usd"), None);
}

#[test]
fn validation_asset_mismatch() {
    let mut book = Orderbook::new(BrokerAsset::BTC, BrokerAsset::USD);
    let req = orders::new_limit_order_request(
        BrokerAsset::ETH,
        BrokerAsset::USD,
        OrderSide::Bid,
        1000,
        100,
        0,
    );
    let res = book.process_order(req);
    assert_eq!(res.len(), 1);
    assert_eq!(res[0], Err(Failed::Validation(ValidationReason::AssetMismatch)));
    assert_eq!(book.current_spread(), None);
}

#[test]
fn validation_zero_qty() {
    let mut book = Orderbook::new(BrokerAsset::BTC, BrokerAsset::USD);
    let req = orders::new_limit_order_request(
        BrokerAsset::BTC,
        BrokerAsset::USD,
        OrderSide::Bid,
        1000,
        0,
        0,
    );
    let res = book.process_order(req);
    assert_eq!(res, vec![Err(Failed::Validation(ValidationReason::NonPositiveQty))]);
}

#[test]
fn validation_zero_price() {
    let mut book = Orderbook::new(BrokerAsset::BTC, BrokerAsset::USD);
    let req = orders::new_limit_order_request(
        BrokerAsset::BTC,
        BrokerAsset::USD,
        OrderSide::Ask,
        0,
        100,
        0,
    );
    let res = book.process_order(req);
    assert_eq!(res, vec![Err(Failed::Validation(ValidationReason::NonPositivePrice))]);
}

#[test]
fn cancel_then_cancel_again_fails() {
    let mut book = Orderbook::new(BrokerAsset::BTC, BrokerAsset::USD);
    let req = orders::new_limit_order_request(
        BrokerAsset::BTC,
        BrokerAsset::USD,
        OrderSide::Bid,
        1000,
        100,
        0,
    );
    book.process_order(req);

    let res = book.process_order(orders::limit_order_cancel_request(1, OrderSide::Bid));
    assert_eq!(res, vec![Ok(Success::Cancelled { order_id: 1 })]);
    assert_eq!(book.current_spread(), None);

    // cancelling the same id a second time must fail, not silently succeed
    let res2 = book.process_order(orders::limit_order_cancel_request(1, OrderSide::Bid));
    assert_eq!(res2, vec![Err(Failed::OrderNotFound(1))]);
}

#[test]
fn cancel_unknown_id_fails() {
    let mut book = Orderbook::new(BrokerAsset::BTC, BrokerAsset::USD);
    let res = book.process_order(orders::limit_order_cancel_request(77, OrderSide::Ask));
    assert_eq!(res, vec![Err(Failed::OrderNotFound(77))]);
}

#[test]
fn cancel_mid_queue_keeps_other_orders() {
    let mut book = Orderbook::new(BrokerAsset::BTC, BrokerAsset::USD);
    for ts in 0..3u64 {
        let req = orders::new_limit_order_request(
            BrokerAsset::BTC,
            BrokerAsset::USD,
            OrderSide::Bid,
            1000,
            100,
            ts,
        );
        book.process_order(req);
    }
    // remove the middle order of the level's queue
    let res = book.process_order(orders::limit_order_cancel_request(2, OrderSide::Bid));
    assert_eq!(res, vec![Ok(Success::Cancelled { order_id: 2 })]);

    // the remaining orders still match in arrival order
    let ask = orders::new_market_order_request(
        BrokerAsset::BTC,
        BrokerAsset::USD,
        OrderSide::Ask,
        200,
        9,
    );
    let res2 = book.process_order(ask);
    assert!(matches!(res2[0], Ok(Success::Accepted { id: 4, .. })));
    assert!(matches!(res2[2], Ok(Success::Filled { order_id: 1, .. })));
    assert!(matches!(res2[4], Ok(Success::Filled { order_id: 3, .. })));
}

#[test]
fn amend_unknown_id_fails() {
    let mut book = Orderbook::new(BrokerAsset::BTC, BrokerAsset::USD);
    let res = book.process_order(orders::amend_order_request(5, OrderSide::Bid, 1000, 100, 0));
    assert_eq!(res, vec![Err(Failed::OrderNotFound(5))]);
}

#[test]
fn amend_moves_order_and_resets_priority() {
    let mut book = Orderbook::new(BrokerAsset::BTC, BrokerAsset::USD);
    for ts in 0..2u64 {
        let req = orders::new_limit_order_request(
            BrokerAsset::BTC,
            BrokerAsset::USD,
            OrderSide::Bid,
            1000,
            100,
            ts,
        );
        book.process_order(req);
    }
    // amending order 1 re-queues it behind order 2 at the same price
    let res = book.process_order(orders::amend_order_request(1, OrderSide::Bid, 1000, 150, 5));
    assert_eq!(res, vec![Ok(Success::Amended { order_id: 1 })]);

    let ask = orders::new_market_order_request(
        BrokerAsset::BTC,
        BrokerAsset::USD,
        OrderSide::Ask,
        100,
        9,
    );
    let res2 = book.process_order(ask);
    // order 2 now has time priority and is consumed first
    assert!(matches!(res2[1], Ok(Success::Filled { order_id: 3, price: 1000, qty: 100, .. })));
    assert!(matches!(res2[2], Ok(Success::Filled { order_id: 2, price: 1000, qty: 100, .. })));
}

#[test]
fn amend_that_would_cross_is_rejected() {
    let mut book = Orderbook::new(BrokerAsset::BTC, BrokerAsset::USD);
    let bid = orders::new_limit_order_request(
        BrokerAsset::BTC,
        BrokerAsset::USD,
        OrderSide::Bid,
        1000,
        100,
        0,
    );
    let ask = orders::new_limit_order_request(
        BrokerAsset::BTC,
        BrokerAsset::USD,
        OrderSide::Ask,
        1200,
        100,
        1,
    );
    book.process_order(bid);
    book.process_order(ask);

    // amending the bid above the best ask would cross the book
    let res = book.process_order(orders::amend_order_request(1, OrderSide::Bid, 1300, 100, 2));
    assert_eq!(res, vec![Err(Failed::Validation(ValidationReason::AmendWouldCross))]);
    // the book is exactly as before the amend
    assert_eq!(book.current_spread(), Some((1000, 1200)));

    let res2 = book.process_order(orders::amend_order_request(1, OrderSide::Bid, 1100, 100, 3));
    assert_eq!(res2, vec![Ok(Success::Amended { order_id: 1 })]);
    assert_eq!(book.current_spread(), Some((1100, 1200)));
}

#[test]
fn fifo_within_a_level() {
    let mut book = Orderbook::new(BrokerAsset::BTC, BrokerAsset::USD);
    for ts in 0..2u64 {
        let req = orders::new_limit_order_request(
            BrokerAsset::BTC,
            BrokerAsset::USD,
            OrderSide::Bid,
            1000,
            100,
            ts,
        );
        book.process_order(req);
    }
    // a matching ask consumes the earlier order's quantity before the later's
    let ask = orders::new_market_order_request(
        BrokerAsset::BTC,
        BrokerAsset::USD,
        OrderSide::Ask,
        150,
        9,
    );
    let res = book.process_order(ask);
    assert!(matches!(res[1], Ok(Success::PartiallyFilled { order_id: 3, qty: 100, .. })));
    assert!(matches!(res[2], Ok(Success::Filled { order_id: 1, qty: 100, .. })));
    assert!(matches!(res[3], Ok(Success::Filled { order_id: 3, qty: 50, .. })));
    assert!(matches!(res[4], Ok(Success::PartiallyFilled { order_id: 2, qty: 50, .. })));
}

#[test]
fn match_quantities_balance_on_both_sides() {
    let mut book = Orderbook::new(BrokerAsset::BTC, BrokerAsset::USD);
    let bid = orders::new_limit_order_request(
        BrokerAsset::BTC,
        BrokerAsset::USD,
        OrderSide::Bid,
        1000,
        100,
        0,
    );
    book.process_order(bid);
    let ask = orders::new_market_order_request(
        BrokerAsset::BTC,
        BrokerAsset::USD,
        OrderSide::Ask,
        50,
        1,
    );
    let res = book.process_order(ask);
    // each incoming fill is paired with a resting fill of the same quantity
    let q1 = match res[1] {
        Ok(Success::Filled { qty, .. }) => qty,
        _ => panic!("unexpected event sequence: {:?}", res),
    };
    let q2 = match res[2] {
        Ok(Success::PartiallyFilled { qty, .. }) => qty,
        _ => panic!("unexpected event sequence: {:?}", res),
    };
    assert_eq!(q1, q2);
    assert_eq!(q1, 50);
}

#[test]
fn spread_never_crossed_after_each_command() {
    let mut book = Orderbook::new(BrokerAsset::BTC, BrokerAsset::USD);
    let cmds = vec![
        orders::new_limit_order_request(BrokerAsset::BTC, BrokerAsset::USD, OrderSide::Bid, 98, 500, 0),
        orders::new_limit_order_request(BrokerAsset::BTC, BrokerAsset::USD, OrderSide::Ask, 102, 100, 1),
        orders::amend_order_request(1, OrderSide::Bid, 99, 400, 2),
        orders::new_limit_order_request(BrokerAsset::BTC, BrokerAsset::USD, OrderSide::Bid, 101, 40, 3),
        orders::new_limit_order_request(BrokerAsset::BTC, BrokerAsset::USD, OrderSide::Ask, 103, 50, 4),
        orders::new_market_order_request(BrokerAsset::BTC, BrokerAsset::USD, OrderSide::Bid, 100, 5),
        orders::new_limit_order_request(BrokerAsset::BTC, BrokerAsset::USD, OrderSide::Ask, 105, 50, 6),
        orders::limit_order_cancel_request(4, OrderSide::Ask),
        orders::new_limit_order_request(BrokerAsset::BTC, BrokerAsset::USD, OrderSide::Bid, 106, 60, 7),
    ];
    for cmd in cmds {
        book.process_order(cmd);
        if let Some((bid, ask)) = book.current_spread() {
            assert!(bid < ask, "crossed book: bid {} >= ask {}", bid, ask);
        }
    }
}

#[test]
fn market_order_never_rests() {
    let mut book = Orderbook::new(BrokerAsset::BTC, BrokerAsset::USD);
    let bid = orders::new_limit_order_request(
        BrokerAsset::BTC,
        BrokerAsset::USD,
        OrderSide::Bid,
        1000,
        50,
        0,
    );
    book.process_order(bid);
    // a market ask larger than the book's depth discards its remainder
    let ask = orders::new_market_order_request(
        BrokerAsset::BTC,
        BrokerAsset::USD,
        OrderSide::Ask,
        200,
        1,
    );
    let res = book.process_order(ask);
    assert!(matches!(res[0], Ok(Success::Accepted { id: 2, order_type: OrderType::Market, .. })));
    assert!(matches!(res[1], Ok(Success::PartiallyFilled { order_id: 2, price: 1000, qty: 50, .. })));
    assert!(matches!(res[2], Ok(Success::Filled { order_id: 1, price: 1000, qty: 50, .. })));
    assert_eq!(res.len(), 3);
    assert_eq!(book.current_spread(), None);
}

#[test]
fn largest_quantities_match_exactly() {
    let mut book = Orderbook::new(BrokerAsset::BTC, BrokerAsset::USD);
    let bid = orders::new_limit_order_request(
        BrokerAsset::BTC,
        BrokerAsset::USD,
        OrderSide::Bid,
        1,
        u64::MAX,
        0,
    );
    book.process_order(bid);
    let ask = orders::new_market_order_request(
        BrokerAsset::BTC,
        BrokerAsset::USD,
        OrderSide::Ask,
        u64::MAX,
        1,
    );
    let res = book.process_order(ask);
    assert!(matches!(res[1], Ok(Success::Filled { order_id: 2, price: 1, qty: u64::MAX, .. })));
    assert!(matches!(res[2], Ok(Success::Filled { order_id: 1, price: 1, qty: u64::MAX, .. })));
    assert_eq!(book.current_spread(), None);
}
