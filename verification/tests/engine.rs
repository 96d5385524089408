// End-to-end matching scenarios. Prices and quantities are written in
// hundredths, so 10.0 becomes 1000 and 0.5 becomes 50.

use orderbook::{Failed, Orderbook, OrderSide, Success};
use orderbook::orders;
use orderbook::parse_asset;

#[test]
fn market_order_on_empty_orderbook() {
    let mut orderbook = Orderbook::new(parse_asset("BTC").unwrap(), parse_asset("USD").unwrap());
    let order_asset = parse_asset("BTC").unwrap();
    let price_asset = parse_asset("USD").unwrap();

    let order1 = orders::new_market_order_request(order_asset, price_asset, OrderSide::Bid, 200, 0);

    let res = orderbook.process_order(order1);

    if !match res[0] {
        Ok(Success::Accepted { id: 1, .. }) => true,
        _ => false,
    } || !match res[1] {
        Err(Failed::NoMatch(1)) => true,
        _ => false,
    } {
        panic!("unexpected event sequence: {:?}", res)
    }
}

#[test]
fn market_order_partial_match() {
    let mut orderbook = Orderbook::new(parse_asset("BTC").unwrap(), parse_asset("USD").unwrap());
    let order_asset = parse_asset("BTC").unwrap();
    let price_asset = parse_asset("USD").unwrap();

    let order1 =
        orders::new_limit_order_request(order_asset, price_asset, OrderSide::Bid, 1000, 100, 0);
    let order2 = orders::new_market_order_request(order_asset, price_asset, OrderSide::Ask, 50, 1);

    orderbook.process_order(order1);
    let res = orderbook.process_order(order2);

    if !match res[0] {
        Ok(Success::Accepted { id: 2, .. }) => true,
        _ => false,
    } || !match res[1] {
        Ok(Success::Filled { order_id: 2, price, qty, .. }) if price == 1000 && qty == 50 => true,
        _ => false,
    } || !match res[2] {
        Ok(Success::PartiallyFilled { order_id: 1, price, qty, .. }) if price == 1000 && qty == 50 =>
            true,
        _ => false,
    } {
        panic!("unexpected event sequence: {:?}", res)
    }
}

#[test]
fn market_order_two_orders_match() {
    let mut orderbook = Orderbook::new(parse_asset("BTC").unwrap(), parse_asset("USD").unwrap());
    let order_asset = parse_asset("BTC").unwrap();
    let price_asset = parse_asset("USD").unwrap();

    let order1 =
        orders::new_limit_order_request(order_asset, price_asset, OrderSide::Bid, 1000, 100, 0);
    let order2 =
        orders::new_limit_order_request(order_asset, price_asset, OrderSide::Bid, 1200, 100, 1);
    let order3 = orders::new_market_order_request(order_asset, price_asset, OrderSide::Ask, 150, 2);

    orderbook.process_order(order1);
    orderbook.process_order(order2);
    let res = orderbook.process_order(order3);

    if !match res[0] {
        Ok(Success::Accepted { id: 3, .. }) => true,
        _ => false,
    } || !match res[1] {
        Ok(Success::PartiallyFilled { order_id: 3, price, qty, .. }) if price == 1200 && qty == 100 =>
            true,
        _ => false,
    } || !match res[2] {
        Ok(Success::Filled { order_id: 2, price, qty, .. }) if price == 1200 && qty == 100 => true,
        _ => false,
    } || !match res[3] {
        Ok(Success::Filled { order_id: 3, price, qty, .. }) if price == 1000 && qty == 50 => true,
        _ => false,
    } || !match res[4] {
        Ok(Success::PartiallyFilled { order_id: 1, price, qty, .. }) if price == 1000 && qty == 50 =>
            true,
        _ => false,
    } {
        panic!("unexpected event sequence: {:?}", res)
    }
}

#[test]
fn limit_order_on_empty_orderbook() {
    let mut orderbook = Orderbook::new(parse_asset("BTC").unwrap(), parse_asset("USD").unwrap());
    let order_asset = parse_asset("BTC").unwrap();
    let price_asset = parse_asset("USD").unwrap();

    let order1 =
        orders::new_limit_order_request(order_asset, price_asset, OrderSide::Bid, 1000, 200, 0);

    let res = orderbook.process_order(order1);

    if !match res[0] {
        Ok(Success::Accepted { id: 1, .. }) => true,
        _ => false,
    } {
        panic!("unexpected event sequence: {:?}", res)
    }
}

#[test]
fn limit_order_partial_match() {
    let mut orderbook = Orderbook::new(parse_asset("BTC").unwrap(), parse_asset("USD").unwrap());
    let order_asset = parse_asset("BTC").unwrap();
    let price_asset = parse_asset("USD").unwrap();

    let order1 =
        orders::new_limit_order_request(order_asset, price_asset, OrderSide::Bid, 1000, 100, 0);
    let order2 =
        orders::new_limit_order_request(order_asset, price_asset, OrderSide::Ask, 900, 50, 1);

    orderbook.process_order(order1);
    let res = orderbook.process_order(order2);

    if !match res[0] {
        Ok(Success::Accepted { id: 2, .. }) => true,
        _ => false,
    } || !match res[1] {
        Ok(Success::Filled { order_id: 2, price, qty, .. }) if price == 1000 && qty == 50 => true,
        _ => false,
    } || !match res[2] {
        Ok(Success::PartiallyFilled { order_id: 1, price, qty, .. }) if price == 1000 && qty == 50 =>
            true,
        _ => false,
    } {
        panic!("unexpected event sequence: {:?}", res)
    }
}

#[test]
fn limit_order_exact_match() {
    let mut orderbook = Orderbook::new(parse_asset("BTC").unwrap(), parse_asset("USD").unwrap());
    let order_asset = parse_asset("BTC").unwrap();
    let price_asset = parse_asset("USD").unwrap();

    let order1 =
        orders::new_limit_order_request(order_asset, price_asset, OrderSide::Bid, 1000, 100, 0);
    let order2 =
        orders::new_limit_order_request(order_asset, price_asset, OrderSide::Ask, 900, 50, 1);

    orderbook.process_order(order1);
    let res = orderbook.process_order(order2);

    if !match res[0] {
        Ok(Success::Accepted { id: 2, .. }) => true,
        _ => false,
    } || !match res[1] {
        Ok(Success::Filled { order_id: 2, price, qty, .. }) if price == 1000 && qty == 50 => true,
        _ => false,
    } || !match res[2] {
        Ok(Success::PartiallyFilled { order_id: 1, price, qty, .. }) if price == 1000 && qty == 50 =>
            true,
        _ => false,
    } {
        panic!("unexpected event sequence: {:?}", res)
    }

    let order3 =
        orders::new_limit_order_request(order_asset, price_asset, OrderSide::Ask, 800, 50, 2);

    let res2 = orderbook.process_order(order3);

    if !match res2[0] {
        Ok(Success::Accepted { id: 3, .. }) => true,
        _ => false,
    } || !match res2[1] {
        Ok(Success::Filled { order_id: 3, price, qty, .. }) if price == 1000 && qty == 50 => true,
        _ => false,
    } || !match res2[2] {
        Ok(Success::Filled { order_id: 1, price, qty, .. }) if price == 1000 && qty == 50 => true,
        _ => false,
    } {
        panic!("unexpected event sequence: {:?}", res2)
    }

    assert_eq!(orderbook.current_spread(), None);
}

#[test]
fn current_spread() {
    let mut orderbook = Orderbook::new(parse_asset("BTC").unwrap(), parse_asset("USD").unwrap());
    let order_asset = parse_asset("BTC").unwrap();
    let price_asset = parse_asset("USD").unwrap();

    let order1 =
        orders::new_limit_order_request(order_asset, price_asset, OrderSide::Bid, 1000, 100, 0);

    // not enough orders to calculate
    assert_eq!(orderbook.current_spread(), None);

    let order2 =
        orders::new_limit_order_request(order_asset, price_asset, OrderSide::Ask, 1200, 50, 1);
    let order3 =
        orders::new_limit_order_request(order_asset, price_asset, OrderSide::Ask, 1250, 250, 2);

    orderbook.process_order(order1);
    orderbook.process_order(order2);
    orderbook.process_order(order3);

    assert_eq!(orderbook.current_spread(), Some((1000, 1200)));

    // wider spread
    let order4 =
        orders::new_limit_order_request(order_asset, price_asset, OrderSide::Bid, 1400, 150, 3);
    let res = orderbook.process_order(order4);
    println!("{:?}", res);

    assert_eq!(orderbook.current_spread(), Some((1000, 1250)));
}
