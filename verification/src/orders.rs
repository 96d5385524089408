//! Immutable order commands and their constructors.
//!
//! Each command carries the values the engine needs; timestamps are opaque
//! `u64` values kept for the caller's audit trail and never compared.

use vstd::prelude::*;
use crate::domain::{BrokerAsset, OrderSide};

verus! {

/// A command submitted to the book: a new order, an amendment, or a cancel.
#[derive(Debug, Copy, Clone)]
pub enum OrderRequest {
    NewMarketOrder {
        order_asset: BrokerAsset,
        price_asset: BrokerAsset,
        side: OrderSide,
        qty: u64,
        ts: u64,
    },
    NewLimitOrder {
        order_asset: BrokerAsset,
        price_asset: BrokerAsset,
        side: OrderSide,
        price: u64,
        qty: u64,
        ts: u64,
    },
    AmendOrder {
        id: u64,
        side: OrderSide,
        price: u64,
        qty: u64,
        ts: u64,
    },
    CancelOrder {
        id: u64,
        side: OrderSide,
    },
}

/// Builds a market-order command for the given quantity.
pub fn new_market_order_request(
    order_asset: BrokerAsset,
    price_asset: BrokerAsset,
    side: OrderSide,
    qty: u64,
    ts: u64,
) -> (r: OrderRequest)
    ensures
        r == (OrderRequest::NewMarketOrder { order_asset, price_asset, side, qty, ts }),
{
    OrderRequest::NewMarketOrder { order_asset, price_asset, side, qty, ts }
}

/// Builds a limit-order command for the given price and quantity.
pub fn new_limit_order_request(
    order_asset: BrokerAsset,
    price_asset: BrokerAsset,
    side: OrderSide,
    price: u64,
    qty: u64,
    ts: u64,
) -> (r: OrderRequest)
    ensures
        r == (OrderRequest::NewLimitOrder { order_asset, price_asset, side, price, qty, ts }),
{
    OrderRequest::NewLimitOrder { order_asset, price_asset, side, price, qty, ts }
}

/// Builds an amend command targeting an existing order id.
pub fn amend_order_request(id: u64, side: OrderSide, price: u64, qty: u64, ts: u64) -> (r:
    OrderRequest)
    ensures
        r == (OrderRequest::AmendOrder { id, side, price, qty, ts }),
{
    OrderRequest::AmendOrder { id, side, price, qty, ts }
}

/// Builds a cancel command targeting an existing order id.
pub fn limit_order_cancel_request(id: u64, side: OrderSide) -> (r: OrderRequest)
    ensures
        r == (OrderRequest::CancelOrder { id, side }),
{
    OrderRequest::CancelOrder { id, side }
}

} // verus!
