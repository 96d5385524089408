//! Outcome events returned by the book for each processed command.

use vstd::prelude::*;
use crate::domain::{OrderSide, OrderType};

verus! {

/// Why a command was rejected before touching the book.
#[derive(Debug, Copy, Clone, PartialEq, Eq, Structural)]
pub enum ValidationReason {
    /// The command's asset pair is not the book's configured pair.
    AssetMismatch,
    /// The command's price is not strictly positive.
    NonPositivePrice,
    /// The command's quantity is not strictly positive.
    NonPositiveQty,
    /// The amended order would cross the opposite side of the book.
    ///
    /// Amends that would leave the book crossed are rejected outright; the
    /// book never re-runs matching on an amend.
    AmendWouldCross,
}

/// A successful outcome of (part of) a command.
#[derive(Debug, Copy, Clone, PartialEq, Eq, Structural)]
pub enum Success {
    Accepted { id: u64, side: OrderSide, order_type: OrderType, qty: u64 },
    Filled { order_id: u64, side: OrderSide, order_type: OrderType, price: u64, qty: u64 },
    PartiallyFilled { order_id: u64, side: OrderSide, order_type: OrderType, price: u64, qty: u64 },
    Amended { order_id: u64 },
    Cancelled { order_id: u64 },
}

/// A failed outcome of (part of) a command.
#[derive(Debug, Copy, Clone, PartialEq, Eq, Structural)]
pub enum Failed {
    Validation(ValidationReason),
    NoMatch(u64),
    OrderNotFound(u64),
}

/// The ordered event sequence one processed command produces.
pub type OrderProcessingResult = Vec<Result<Success, Failed>>;

} // verus!
