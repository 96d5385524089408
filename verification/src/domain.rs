//! Core order domain types: sides, order kinds, the resting-order record,
//! and the asset identifiers a book can be keyed on.

use vstd::prelude::*;
use vstd::string::StrSliceExecFns;

verus! {

/// The side of the book an order belongs to.
#[derive(Debug, Copy, Clone, PartialEq, Eq, Structural)]
pub enum OrderSide {
    Bid,
    Ask,
}

impl OrderSide {
    /// The side an incoming order matches against.
    pub open spec fn spec_opposite(self) -> OrderSide {
        match self {
            OrderSide::Bid => OrderSide::Ask,
            OrderSide::Ask => OrderSide::Bid,
        }
    }

    /// The side an incoming order matches against.
    pub fn opposite(self) -> (r: OrderSide)
        ensures
            r == self.spec_opposite(),
    {
        match self {
            OrderSide::Bid => OrderSide::Ask,
            OrderSide::Ask => OrderSide::Bid,
        }
    }
}

/// Whether an order carries a limit price or executes at any price.
#[derive(Debug, Copy, Clone, PartialEq, Eq, Structural)]
pub enum OrderType {
    Market,
    Limit,
}

/// An identifier for a traded or quoting asset.
#[derive(Debug, Copy, Clone, PartialEq, Eq, Structural)]
pub enum BrokerAsset {
    USD,
    EUR,
    BTC,
    ETH,
}

/// A resting limit order held in a price level's queue.
///
/// `price` and `qty` are exact fixed-point amounts in the caller's minor unit.
#[derive(Debug, Copy, Clone)]
pub struct Order {
    pub order_id: u64,
    pub order_asset: BrokerAsset,
    pub price_asset: BrokerAsset,
    pub side: OrderSide,
    pub price: u64,
    pub qty: u64,
}

/// What `parse_asset` returns for a given character sequence.
pub open spec fn spec_parse_asset(chars: Seq<char>) -> Option<BrokerAsset> {
    if chars == seq!['U', 'S', 'D'] {
        Some(BrokerAsset::USD)
    } else if chars == seq!['E', 'U', 'R'] {
        Some(BrokerAsset::EUR)
    } else if chars == seq!['B', 'T', 'C'] {
        Some(BrokerAsset::BTC)
    } else if chars == seq!['E', 'T', 'H'] {
        Some(BrokerAsset::ETH)
    } else {
        None
    }
}

/// Recognises the four supported asset symbols.
pub fn parse_asset(asset: &str) -> (r: Option<BrokerAsset>)
    ensures
        r == spec_parse_asset(asset@),
{
    if eq3(asset, 'U', 'S', 'D') {
        Some(BrokerAsset::USD)
    } else if eq3(asset, 'E', 'U', 'R') {
        Some(BrokerAsset::EUR)
    } else if eq3(asset, 'B', 'T', 'C') {
        Some(BrokerAsset::BTC)
    } else if eq3(asset, 'E', 'T', 'H') {
        Some(BrokerAsset::ETH)
    } else {
        None
    }
}

/// Whether a string is exactly the three given characters.
fn eq3(s: &str, a: char, b: char, c: char) -> (r: bool)
    ensures
        r == (s@ == seq![a, b, c]),
{
    let r = s.unicode_len() == 3 && s.get_char(0) == a && s.get_char(1) == b && s.get_char(2) == c;
    proof {
        if r {
            assert(s@ =~= seq![a, b, c]);
        }
    }
    r
}

} // verus!
