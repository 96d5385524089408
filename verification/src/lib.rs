//! A single-instrument limit order book and matching engine.
//!
//! The book accepts order commands (new limit order, new market order, amend,
//! cancel) against one traded-asset/quote-asset pair, maintains the resting
//! order book with price-time priority, and reports each command's outcome as
//! an ordered sequence of events.
//!
//! Prices and quantities are exact fixed-point numbers: a `u64` count of the
//! caller's chosen minor unit (for example hundredths). The engine only
//! compares, adds and subtracts them, so any exact decimal scale works.

pub mod book;
pub mod domain;
pub mod events;
pub mod laws;
pub mod model;
pub mod orders;

pub use book::Orderbook;
pub use domain::OrderSide;
pub use domain::OrderType;
pub use domain::Order;
pub use domain::BrokerAsset;
pub use domain::parse_asset;
pub use events::Failed;
pub use events::OrderProcessingResult;
pub use events::Success;
pub use events::ValidationReason;
