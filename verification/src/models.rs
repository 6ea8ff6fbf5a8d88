use vstd::prelude::*;

verus! {

/// Direction of an order.
#[derive(Debug, Clone, Copy, PartialEq, Eq, Structural)]
pub enum Side {
    Buy,
    Sell,
}

/// A resting or incoming limit order.
#[derive(Debug, Clone, Copy)]
pub struct Order {
    pub id: u64,
    pub side: Side,
    /// Integer ticks, no floats.
    pub price: u64,
    /// Number of contracts remaining.
    pub qty: u64,
    /// Unix nanoseconds.
    pub timestamp: u64,
}

/// A matched fill, created when two orders cross.
#[derive(Debug, Clone, Copy)]
pub struct Fill {
    /// The resting order that was already in the book.
    pub maker_order_id: u64,
    /// The incoming order that triggered the match.
    pub taker_order_id: u64,
    /// Fill price: always the maker's level price.
    pub price: u64,
    /// Number of contracts filled.
    pub qty: u64,
    /// Unix nanoseconds when the fill occurred.
    pub timestamp: u64,
}

/// Body of a request to submit a new limit order.
#[derive(Debug, Clone, Copy)]
pub struct CreateOrderRequest {
    pub side: Side,
    pub price: u64,
    pub qty: u64,
}

/// Answer to an accepted order submission.
#[derive(Debug, Clone, Copy)]
pub struct CreateOrderResponse {
    pub order_id: u64,
}

/// Aggregated price level of a snapshot.
#[derive(Debug, Clone, Copy)]
pub struct PriceLevel {
    pub price: u64,
    /// Total quantity across all orders resting at this price.
    pub qty: u64,
}

/// Snapshot of the order book, best levels first on each side.
#[derive(Debug, Clone)]
pub struct OrderBookSnapshot {
    /// Bids, highest price first.
    pub bids: Vec<PriceLevel>,
    /// Asks, lowest price first.
    pub asks: Vec<PriceLevel>,
    /// Number of orders processed by the book.
    pub sequence: u64,
}

} // verus!
