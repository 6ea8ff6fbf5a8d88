//! Checking an order submission and turning it into an order.
use vstd::prelude::*;

use crate::models::{CreateOrderRequest, Order};

verus! {

/// Why an order submission is refused.
#[derive(Debug, Clone, Copy, PartialEq, Eq, Structural)]
pub enum RequestError {
    /// The quantity is zero.
    ZeroQty,
    /// The price is zero.
    ZeroPrice,
}

/// Check an order submission: the quantity must be positive, then the price must be.
pub fn validate_request(req: &CreateOrderRequest) -> (r: Result<(), RequestError>)
    ensures
        req.qty == 0 ==> r == Err::<(), RequestError>(RequestError::ZeroQty),
        req.qty != 0 && req.price == 0 ==> r == Err::<(), RequestError>(RequestError::ZeroPrice),
        req.qty != 0 && req.price != 0 ==> r == Ok::<(), RequestError>(()),
{
    if req.qty == 0 {
        return Err(RequestError::ZeroQty);
    }
    if req.price == 0 {
        return Err(RequestError::ZeroPrice);
    }
    Ok(())
}

/// The order that a submission becomes once it has an id and a time stamp.
pub fn order_from_request(req: &CreateOrderRequest, id: u64, timestamp: u64) -> (o: Order)
    ensures
        o == (Order { id, side: req.side, price: req.price, qty: req.qty, timestamp }),
{
    Order { id, side: req.side, price: req.price, qty: req.qty, timestamp }
}

} // verus!
