//! Orders: the immutable-by-convention unit of resting interest.

use vstd::prelude::*;

verus! {

/// Which side of the market an order belongs to.
#[derive(Copy, Clone, PartialEq, Eq, Structural, Debug)]
pub enum Side {
    Bid,
    Ask,
}

/// A single order.  `price` and `quantity` are exact fixed-point values,
/// held as integer counts of their smallest unit; `timestamp` is a
/// monotonic arrival marker used only for intra-level ordering.
#[derive(Copy, Clone, PartialEq, Eq, Structural, Debug)]
pub struct Order {
    pub id: u128,
    pub side: Side,
    pub timestamp: u64,
    pub price: u64,
    pub quantity: u64,
}

/// Relies on `uuid::Uuid::new_v4` for a freshly drawn order identifier,
/// read out with `Uuid::as_u128`.  The draw is random, so nothing is
/// promised of the value.
#[verifier::external_body]
pub(crate) fn fresh_order_id() -> u128 {
    uuid::Uuid::new_v4().as_u128()
}

impl Order {
    /// Builds an order with a freshly drawn identifier.  The identifier is
    /// random: callers that need it to be unused on a book must check.
    pub fn new(side: Side, quantity: u64, price: u64, timestamp: u64) -> (r: Order)
        ensures
            r.side == side,
            r.quantity == quantity,
            r.price == price,
            r.timestamp == timestamp,
    {
        Order { id: fresh_order_id(), side, price, quantity, timestamp }
    }
}

} // verus!
