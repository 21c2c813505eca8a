//! The order type and its side.

use vstd::prelude::*;

verus! {

/// Which side of the book an order belongs to.
#[derive(Clone, Copy, Debug, PartialEq, Eq, Structural)]
pub enum OrderSide {
    Buy,
    Sell,
}

/// A buy or sell intent.
///
/// `price` is an integer in the smallest currency unit and `quantity` is the
/// remaining unfilled amount, strictly positive while the order rests.
/// `timestamp` records the admission time as seconds since the epoch; time
/// priority itself is carried by the position in a price level's queue, so
/// the engine never reads this field.
#[derive(Clone, Copy, Debug, PartialEq, Eq, Structural)]
pub struct Order {
    pub id: u64,
    pub side: OrderSide,
    pub price: u64,
    pub quantity: u32,
    pub timestamp: i64,
}

/// The side an incoming order sweeps: a buy consumes asks, a sell consumes bids.
pub open spec fn opposite(side: OrderSide) -> OrderSide {
    match side {
        OrderSide::Buy => OrderSide::Sell,
        OrderSide::Sell => OrderSide::Buy,
    }
}

} // verus!
