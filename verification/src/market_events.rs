//! Canonical event model shared by every part of the library.
use vstd::prelude::*;

verus! {

pub type Timestamp = u64;

pub type OrderId = u64;

pub type Price = i64;

pub type Quantity = u32;

/// Side of the book an order rests on.
#[derive(Debug, Clone, Copy, PartialEq, Eq, Hash, Structural)]
pub enum Side {
    Buy,
    Sell,
}

impl Side {
    /// LOBSTER encodes buy orders as `1` and sell orders as `-1`.
    pub fn from_lobster_direction(direction: i32) -> (result: Option<Self>)
        ensures
            direction == 1 ==> result == Some(Side::Buy),
            direction == -1 ==> result == Some(Side::Sell),
            direction != 1 && direction != -1 ==> result.is_none(),
    {
        match direction {
            1 => Some(Side::Buy),
            -1 => Some(Side::Sell),
            _ => None,
        }
    }
}


/// A normalized order book event.
#[derive(Debug, Clone, Copy, PartialEq, Eq, Hash, Structural)]
pub enum MarketEvent {
    AddLimit { ts: Timestamp, order_id: OrderId, side: Side, price: Price, qty: Quantity },
    PartialCancel { ts: Timestamp, order_id: OrderId, side: Side, price: Price, qty: Quantity },
    FullDelete { ts: Timestamp, order_id: OrderId, side: Side, price: Price, qty: Quantity },
    VisibleExecution { ts: Timestamp, order_id: OrderId, qty: Quantity, price: Price, side: Side },
    HiddenExecution { ts: Timestamp, order_id: OrderId, qty: Quantity, price: Price, side: Side },
    TradingHalt { ts: Timestamp },
}

} // verus!
