use vstd::prelude::*;

use crate::types::Price;

verus! {

/// The side of the market an order stands on.
#[derive(Debug, Clone, Copy, PartialEq, Eq, Structural)]
pub enum OrderType {
    /// Sell
    Ask,
    /// Buy
    Bid,
}

/// An order: who placed it, on which side, at what limit price, and how much
/// of it is still open.
#[derive(Debug, Clone, Copy, PartialEq, Eq, Structural)]
pub struct Order {
    pub order_type: OrderType,
    pub owner: u64,
    pub price: Price,
    pub quantity: u64,
}

impl Order {
    /// Whether this is an order of `side` with the limit price `price`.
    pub open spec fn stands_at(self, side: OrderType, price: Price) -> bool {
        self.order_type == side && self.price == price
    }

    /// This order with `quantity` still open; side, owner and price are kept.
    pub open spec fn with_quantity(self, quantity: u64) -> Order {
        Order { order_type: self.order_type, owner: self.owner, price: self.price, quantity }
    }
}

} // verus!
