//! The order record and the enumerations that classify orders and events.
use vstd::prelude::*;

verus! {

/// Which side of the book an order belongs to.
#[derive(Clone, Copy, Debug, PartialEq, Eq, Structural)]
pub enum OrderSide {
    Buy,
    Sell,
}

/// Market orders take any price; limit orders carry a worst acceptable price.
#[derive(Clone, Copy, Debug, PartialEq, Eq, Structural)]
pub enum OrderType {
    Mkt,
    Limit,
}

/// The three kinds of event the engine accepts.
#[derive(Clone, Copy, Debug, PartialEq, Eq, Structural)]
pub enum EventType {
    New,
    Rpl,
    Cxl,
}

/// One customer order.
///
/// Prices are whole ticks, so that equality and ordering of prices are exact.
/// `entry_time_` is the ingress timestamp; it orders orders resting at one price.
/// A market order's price is ignored (by convention 0).
#[derive(Clone, Debug)]
pub struct Order {
    pub id_: String,
    pub symbol_: String,
    pub qty_: u32,
    pub price_: u64,
    pub entry_time_: u64,
    pub side_: OrderSide,
    pub type_: OrderType,
}

impl OrderSide {
    pub open spec fn opposite(self) -> OrderSide {
        match self {
            OrderSide::Buy => OrderSide::Sell,
            OrderSide::Sell => OrderSide::Buy,
        }
    }

    /// Whether price `a` is strictly better than price `b` for resting orders of this side:
    /// higher for bids, lower for asks.
    pub open spec fn better(self, a: u64, b: u64) -> bool {
        match self {
            OrderSide::Buy => a > b,
            OrderSide::Sell => a < b,
        }
    }

    pub fn is_better(self, a: u64, b: u64) -> (r: bool)
        ensures
            r == self.better(a, b),
    {
        match self {
            OrderSide::Buy => a > b,
            OrderSide::Sell => a < b,
        }
    }
}

impl Order {
    /// The same order with another quantity.
    pub open spec fn with_qty(self, qty: u32) -> Order {
        Order { qty_: qty, ..self }
    }

    /// Whether this incoming order may trade against a resting level at `level_price`.
    pub open spec fn crosses(self, level_price: u64) -> bool {
        match self.type_ {
            OrderType::Mkt => true,
            OrderType::Limit => match self.side_ {
                OrderSide::Buy => level_price <= self.price_,
                OrderSide::Sell => level_price >= self.price_,
            },
        }
    }

    pub fn is_marketable_against(&self, level_price: u64) -> (r: bool)
        ensures
            r == self.crosses(level_price),
    {
        match self.type_ {
            OrderType::Mkt => true,
            OrderType::Limit => match self.side_ {
                OrderSide::Buy => level_price <= self.price_,
                OrderSide::Sell => level_price >= self.price_,
            },
        }
    }

    /// A field-by-field copy.
    pub fn duplicate(&self) -> (r: Order)
        ensures
            r == *self,
    {
        Order {
            id_: self.id_.clone(),
            symbol_: self.symbol_.clone(),
            qty_: self.qty_,
            price_: self.price_,
            entry_time_: self.entry_time_,
            side_: self.side_,
            type_: self.type_,
        }
    }
}

} // verus!
