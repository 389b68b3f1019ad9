use vstd::prelude::*;

verus! {

/// Which side of the book an order belongs to.
#[derive(Debug, Clone, Copy, PartialEq, Eq, Structural)]
pub enum Side {
    Buy,
    Sell,
}

/// An order as the matcher sees it: already numbered by the API.
#[derive(Debug, Clone, Copy)]
pub struct Order {
    pub id: u64,
    pub side: Side,
    pub price: u64,
    pub qty: u64,
}

/// One execution between a resting (maker) order and an incoming (taker) order.
#[derive(Debug, Clone, Copy)]
pub struct Fill {
    pub maker_order_id: u64,
    pub taker_order_id: u64,
    pub price: u64,
    pub qty: u64,
}

/// An order as a client submits it, before it has an id.
#[derive(Debug, Clone, Copy)]
pub struct NewOrder {
    pub side: Side,
    pub price: u64,
    pub qty: u64,
}

/// Aggregated quantity resting at one price.
#[derive(Debug, Clone, Copy)]
pub struct Level {
    pub price: u64,
    pub qty: u64,
}

/// Aggregated view of the book: bids best (highest) first, asks best (lowest) first.
#[derive(Debug, Clone)]
pub struct Snapshot {
    pub bids: Vec<Level>,
    pub asks: Vec<Level>,
}

impl NewOrder {
    /// A submission is accepted only with a positive price and a positive quantity.
    pub fn is_acceptable(&self) -> (r: bool)
        ensures
            r == (self.price > 0 && self.qty > 0),
    {
        self.price > 0 && self.qty > 0
    }

    /// The order that the submission becomes once it has been given `id`.
    pub fn into_order(self, id: u64) -> (o: Order)
        ensures
            o == (Order { id, side: self.side, price: self.price, qty: self.qty }),
    {
        Order { id, side: self.side, price: self.price, qty: self.qty }
    }
}

} // verus!
