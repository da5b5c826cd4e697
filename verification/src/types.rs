//! Data model: resting entries, incoming orders, and executions.

use vstd::prelude::*;

verus! {

/// The side a resting entry sits on: BID (buyers) or ASK (sellers).
#[derive(PartialEq, Eq, Structural, Clone, Copy, Debug)]
pub enum EntryType {
    BID,
    ASK,
}

/// A resting order on the book. `price` and `id` are fixed for the entry's
/// lifetime; `quantity` is the remaining tradeable amount and only ever
/// shrinks. An entry whose quantity reaches zero is removed from the book.
#[derive(Clone, Copy, Debug)]
pub struct Entry {
    pub id: i32,
    pub side: EntryType,
    pub price: i64,
    pub quantity: i64,
}

impl Entry {
    /// Two entries are the same order exactly when their identifiers agree:
    /// two distinct orders may share side, price and quantity.
    pub fn same_order(&self, other: &Entry) -> (r: bool)
        ensures
            r == (self.id == other.id),
    {
        self.id == other.id
    }
}

/// Identity of an entry is its `id` alone, never its full contents.
impl PartialEq for Entry {
    fn eq(&self, other: &Entry) -> (r: bool) {
        self.id == other.id
    }
}

impl vstd::std_specs::cmp::PartialEqSpecImpl for Entry {
    open spec fn obeys_eq_spec() -> bool {
        true
    }

    open spec fn eq_spec(&self, other: &Entry) -> bool {
        self.id == other.id
    }
}

/// Whether an incoming order trades at any available price (MARKET) or only
/// within its limit (LIMIT).
#[derive(PartialEq, Eq, Structural, Clone, Copy, Debug)]
pub enum OrderType {
    MARKET,
    LIMIT,
}

/// Direction of an incoming order.
#[derive(PartialEq, Eq, Structural, Clone, Copy, Debug)]
pub enum OrderSide {
    BUY,
    SELL,
}

/// An incoming order: transient, never stored as such. `limit` is the bound
/// price, present exactly for LIMIT orders.
#[derive(Clone, Copy, Debug)]
pub struct Order {
    pub id: i32,
    pub side: OrderSide,
    pub limit: Option<i32>,
    pub quantity: i64,
    pub order_type: OrderType,
}

/// One matched trade between an incoming order and a resting entry, priced
/// at the resting entry's price (the resting side sets the price).
#[derive(PartialEq, Eq, Structural, Clone, Copy, Debug)]
pub struct ExecutedOrder {
    pub order_id: i32,
    pub entry_id: i32,
    pub quantity: i64,
    pub execution_price: i64,
}

} // verus!
