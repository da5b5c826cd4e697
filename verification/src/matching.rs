//! The matching model: which resting entries an incoming order is allowed to
//! trade against, in what priority, and what one greedy matching pass
//! produces. The executable search over the book is here as well; the
//! `OrderBook` methods are proved against `execute_spec`.

use crate::types::{Entry, EntryType, ExecutedOrder, Order, OrderSide, OrderType};
use vstd::prelude::*;

verus! {

/// The side of the book an incoming order trades against.
pub open spec fn opposite_side(s: OrderSide) -> EntryType {
    match s {
        OrderSide::BUY => EntryType::ASK,
        OrderSide::SELL => EntryType::BID,
    }
}

/// The side of the book on which an incoming order would rest.
pub open spec fn own_side(s: OrderSide) -> EntryType {
    match s {
        OrderSide::BUY => EntryType::BID,
        OrderSide::SELL => EntryType::ASK,
    }
}

/// Whether a resting price is acceptable to the incoming order: a MARKET
/// order accepts any price; a LIMIT buyer accepts asks at or below its
/// limit, a LIMIT seller accepts bids at or above its limit.
pub open spec fn within_limit(o: Order, price: i64) -> bool {
    match o.order_type {
        OrderType::MARKET => true,
        OrderType::LIMIT => match o.limit {
            Some(l) => match o.side {
                OrderSide::BUY => price as int <= l as int,
                OrderSide::SELL => price as int >= l as int,
            },
            None => false,
        },
    }
}

/// A resting entry is a candidate for the incoming order: correct opposite
/// side, quantity left to trade, and a price the order accepts.
pub open spec fn eligible(e: Entry, o: Order) -> bool {
    &&& e.side == opposite_side(o.side)
    &&& e.quantity > 0
    &&& within_limit(o, e.price)
}

/// Strict price priority: a buyer prefers the lower ask, a seller the
/// higher bid.
pub open spec fn better_price(a: i64, b: i64, s: OrderSide) -> bool {
    match s {
        OrderSide::BUY => (a as int) < (b as int),
        OrderSide::SELL => (a as int) > (b as int),
    }
}

/// Index of the best candidate among the first `n` entries: best price
/// first, and among equal prices the smallest index (entries are kept in
/// arrival order, so the smallest index is the earliest-resting entry).
/// `None` when no candidate exists among the first `n`.
pub open spec fn find_best_upto(entries: Seq<Entry>, o: Order, n: int) -> Option<int>
    decreases n,
{
    if n <= 0 {
        None
    } else {
        let prev = find_best_upto(entries, o, n - 1);
        if !eligible(entries[n - 1], o) {
            prev
        } else {
            match prev {
                None => Some(n - 1),
                Some(j) => if better_price(entries[n - 1].price, entries[j].price, o.side) {
                    Some(n - 1)
                } else {
                    Some(j)
                },
            }
        }
    }
}

/// One greedy matching pass: starting from `remaining` unfilled quantity,
/// repeatedly trade against the best candidate, at the candidate's price,
/// for the smaller of the two quantities. A fully consumed candidate is
/// removed from the book; a partially consumed one keeps its place with a
/// reduced quantity. Returns the executions in the order they occur, the
/// resulting entries, and the order's unfilled quantity.
pub open spec fn match_rec(entries: Seq<Entry>, o: Order, remaining: int) -> (
    Seq<ExecutedOrder>,
    Seq<Entry>,
    int,
)
    decreases entries.len(),
{
    if remaining <= 0 {
        (Seq::<ExecutedOrder>::empty(), entries, remaining)
    } else {
        match find_best_upto(entries, o, entries.len() as int) {
            None => (Seq::<ExecutedOrder>::empty(), entries, remaining),
            Some(i) => {
                if 0 <= i < entries.len() {
                    let e = entries[i];
                    if remaining < e.quantity {
                        let ex = ExecutedOrder {
                            order_id: o.id,
                            entry_id: e.id,
                            quantity: remaining as i64,
                            execution_price: e.price,
                        };
                        let reduced = Entry {
                            quantity: (e.quantity - remaining) as i64,
                            ..e
                        };
                        (seq![ex], entries.update(i, reduced), 0)
                    } else {
                        let ex = ExecutedOrder {
                            order_id: o.id,
                            entry_id: e.id,
                            quantity: e.quantity,
                            execution_price: e.price,
                        };
                        let rest = match_rec(entries.remove(i), o, remaining - e.quantity);
                        (seq![ex] + rest.0, rest.1, rest.2)
                    }
                } else {
                    // find_best_upto never returns an out-of-range index
                    // (lemma_find_best_upto_some); this branch is never taken.
                    (Seq::<ExecutedOrder>::empty(), entries, remaining)
                }
            },
        }
    }
}

/// A well-formed incoming order: positive quantity, and a limit price
/// present when the order is a LIMIT order. Anything else is rejected
/// upstream; `execute` treats it as a no-op.
pub open spec fn valid_order(o: Order) -> bool {
    o.quantity > 0 && (o.order_type == OrderType::LIMIT ==> o.limit is Some)
}

/// The full effect of one `execute` call on the resting entries: run the
/// matching pass, then rest the unfilled remainder of a LIMIT order on the
/// order's own side at its limit price. A MARKET order's remainder is
/// discarded. An order that is not well formed changes nothing.
pub open spec fn execute_spec(entries: Seq<Entry>, o: Order) -> (Seq<ExecutedOrder>, Seq<Entry>) {
    if !valid_order(o) {
        (Seq::<ExecutedOrder>::empty(), entries)
    } else {
        let r = match_rec(entries, o, o.quantity as int);
        if o.order_type == OrderType::LIMIT && r.2 > 0 {
            let rest_entry = Entry {
                id: o.id,
                side: own_side(o.side),
                price: o.limit->0 as i64,
                quantity: r.2 as i64,
            };
            (r.0, r.1.push(rest_entry))
        } else {
            (r.0, r.1)
        }
    }
}

/// A best-candidate index is in range, is a candidate, beats no-worse than
/// every candidate on price, and is the earliest among candidates at its
/// price; `None` means there is no candidate among the first `n`.
pub proof fn lemma_find_best_upto(entries: Seq<Entry>, o: Order, n: int)
    requires
        n <= entries.len(),
    ensures
        match find_best_upto(entries, o, n) {
            Some(i) => {
                &&& 0 <= i < n
                &&& eligible(entries[i], o)
                &&& forall|j: int|
                    0 <= j < n && eligible(#[trigger] entries[j], o) ==> {
                        &&& !better_price(entries[j].price, entries[i].price, o.side)
                        &&& (entries[j].price == entries[i].price ==> i <= j)
                    }
            },
            None => forall|j: int| 0 <= j < n ==> !eligible(#[trigger] entries[j], o),
        },
    decreases n,
{
    if n > 0 {
        lemma_find_best_upto(entries, o, n - 1);
    }
}

/// Whether the incoming order accepts the resting price (the executable
/// counterpart of `within_limit`).
fn price_acceptable(o: &Order, price: i64) -> (r: bool)
    ensures
        r == within_limit(*o, price),
{
    match o.order_type {
        OrderType::MARKET => true,
        OrderType::LIMIT => match o.limit {
            Some(l) => match o.side {
                OrderSide::BUY => price <= l as i64,
                OrderSide::SELL => price >= l as i64,
            },
            None => false,
        },
    }
}

/// Whether a resting entry is a candidate for the incoming order (the
/// executable counterpart of `eligible`).
fn is_eligible(e: &Entry, o: &Order) -> (r: bool)
    ensures
        r == eligible(*e, *o),
{
    let opp = match o.side {
        OrderSide::BUY => EntryType::ASK,
        OrderSide::SELL => EntryType::BID,
    };
    e.side == opp && e.quantity > 0 && price_acceptable(o, e.price)
}

/// Whether price `a` has strictly better priority than price `b` for the
/// incoming side (the executable counterpart of `better_price`).
fn price_improves(a: i64, b: i64, s: OrderSide) -> (r: bool)
    ensures
        r == better_price(a, b, s),
{
    match s {
        OrderSide::BUY => a < b,
        OrderSide::SELL => a > b,
    }
}

/// Scan the book for the best candidate: best price first, earliest
/// arrival (smallest index) among equal prices.
pub(crate) fn find_best(entries: &Vec<Entry>, o: &Order) -> (r: Option<usize>)
    ensures
        match r {
            Some(i) => i < entries@.len()
                && find_best_upto(entries@, *o, entries@.len() as int) == Some(i as int),
            None => find_best_upto(entries@, *o, entries@.len() as int) is None,
        },
{
    let mut best: Option<usize> = None;
    let mut i: usize = 0;
    while i < entries.len()
        invariant
            i <= entries@.len(),
            match best {
                Some(b) => b < i && find_best_upto(entries@, *o, i as int) == Some(b as int),
                None => find_best_upto(entries@, *o, i as int) is None,
            },
        decreases entries@.len() - i,
    {
        if is_eligible(&entries[i], o) {
            match best {
                None => {
                    best = Some(i);
                },
                Some(b) => {
                    if price_improves(entries[i].price, entries[b].price, o.side) {
                        best = Some(i);
                    }
                },
            }
        }
        i = i + 1;
    }
    best
}

} // verus!
