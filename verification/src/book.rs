//! The order book: resting entries in arrival order plus the append-only
//! execution tape, with the single mutating operation `execute`.

use crate::matching::{execute_spec, find_best, match_rec, valid_order};
use crate::types::{Entry, EntryType, ExecutedOrder, Order, OrderSide, OrderType};
use vstd::pervasive::VecAdditionalExecFns;
use vstd::prelude::*;

verus! {

/// The book. `entries` holds the resting orders of both sides in arrival
/// order (the index is the time priority); `executed_orders` is the trade
/// tape, only ever appended to.
pub struct OrderBook {
    pub entries: Vec<Entry>,
    pub executed_orders: Vec<ExecutedOrder>,
}

impl OrderBook {
    /// An empty book: no resting entries, empty tape.
    pub fn new() -> (r: OrderBook)
        ensures
            r.entries@ == Seq::<Entry>::empty(),
            r.executed_orders@ == Seq::<ExecutedOrder>::empty(),
    {
        OrderBook { entries: Vec::new(), executed_orders: Vec::new() }
    }

    /// Match an incoming order against the opposite side of the book.
    ///
    /// The resting entries and the executions appended to the tape are
    /// exactly what `execute_spec` gives: the greedy price-time-priority
    /// walk, with a LIMIT remainder rested and a MARKET remainder
    /// discarded. The tape is append-only: nothing already on it moves or
    /// changes. An order with no acceptable candidate produces zero
    /// executions; that is a valid outcome, not an error.
    pub fn execute(&mut self, o: Order)
        ensures
            final(self).entries@ == execute_spec(old(self).entries@, o).1,
            final(self).executed_orders@ == old(self).executed_orders@ + execute_spec(
                old(self).entries@,
                o,
            ).0,
            old(self).executed_orders@.len() <= final(self).executed_orders@.len(),
            forall|k: int|
                0 <= k < old(self).executed_orders@.len() ==> final(self).executed_orders@[k]
                    == old(self).executed_orders@[k],
    {
        let ghost entries0 = self.entries@;
        let ghost tape0 = self.executed_orders@;
        if o.quantity <= 0 || (o.order_type == OrderType::LIMIT && o.limit.is_none()) {
            proof {
                assert(tape0 + execute_spec(entries0, o).0 =~= tape0);
            }
            return;
        }
        let ghost m0 = match_rec(entries0, o, o.quantity as int);
        let mut remaining: i64 = o.quantity;
        let mut execs: Vec<ExecutedOrder> = Vec::new();
        loop
            invariant
                valid_order(o),
                0 <= remaining <= o.quantity,
                self.executed_orders@ == tape0,
                m0.0 == execs@ + match_rec(self.entries@, o, remaining as int).0,
                m0.1 == match_rec(self.entries@, o, remaining as int).1,
                m0.2 == match_rec(self.entries@, o, remaining as int).2,
            ensures
                remaining >= 0,
                self.executed_orders@ == tape0,
                m0.0 == execs@,
                m0.1 == self.entries@,
                m0.2 == remaining as int,
            decreases self.entries@.len(),
        {
            if remaining == 0 {
                proof {
                    assert(execs@ + match_rec(self.entries@, o, 0).0 =~= execs@);
                }
                break;
            }
            let best = find_best(&self.entries, &o);
            match best {
                None => {
                    proof {
                        assert(execs@ + match_rec(self.entries@, o, remaining as int).0
                            =~= execs@);
                    }
                    break;
                },
                Some(i) => {
                    proof {
                        crate::matching::lemma_find_best_upto(
                            self.entries@,
                            o,
                            self.entries@.len() as int,
                        );
                    }
                    let e = self.entries[i];
                    if remaining < e.quantity {
                        let ex = ExecutedOrder {
                            order_id: o.id,
                            entry_id: e.id,
                            quantity: remaining,
                            execution_price: e.price,
                        };
                        let reduced = Entry {
                            id: e.id,
                            side: e.side,
                            price: e.price,
                            quantity: e.quantity - remaining,
                        };
                        self.entries.set(i, reduced);
                        execs.push(ex);
                        remaining = 0;
                        proof {
                            assert(execs@ + match_rec(self.entries@, o, 0).0 =~= execs@);
                            assert(execs@ =~= execs@.subrange(0, execs@.len() - 1) + seq![ex]);
                            assert(m0.0 =~= execs@ + match_rec(self.entries@, o, 0).0);
                        }
                        break;
                    } else {
                        let ex = ExecutedOrder {
                            order_id: o.id,
                            entry_id: e.id,
                            quantity: e.quantity,
                            execution_price: e.price,
                        };
                        self.entries.remove(i);
                        execs.push(ex);
                        remaining = remaining - e.quantity;
                        proof {
                            assert(execs@ + match_rec(self.entries@, o, remaining as int).0
                                =~= m0.0);
                        }
                        if remaining == 0 {
                            proof {
                                assert(execs@ + match_rec(self.entries@, o, 0).0 =~= execs@);
                            }
                            break;
                        }
                    }
                },
            }
        }
        if o.order_type == OrderType::LIMIT && remaining > 0 {
            let limit_price: i64 = o.limit.unwrap() as i64;
            let side = match o.side {
                OrderSide::BUY => EntryType::BID,
                OrderSide::SELL => EntryType::ASK,
            };
            let rest_entry = Entry {
                id: o.id,
                side,
                price: limit_price,
                quantity: remaining,
            };
            self.entries.push(rest_entry);
        }
        self.executed_orders.append(&mut execs);
    }

    /// The full trade tape, oldest first, as a fresh copy: mutating the
    /// result cannot corrupt the book's own record.
    pub fn executed_orders(&self) -> (r: Vec<ExecutedOrder>)
        ensures
            r@ == self.executed_orders@,
    {
        let mut r: Vec<ExecutedOrder> = Vec::new();
        let mut i: usize = 0;
        while i < self.executed_orders.len()
            invariant
                i <= self.executed_orders@.len(),
                r@ == self.executed_orders@.subrange(0, i as int),
            decreases self.executed_orders@.len() - i,
        {
            r.push(self.executed_orders[i]);
            proof {
                assert(r@ =~= self.executed_orders@.subrange(0, i + 1));
            }
            i = i + 1;
        }
        proof {
            assert(self.executed_orders@.subrange(0, self.executed_orders@.len() as int)
                =~= self.executed_orders@);
        }
        r
    }
}

} // verus!
