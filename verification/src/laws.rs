//! Laws of the matching model, stated and proved once and for all inputs.

use crate::matching::{
    better_price, eligible, execute_spec, find_best_upto, lemma_find_best_upto, match_rec,
    own_side, valid_order, within_limit,
};
use crate::types::{Entry, ExecutedOrder, Order, OrderSide, OrderType};
use vstd::prelude::*;

verus! {

/// Every execution of a matching pass is priced at a price the incoming
/// order accepts: a LIMIT buyer never trades strictly above its limit, a
/// LIMIT seller never strictly below.
pub proof fn lemma_executions_within_limit(entries: Seq<Entry>, o: Order, remaining: int)
    ensures
        forall|k: int|
            0 <= k < match_rec(entries, o, remaining).0.len() ==> within_limit(
                o,
                #[trigger] match_rec(entries, o, remaining).0[k].execution_price,
            ),
    decreases entries.len(),
{
    let r = match_rec(entries, o, remaining);
    if remaining > 0 {
        lemma_find_best_upto(entries, o, entries.len() as int);
        match find_best_upto(entries, o, entries.len() as int) {
            None => {},
            Some(i) => {
                let e = entries[i];
                assert(eligible(e, o));
                if remaining < e.quantity {
                    assert(r.0.len() == 1);
                    assert(r.0[0].execution_price == e.price);
                } else {
                    let rest = match_rec(entries.remove(i), o, remaining - e.quantity);
                    lemma_executions_within_limit(entries.remove(i), o, remaining - e.quantity);
                    assert forall|k: int| 0 <= k < r.0.len() implies within_limit(
                        o,
                        r.0[k].execution_price,
                    ) by {
                        if k == 0 {
                            assert(r.0[0].execution_price == e.price);
                        } else {
                            assert(r.0[k] == rest.0[k - 1]);
                        }
                    }
                }
            },
        }
    }
}

/// A LIMIT order never trades strictly outside its limit: a buyer's
/// executions are priced at or below the limit, a seller's at or above.
pub proof fn lemma_limit_boundary(entries: Seq<Entry>, o: Order, l: i32)
    requires
        o.order_type == OrderType::LIMIT,
        o.limit == Some(l),
    ensures
        forall|k: int|
            0 <= k < execute_spec(entries, o).0.len() ==> {
                &&& (o.side == OrderSide::BUY ==> #[trigger] execute_spec(
                    entries,
                    o,
                ).0[k].execution_price as int <= l as int)
                &&& (o.side == OrderSide::SELL ==> execute_spec(entries, o).0[k].execution_price
                    as int >= l as int)
            },
{
    if valid_order(o) {
        lemma_executions_within_limit(entries, o, o.quantity as int);
    }
}

/// Where no candidate exists among the first `n` entries, the best-candidate
/// search finds none.
pub proof fn lemma_no_candidate_none(entries: Seq<Entry>, o: Order, n: int)
    requires
        forall|j: int| 0 <= j < n ==> !eligible(#[trigger] entries[j], o),
    ensures
        find_best_upto(entries, o, n) is None,
    decreases n,
{
    if n > 0 {
        lemma_no_candidate_none(entries, o, n - 1);
    }
}

/// An order with no acceptable opposite-side entry executes nothing: the
/// tape gains nothing. A MARKET order, or a malformed one, leaves the book
/// unchanged as well; a well-formed LIMIT order rests whole, which is the
/// one way the book changes without a trade.
pub proof fn lemma_no_match_no_trade(entries: Seq<Entry>, o: Order)
    requires
        forall|j: int| 0 <= j < entries.len() ==> !eligible(#[trigger] entries[j], o),
    ensures
        execute_spec(entries, o).0 == Seq::<ExecutedOrder>::empty(),
        o.order_type == OrderType::MARKET || !valid_order(o) ==> execute_spec(entries, o).1
            == entries,
        o.order_type == OrderType::LIMIT && valid_order(o) ==> execute_spec(entries, o).1
            == entries.push(
            Entry {
                id: o.id,
                side: own_side(o.side),
                price: o.limit->0 as i64,
                quantity: o.quantity,
            },
        ),
{
    if valid_order(o) {
        lemma_no_candidate_none(entries, o, entries.len() as int);
        assert(match_rec(entries, o, o.quantity as int).2 == o.quantity as int);
    }
}

/// The unfilled quantity never goes negative and never grows: a matching
/// pass leaves between none and all of the order's quantity unfilled.
pub proof fn lemma_remainder_bounds(entries: Seq<Entry>, o: Order, remaining: int)
    requires
        remaining >= 0,
    ensures
        0 <= match_rec(entries, o, remaining).2 <= remaining,
    decreases entries.len(),
{
    if remaining > 0 {
        lemma_find_best_upto(entries, o, entries.len() as int);
        match find_best_upto(entries, o, entries.len() as int) {
            None => {},
            Some(i) => {
                let e = entries[i];
                if remaining >= e.quantity {
                    lemma_remainder_bounds(entries.remove(i), o, remaining - e.quantity);
                }
            },
        }
    }
}

/// Every execution trades a positive quantity, and no single execution
/// trades more than the order had left when it was emitted.
pub proof fn lemma_execution_quantities(entries: Seq<Entry>, o: Order, remaining: int)
    ensures
        forall|k: int|
            0 <= k < match_rec(entries, o, remaining).0.len() ==> 0 < #[trigger] match_rec(
                entries,
                o,
                remaining,
            ).0[k].quantity <= remaining,
    decreases entries.len(),
{
    let r = match_rec(entries, o, remaining);
    if remaining > 0 {
        lemma_find_best_upto(entries, o, entries.len() as int);
        match find_best_upto(entries, o, entries.len() as int) {
            None => {},
            Some(i) => {
                let e = entries[i];
                if remaining < e.quantity {
                    assert(r.0[0].quantity == remaining);
                } else {
                    let rest = match_rec(entries.remove(i), o, remaining - e.quantity);
                    lemma_execution_quantities(entries.remove(i), o, remaining - e.quantity);
                    assert forall|k: int| 0 <= k < r.0.len() implies 0 < (#[trigger] r.0[k]).quantity
                        <= remaining by {
                        if k > 0 {
                            assert(r.0[k] == rest.0[k - 1]);
                        }
                    }
                }
            },
        }
    }
}

/// The remainder of a well-formed LIMIT order that a matching pass could
/// not fill rests on the book: one new entry, on the order's own side, at
/// the order's limit price, carrying exactly the unfilled quantity, behind
/// everything already resting. The executions are those of the pass alone.
pub proof fn lemma_limit_remainder_rests(entries: Seq<Entry>, o: Order)
    requires
        valid_order(o),
        o.order_type == OrderType::LIMIT,
        match_rec(entries, o, o.quantity as int).2 > 0,
    ensures
        execute_spec(entries, o).0 == match_rec(entries, o, o.quantity as int).0,
        execute_spec(entries, o).1 == match_rec(entries, o, o.quantity as int).1.push(
            Entry {
                id: o.id,
                side: own_side(o.side),
                price: o.limit->0 as i64,
                quantity: match_rec(entries, o, o.quantity as int).2 as i64,
            },
        ),
{
}

/// A matching pass keeps every resting quantity positive: a partial fill
/// leaves a positive remainder in place, and a fully consumed entry is
/// removed rather than left at zero.
pub proof fn lemma_positive_quantities_kept(entries: Seq<Entry>, o: Order, remaining: int)
    requires
        forall|k: int| 0 <= k < entries.len() ==> #[trigger] entries[k].quantity > 0,
    ensures
        forall|k: int|
            0 <= k < match_rec(entries, o, remaining).1.len() ==> #[trigger] match_rec(
                entries,
                o,
                remaining,
            ).1[k].quantity > 0,
    decreases entries.len(),
{
    let r = match_rec(entries, o, remaining);
    if remaining > 0 {
        lemma_find_best_upto(entries, o, entries.len() as int);
        match find_best_upto(entries, o, entries.len() as int) {
            None => {},
            Some(i) => {
                let e = entries[i];
                if remaining < e.quantity {
                    assert(forall|k: int|
                        0 <= k < r.1.len() && k != i ==> #[trigger] r.1[k] == entries[k]);
                } else {
                    assert(forall|k: int|
                        0 <= k < entries.remove(i).len() ==> #[trigger] entries.remove(
                            i,
                        )[k].quantity > 0);
                    lemma_positive_quantities_kept(entries.remove(i), o, remaining - e.quantity);
                }
            },
        }
    }
}

/// If every candidate on the book is priced no better than `p` for the
/// order's side, so is every execution of a matching pass.
pub proof fn lemma_executions_price_bounded(entries: Seq<Entry>, o: Order, remaining: int, p: i64)
    requires
        forall|j: int|
            0 <= j < entries.len() && eligible(#[trigger] entries[j], o) ==> !better_price(
                entries[j].price,
                p,
                o.side,
            ),
    ensures
        forall|k: int|
            0 <= k < match_rec(entries, o, remaining).0.len() ==> !better_price(
                (#[trigger] match_rec(entries, o, remaining).0[k]).execution_price,
                p,
                o.side,
            ),
    decreases entries.len(),
{
    let r = match_rec(entries, o, remaining);
    if remaining > 0 {
        lemma_find_best_upto(entries, o, entries.len() as int);
        match find_best_upto(entries, o, entries.len() as int) {
            None => {},
            Some(i) => {
                let e = entries[i];
                if remaining < e.quantity {
                    assert(r.0[0].execution_price == e.price);
                } else {
                    let sub = entries.remove(i);
                    assert forall|j: int|
                        0 <= j < sub.len() && eligible(#[trigger] sub[j], o) implies !better_price(
                        sub[j].price,
                        p,
                        o.side,
                    ) by {
                        if j < i {
                            assert(sub[j] == entries[j]);
                        } else {
                            assert(sub[j] == entries[j + 1]);
                        }
                    }
                    lemma_executions_price_bounded(sub, o, remaining - e.quantity, p);
                    let rest = match_rec(sub, o, remaining - e.quantity);
                    assert forall|k: int| 0 <= k < r.0.len() implies !better_price(
                        (#[trigger] r.0[k]).execution_price,
                        p,
                        o.side,
                    ) by {
                        if k == 0 {
                            assert(r.0[0].execution_price == e.price);
                        } else {
                            assert(r.0[k] == rest.0[k - 1]);
                        }
                    }
                }
            },
        }
    }
}

/// Price priority: a matching pass emits its executions best price first.
/// Along the executions of one pass, a buyer's prices never decrease and a
/// seller's never increase.
pub proof fn lemma_price_priority(entries: Seq<Entry>, o: Order, remaining: int)
    ensures
        forall|k1: int, k2: int|
            0 <= k1 <= k2 < match_rec(entries, o, remaining).0.len() ==> !better_price(
                (#[trigger] match_rec(entries, o, remaining).0[k2]).execution_price,
                (#[trigger] match_rec(entries, o, remaining).0[k1]).execution_price,
                o.side,
            ),
    decreases entries.len(),
{
    let r = match_rec(entries, o, remaining);
    if remaining > 0 {
        lemma_find_best_upto(entries, o, entries.len() as int);
        match find_best_upto(entries, o, entries.len() as int) {
            None => {},
            Some(i) => {
                let e = entries[i];
                if remaining >= e.quantity {
                    let sub = entries.remove(i);
                    assert forall|j: int|
                        0 <= j < sub.len() && eligible(#[trigger] sub[j], o) implies !better_price(
                        sub[j].price,
                        e.price,
                        o.side,
                    ) by {
                        if j < i {
                            assert(sub[j] == entries[j]);
                        } else {
                            assert(sub[j] == entries[j + 1]);
                        }
                    }
                    lemma_executions_price_bounded(sub, o, remaining - e.quantity, e.price);
                    lemma_price_priority(sub, o, remaining - e.quantity);
                    let rest = match_rec(sub, o, remaining - e.quantity);
                    assert forall|k1: int, k2: int|
                        0 <= k1 <= k2 < r.0.len() implies !better_price(
                        (#[trigger] r.0[k2]).execution_price,
                        (#[trigger] r.0[k1]).execution_price,
                        o.side,
                    ) by {
                        if k1 == 0 {
                            if k2 > 0 {
                                assert(r.0[k2] == rest.0[k2 - 1]);
                            }
                        } else {
                            assert(r.0[k1] == rest.0[k1 - 1]);
                            assert(r.0[k2] == rest.0[k2 - 1]);
                        }
                    }
                }
            },
        }
    }
}

/// Price priority for a whole `execute` call: along the executions one call
/// appends to the tape, a buyer's prices never decrease and a seller's
/// never increase, so the cheapest eligible asks (the dearest eligible
/// bids) trade first.
pub proof fn lemma_execute_price_priority(entries: Seq<Entry>, o: Order)
    ensures
        forall|k1: int, k2: int|
            0 <= k1 <= k2 < execute_spec(entries, o).0.len() ==> !better_price(
                (#[trigger] execute_spec(entries, o).0[k2]).execution_price,
                (#[trigger] execute_spec(entries, o).0[k1]).execution_price,
                o.side,
            ),
{
    if valid_order(o) {
        lemma_price_priority(entries, o, o.quantity as int);
    }
}

/// Partial fill: where the best candidate holds less than the order still
/// wants, the candidate is consumed whole — one execution for its entire
/// quantity — it leaves the book, and the pass carries on against the rest
/// of the book with the reduced remainder.
pub proof fn lemma_partial_fill(entries: Seq<Entry>, o: Order, remaining: int, i: int)
    requires
        remaining > 0,
        find_best_upto(entries, o, entries.len() as int) == Some(i),
        0 <= i < entries.len(),
        entries[i].quantity < remaining,
    ensures
        match_rec(entries, o, remaining).0.len() >= 1,
        match_rec(entries, o, remaining).0[0] == (ExecutedOrder {
            order_id: o.id,
            entry_id: entries[i].id,
            quantity: entries[i].quantity,
            execution_price: entries[i].price,
        }),
        match_rec(entries, o, remaining).0 == seq![match_rec(entries, o, remaining).0[0]]
            + match_rec(entries.remove(i), o, remaining - entries[i].quantity).0,
        match_rec(entries, o, remaining).1 == match_rec(
            entries.remove(i),
            o,
            remaining - entries[i].quantity,
        ).1,
        match_rec(entries, o, remaining).2 == match_rec(
            entries.remove(i),
            o,
            remaining - entries[i].quantity,
        ).2,
{
}

/// An entry `e` stands for an order already on `entries`: same identifier,
/// side and price, and no more quantity than that order had.
pub open spec fn derived_from(e: Entry, entries: Seq<Entry>) -> bool {
    exists|k0: int|
        0 <= k0 < entries.len() && e.id == (#[trigger] entries[k0]).id && e.side
            == entries[k0].side && e.price == entries[k0].price && e.quantity
            <= entries[k0].quantity
}

/// `derived_from` survives putting back an entry that was taken out of the
/// book: what stands for an order of the shortened book stands for an order
/// of the full one.
proof fn lemma_derived_lift(e: Entry, entries: Seq<Entry>, i: int)
    requires
        0 <= i < entries.len(),
        derived_from(e, entries.remove(i)),
    ensures
        derived_from(e, entries),
{
    let sub = entries.remove(i);
    let k0 = choose|k0: int|
        0 <= k0 < sub.len() && e.id == (#[trigger] sub[k0]).id && e.side == sub[k0].side
            && e.price == sub[k0].price && e.quantity <= sub[k0].quantity;
    if k0 < i {
        assert(sub[k0] == entries[k0]);
    } else {
        assert(sub[k0] == entries[k0 + 1]);
    }
}

/// Whatever rests after a matching pass was already resting before it: the
/// pass reduces and removes entries but never invents one.
pub proof fn lemma_entries_from_book(entries: Seq<Entry>, o: Order, remaining: int)
    ensures
        forall|k: int|
            0 <= k < match_rec(entries, o, remaining).1.len() ==> derived_from(
                #[trigger] match_rec(entries, o, remaining).1[k],
                entries,
            ),
    decreases entries.len(),
{
    let r = match_rec(entries, o, remaining);
    if remaining > 0 {
        lemma_find_best_upto(entries, o, entries.len() as int);
        match find_best_upto(entries, o, entries.len() as int) {
            None => {
                assert forall|k: int| 0 <= k < r.1.len() implies derived_from(
                    #[trigger] r.1[k],
                    entries,
                ) by {
                    assert(r.1[k] == entries[k]);
                }
            },
            Some(i) => {
                let e = entries[i];
                if remaining < e.quantity {
                    assert forall|k: int| 0 <= k < r.1.len() implies derived_from(
                        #[trigger] r.1[k],
                        entries,
                    ) by {
                        if k == i {
                            assert(r.1[k].id == entries[i].id && r.1[k].side == entries[i].side
                                && r.1[k].price == entries[i].price && r.1[k].quantity
                                <= entries[i].quantity);
                        } else {
                            assert(r.1[k] == entries[k]);
                        }
                    }
                } else {
                    let sub = entries.remove(i);
                    lemma_entries_from_book(sub, o, remaining - e.quantity);
                    let rest = match_rec(sub, o, remaining - e.quantity);
                    assert forall|k: int| 0 <= k < r.1.len() implies derived_from(
                        #[trigger] r.1[k],
                        entries,
                    ) by {
                        assert(r.1[k] == rest.1[k]);
                        lemma_derived_lift(r.1[k], entries, i);
                    }
                }
            },
        }
    } else {
        assert forall|k: int| 0 <= k < r.1.len() implies derived_from(
            #[trigger] r.1[k],
            entries,
        ) by {
            assert(r.1[k] == entries[k]);
        }
    }
}

/// Every entry of the book is a distinct order: no two share an identifier.
pub open spec fn distinct_ids(entries: Seq<Entry>) -> bool {
    forall|a: int, b: int|
        0 <= a < b < entries.len() ==> (#[trigger] entries[a]).id != (#[trigger] entries[b]).id
}

/// Taking an entry off the book keeps the identifiers distinct.
proof fn lemma_distinct_remove(entries: Seq<Entry>, i: int)
    requires
        distinct_ids(entries),
        0 <= i < entries.len(),
    ensures
        distinct_ids(entries.remove(i)),
{
    let sub = entries.remove(i);
    assert forall|a: int, b: int|
        0 <= a < b < sub.len() implies (#[trigger] sub[a]).id != (#[trigger] sub[b]).id by {
        if a < i {
            assert(sub[a] == entries[a]);
        } else {
            assert(sub[a] == entries[a + 1]);
        }
        if b < i {
            assert(sub[b] == entries[b]);
        } else {
            assert(sub[b] == entries[b + 1]);
        }
    }
}

/// With distinct identifiers, a candidate consumed whole is gone: once a
/// matching pass trades a candidate's entire quantity, no resting entry of
/// the resulting book carries its identifier.
pub proof fn lemma_full_fill_removes(entries: Seq<Entry>, o: Order, remaining: int, i: int)
    requires
        distinct_ids(entries),
        remaining > 0,
        find_best_upto(entries, o, entries.len() as int) == Some(i),
        0 <= i < entries.len(),
        entries[i].quantity <= remaining,
    ensures
        forall|k: int|
            0 <= k < match_rec(entries, o, remaining).1.len() ==> (#[trigger] match_rec(
                entries,
                o,
                remaining,
            ).1[k]).id != entries[i].id,
{
    let r = match_rec(entries, o, remaining);
    let sub = entries.remove(i);
    let rest = match_rec(sub, o, remaining - entries[i].quantity);
    lemma_entries_from_book(sub, o, remaining - entries[i].quantity);
    assert forall|k: int| 0 <= k < r.1.len() implies (#[trigger] r.1[k]).id != entries[i].id by {
        assert(r.1[k] == rest.1[k]);
        assert(derived_from(rest.1[k], sub));
        let k0 = choose|k0: int|
            0 <= k0 < sub.len() && rest.1[k].id == (#[trigger] sub[k0]).id && rest.1[k].side
                == sub[k0].side && rest.1[k].price == sub[k0].price && rest.1[k].quantity
                <= sub[k0].quantity;
        if k0 < i {
            assert(sub[k0] == entries[k0]);
        } else {
            assert(sub[k0] == entries[k0 + 1]);
        }
    }
}

/// Time priority: among candidates at the same price, the earlier-resting
/// entry trades first. If a matching pass executes against the later of two
/// same-priced entries, it has already executed against the earlier one.
pub proof fn lemma_time_priority(
    entries: Seq<Entry>,
    o: Order,
    remaining: int,
    i: int,
    j: int,
    k: int,
)
    requires
        distinct_ids(entries),
        0 <= i < j < entries.len(),
        eligible(entries[i], o),
        entries[i].price == entries[j].price,
        0 <= k < match_rec(entries, o, remaining).0.len(),
        match_rec(entries, o, remaining).0[k].entry_id == entries[j].id,
    ensures
        exists|k2: int|
            0 <= k2 < k && (#[trigger] match_rec(entries, o, remaining).0[k2]).entry_id
                == entries[i].id,
    decreases entries.len(),
{
    let r = match_rec(entries, o, remaining);
    lemma_find_best_upto(entries, o, entries.len() as int);
    let b = find_best_upto(entries, o, entries.len() as int)->0;
    let e = entries[b];
    if b == j {
        // impossible: entries[i] is a candidate at the same price with an
        // earlier place, so the best index is at most i < j
        assert(false);
    } else if remaining < e.quantity {
        // single execution, against entries[b] with b != j: contradiction
        // with the executed id, since identifiers are distinct
        assert(r.0[k].entry_id == entries[b].id);
        assert(false);
    } else if b == i {
        assert(r.0[0].entry_id == entries[i].id);
        assert(k != 0);
        assert(0 <= 0 < k && r.0[0].entry_id == entries[i].id);
    } else {
        let sub = entries.remove(b);
        let rest = match_rec(sub, o, remaining - e.quantity);
        assert(k >= 1);
        assert(r.0[k] == rest.0[k - 1]);
        let i2: int = if i < b { i } else { i - 1 };
        let j2: int = if j < b { j } else { j - 1 };
        assert(sub[i2] == entries[i]);
        assert(sub[j2] == entries[j]);
        lemma_distinct_remove(entries, b);
        lemma_time_priority(sub, o, remaining - e.quantity, i2, j2, k - 1);
        let k2 = choose|k2: int|
            0 <= k2 < k - 1 && (#[trigger] rest.0[k2]).entry_id == sub[i2].id;
        assert(r.0[k2 + 1] == rest.0[k2]);
        assert(0 <= k2 + 1 < k && r.0[k2 + 1].entry_id == entries[i].id);
    }
}

/// Time priority for a whole `execute` call, over the executions the call
/// appends to the tape.
pub proof fn lemma_execute_time_priority(entries: Seq<Entry>, o: Order, i: int, j: int, k: int)
    requires
        distinct_ids(entries),
        0 <= i < j < entries.len(),
        eligible(entries[i], o),
        entries[i].price == entries[j].price,
        0 <= k < execute_spec(entries, o).0.len(),
        execute_spec(entries, o).0[k].entry_id == entries[j].id,
    ensures
        exists|k2: int|
            0 <= k2 < k && (#[trigger] execute_spec(entries, o).0[k2]).entry_id == entries[i].id,
{
    if valid_order(o) {
        lemma_time_priority(entries, o, o.quantity as int, i, j, k);
        let k2 = choose|k2: int|
            0 <= k2 < k && (#[trigger] match_rec(entries, o, o.quantity as int).0[k2]).entry_id
                == entries[i].id;
        assert(0 <= k2 < k && execute_spec(entries, o).0[k2].entry_id == entries[i].id);
    }
}

/// A MARKET order never rests: whatever leftover quantity it had after the
/// pass is discarded, so everything on the book after the call was already
/// on it before, reduced at most in quantity.
pub proof fn lemma_market_never_rests(entries: Seq<Entry>, o: Order)
    requires
        o.order_type == OrderType::MARKET,
    ensures
        forall|k: int|
            0 <= k < execute_spec(entries, o).1.len() ==> derived_from(
                #[trigger] execute_spec(entries, o).1[k],
                entries,
            ),
{
    let r = execute_spec(entries, o);
    if valid_order(o) {
        lemma_entries_from_book(entries, o, o.quantity as int);
    } else {
        assert forall|k: int| 0 <= k < r.1.len() implies derived_from(
            #[trigger] r.1[k],
            entries,
        ) by {
            assert(r.1[k] == entries[k]);
        }
    }
}

/// The sum of the traded quantities of a run of executions.
pub open spec fn total_quantity(execs: Seq<ExecutedOrder>) -> int
    decreases execs.len(),
{
    if execs.len() == 0 {
        0
    } else {
        execs[0].quantity + total_quantity(execs.drop_first())
    }
}

/// A matching pass trades exactly what it does not leave unfilled: its
/// executions' quantities sum to the starting quantity minus the remainder.
pub proof fn lemma_quantity_conservation(entries: Seq<Entry>, o: Order, remaining: int)
    requires
        0 <= remaining <= i64::MAX,
    ensures
        total_quantity(match_rec(entries, o, remaining).0) == remaining - match_rec(
            entries,
            o,
            remaining,
        ).2,
    decreases entries.len(),
{
    let r = match_rec(entries, o, remaining);
    if remaining > 0 {
        lemma_find_best_upto(entries, o, entries.len() as int);
        match find_best_upto(entries, o, entries.len() as int) {
            None => {},
            Some(i) => {
                let e = entries[i];
                if remaining < e.quantity {
                    assert(total_quantity(r.0) == r.0[0].quantity + total_quantity(
                        r.0.drop_first(),
                    ));
                    assert(r.0.drop_first() =~= Seq::<ExecutedOrder>::empty());
                    assert(r.0[0].quantity == remaining);
                } else {
                    let rest = match_rec(entries.remove(i), o, remaining - e.quantity);
                    lemma_quantity_conservation(entries.remove(i), o, remaining - e.quantity);
                    assert(total_quantity(r.0) == r.0[0].quantity + total_quantity(
                        r.0.drop_first(),
                    ));
                    assert(r.0.drop_first() =~= rest.0);
                    assert(r.0[0].quantity == e.quantity);
                }
            },
        }
    }
}

/// Quantity bookkeeping for a whole `execute` call: the call's executions
/// sum to no more than the order asked for, and exactly to the order's
/// quantity less whatever the matching pass left unfilled.
pub proof fn lemma_execute_quantity_conservation(entries: Seq<Entry>, o: Order)
    requires
        valid_order(o),
    ensures
        total_quantity(execute_spec(entries, o).0) == o.quantity - match_rec(
            entries,
            o,
            o.quantity as int,
        ).2,
        0 <= total_quantity(execute_spec(entries, o).0) <= o.quantity,
{
    lemma_quantity_conservation(entries, o, o.quantity as int);
    lemma_remainder_bounds(entries, o, o.quantity as int);
}

/// `execute` keeps the book's quantity invariant: if every resting entry
/// has positive quantity before a call, every one after it does too.
pub proof fn lemma_book_quantities_kept(entries: Seq<Entry>, o: Order)
    requires
        forall|k: int| 0 <= k < entries.len() ==> #[trigger] entries[k].quantity > 0,
    ensures
        forall|k: int|
            0 <= k < execute_spec(entries, o).1.len() ==> #[trigger] execute_spec(
                entries,
                o,
            ).1[k].quantity > 0,
{
    if valid_order(o) {
        lemma_positive_quantities_kept(entries, o, o.quantity as int);
        lemma_remainder_bounds(entries, o, o.quantity as int);
    }
}

} // verus!
