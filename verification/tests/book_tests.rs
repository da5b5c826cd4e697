use orderbook::book::OrderBook;
use orderbook::types::{Entry, EntryType, ExecutedOrder, Order, OrderSide, OrderType};

fn ask(id: i32, price: i64, quantity: i64) -> Entry {
    Entry { id, side: EntryType::ASK, price, quantity }
}

fn bid(id: i32, price: i64, quantity: i64) -> Entry {
    Entry { id, side: EntryType::BID, price, quantity }
}

fn buy_market(id: i32, quantity: i64) -> Order {
    Order { id, side: OrderSide::BUY, limit: None, quantity, order_type: OrderType::MARKET }
}

fn buy_limit(id: i32, limit: i32, quantity: i64) -> Order {
    Order { id, side: OrderSide::BUY, limit: Some(limit), quantity, order_type: OrderType::LIMIT }
}

fn sell_market(id: i32, quantity: i64) -> Order {
    Order { id, side: OrderSide::SELL, limit: None, quantity, order_type: OrderType::MARKET }
}

fn sell_limit(id: i32, limit: i32, quantity: i64) -> Order {
    Order { id, side: OrderSide::SELL, limit: Some(limit), quantity, order_type: OrderType::LIMIT }
}

#[test]
fn assert_works() {
    let result = 2 * 2;
    assert_eq!(result, 2 + 2);
}

#[test]
fn assert_entries() {
    let o = buy_market(1, 100);
    let mut entries = Vec::new();
    entries.push(ask(1, 10010, 100));
    entries.push(ask(2, 10010, 100));
    entries.push(ask(3, 10005, 500));
    entries.push(ask(4, 10000, 1000));
    entries.push(bid(5, 9995, 100));
    entries.push(bid(6, 9990, 50));
    entries.push(bid(7, 9985, 50));
    let mut book = OrderBook { entries, executed_orders: Vec::new() };
    book.execute(o);

    let executed = book.executed_orders();

    assert_eq!(
        executed,
        vec![ExecutedOrder { order_id: 1, entry_id: 4, quantity: 100, execution_price: 10000 }]
    );
    // The order trades only against the best ask (id 4), which keeps 900 of
    // its 1000; every other entry stays on the book untouched.
    assert_eq!(true, book.entries.contains(&ask(1, 10010, 100)));
    assert_eq!(book.entries.len(), 7);
    let touched = &book.entries[3];
    assert_eq!(touched.id, 4);
    assert_eq!(touched.quantity, 900);
}

#[test]
fn price_priority_cheapest_ask_first() {
    let mut book = OrderBook::new();
    book.entries.push(ask(1, 10010, 100));
    book.entries.push(ask(2, 10000, 100));
    book.entries.push(ask(3, 10005, 100));
    book.execute(buy_market(9, 250));

    let executed = book.executed_orders();
    assert_eq!(
        executed,
        vec![
            ExecutedOrder { order_id: 9, entry_id: 2, quantity: 100, execution_price: 10000 },
            ExecutedOrder { order_id: 9, entry_id: 3, quantity: 100, execution_price: 10005 },
            ExecutedOrder { order_id: 9, entry_id: 1, quantity: 50, execution_price: 10010 },
        ]
    );
}

#[test]
fn price_priority_highest_bid_first() {
    let mut book = OrderBook::new();
    book.entries.push(bid(1, 9990, 100));
    book.entries.push(bid(2, 10000, 100));
    book.entries.push(bid(3, 9995, 100));
    book.execute(sell_market(9, 250));

    let executed = book.executed_orders();
    assert_eq!(
        executed,
        vec![
            ExecutedOrder { order_id: 9, entry_id: 2, quantity: 100, execution_price: 10000 },
            ExecutedOrder { order_id: 9, entry_id: 3, quantity: 100, execution_price: 9995 },
            ExecutedOrder { order_id: 9, entry_id: 1, quantity: 50, execution_price: 9990 },
        ]
    );
}

#[test]
fn time_priority_earlier_entry_first() {
    let mut book = OrderBook::new();
    book.entries.push(ask(11, 10000, 60));
    book.entries.push(ask(12, 10000, 60));
    book.execute(buy_market(9, 90));

    let executed = book.executed_orders();
    assert_eq!(
        executed,
        vec![
            ExecutedOrder { order_id: 9, entry_id: 11, quantity: 60, execution_price: 10000 },
            ExecutedOrder { order_id: 9, entry_id: 12, quantity: 30, execution_price: 10000 },
        ]
    );
    // the earlier entry is gone; the later one keeps the rest
    assert_eq!(book.entries.len(), 1);
    assert_eq!(book.entries[0].id, 12);
    assert_eq!(book.entries[0].quantity, 30);
}

#[test]
fn partial_fill_consumes_and_continues() {
    let mut book = OrderBook::new();
    book.entries.push(ask(1, 10000, 40));
    book.entries.push(ask(2, 10005, 500));
    book.execute(buy_market(9, 100));

    let executed = book.executed_orders();
    assert_eq!(
        executed,
        vec![
            ExecutedOrder { order_id: 9, entry_id: 1, quantity: 40, execution_price: 10000 },
            ExecutedOrder { order_id: 9, entry_id: 2, quantity: 60, execution_price: 10005 },
        ]
    );
    // the small entry is zeroed and removed, not left on the book
    assert_eq!(book.entries.len(), 1);
    assert_eq!(book.entries[0].id, 2);
    assert_eq!(book.entries[0].quantity, 440);
}

#[test]
fn limit_buy_never_trades_above_limit() {
    let mut book = OrderBook::new();
    book.entries.push(ask(1, 10005, 100));
    book.entries.push(ask(2, 10000, 30));
    book.execute(buy_limit(9, 10000, 100));

    let executed = book.executed_orders();
    // only the ask at the limit trades; the one strictly above never does
    assert_eq!(
        executed,
        vec![ExecutedOrder { order_id: 9, entry_id: 2, quantity: 30, execution_price: 10000 }]
    );
    assert_eq!(book.entries[0], ask(1, 10005, 100));
    assert_eq!(book.entries[0].quantity, 100);
}

#[test]
fn limit_sell_never_trades_below_limit() {
    let mut book = OrderBook::new();
    book.entries.push(bid(1, 9990, 100));
    book.entries.push(bid(2, 10000, 30));
    book.execute(sell_limit(9, 10000, 100));

    let executed = book.executed_orders();
    assert_eq!(
        executed,
        vec![ExecutedOrder { order_id: 9, entry_id: 2, quantity: 30, execution_price: 10000 }]
    );
    assert_eq!(book.entries[0].id, 1);
    assert_eq!(book.entries[0].quantity, 100);
}

#[test]
fn limit_remainder_rests_on_book() {
    let mut book = OrderBook::new();
    book.entries.push(ask(1, 10000, 30));
    book.execute(buy_limit(9, 10000, 100));

    let executed = book.executed_orders();
    assert_eq!(
        executed,
        vec![ExecutedOrder { order_id: 9, entry_id: 1, quantity: 30, execution_price: 10000 }]
    );
    // the unfilled 70 rests as a new bid at the limit price
    assert_eq!(book.entries.len(), 1);
    let rested = &book.entries[0];
    assert_eq!(rested.id, 9);
    assert_eq!(rested.side, EntryType::BID);
    assert_eq!(rested.price, 10000);
    assert_eq!(rested.quantity, 70);
}

#[test]
fn limit_with_no_candidate_rests_whole() {
    let mut book = OrderBook::new();
    book.entries.push(ask(1, 10010, 100));
    book.execute(buy_limit(9, 10000, 50));

    assert_eq!(book.executed_orders().len(), 0);
    assert_eq!(book.entries.len(), 2);
    let rested = &book.entries[1];
    assert_eq!(rested.id, 9);
    assert_eq!(rested.side, EntryType::BID);
    assert_eq!(rested.price, 10000);
    assert_eq!(rested.quantity, 50);
}

#[test]
fn market_remainder_is_discarded() {
    let mut book = OrderBook::new();
    book.entries.push(ask(1, 10000, 30));
    book.execute(buy_market(9, 100));

    let executed = book.executed_orders();
    assert_eq!(
        executed,
        vec![ExecutedOrder { order_id: 9, entry_id: 1, quantity: 30, execution_price: 10000 }]
    );
    // nothing rests: the leftover 70 is gone and the book is empty
    assert_eq!(book.entries.len(), 0);
}

#[test]
fn tape_is_append_only_across_calls() {
    let mut book = OrderBook::new();
    book.entries.push(ask(1, 10000, 50));
    book.entries.push(ask(2, 10005, 50));
    book.execute(buy_market(8, 50));
    let first = book.executed_orders();
    book.execute(buy_market(9, 50));
    let second = book.executed_orders();

    assert!(first.len() <= second.len());
    assert_eq!(&second[..first.len()], &first[..]);
    assert_eq!(
        second,
        vec![
            ExecutedOrder { order_id: 8, entry_id: 1, quantity: 50, execution_price: 10000 },
            ExecutedOrder { order_id: 9, entry_id: 2, quantity: 50, execution_price: 10005 },
        ]
    );
}

#[test]
fn no_match_changes_nothing() {
    let mut book = OrderBook::new();
    book.entries.push(bid(1, 9995, 100));
    // a BUY matches only ASK entries; the book holds none
    book.execute(buy_market(9, 100));

    assert_eq!(book.executed_orders().len(), 0);
    assert_eq!(book.entries.len(), 1);
    assert_eq!(book.entries[0].id, 1);
    assert_eq!(book.entries[0].quantity, 100);
}

#[test]
fn empty_book_is_a_no_op_for_market() {
    let mut book = OrderBook::new();
    book.execute(sell_market(9, 100));
    assert_eq!(book.executed_orders().len(), 0);
    assert_eq!(book.entries.len(), 0);
}

#[test]
fn zero_quantity_order_is_a_no_op() {
    let mut book = OrderBook::new();
    book.entries.push(ask(1, 10000, 100));
    book.execute(buy_market(9, 0));
    book.execute(buy_limit(10, 10000, 0));

    assert_eq!(book.executed_orders().len(), 0);
    assert_eq!(book.entries.len(), 1);
    assert_eq!(book.entries[0].quantity, 100);
}

#[test]
fn limit_order_without_limit_price_is_a_no_op() {
    let mut book = OrderBook::new();
    book.entries.push(ask(1, 10000, 100));
    let malformed = Order {
        id: 9,
        side: OrderSide::BUY,
        limit: None,
        quantity: 50,
        order_type: OrderType::LIMIT,
    };
    book.execute(malformed);

    assert_eq!(book.executed_orders().len(), 0);
    assert_eq!(book.entries.len(), 1);
    assert_eq!(book.entries[0].quantity, 100);
}

#[test]
fn tape_copy_is_defensive() {
    let mut book = OrderBook::new();
    book.entries.push(ask(1, 10000, 50));
    book.execute(buy_market(9, 50));

    let mut copy = book.executed_orders();
    copy.clear();
    copy.push(ExecutedOrder { order_id: 0, entry_id: 0, quantity: 1, execution_price: 1 });

    let fresh = book.executed_orders();
    assert_eq!(
        fresh,
        vec![ExecutedOrder { order_id: 9, entry_id: 1, quantity: 50, execution_price: 10000 }]
    );
}

#[test]
fn entry_identity_is_by_id_alone() {
    let a = ask(1, 10000, 100);
    let b = ask(1, 99999, 7);
    let c = ask(2, 10000, 100);
    assert_eq!(a, b);
    assert_ne!(a, c);
    assert!(a.same_order(&b));
    assert!(!a.same_order(&c));
}

#[test]
fn exact_fill_removes_entry_and_rests_nothing() {
    let mut book = OrderBook::new();
    book.entries.push(ask(1, 10000, 100));
    book.execute(buy_limit(9, 10000, 100));

    let executed = book.executed_orders();
    assert_eq!(
        executed,
        vec![ExecutedOrder { order_id: 9, entry_id: 1, quantity: 100, execution_price: 10000 }]
    );
    // filled exactly: the ask is gone and no remainder rests
    assert_eq!(book.entries.len(), 0);
}
