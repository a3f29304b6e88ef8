use trading::auction_order::{AuctionOrder, TestOrder, TestOrderGen};
use trading::order_book::PriceOrderBook;
use trading::price_node::{OrderWithStatus, PriceNode};
use trading::types::{Price, Qty};

#[test]
fn price_node_append_order() {
    let order_id: u128 = 0;
    let mut node: PriceNode<TestOrder> = PriceNode::new();
    let order = TestOrder::new(50, 100, order_id);
    node.append_order(order);
    assert_eq!(node.total(), 100);
}

#[test]
fn skip_zero_order() {
    let orders_info = [
        (10, 81, Some(0)),
        (10, 91, Some(1)),
        (10, 100, None),
        (10, 81, Some(3)),
        (10, 91, Some(4)),
        (10, 200, None),
        (10, 81, Some(6)),
    ];
    let mut gen = TestOrderGen::new();
    let orders = gen.work(&orders_info);
    let mut node: PriceNode<TestOrder> = PriceNode::new();
    for order in orders {
        node.append_order(order);
    }
    node.remove_order(0);
    node.remove_order(1);
    node.remove_order(3);
    node.remove_order(4);
    node.remove_order(6);

    let mut iter = node.order_iter_mut();

    assert_eq!(iter.next().unwrap().leaves_qty(), 100);
    assert_eq!(iter.next().unwrap().leaves_qty(), 200);

    if let Some(_order) = iter.next() {
        assert!(false);
    }
    assert_eq!(node.total(), 300);
}

#[test]
fn price_node_consume_order() {
    let orders_info = [
        (10, 100, None),
        (10, 200, None),
        (10, 300, None),
        (10, 400, None),
        (10, 500, None),
    ];
    let mut gen = TestOrderGen::new();
    let orders = gen.work(&orders_info);
    let mut node: PriceNode<TestOrder> = PriceNode::new();
    for order in orders {
        node.append_order(order);
    }

    let consumed = node.consume_order(150);
    assert_eq!(consumed.len(), 2);
    assert_eq!(node.total(), 1350);
    assert_eq!(consumed[0].consumed_qty(), 100);
    assert_eq!(consumed[0].leaves_qty(), 0);
    assert_eq!(consumed[1].consumed_qty(), 50);
    assert_eq!(consumed[1].leaves_qty(), 150);

    let consumed = node.consume_order(450);
    assert_eq!(consumed.len(), 2);
    assert_eq!(node.total(), 900);
    assert_eq!(consumed[0].consumed_qty(), 150);
    assert_eq!(consumed[1].consumed_qty(), 300);

    let consumed = node.consume_order(1000);
    assert_eq!(consumed.len(), 2);
    assert_eq!(node.total(), 0);
    assert_eq!(consumed[0].consumed_qty(), 400);
    assert_eq!(consumed[1].consumed_qty(), 500);

    let consumed = node.consume_order(1000);
    assert_eq!(consumed.len(), 0);
}

#[test]
fn remove_order() {
    let mut ob = PriceOrderBook::create_low_price_priority_order_book();

    let orders_info = [
        (99, 1, Some(0)),
        (100, 20, None),
        (102, 2, Some(4)),
        (105, 20, None),
        (106, 3, Some(6)),
    ];

    let mut gen = TestOrderGen::new();
    gen.work(&orders_info)
        .iter()
        .for_each(|order| ob.insert_order(order.clone()));

    let order = ob.remove_order(99, 0).unwrap();
    assert_eq!(order.consumed_qty(), 1);
    assert_eq!(order.orig_order().price(), 99);
}

#[test]
fn order_book_append_order() {
    let mut ob = PriceOrderBook::create_low_price_priority_order_book();

    let orders_info = [
        (99, 1, Some(0)),
        (100, 20, None),
        (101, 20, None),
        (101, 20, None),
        (102, 2, Some(4)),
        (105, 20, None),
        (106, 3, Some(6)),
    ];

    let mut gen = TestOrderGen::new();
    gen.work(&orders_info)
        .iter()
        .for_each(|order| ob.insert_order(order.clone()));

    ob.remove_order(99, 0);
    ob.remove_order(102, 4);
    ob.remove_order(106, 6);

    let mut iter = ob.price_iter();

    assert_eq!(Some((100, 20)), iter.next());
    assert_eq!(Some((101, 40)), iter.next());
    assert_eq!(Some((105, 20)), iter.next());
    assert_eq!(None, iter.next());
}

#[test]
fn traverse_high_price_priority_order_book() {
    let mut ob = PriceOrderBook::create_high_price_priority_order_book();
    let orders_info = [
        (99, 1, Some(0)),
        (100, 20, None),
        (101, 20, None),
        (101, 20, None),
        (102, 2, Some(4)),
        (105, 20, None),
        (106, 3, Some(6)),
    ];
    let mut gen = TestOrderGen::new();
    gen.work(&orders_info)
        .iter()
        .for_each(|order| ob.insert_order(order.clone()));

    ob.remove_order(99, 0);
    ob.remove_order(102, 4);
    ob.remove_order(106, 6);

    let mut iter = ob.price_iter();

    assert_eq!(Some((105, 20)), iter.next());
    assert_eq!(Some((101, 40)), iter.next());
    assert_eq!(Some((100, 20)), iter.next());
    assert_eq!(None, iter.next());
}

fn assert_order(order: OrderWithStatus<TestOrder>, price: Price, qty: Qty) {
    assert_eq!(order.orig_order().price(), price);
    assert_eq!(order.leaves_qty(), qty);
}

#[test]
fn traverse_order() {
    let mut ob = PriceOrderBook::create_low_price_priority_order_book();

    let orders_info = [
        (100, 20, None),
        (100, 1, Some(1)),
        (100, 30, None),
        (101, 20, None),
        (101, 50, None),
        (102, 2, Some(5)),
        (105, 20, None),
    ];

    let mut gen = TestOrderGen::new();
    gen.work(&orders_info)
        .iter()
        .for_each(|order| ob.insert_order(order.clone()));

    ob.remove_order(100, 1);
    ob.remove_order(102, 5);

    let mut iter = ob.order_iter_mut();

    let order = iter.next().unwrap();
    assert_order(order, 100, 20);

    let order = iter.next().unwrap();
    assert_order(order, 100, 30);

    let order = iter.next().unwrap();
    assert_order(order, 101, 20);

    let order = iter.next().unwrap();
    assert_order(order, 101, 50);

    let order = iter.next().unwrap();
    assert_order(order, 105, 20);

    if let None = iter.next() {
    } else {
        assert!(false);
    }
}

#[test]
fn order_book_consume_order() {
    let mut ob = PriceOrderBook::create_low_price_priority_order_book();
    let orders_info = [
        (100, 10, None),
        (100, 10, None),
        (101, 10, None),
        (101, 10, None),
        (102, 10, None),
        (105, 10, None),
        (106, 10, None),
        (107, 10, None),
        (108, 10, None),
        (108, 20, None),
    ];
    let mut gen = TestOrderGen::new();
    gen.work(&orders_info)
        .iter()
        .for_each(|order| ob.insert_order(order.clone()));

    let (leaves_qty, consumed) = ob.consume_order(100, 101);
    assert_eq!(consumed.len(), 4);
    assert_eq!(leaves_qty, 60);
    assert_eq!(consumed[0].orig_order().price(), 100);
    assert_eq!(consumed[0].consumed_qty(), 10);
    assert_eq!(consumed[1].orig_order().price(), 100);
    assert_eq!(consumed[1].consumed_qty(), 10);
    assert_eq!(consumed[2].orig_order().price(), 101);
    assert_eq!(consumed[2].consumed_qty(), 10);
    assert_eq!(consumed[3].orig_order().price(), 101);
    assert_eq!(consumed[3].consumed_qty(), 10);

    let (leaves_qty, consumed) = ob.consume_order(13, 200);
    assert_eq!(consumed.len(), 2);
    assert_eq!(leaves_qty, 0);
    assert_eq!(consumed[0].orig_order().price(), 102);
    assert_eq!(consumed[0].consumed_qty(), 10);
    assert_eq!(consumed[1].orig_order().price(), 105);
    assert_eq!(consumed[1].consumed_qty(), 3);

    let (leaves_qty, consumed) = ob.consume_order(17, 200);
    assert_eq!(consumed.len(), 2);
    assert_eq!(leaves_qty, 0);
    assert_eq!(consumed[0].orig_order().price(), 105);
    assert_eq!(consumed[0].consumed_qty(), 7);
    assert_eq!(consumed[1].orig_order().price(), 106);
    assert_eq!(consumed[1].consumed_qty(), 10);

    let (leaves_qty, consumed) = ob.consume_order(100, 200);
    assert_eq!(consumed.len(), 3);
    assert_eq!(leaves_qty, 60);
    assert_eq!(consumed[0].orig_order().price(), 107);
    assert_eq!(consumed[0].consumed_qty(), 10);
    assert_eq!(consumed[1].orig_order().price(), 108);
    assert_eq!(consumed[1].consumed_qty(), 10);
    assert_eq!(consumed[2].orig_order().price(), 108);
    assert_eq!(consumed[2].consumed_qty(), 20);

    let (_, consumed) = ob.consume_order(100, 200);
    assert_eq!(consumed.len(), 0);
}

#[test]
fn book_total_matches_resting_orders() {
    // The book total equals the sum over levels and the sum over resting
    // orders, and stays balanced across consumption and cancellation.
    let mut ob = PriceOrderBook::create_low_price_priority_order_book();
    let orders_info = [
        (100, 10, Some(1)),
        (100, 15, Some(2)),
        (101, 20, Some(3)),
        (103, 5, Some(4)),
    ];
    let mut gen = TestOrderGen::new();
    gen.work(&orders_info)
        .iter()
        .for_each(|order| ob.insert_order(order.clone()));

    assert_eq!(ob.total_qty(), 50);

    let mut by_levels: u64 = 0;
    let mut iter = ob.price_iter();
    while let Some((_, total)) = iter.next() {
        by_levels += total;
    }
    assert_eq!(by_levels, 50);

    let mut by_orders: u64 = 0;
    let mut iter = ob.order_iter_mut();
    while let Some(entry) = iter.next() {
        by_orders += entry.leaves_qty();
    }
    assert_eq!(by_orders, 50);

    let (left, _) = ob.consume_order(12, 101);
    assert_eq!(left, 0);
    assert_eq!(ob.total_qty(), 38);

    ob.remove_order(101, 3);
    assert_eq!(ob.total_qty(), 18);

    let mut by_orders: u64 = 0;
    let mut iter = ob.order_iter_mut();
    while let Some(entry) = iter.next() {
        by_orders += entry.leaves_qty();
    }
    assert_eq!(by_orders, 18);
}

#[test]
fn generator_assigns_fresh_ids_in_order() {
    let mut gen = TestOrderGen::new();
    let orders = gen.work(&[(1, 5, None), (2, 6, Some(42)), (3, 7, None)]);
    assert_eq!(orders[0].order_id(), 9876543210000);
    assert_eq!(orders[1].order_id(), 42);
    assert_eq!(orders[2].order_id(), 9876543210001);
    assert_eq!(gen.order_id, 9876543210002);
}
