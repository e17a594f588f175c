use trade::ladder::LinkedItem;
use trade::linked_list::LinkedList;
use trade::table::Table;
use trade::types::{Error, LadderFault, LimitOrder, OrderStatus, OrderType, H256, PMAX, PMIN};

fn h(n: u128) -> H256 {
    H256 { hi: 0, lo: n }
}

fn item(price: Option<u64>, prev: Option<u64>, next: Option<u64>, orders: Vec<H256>) -> LinkedItem {
    LinkedItem { price, next, prev, orders }
}

/// Stores an order and appends it to the ladder, without a matching pass.
fn rest(
    list: &mut LinkedList,
    orders: &mut Table<H256, LimitOrder>,
    tp: H256,
    hash: H256,
    owner: u64,
    otype: OrderType,
    price: u64,
    amount: u128,
) -> LimitOrder {
    let order = LimitOrder::new(hash, h(1), h(2), owner, price, amount, amount, otype);
    orders.insert(hash, order);
    list.append(tp, price, hash, otype);
    order
}

fn finish(orders: &mut Table<H256, LimitOrder>, hash: H256) {
    let mut o = *orders.get(&hash).unwrap();
    o.remained_sell_amount = 0;
    o.remained_buy_amount = 0;
    o.status = OrderStatus::Filled;
    orders.insert(hash, o);
}

fn cancel(orders: &mut Table<H256, LimitOrder>, hash: H256) {
    let mut o = *orders.get(&hash).unwrap();
    o.status = OrderStatus::Canceled;
    orders.insert(hash, o);
}

/// The prices from the bottom to the top along `next`, the head as `None`.
fn walk_up(list: &mut LinkedList, tp: H256) -> Vec<Option<u64>> {
    let mut keys = Vec::new();
    let mut cur = list.read_bottom(tp);
    loop {
        keys.push(cur.price);
        if cur.price == Some(PMAX) {
            break;
        }
        cur = list.read(tp, cur.next);
    }
    keys
}

/// The prices from the top to the bottom along `prev`.
fn walk_down(list: &mut LinkedList, tp: H256) -> Vec<Option<u64>> {
    let mut keys = Vec::new();
    let mut cur = list.read_top(tp);
    loop {
        keys.push(cur.price);
        if cur.price == Some(PMIN) {
            break;
        }
        cur = list.read(tp, cur.prev);
    }
    keys
}

#[test]
fn sentinels_of_a_fresh_pair() {
    let mut list = LinkedList::new();
    let tp = h(9);
    assert_eq!(list.read_head(tp), item(None, Some(PMIN), Some(PMAX), vec![]));
    assert_eq!(list.read_bottom(tp), item(Some(PMIN), Some(PMAX), None, vec![]));
    assert_eq!(list.read_top(tp), item(Some(PMAX), None, Some(PMIN), vec![]));
    assert_eq!(PMIN, 0);
    assert_eq!(PMAX, u64::MAX);
}

#[test]
fn any_sentinel_can_be_read_first() {
    let mut list = LinkedList::new();
    assert_eq!(list.read_top(h(1)), item(Some(PMAX), None, Some(PMIN), vec![]));
    assert_eq!(list.read_head(h(1)), item(None, Some(PMIN), Some(PMAX), vec![]));
    assert_eq!(list.read_bottom(h(2)), item(Some(PMIN), Some(PMAX), None, vec![]));
    assert_eq!(list.read_head(h(2)), item(None, Some(PMIN), Some(PMAX), vec![]));
}

#[test]
fn contains_and_get() {
    let mut list = LinkedList::new();
    let tp = h(9);
    assert!(list.contains(tp, None));
    assert!(list.contains(tp, Some(PMIN)));
    assert!(list.contains(tp, Some(PMAX)));
    assert!(!list.contains(tp, Some(5)));
    assert_eq!(list.get(tp, Some(5)), None);
    list.append(tp, 5, h(50), OrderType::Buy);
    assert!(list.contains(tp, Some(5)));
    assert_eq!(
        list.get(tp, Some(5)),
        Some(item(Some(5), Some(PMIN), None, vec![h(50)]))
    );
    assert!(!list.contains(h(8), Some(5)));
}

#[test]
fn buy_levels_are_linked_in_ascending_order() {
    let mut list = LinkedList::new();
    let tp = h(9);
    list.append(tp, 4, h(1), OrderType::Buy);
    list.append(tp, 1, h(2), OrderType::Buy);
    list.append(tp, 2, h(3), OrderType::Buy);
    assert_eq!(
        walk_up(&mut list, tp),
        vec![Some(0), Some(1), Some(2), Some(4), None, Some(PMAX)]
    );
    assert_eq!(
        walk_down(&mut list, tp),
        vec![Some(PMAX), None, Some(4), Some(2), Some(1), Some(0)]
    );
    assert_eq!(list.read_head(tp).prev, Some(4));
    assert_eq!(list.read_head(tp).next, Some(PMAX));
}

#[test]
fn sell_levels_are_linked_in_ascending_order() {
    let mut list = LinkedList::new();
    let tp = h(9);
    list.append(tp, 18, h(1), OrderType::Sell);
    list.append(tp, 10, h(2), OrderType::Sell);
    list.append(tp, 12, h(3), OrderType::Sell);
    assert_eq!(
        walk_up(&mut list, tp),
        vec![Some(0), None, Some(10), Some(12), Some(18), Some(PMAX)]
    );
    assert_eq!(
        walk_down(&mut list, tp),
        vec![Some(PMAX), Some(18), Some(12), Some(10), None, Some(0)]
    );
    assert_eq!(list.read_head(tp).next, Some(10));
    assert_eq!(list.read_head(tp).prev, Some(PMIN));
}

#[test]
fn a_level_is_first_in_first_out() {
    let mut list = LinkedList::new();
    let tp = h(9);
    list.append(tp, 12, h(5), OrderType::Sell);
    list.append(tp, 12, h(6), OrderType::Sell);
    list.append(tp, 10, h(2), OrderType::Sell);
    list.append(tp, 12, h(7), OrderType::Sell);
    assert_eq!(list.read(tp, Some(12)).orders, vec![h(5), h(6), h(7)]);
    assert_eq!(list.read(tp, Some(10)).orders, vec![h(2)]);
}

#[test]
fn pairs_have_ladders_of_their_own() {
    let mut list = LinkedList::new();
    list.append(h(1), 12, h(5), OrderType::Sell);
    list.append(h(2), 7, h(6), OrderType::Buy);
    assert_eq!(walk_up(&mut list, h(1)), vec![Some(0), None, Some(12), Some(PMAX)]);
    assert_eq!(walk_up(&mut list, h(2)), vec![Some(0), Some(7), None, Some(PMAX)]);
}

#[test]
fn write_stores_an_item_as_it_is() {
    let mut list = LinkedList::new();
    let tp = h(9);
    let it = item(Some(7), Some(3), Some(9), vec![h(1)]);
    list.write(tp, Some(7), it.clone());
    assert_eq!(list.read(tp, Some(7)), it);
    // the sentinels are there as well
    assert_eq!(list.read_head(tp), item(None, Some(PMIN), Some(PMAX), vec![]));
}

#[test]
fn remove_item_of_a_missing_level_does_nothing() {
    let mut list = LinkedList::new();
    let orders: Table<H256, LimitOrder> = Table::new();
    let tp = h(9);
    list.append(tp, 12, h(5), OrderType::Sell);
    assert_eq!(list.remove_item(tp, 13, &orders), Ok(()));
    assert_eq!(walk_up(&mut list, tp), vec![Some(0), None, Some(12), Some(PMAX)]);
}

#[test]
fn remove_item_takes_a_finished_level_out() {
    let mut list = LinkedList::new();
    let mut orders: Table<H256, LimitOrder> = Table::new();
    let tp = h(9);
    rest(&mut list, &mut orders, tp, h(1), 20, OrderType::Sell, 10, 50);
    rest(&mut list, &mut orders, tp, h(2), 20, OrderType::Sell, 12, 10);
    rest(&mut list, &mut orders, tp, h(3), 20, OrderType::Sell, 12, 30);
    rest(&mut list, &mut orders, tp, h(4), 20, OrderType::Sell, 18, 100);
    finish(&mut orders, h(2));
    cancel(&mut orders, h(3));
    assert_eq!(list.remove_item(tp, 12, &orders), Ok(()));
    assert!(!list.contains(tp, Some(12)));
    assert_eq!(
        walk_up(&mut list, tp),
        vec![Some(0), None, Some(10), Some(18), Some(PMAX)]
    );
    assert_eq!(
        walk_down(&mut list, tp),
        vec![Some(PMAX), Some(18), Some(10), None, Some(0)]
    );
    assert_eq!(list.read(tp, Some(10)), item(Some(10), None, Some(18), vec![h(1)]));
    assert_eq!(list.read(tp, Some(18)), item(Some(18), Some(10), Some(PMAX), vec![h(4)]));
}

#[test]
fn remove_item_stops_at_an_unfinished_order() {
    let mut list = LinkedList::new();
    let mut orders: Table<H256, LimitOrder> = Table::new();
    let tp = h(9);
    rest(&mut list, &mut orders, tp, h(5), 20, OrderType::Sell, 12, 10);
    rest(&mut list, &mut orders, tp, h(6), 20, OrderType::Sell, 12, 30);
    rest(&mut list, &mut orders, tp, h(7), 20, OrderType::Sell, 12, 20);
    cancel(&mut orders, h(5));
    finish(&mut orders, h(7));
    assert_eq!(
        list.remove_item(tp, 12, &orders),
        Err(Error::LadderInvariant(LadderFault::TryRemoveUnfinished))
    );
    // the finished order at the front is gone, the others stay in order
    assert_eq!(
        list.read(tp, Some(12)),
        item(Some(12), None, Some(PMAX), vec![h(6), h(7)])
    );
}

#[test]
fn remove_item_stops_at_an_order_that_is_not_stored() {
    let mut list = LinkedList::new();
    let mut orders: Table<H256, LimitOrder> = Table::new();
    let tp = h(9);
    rest(&mut list, &mut orders, tp, h(5), 20, OrderType::Buy, 12, 10);
    list.append(tp, 12, h(6), OrderType::Buy);
    finish(&mut orders, h(5));
    assert_eq!(
        list.remove_item(tp, 12, &orders),
        Err(Error::LadderInvariant(LadderFault::MissingOrder))
    );
    assert_eq!(list.read(tp, Some(12)).orders, vec![h(6)]);
}

#[test]
fn a_filled_order_with_something_left_to_buy_is_not_finished() {
    let mut list = LinkedList::new();
    let mut orders: Table<H256, LimitOrder> = Table::new();
    let tp = h(9);
    let mut o = rest(&mut list, &mut orders, tp, h(5), 20, OrderType::Sell, 12, 10);
    o.status = OrderStatus::Filled;
    o.remained_sell_amount = 0;
    orders.insert(o.hash, o);
    assert_eq!(
        list.remove_item(tp, 12, &orders),
        Err(Error::LadderInvariant(LadderFault::TryRemoveUnfinished))
    );
    assert!(list.contains(tp, Some(12)));
}

#[test]
fn sentinels_are_never_removed() {
    let mut list = LinkedList::new();
    let orders: Table<H256, LimitOrder> = Table::new();
    let tp = h(9);
    assert_eq!(list.remove_item(tp, PMIN, &orders), Ok(()));
    assert_eq!(list.remove_item(tp, PMAX, &orders), Ok(()));
    assert_eq!(list.remove_items(tp, OrderType::Buy, &orders), Ok(()));
    assert_eq!(list.remove_items(tp, OrderType::Sell, &orders), Ok(()));
    assert_eq!(list.read_head(tp), item(None, Some(PMIN), Some(PMAX), vec![]));
    assert_eq!(list.read_bottom(tp), item(Some(PMIN), Some(PMAX), None, vec![]));
    assert_eq!(list.read_top(tp), item(Some(PMAX), None, Some(PMIN), vec![]));
}

#[test]
fn a_sentinel_loses_finished_orders_and_stays() {
    let mut list = LinkedList::new();
    let mut orders: Table<H256, LimitOrder> = Table::new();
    let tp = h(9);
    rest(&mut list, &mut orders, tp, h(5), 20, OrderType::Sell, PMAX, 10);
    assert_eq!(list.read_top(tp).orders, vec![h(5)]);
    cancel(&mut orders, h(5));
    assert_eq!(list.remove_item(tp, PMAX, &orders), Ok(()));
    assert_eq!(list.read_top(tp), item(Some(PMAX), None, Some(PMIN), vec![]));
}

#[test]
fn remove_items_prunes_from_the_head_outwards() {
    let mut list = LinkedList::new();
    let mut orders: Table<H256, LimitOrder> = Table::new();
    let tp = h(9);
    rest(&mut list, &mut orders, tp, h(1), 10, OrderType::Buy, 1, 12);
    rest(&mut list, &mut orders, tp, h(2), 10, OrderType::Buy, 2, 5);
    rest(&mut list, &mut orders, tp, h(3), 10, OrderType::Buy, 4, 100);
    rest(&mut list, &mut orders, tp, h(4), 20, OrderType::Sell, 5, 10);
    finish(&mut orders, h(3));
    finish(&mut orders, h(1));
    // the level at 4 goes; the level at 2 keeps its order and ends the pruning
    assert_eq!(
        list.remove_items(tp, OrderType::Buy, &orders),
        Err(Error::LadderInvariant(LadderFault::TryRemoveUnfinished))
    );
    assert_eq!(
        walk_up(&mut list, tp),
        vec![Some(0), Some(1), Some(2), None, Some(5), Some(PMAX)]
    );
    cancel(&mut orders, h(2));
    assert_eq!(list.remove_items(tp, OrderType::Buy, &orders), Ok(()));
    assert_eq!(walk_up(&mut list, tp), vec![Some(0), None, Some(5), Some(PMAX)]);
    // the other side was not touched
    assert_eq!(list.read(tp, Some(5)), item(Some(5), None, Some(PMAX), vec![h(4)]));
}

#[test]
fn linked_list_test_case() {
    let alice = 10;
    let bob = 20;

    let max = Some(u64::MAX);
    let min = Some(u64::MIN);

    let mut list = LinkedList::new();
    let mut orders: Table<H256, LimitOrder> = Table::new();
    let tp_hash = h(1000);

    let bottom = item(min, max, None, Vec::new());
    let top = item(max, None, min, Vec::new());
    let head = item(None, min, max, Vec::new());

    assert_eq!(head, list.read_head(tp_hash));
    assert_eq!(bottom, list.read_bottom(tp_hash));
    assert_eq!(top, list.read_top(tp_hash));

    // sell limit order
    let order1_hash = h(1);
    let order1 = rest(&mut list, &mut orders, tp_hash, order1_hash, bob, OrderType::Sell, 18, 100);
    assert_eq!(order1.sell_amount, 100);

    let order2_hash = h(2);
    let order2 = rest(&mut list, &mut orders, tp_hash, order2_hash, bob, OrderType::Sell, 10, 50);
    assert_eq!(order2.sell_amount, 50);

    let order3_hash = h(3);
    let order3 = rest(&mut list, &mut orders, tp_hash, order3_hash, bob, OrderType::Sell, 5, 10);
    assert_eq!(order3.sell_amount, 10);

    let order4_hash = h(4);
    let order4 = rest(&mut list, &mut orders, tp_hash, order4_hash, bob, OrderType::Sell, 5, 20);
    assert_eq!(order4.sell_amount, 20);

    let order5_hash = h(5);
    let order5 = rest(&mut list, &mut orders, tp_hash, order5_hash, bob, OrderType::Sell, 12, 10);
    assert_eq!(order5.sell_amount, 10);

    let order6_hash = h(6);
    let order6 = rest(&mut list, &mut orders, tp_hash, order6_hash, bob, OrderType::Sell, 12, 30);
    assert_eq!(order6.sell_amount, 30);

    let order7_hash = h(7);
    let order7 = rest(&mut list, &mut orders, tp_hash, order7_hash, bob, OrderType::Sell, 12, 20);
    assert_eq!(order7.sell_amount, 20);

    // buy limit order
    let order101_hash = h(101);
    let order101 = rest(&mut list, &mut orders, tp_hash, order101_hash, alice, OrderType::Buy, 2, 5);
    assert_eq!(order101.sell_amount, 5);

    let order102_hash = h(102);
    let order102 = rest(&mut list, &mut orders, tp_hash, order102_hash, alice, OrderType::Buy, 1, 12);
    assert_eq!(order102.sell_amount, 12);

    let order103_hash = h(103);
    let order103 = rest(&mut list, &mut orders, tp_hash, order103_hash, alice, OrderType::Buy, 4, 100);
    assert_eq!(order103.sell_amount, 100);

    let order104_hash = h(104);
    let order104 =
        rest(&mut list, &mut orders, tp_hash, order104_hash, alice, OrderType::Buy, 2, 1000000);
    assert_eq!(order104.sell_amount, 1000000);

    // head
    let mut it = item(None, Some(4), Some(5), Vec::new());
    assert_eq!(list.read_head(tp_hash), it);

    // item1
    let mut curr = it.next;
    it = item(Some(5), None, Some(10), vec![order3_hash, order4_hash]);
    assert_eq!(list.read(tp_hash, curr), it);

    // item2
    curr = it.next;
    it = item(Some(10), Some(5), Some(12), vec![order2_hash]);
    assert_eq!(list.read(tp_hash, curr), it);

    // item3
    curr = it.next;
    it = item(Some(12), Some(10), Some(18), vec![order5_hash, order6_hash, order7_hash]);
    assert_eq!(list.read(tp_hash, curr), it);

    // item4
    curr = it.next;
    it = item(Some(18), Some(12), max, vec![order1_hash]);
    assert_eq!(list.read(tp_hash, curr), it);

    // top
    it = item(max, Some(18), min, Vec::new());
    assert_eq!(list.read_top(tp_hash), it);

    // bottom
    it = item(min, max, Some(1), Vec::new());
    assert_eq!(list.read_bottom(tp_hash), it);

    // item1
    curr = it.next;
    it = item(Some(1), min, Some(2), vec![order102_hash]);
    assert_eq!(list.read(tp_hash, curr), it);

    // item2
    curr = it.next;
    it = item(Some(2), Some(1), Some(4), vec![order101_hash, order104_hash]);
    assert_eq!(list.read(tp_hash, curr), it);

    // item3
    curr = it.next;
    it = item(Some(4), Some(2), None, vec![order103_hash]);
    assert_eq!(list.read(tp_hash, curr), it);

    // remove sell orders
    let _ = list.remove_items(tp_hash, OrderType::Sell, &orders);
    let _ = list.remove_items(tp_hash, OrderType::Buy, &orders);

    assert_eq!(
        walk_up(&mut list, tp_hash),
        vec![
            Some(0),
            Some(1),
            Some(2),
            Some(4),
            None,
            Some(5),
            Some(10),
            Some(12),
            Some(18),
            max
        ]
    );

    // price = 5
    finish(&mut orders, order3_hash);
    cancel(&mut orders, order4_hash);

    // price = 10
    finish(&mut orders, order2_hash);

    // price = 12
    cancel(&mut orders, order5_hash);

    let mut order6 = order6;
    order6.remained_sell_amount = order6.remained_sell_amount.checked_sub(1).unwrap();
    order6.status = OrderStatus::PartialFilled;
    orders.insert(order6.hash, order6);

    let _ = list.remove_items(tp_hash, OrderType::Sell, &orders);

    // head
    it = item(None, Some(4), Some(12), Vec::new());
    assert_eq!(list.read_head(tp_hash), it);

    // item1
    curr = it.next;
    it = item(Some(12), None, Some(18), vec![order6_hash, order7_hash]);
    assert_eq!(list.read(tp_hash, curr), it);

    // item2
    curr = it.next;
    it = item(Some(18), Some(12), max, vec![order1_hash]);
    assert_eq!(list.read(tp_hash, curr), it);

    let _ = list.remove_items(tp_hash, OrderType::Sell, &orders);

    assert_eq!(
        walk_up(&mut list, tp_hash),
        vec![Some(0), Some(1), Some(2), Some(4), None, Some(12), Some(18), max]
    );
    assert_eq!(orders.get(&order6_hash).unwrap().remained_sell_amount, 29);

    // price = 18
    cancel(&mut orders, order1_hash);

    // price = 12
    finish(&mut orders, order6_hash);
    finish(&mut orders, order7_hash);

    let _ = list.remove_items(tp_hash, OrderType::Sell, &orders);

    // head
    it = item(None, Some(4), max, Vec::new());
    assert_eq!(list.read_head(tp_hash), it);

    assert_eq!(
        walk_up(&mut list, tp_hash),
        vec![Some(0), Some(1), Some(2), Some(4), None, max]
    );
    assert_eq!(list.read_top(tp_hash), item(max, None, min, Vec::new()));

    // remove buy orders
    // price = 4
    finish(&mut orders, order103_hash);

    // price = 2
    cancel(&mut orders, order101_hash);

    let mut order104 = order104;
    order104.remained_sell_amount = order104.remained_sell_amount.checked_sub(100).unwrap();
    order104.status = OrderStatus::PartialFilled;
    orders.insert(order104.hash, order104);

    let _ = list.remove_items(tp_hash, OrderType::Buy, &orders);

    // bottom
    it = item(min, max, Some(1), Vec::new());
    assert_eq!(list.read_bottom(tp_hash), it);

    // item1
    curr = it.next;
    it = item(Some(1), min, Some(2), vec![order102_hash]);
    assert_eq!(list.read(tp_hash, curr), it);

    // item2
    curr = it.next;
    it = item(Some(2), Some(1), None, vec![order104_hash]);
    assert_eq!(list.read(tp_hash, curr), it);

    assert_eq!(
        walk_up(&mut list, tp_hash),
        vec![Some(0), Some(1), Some(2), None, max]
    );
    assert_eq!(orders.get(&order104_hash).unwrap().remained_sell_amount, 999900);
    assert_eq!(list.read_head(tp_hash), item(None, Some(2), max, Vec::new()));

    // price = 2
    cancel(&mut orders, order104_hash);

    // price = 1
    finish(&mut orders, order102_hash);

    let _ = list.remove_items(tp_hash, OrderType::Buy, &orders);

    let bottom = item(min, max, None, Vec::new());
    let top = item(max, None, min, Vec::new());
    let head = item(None, min, max, Vec::new());

    assert_eq!(head, list.read_head(tp_hash));
    assert_eq!(bottom, list.read_bottom(tp_hash));
    assert_eq!(top, list.read_top(tp_hash));

    assert_eq!(walk_up(&mut list, tp_hash), vec![Some(0), None, max]);
}

#[test]
fn reading_a_key_that_is_not_stored_gives_a_head_and_stores_nothing() {
    let mut list = LinkedList::new();
    let tp = h(9);
    list.append(tp, 12, h(5), OrderType::Sell);
    assert_eq!(list.read(tp, Some(7)), item(None, Some(PMIN), Some(PMAX), vec![]));
    assert!(!list.contains(tp, Some(7)));
    assert_eq!(walk_up(&mut list, tp), vec![Some(0), None, Some(12), Some(PMAX)]);
    assert_eq!(list.read_head(tp), item(None, Some(PMIN), Some(12), vec![]));
    // in a pair that was never touched as well
    assert_eq!(list.read(h(8), Some(7)), item(None, Some(PMIN), Some(PMAX), vec![]));
    assert_eq!(list.read_top(h(8)), item(Some(PMAX), None, Some(PMIN), vec![]));
}
