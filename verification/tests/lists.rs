use order_book_trading_system::{
    Entry, FifoList, Order, OrderBook, OrderList, OrderType, OrderedMap, QuantityPriorityList,
    TradingPriorityType, TradingSystem,
};

fn ask(price: u64, quantity: u64, owner: u64) -> Order {
    Order { order_type: OrderType::Ask, owner, price, quantity }
}

fn fifo(orders: &[Order]) -> FifoList {
    let mut list = FifoList::new();
    for order in orders {
        list.push_new(*order);
    }
    list
}

fn contents(list: &FifoList) -> Vec<Order> {
    let mut orders = Vec::new();
    list.append_to(&mut orders);
    orders
}

#[test]
fn fifo_list_hands_orders_out_in_the_order_they_came() {
    let mut list = FifoList::new();
    assert!(list.is_empty());
    assert_eq!(list.len(), 0);
    assert_eq!(list.pop_oldest(), None);
    assert!(list.oldest_mut().is_none());

    list.push_new(ask(100, 1, 1));
    list.push_new(ask(100, 2, 2));
    list.push_new(ask(100, 3, 3));
    assert!(!list.is_empty());
    assert_eq!(list.len(), 3);
    assert_eq!(list[0], ask(100, 1, 1));
    assert_eq!(list[2], ask(100, 3, 3));

    assert_eq!(list.pop_oldest(), Some(ask(100, 1, 1)));
    assert_eq!(list.len(), 2);
    assert_eq!(contents(&list), vec![ask(100, 2, 2), ask(100, 3, 3)]);
    assert_eq!(FifoList::default(), FifoList::new());
}

#[test]
fn fifo_list_oldest_can_be_changed_in_place() {
    let mut list = fifo(&[ask(100, 10, 1), ask(100, 5, 2)]);
    assert_eq!(list.oldest_mut().map(|order| *order), Some(ask(100, 10, 1)));
    if let Some(oldest) = list.oldest_mut() {
        oldest.quantity = 4;
        oldest.owner = 7;
    }
    assert_eq!(contents(&list), vec![ask(100, 4, 7), ask(100, 5, 2)]);
    assert_eq!(list.len(), 2);
}

#[test]
fn fifo_list_is_walked_from_the_oldest_order() {
    let list = fifo(&[ask(100, 1, 1), ask(100, 2, 2), ask(100, 3, 3)]);
    let mut owners = Vec::new();
    for order in &list {
        owners.push(order.owner);
    }
    assert_eq!(owners, vec![1, 2, 3]);
    assert_eq!((&FifoList::new()).into_iter().count(), 0);
}

#[test]
fn fifo_list_appends_behind_what_a_vector_holds() {
    let list = fifo(&[ask(1, 1, 1), ask(2, 2, 2)]);
    let mut orders = vec![ask(9, 9, 9)];
    list.append_to(&mut orders);
    assert_eq!(orders, vec![ask(9, 9, 9), ask(1, 1, 1), ask(2, 2, 2)]);
}

#[test]
fn time_list_fills_whole_orders_then_part_of_one() {
    let mut list = fifo(&[ask(100, 3, 1), ask(100, 4, 2), ask(100, 5, 3)]);
    let mut quantity = 9;
    TradingSystem::handle_time_priority_list(&mut list, &mut quantity);
    assert_eq!(quantity, 0);
    assert_eq!(contents(&list), vec![ask(100, 3, 3)]);
}

#[test]
fn time_list_that_is_used_up_returns_the_rest() {
    let mut list = fifo(&[ask(100, 3, 1), ask(100, 4, 2)]);
    let mut quantity = 10;
    TradingSystem::handle_time_priority_list(&mut list, &mut quantity);
    assert_eq!(quantity, 3);
    assert!(list.is_empty());

    let mut quantity = 6;
    TradingSystem::handle_time_priority_list(&mut list, &mut quantity);
    assert_eq!(quantity, 6);
    assert!(list.is_empty());
}

#[test]
fn time_list_exact_fill_removes_the_order() {
    let mut list = fifo(&[ask(100, 3, 1), ask(100, 4, 2)]);
    let mut quantity = 3;
    TradingSystem::handle_time_priority_list(&mut list, &mut quantity);
    assert_eq!(quantity, 0);
    assert_eq!(contents(&list), vec![ask(100, 4, 2)]);

    let mut nothing = 0;
    TradingSystem::handle_time_priority_list(&mut list, &mut nothing);
    assert_eq!(nothing, 0);
    assert_eq!(contents(&list), vec![ask(100, 4, 2)]);
}

#[test]
fn time_list_matches_up_to_the_largest_quantity() {
    let mut list = fifo(&[ask(100, u64::MAX, 1), ask(100, u64::MAX, 2)]);
    let mut quantity = u64::MAX;
    TradingSystem::handle_time_priority_list(&mut list, &mut quantity);
    assert_eq!(quantity, 0);
    assert_eq!(contents(&list), vec![ask(100, u64::MAX, 2)]);
}

#[test]
fn quantity_list_goes_through_buckets_from_the_largest() {
    let mut list = OrderList::new_quantity_priority();
    list.push(ask(100, 5, 1));
    list.push(ask(100, 10, 2));
    list.push(ask(100, 5, 3));
    list.push(ask(100, 7, 4));
    assert_eq!(
        list.orders(),
        vec![ask(100, 10, 2), ask(100, 7, 4), ask(100, 5, 1), ask(100, 5, 3)]
    );

    let mut quantity = 20;
    list.consume(&mut quantity);
    assert_eq!(quantity, 0);
    assert_eq!(list.orders(), vec![ask(100, 2, 1), ask(100, 5, 3)]);

    let mut quantity = 9;
    list.consume(&mut quantity);
    assert_eq!(quantity, 2);
    assert!(list.is_empty());
    assert_eq!(list.orders(), Vec::new());
}

#[test]
fn quantity_list_removes_a_bucket_that_is_used_up() {
    let mut buckets = QuantityPriorityList::new();
    buckets.get_or_insert(4, FifoList::new()).push_new(ask(100, 4, 1));
    buckets.get_or_insert(9, FifoList::new()).push_new(ask(100, 9, 2));
    buckets.get_or_insert(4, FifoList::new()).push_new(ask(100, 4, 3));
    assert_eq!(buckets.len(), 2);

    let mut quantity = 9;
    TradingSystem::handle_quantity_priority_list(&mut buckets, &mut quantity);
    assert_eq!(quantity, 0);
    assert_eq!(buckets.len(), 1);
    assert_eq!(buckets.key_at(0), 4);
    assert_eq!(buckets.orders(), vec![ask(100, 4, 1), ask(100, 4, 3)]);

    let mut quantity = 5;
    TradingSystem::handle_quantity_priority_list(&mut buckets, &mut quantity);
    assert_eq!(quantity, 0);
    assert_eq!(buckets.orders(), vec![ask(100, 3, 3)]);

    let mut quantity = 5;
    TradingSystem::handle_quantity_priority_list(&mut buckets, &mut quantity);
    assert_eq!(quantity, 2);
    assert!(buckets.is_empty());
}

#[test]
fn quantity_list_with_only_empty_buckets_is_empty() {
    let without_buckets = OrderList::new_quantity_priority();
    assert!(without_buckets.is_empty());
    assert_eq!(without_buckets.orders(), Vec::new());

    let mut buckets = QuantityPriorityList::new();
    buckets.get_or_insert(5, FifoList::new());
    assert!(!buckets.is_empty());
    assert_eq!(buckets.len(), 1);
    assert!(buckets.holds_no_order());
    let list = OrderList::Quantity(buckets);
    assert!(list.is_empty());
    assert_eq!(list.orders(), Vec::new());

    let mut buckets = QuantityPriorityList::new();
    buckets.get_or_insert(5, FifoList::new());
    buckets.get_or_insert(9, FifoList::new());
    buckets.get_or_insert(2, FifoList::new());
    assert!(buckets.holds_no_order());
    assert!(OrderList::Quantity(buckets).is_empty());
}

#[test]
fn quantity_list_with_an_order_under_empty_buckets_is_not_empty() {
    let mut buckets = QuantityPriorityList::new();
    buckets.get_or_insert(3, FifoList::new()).push_new(ask(100, 3, 1));
    buckets.get_or_insert(5, FifoList::new());
    buckets.get_or_insert(9, FifoList::new());
    assert!(!buckets.holds_no_order());
    let list = OrderList::Quantity(buckets);
    assert!(!list.is_empty());
    assert_eq!(list.orders(), vec![ask(100, 3, 1)]);

    let mut buckets = QuantityPriorityList::new();
    buckets.get_or_insert(3, FifoList::new());
    buckets.get_or_insert(9, FifoList::new()).push_new(ask(100, 9, 2));
    assert!(!buckets.holds_no_order());
    assert!(!OrderList::Quantity(buckets).is_empty());
}

#[test]
fn quantity_list_is_empty_again_once_it_is_used_up() {
    let mut list = OrderList::new_quantity_priority();
    list.push(ask(100, 4, 1));
    list.push(ask(100, 6, 2));
    assert!(!list.is_empty());
    let mut quantity = 10;
    list.consume(&mut quantity);
    assert_eq!(quantity, 0);
    assert!(list.is_empty());
    assert!(matches!(&list, OrderList::Quantity(buckets) if buckets.len() == 0));
}

#[test]
fn book_drops_a_level_whose_buckets_are_all_empty() {
    let mut book: OrderBook = OrderBook::new();
    let mut hollow = QuantityPriorityList::new();
    hollow.get_or_insert(5, FifoList::new());
    hollow.get_or_insert(7, FifoList::new());
    *book.entry_or_create(10, TradingPriorityType::Quantity) = OrderList::Quantity(hollow);
    book.entry_or_create(11, TradingPriorityType::Quantity).push(ask(11, 2, 1));
    assert_eq!(book.len(), 2);

    book.remove_empty_levels();
    assert_eq!(book.len(), 1);
    assert_eq!(book.key_at(0), 11);
    assert!(book.get(&10).is_none());
}

#[test]
fn time_list_keeps_the_order_of_arrival() {
    let mut list = OrderList::new_time_priority();
    assert!(list.is_empty());
    list.push(ask(100, 5, 1));
    list.push(ask(100, 10, 2));
    assert!(!list.is_empty());
    assert_eq!(list.orders(), vec![ask(100, 5, 1), ask(100, 10, 2)]);

    let mut quantity = 6;
    list.consume(&mut quantity);
    assert_eq!(quantity, 0);
    assert_eq!(list.orders(), vec![ask(100, 9, 2)]);
}

#[test]
fn order_list_is_made_for_either_policy() {
    assert!(matches!(OrderList::new(TradingPriorityType::Time), OrderList::Time(_)));
    assert!(matches!(OrderList::new(TradingPriorityType::Quantity), OrderList::Quantity(_)));
    assert!(matches!(OrderList::new_time_priority(), OrderList::Time(_)));
    assert!(matches!(OrderList::new_quantity_priority(), OrderList::Quantity(_)));
    assert!(matches!(OrderList::default(), OrderList::Time(_)));
    assert!(OrderList::new_quantity_priority().is_empty());
    assert_eq!(TradingPriorityType::default(), TradingPriorityType::Time);
}

#[test]
fn ordered_map_keeps_its_keys_in_order() {
    let mut map: OrderedMap<FifoList> = OrderedMap::new();
    assert!(map.is_empty());
    assert_eq!(map.search(5), Err(0));
    assert!(map.get(&5).is_none());

    for key in [50, 10, 30, 20, 40, 30] {
        map.get_or_insert(key, FifoList::new()).push_new(ask(key, key, key));
    }
    assert_eq!(map.len(), 5);
    assert!(!map.is_empty());
    for at in 0..5 {
        assert_eq!(map.key_at(at), 10 * (at as u64 + 1));
    }
    assert_eq!(map.value_at(2).len(), 2);
    assert_eq!(map.get(&30).unwrap().len(), 2);
    assert_eq!(map.get(&40).unwrap()[0], ask(40, 40, 40));
    assert!(map.get(&35).is_none());

    assert_eq!(map.search(10), Ok(0));
    assert_eq!(map.search(50), Ok(4));
    assert_eq!(map.search(5), Err(0));
    assert_eq!(map.search(25), Err(2));
    assert_eq!(map.search(51), Err(5));
}

#[test]
fn ordered_map_gives_up_its_entries_from_the_back_or_all_at_once() {
    let mut map: OrderedMap<FifoList> = OrderedMap::new();
    assert!(map.pop_last().is_none());
    map.push_last(1, fifo(&[ask(1, 1, 1)]));
    map.push_last(4, fifo(&[ask(4, 4, 4)]));
    map.push_last(9, FifoList::new());
    assert_eq!(map.len(), 3);

    map.value_at_mut(2).push_new(ask(9, 9, 9));
    assert_eq!(map.value_at(2)[0], ask(9, 9, 9));
    assert_eq!(map.pop_last(), Some(Entry { key: 9, value: fifo(&[ask(9, 9, 9)]) }));
    assert_eq!(map.len(), 2);

    let entries = map.take_entries();
    assert!(map.is_empty());
    assert_eq!(
        entries,
        vec![
            Entry { key: 1, value: fifo(&[ask(1, 1, 1)]) },
            Entry { key: 4, value: fifo(&[ask(4, 4, 4)]) },
        ]
    );
}

#[test]
fn book_drops_the_levels_without_orders() {
    let mut system = TradingSystem::new(TradingPriorityType::Time);
    system.ask_orders.get_or_insert(10, OrderList::new_time_priority());
    system.ask_orders.get_or_insert(11, OrderList::new_time_priority()).push(ask(11, 2, 1));
    system.ask_orders.get_or_insert(12, OrderList::new_quantity_priority());
    system.ask_orders.get_or_insert(13, OrderList::new_quantity_priority()).push(ask(13, 4, 2));
    assert_eq!(system.ask_orders.len(), 4);

    system.ask_orders.entry_or_create(13, TradingPriorityType::Time).push(ask(13, 1, 3));
    system.ask_orders.entry_or_create(14, TradingPriorityType::Quantity);
    assert_eq!(system.ask_orders.len(), 5);
    assert!(matches!(system.ask_orders.get(&13), Some(OrderList::Quantity(_))));
    assert!(matches!(system.ask_orders.get(&14), Some(OrderList::Quantity(_))));

    system.ask_orders.remove_empty_levels();
    assert_eq!(system.ask_orders.len(), 2);
    assert_eq!(system.ask_orders.key_at(0), 11);
    assert_eq!(system.ask_orders.key_at(1), 13);
    assert_eq!(system.asks().get(&13).unwrap().orders(), vec![ask(13, 4, 2), ask(13, 1, 3)]);
    assert!(system.bids().is_empty());
}
