use order_book_trading_system::{Order, OrderList, OrderType, TradingPriorityType, TradingSystem};

fn ask(price: u64, quantity: u64, owner: u64) -> Order {
    Order { order_type: OrderType::Ask, owner, price, quantity }
}

fn bid(price: u64, quantity: u64, owner: u64) -> Order {
    Order { order_type: OrderType::Bid, owner, price, quantity }
}

#[test]
fn time_policy_fills_the_oldest_ask_in_part() {
    let mut system = TradingSystem::new(TradingPriorityType::Time);
    system.handle_order(&ask(100, 10, 1));
    system.handle_order(&ask(100, 5, 2));
    system.handle_order(&bid(100, 5, 3));

    assert_eq!(system.ask_orders.len(), 1);
    assert_eq!(system.bid_orders.len(), 0);
    let resting = system.ask_orders.get(&100).unwrap().orders();
    assert_eq!(resting, vec![ask(100, 5, 1), ask(100, 5, 2)]);
    assert!(matches!(system.ask_orders.get(&100), Some(OrderList::Time(_))));
}

#[test]
fn quantity_policy_fills_the_larger_ask_in_part() {
    let mut system = TradingSystem::new(TradingPriorityType::Quantity);
    system.handle_order(&ask(100, 10, 1));
    system.handle_order(&ask(100, 5, 2));
    system.handle_order(&bid(100, 5, 3));

    assert_eq!(system.ask_orders.len(), 1);
    assert_eq!(system.bid_orders.len(), 0);
    let resting = system.ask_orders.get(&100).unwrap().orders();
    assert_eq!(resting, vec![ask(100, 5, 1), ask(100, 5, 2)]);
    assert!(matches!(system.ask_orders.get(&100), Some(OrderList::Quantity(_))));
}

#[test]
fn full_cross_leaves_both_books_without_the_level() {
    let mut system = TradingSystem::new(TradingPriorityType::Time);
    system.handle_order(&bid(100, 10, 1));
    assert_eq!(system.bid_orders.len(), 1);
    system.handle_order(&ask(100, 10, 2));

    assert!(system.bid_orders.get(&100).is_none());
    assert!(system.ask_orders.get(&100).is_none());
    assert!(system.bid_orders.is_empty());
    assert!(system.ask_orders.is_empty());
}

#[test]
fn ask_is_matched_against_the_highest_bid_first() {
    let mut system = TradingSystem::new(TradingPriorityType::Time);
    system.handle_order(&bid(101, 5, 1));
    system.handle_order(&bid(100, 5, 2));
    system.handle_order(&ask(100, 5, 3));

    assert!(system.bid_orders.get(&101).is_none());
    assert_eq!(system.bid_orders.get(&100).unwrap().orders(), vec![bid(100, 5, 2)]);
    assert_eq!(system.bid_orders.len(), 1);
    assert!(system.ask_orders.is_empty());
}

#[test]
fn bid_is_matched_against_the_lowest_ask_first() {
    let mut system = TradingSystem::new(TradingPriorityType::Time);
    system.handle_order(&ask(100, 5, 1));
    system.handle_order(&ask(99, 5, 2));
    system.handle_order(&bid(100, 5, 3));

    assert!(system.ask_orders.get(&99).is_none());
    assert_eq!(system.ask_orders.get(&100).unwrap().orders(), vec![ask(100, 5, 1)]);
    assert!(system.bid_orders.is_empty());
}

#[test]
fn quantity_policy_takes_three_from_the_order_of_ten() {
    let mut system = TradingSystem::new(TradingPriorityType::Quantity);
    system.handle_order(&bid(100, 5, 1));
    system.handle_order(&bid(100, 10, 2));
    system.handle_order(&ask(100, 3, 3));

    let resting = system.bid_orders.get(&100).unwrap().orders();
    assert_eq!(resting, vec![bid(100, 7, 2), bid(100, 5, 1)]);
    assert!(system.ask_orders.is_empty());
}

#[test]
fn partly_filled_order_stays_in_the_bucket_it_came_into() {
    let mut system = TradingSystem::new(TradingPriorityType::Quantity);
    system.handle_order(&ask(100, 10, 1));
    system.handle_order(&ask(100, 8, 2));
    system.handle_order(&bid(100, 5, 3));
    // owner 1 now holds 5, less than owner 2, and is still matched first
    system.handle_order(&bid(100, 1, 4));

    let resting = system.ask_orders.get(&100).unwrap().orders();
    assert_eq!(resting, vec![ask(100, 4, 1), ask(100, 8, 2)]);
    match system.ask_orders.get(&100).unwrap() {
        OrderList::Quantity(buckets) => {
            assert_eq!(buckets.len(), 2);
            assert_eq!(buckets.key_at(0), 8);
            assert_eq!(buckets.key_at(1), 10);
            assert_eq!(buckets.value_at(1)[0], ask(100, 4, 1));
        }
        OrderList::Time(_) => panic!("the level was made under the quantity policy"),
    }
}

#[test]
fn limit_price_is_not_held_against_the_resting_price() {
    let mut system = TradingSystem::new(TradingPriorityType::Time);
    system.handle_order(&bid(90, 5, 1));
    // an ask at 100 is still matched against the bid at 90
    system.handle_order(&ask(100, 3, 2));

    assert_eq!(system.bid_orders.get(&90).unwrap().orders(), vec![bid(90, 2, 1)]);
    assert!(system.ask_orders.is_empty());
}

#[test]
fn residual_rests_with_what_is_left_of_it() {
    let mut system = TradingSystem::new(TradingPriorityType::Time);
    system.handle_order(&bid(100, 10, 1));
    system.handle_order(&ask(105, 15, 2));

    assert!(system.bid_orders.is_empty());
    assert_eq!(system.ask_orders.len(), 1);
    assert_eq!(system.ask_orders.get(&105).unwrap().orders(), vec![ask(105, 5, 2)]);
}

#[test]
fn order_sweeps_several_levels_and_stops_inside_one() {
    let mut system = TradingSystem::new(TradingPriorityType::Time);
    system.handle_order(&ask(103, 4, 1));
    system.handle_order(&ask(101, 2, 2));
    system.handle_order(&ask(102, 3, 3));
    system.handle_order(&ask(101, 1, 4));
    assert_eq!(system.ask_orders.len(), 3);
    assert_eq!(system.ask_orders.key_at(0), 101);
    assert_eq!(system.ask_orders.key_at(1), 102);
    assert_eq!(system.ask_orders.key_at(2), 103);

    system.handle_order(&bid(200, 7, 5));

    assert_eq!(system.ask_orders.len(), 1);
    assert_eq!(system.ask_orders.get(&103).unwrap().orders(), vec![ask(103, 3, 1)]);
    assert!(system.bid_orders.is_empty());
}

#[test]
fn order_without_quantity_changes_nothing() {
    let mut system = TradingSystem::new(TradingPriorityType::Time);
    system.handle_order(&ask(100, 5, 1));
    system.handle_order(&bid(50, 0, 2));
    system.handle_order(&ask(70, 0, 3));

    assert_eq!(system.ask_orders.len(), 1);
    assert_eq!(system.ask_orders.get(&100).unwrap().orders(), vec![ask(100, 5, 1)]);
    assert!(system.bid_orders.is_empty());
}

#[test]
fn level_keeps_the_arrangement_it_was_made_with() {
    let mut system = TradingSystem::new(TradingPriorityType::Quantity);
    system.handle_order(&bid(10, 1, 1));
    system.handle_order(&bid(12, 2, 2));
    system.handle_order(&bid(10, 3, 3));
    assert!(matches!(system.bid_orders.get(&10), Some(OrderList::Quantity(_))));
    assert!(matches!(system.bid_orders.get(&12), Some(OrderList::Quantity(_))));
    assert_eq!(system.bid_orders.get(&10).unwrap().orders(), vec![bid(10, 3, 3), bid(10, 1, 1)]);

    let by_default = TradingSystem::default();
    assert!(by_default.ask_orders.is_empty());
    assert!(by_default.bid_orders.is_empty());
    let mut by_default = by_default;
    by_default.handle_order(&ask(5, 1, 1));
    assert!(matches!(by_default.ask_orders.get(&5), Some(OrderList::Time(_))));
}
