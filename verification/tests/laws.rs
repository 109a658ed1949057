use order_book_trading_system::{
    Order, OrderBook, OrderType, TradingPriorityType, TradingSystem,
};

fn ask(price: u64, quantity: u64, owner: u64) -> Order {
    Order { order_type: OrderType::Ask, owner, price, quantity }
}

fn bid(price: u64, quantity: u64, owner: u64) -> Order {
    Order { order_type: OrderType::Bid, owner, price, quantity }
}

fn resting(book: &OrderBook) -> u64 {
    let mut total = 0;
    for at in 0..book.len() {
        for order in book.value_at(at).orders() {
            total += order.quantity;
        }
    }
    total
}

fn has_empty_level(book: &OrderBook) -> bool {
    (0..book.len()).any(|at| book.value_at(at).is_empty())
}

fn stream() -> Vec<Order> {
    vec![
        ask(100, 10, 1),
        ask(101, 4, 2),
        bid(99, 6, 3),
        bid(100, 12, 4),
        ask(98, 9, 5),
        ask(100, 1, 6),
        bid(105, 30, 7),
        ask(90, 25, 8),
        bid(91, 2, 9),
        bid(91, 2, 10),
        ask(91, 3, 11),
    ]
}

#[test]
fn every_submission_conserves_quantity() {
    for policy in [TradingPriorityType::Time, TradingPriorityType::Quantity] {
        let mut system = TradingSystem::new(policy);
        for order in stream() {
            let asks_before = resting(&system.ask_orders);
            let bids_before = resting(&system.bid_orders);
            system.handle_order(&order);
            let asks_after = resting(&system.ask_orders);
            let bids_after = resting(&system.bid_orders);
            match order.order_type {
                OrderType::Ask => {
                    assert!(bids_after <= bids_before);
                    assert!(asks_after >= asks_before);
                    assert_eq!(
                        order.quantity,
                        (bids_before - bids_after) + (asks_after - asks_before)
                    );
                }
                OrderType::Bid => {
                    assert!(asks_after <= asks_before);
                    assert!(bids_after >= bids_before);
                    assert_eq!(
                        order.quantity,
                        (asks_before - asks_after) + (bids_after - bids_before)
                    );
                }
            }
        }
    }
}

#[test]
fn no_submission_leaves_an_empty_level() {
    for policy in [TradingPriorityType::Time, TradingPriorityType::Quantity] {
        let mut system = TradingSystem::new(policy);
        for order in stream() {
            system.handle_order(&order);
            assert!(!has_empty_level(&system.ask_orders));
            assert!(!has_empty_level(&system.bid_orders));
        }
    }
}

#[test]
fn prices_of_a_book_stay_in_ascending_order() {
    for policy in [TradingPriorityType::Time, TradingPriorityType::Quantity] {
        let mut system = TradingSystem::new(policy);
        for order in stream() {
            system.handle_order(&order);
            for book in [&system.ask_orders, &system.bid_orders] {
                for at in 1..book.len() {
                    assert!(book.key_at(at - 1) < book.key_at(at));
                }
            }
        }
    }
}

#[test]
fn earlier_order_is_used_up_before_the_later_one_is_touched() {
    for quantity in 0..=16 {
        let mut system = TradingSystem::new(TradingPriorityType::Time);
        system.handle_order(&ask(100, 4, 1));
        system.handle_order(&ask(100, 6, 2));
        system.handle_order(&ask(100, 5, 3));
        system.handle_order(&bid(100, quantity, 9));
        let left = match system.ask_orders.get(&100) {
            Some(list) => list.orders(),
            None => Vec::new(),
        };
        let second = left.iter().find(|order| order.owner == 2);
        let third = left.iter().find(|order| order.owner == 3);
        if second != Some(&ask(100, 6, 2)) {
            assert!(left.iter().all(|order| order.owner != 1));
        }
        if third != Some(&ask(100, 5, 3)) {
            assert!(second.is_none());
        }
    }
}

#[test]
fn larger_bucket_is_used_up_before_the_smaller_one_is_touched() {
    for quantity in 0..=16 {
        let mut system = TradingSystem::new(TradingPriorityType::Quantity);
        system.handle_order(&bid(100, 5, 1));
        system.handle_order(&bid(100, 10, 2));
        system.handle_order(&ask(100, quantity, 9));
        let left = match system.bid_orders.get(&100) {
            Some(list) => list.orders(),
            None => Vec::new(),
        };
        let small = left.iter().find(|order| order.owner == 1);
        if small != Some(&bid(100, 5, 1)) {
            assert!(left.iter().all(|order| order.owner != 2));
        }
    }
}

#[test]
fn using_up_one_level_exactly_touches_no_other_level() {
    let mut system = TradingSystem::new(TradingPriorityType::Time);
    system.handle_order(&bid(101, 5, 1));
    system.handle_order(&bid(101, 2, 2));
    system.handle_order(&bid(100, 5, 3));
    system.handle_order(&bid(99, 8, 4));
    system.handle_order(&ask(1, 7, 5));

    assert_eq!(system.bid_orders.len(), 2);
    assert_eq!(system.bid_orders.get(&100).unwrap().orders(), vec![bid(100, 5, 3)]);
    assert_eq!(system.bid_orders.get(&99).unwrap().orders(), vec![bid(99, 8, 4)]);
    assert!(system.ask_orders.is_empty());
}

#[test]
fn level_that_better_prices_cover_is_untouched() {
    let mut system = TradingSystem::new(TradingPriorityType::Quantity);
    system.handle_order(&ask(10, 3, 1));
    system.handle_order(&ask(11, 4, 2));
    system.handle_order(&ask(12, 5, 3));
    system.handle_order(&bid(10, 6, 4));

    assert!(system.ask_orders.get(&10).is_none());
    assert_eq!(system.ask_orders.get(&11).unwrap().orders(), vec![ask(11, 1, 2)]);
    assert_eq!(system.ask_orders.get(&12).unwrap().orders(), vec![ask(12, 5, 3)]);
}

#[test]
fn resting_order_changes_only_the_level_at_its_price() {
    let mut system = TradingSystem::new(TradingPriorityType::Time);
    system.handle_order(&ask(10, 3, 1));
    system.handle_order(&ask(12, 5, 2));
    system.handle_order(&ask(11, 4, 3));
    system.handle_order(&ask(12, 1, 4));

    assert_eq!(system.ask_orders.get(&10).unwrap().orders(), vec![ask(10, 3, 1)]);
    assert_eq!(system.ask_orders.get(&11).unwrap().orders(), vec![ask(11, 4, 3)]);
    assert_eq!(
        system.ask_orders.get(&12).unwrap().orders(),
        vec![ask(12, 5, 2), ask(12, 1, 4)]
    );
}
