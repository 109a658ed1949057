use vstd::prelude::*;

use crate::book::{Order, OrderBook, OrderListView, OrderType};
use crate::matching::{
    book_sided, book_total, book_wf, buckets_total, fill_buckets, fill_fifo, fill_levels,
    lemma_fill_buckets_total, lemma_fill_fifo_total, lemma_fill_levels,
    lemma_fill_levels_sided, lemma_pass_end, lemma_pass_step, lemma_rest_order,
    lemma_rest_order_sided, pass_outcome, rest_order, total_quantity, unfilled,
};
use crate::types::{lemma_rank_parts, lemma_with_key, Entry, FifoList, QuantityPriorityList};

verus! {

/// The rule that decides which of the orders resting at one price is matched
/// first.
#[derive(Debug, Clone, Copy, PartialEq, Eq, Structural)]
pub enum TradingPriorityType {
    /// Earliest first
    Time,
    /// Largest first
    Quantity,
}

impl Default for TradingPriorityType {
    fn default() -> (priority_type: Self)
        ensures
            priority_type == TradingPriorityType::Time,
    {
        TradingPriorityType::Time
    }
}

impl OrderType {
    /// The side that orders of this side are matched against.
    pub open spec fn opposite(self) -> OrderType {
        match self {
            OrderType::Ask => OrderType::Bid,
            OrderType::Bid => OrderType::Ask,
        }
    }
}

/// The matching engine: a book of resting asks, a book of resting bids, and
/// the priority rule that every price level made from now on will follow.
#[derive(Debug)]
pub struct TradingSystem {
    priority_type: TradingPriorityType,
    pub ask_orders: OrderBook,
    pub bid_orders: OrderBook,
}

/// What a [`TradingSystem`] holds.
pub struct TradingSystemView {
    pub priority_type: TradingPriorityType,
    /// The price levels of the resting asks, lowest price first.
    pub ask_orders: Seq<Entry<OrderListView>>,
    /// The price levels of the resting bids, lowest price first.
    pub bid_orders: Seq<Entry<OrderListView>>,
}

impl TradingSystemView {
    /// The invariant of the system between two submissions: both books keep
    /// theirs, the asks rest among the asks and the bids among the bids, and
    /// every order rests at the level of its own limit price.
    pub open spec fn wf(self) -> bool {
        &&& book_wf(self.ask_orders)
        &&& book_wf(self.bid_orders)
        &&& book_sided(self.ask_orders, OrderType::Ask)
        &&& book_sided(self.bid_orders, OrderType::Bid)
    }

    /// The book in which the orders of `side` rest.
    pub open spec fn book(self, side: OrderType) -> Seq<Entry<OrderListView>> {
        match side {
            OrderType::Ask => self.ask_orders,
            OrderType::Bid => self.bid_orders,
        }
    }

    /// The open quantity of all orders resting on `side`.
    pub open spec fn resting(self, side: OrderType) -> nat {
        book_total(self.book(side))
    }

    /// The system after `order` has been submitted. The order is matched
    /// against the book of the opposite side, best price first: the highest
    /// bid for an incoming ask, the lowest ask for an incoming bid. Its own
    /// limit price plays no part in that. What is left of it comes to rest in
    /// the book of its own side, at its price. An order with no quantity
    /// changes nothing.
    pub open spec fn submitted(self, order: Order) -> TradingSystemView {
        let own = order.order_type;
        let facing = own.opposite();
        let left = unfilled(order.quantity as nat, self.resting(facing));
        let matched = fill_levels(self.book(facing), facing, order.quantity as nat);
        let rested = if left > 0 {
            rest_order(self.book(own), self.priority_type, order.with_quantity(left as u64))
        } else {
            self.book(own)
        };
        match own {
            OrderType::Ask => TradingSystemView {
                priority_type: self.priority_type,
                ask_orders: rested,
                bid_orders: matched,
            },
            OrderType::Bid => TradingSystemView {
                priority_type: self.priority_type,
                ask_orders: matched,
                bid_orders: rested,
            },
        }
    }

    /// A submission keeps the invariant of the system, and the quantity of
    /// the order is accounted for: the opposite book only loses quantity, the
    /// book of the order's own side only gains, and what the one lost and the
    /// other gained add up to the order's quantity.
    pub proof fn lemma_submitted(self, order: Order)
        requires
            self.wf(),
        ensures
            self.submitted(order).wf(),
            self.submitted(order).priority_type == self.priority_type,
            self.submitted(order).resting(order.order_type.opposite()) <= self.resting(
                order.order_type.opposite(),
            ),
            self.submitted(order).resting(order.order_type) >= self.resting(order.order_type),
            order.quantity == (self.resting(order.order_type.opposite())
                - self.submitted(order).resting(order.order_type.opposite()))
                + (self.submitted(order).resting(order.order_type)
                - self.resting(order.order_type)),
    {
        let own = order.order_type;
        let facing = own.opposite();
        let left = unfilled(order.quantity as nat, self.resting(facing));
        lemma_fill_levels(self.book(facing), facing, order.quantity as nat);
        lemma_fill_levels_sided(self.book(facing), facing, order.quantity as nat, facing);
        if left > 0 {
            let residual = order.with_quantity(left as u64);
            lemma_rest_order(self.book(own), self.priority_type, residual);
            lemma_rest_order_sided(self.book(own), self.priority_type, residual);
        }
    }
}

impl View for TradingSystem {
    type V = TradingSystemView;

    closed spec fn view(&self) -> TradingSystemView {
        TradingSystemView {
            priority_type: self.priority_type,
            ask_orders: self.ask_orders@,
            bid_orders: self.bid_orders@,
        }
    }
}

impl Default for TradingSystem {
    fn default() -> (system: Self)
        ensures
            system@ == (TradingSystemView {
                priority_type: TradingPriorityType::Time,
                ask_orders: Seq::empty(),
                bid_orders: Seq::empty(),
            }),
            system.wf(),
    {
        TradingSystem::new(TradingPriorityType::Time)
    }
}

impl TradingSystem {
    /// The invariant of the system between two submissions.
    pub open spec fn wf(&self) -> bool {
        self@.wf()
    }

    /// A system with two empty books, whose price levels will follow
    /// `priority_type`.
    pub fn new(priority_type: TradingPriorityType) -> (system: Self)
        ensures
            system@ == (TradingSystemView {
                priority_type,
                ask_orders: Seq::empty(),
                bid_orders: Seq::empty(),
            }),
            system.wf(),
    {
        Self { priority_type, ask_orders: OrderBook::new(), bid_orders: OrderBook::new() }
    }

    /// The book of the resting asks.
    pub fn asks(&self) -> (book: &OrderBook)
        ensures
            book@ == self@.ask_orders,
    {
        &self.ask_orders
    }

    /// The book of the resting bids.
    pub fn bids(&self) -> (book: &OrderBook)
        ensures
            book@ == self@.bid_orders,
    {
        &self.bid_orders
    }

    /// Submits `order`: matches it against the book of the opposite side,
    /// best price first, and lets what is left of it rest in the book of its
    /// own side. Every order is accepted. Its limit price decides where it
    /// rests, not what it is matched against, and an order without quantity
    /// changes nothing.
    pub fn handle_order(&mut self, order: &Order)
        requires
            old(self).wf(),
        ensures
            final(self)@ == old(self)@.submitted(*order),
            final(self).wf(),
            order.quantity == (old(self)@.resting(order.order_type.opposite())
                - final(self)@.resting(order.order_type.opposite()))
                + (final(self)@.resting(order.order_type)
                - old(self)@.resting(order.order_type)),
    {
        proof {
            self@.lemma_submitted(*order);
        }
        match order.order_type {
            OrderType::Ask => self.handle_ask(order),
            OrderType::Bid => self.handle_bid(order),
        }
    }

    /// Matches an incoming ask against the resting bids, highest price
    /// first, and lets what is left of it rest among the asks.
    fn handle_ask(&mut self, ask_order: &Order)
        requires
            old(self).wf(),
            ask_order.order_type == OrderType::Ask,
        ensures
            final(self)@ == old(self)@.submitted(*ask_order),
    {
        let mut remaining_quantity: u64 = ask_order.quantity;
        let ghost resting = self.bid_orders@;

        // iterate through the bid orders from the highest price
        let mut high: usize = self.bid_orders.len();
        proof {
            assert(resting.subrange(0, high as int) =~= resting);
            assert(resting.take(0) =~= Seq::<Entry<OrderListView>>::empty());
        }
        while high > 0 && remaining_quantity > 0
            invariant
                high <= self.bid_orders@.len(),
                self.bid_orders.wf(),
                book_wf(self.bid_orders@.subrange(0, high as int)),
                pass_outcome(
                    self.bid_orders@,
                    0,
                    high as int,
                    OrderType::Bid,
                    remaining_quantity as nat,
                ) == fill_levels(resting, OrderType::Bid, ask_order.quantity as nat),
                unfilled(
                    remaining_quantity as nat,
                    book_total(self.bid_orders@.subrange(0, high as int)),
                ) == unfilled(ask_order.quantity as nat, book_total(resting)),
                self.ask_orders@ == old(self).ask_orders@,
                self.priority_type == old(self).priority_type,
            decreases high,
        {
            proof {
                lemma_pass_step(
                    self.bid_orders@,
                    0,
                    high as int,
                    OrderType::Bid,
                    remaining_quantity as nat,
                );
            }
            high -= 1;
            self.bid_orders.value_at_mut(high).consume(&mut remaining_quantity);
        }
        proof {
            lemma_pass_end(
                self.bid_orders@,
                0,
                high as int,
                OrderType::Bid,
                remaining_quantity as nat,
            );
        }

        // clear empty order_lists
        self.bid_orders.remove_empty_levels();

        // add the remaining orders to the ask_order_book
        if remaining_quantity > 0 {
            let residual = Order {
                order_type: ask_order.order_type,
                owner: ask_order.owner,
                price: ask_order.price,
                quantity: remaining_quantity,
            };
            proof {
                lemma_rank_parts(self.ask_orders@, ask_order.price);
                lemma_with_key(
                    self.ask_orders@,
                    ask_order.price,
                    OrderListView::empty(self.priority_type),
                );
            }
            self.ask_orders.entry_or_create(ask_order.price, self.priority_type).push(residual);
        }
    }

    /// Matches an incoming bid against the resting asks, lowest price first,
    /// and lets what is left of it rest among the bids.
    fn handle_bid(&mut self, bid_order: &Order)
        requires
            old(self).wf(),
            bid_order.order_type == OrderType::Bid,
        ensures
            final(self)@ == old(self)@.submitted(*bid_order),
    {
        let mut remaining_quantity: u64 = bid_order.quantity;
        let ghost resting = self.ask_orders@;

        // iterate through the ask orders from the lowest price
        let count: usize = self.ask_orders.len();
        let mut low: usize = 0;
        proof {
            assert(resting.subrange(0, count as int) =~= resting);
            assert(resting.skip(count as int) =~= Seq::<Entry<OrderListView>>::empty());
        }
        while low < count && remaining_quantity > 0
            invariant
                low <= count == self.ask_orders@.len(),
                self.ask_orders.wf(),
                book_wf(self.ask_orders@.subrange(low as int, count as int)),
                pass_outcome(
                    self.ask_orders@,
                    low as int,
                    count as int,
                    OrderType::Ask,
                    remaining_quantity as nat,
                ) == fill_levels(resting, OrderType::Ask, bid_order.quantity as nat),
                unfilled(
                    remaining_quantity as nat,
                    book_total(self.ask_orders@.subrange(low as int, count as int)),
                ) == unfilled(bid_order.quantity as nat, book_total(resting)),
                self.bid_orders@ == old(self).bid_orders@,
                self.priority_type == old(self).priority_type,
            decreases count - low,
        {
            proof {
                lemma_pass_step(
                    self.ask_orders@,
                    low as int,
                    count as int,
                    OrderType::Ask,
                    remaining_quantity as nat,
                );
            }
            self.ask_orders.value_at_mut(low).consume(&mut remaining_quantity);
            low += 1;
        }
        proof {
            lemma_pass_end(
                self.ask_orders@,
                low as int,
                count as int,
                OrderType::Ask,
                remaining_quantity as nat,
            );
        }

        // clear empty order_lists
        self.ask_orders.remove_empty_levels();

        // add the remaining orders to the bid_order_book
        if remaining_quantity > 0 {
            let residual = Order {
                order_type: bid_order.order_type,
                owner: bid_order.owner,
                price: bid_order.price,
                quantity: remaining_quantity,
            };
            proof {
                lemma_rank_parts(self.bid_orders@, bid_order.price);
                lemma_with_key(
                    self.bid_orders@,
                    bid_order.price,
                    OrderListView::empty(self.priority_type),
                );
            }
            self.bid_orders.entry_or_create(bid_order.price, self.priority_type).push(residual);
        }
    }

    /// Matches an incoming `quantity` against a first-in-first-out list,
    /// oldest order first. An order that the quantity covers is removed; the
    /// first order that it does not cover gives up what is left of the
    /// quantity and stays at the head. On return `quantity` holds what could
    /// not be matched.
    pub fn handle_time_priority_list(order_list: &mut FifoList, quantity: &mut u64)
        ensures
            final(order_list)@ == fill_fifo(old(order_list)@, *old(quantity) as nat),
            *final(quantity) == unfilled(
                *old(quantity) as nat,
                total_quantity(old(order_list)@),
            ),
            total_quantity(old(order_list)@) - total_quantity(final(order_list)@)
                == *old(quantity) - *final(quantity),
    {
        proof {
            lemma_fill_fifo_total(old(order_list)@, *old(quantity) as nat);
        }
        loop
            invariant_except_break
                fill_fifo(order_list@, *quantity as nat) == fill_fifo(
                    old(order_list)@,
                    *old(quantity) as nat,
                ),
                unfilled(*quantity as nat, total_quantity(order_list@)) == unfilled(
                    *old(quantity) as nat,
                    total_quantity(old(order_list)@),
                ),
            ensures
                order_list@ == fill_fifo(old(order_list)@, *old(quantity) as nat),
                *quantity == unfilled(*old(quantity) as nat, total_quantity(old(order_list)@)),
            decreases order_list@.len(),
        {
            let ghost resting = order_list@;
            match order_list.oldest_mut() {
                None => {
                    break ;
                },
                Some(oldest_order) => {
                    if *quantity >= oldest_order.quantity {
                        *quantity -= oldest_order.quantity;
                        assert(order_list@ =~= resting);
                        order_list.pop_oldest();
                    } else {
                        // no quantity remaining
                        oldest_order.quantity -= *quantity;
                        *quantity = 0;
                        break ;
                    }
                },
            }
        }
    }

    /// Matches an incoming `quantity` against a quantity-priority list. The
    /// bucket with the largest key is matched first, as a first-in-first-out
    /// list; a bucket that is left without orders is removed, and matching
    /// goes on with the next bucket while some of the quantity is left. An
    /// order that is matched in part stays in the bucket it came into. On
    /// return `quantity` holds what could not be matched.
    pub fn handle_quantity_priority_list(order_list: &mut QuantityPriorityList, quantity: &mut u64)
        ensures
            final(order_list)@ == fill_buckets(old(order_list)@, *old(quantity) as nat),
            *final(quantity) == unfilled(*old(quantity) as nat, buckets_total(old(order_list)@)),
            old(order_list).wf() ==> final(order_list).wf(),
            buckets_total(old(order_list)@) - buckets_total(final(order_list)@)
                == *old(quantity) - *final(quantity),
    {
        proof {
            lemma_fill_buckets_total(old(order_list)@, *old(quantity) as nat);
        }
        loop
            invariant_except_break
                fill_buckets(order_list@, *quantity as nat) == fill_buckets(
                    old(order_list)@,
                    *old(quantity) as nat,
                ),
                unfilled(*quantity as nat, buckets_total(order_list@)) == unfilled(
                    *old(quantity) as nat,
                    buckets_total(old(order_list)@),
                ),
            invariant
                old(order_list).wf() ==> order_list.wf(),
            ensures
                order_list@ == fill_buckets(old(order_list)@, *old(quantity) as nat),
                *quantity == unfilled(*old(quantity) as nat, buckets_total(old(order_list)@)),
            decreases order_list@.len(),
        {
            let count: usize = order_list.len();
            if count == 0 {
                break ;
            }
            let ghost resting = order_list@;
            let ghost incoming = *quantity as nat;
            proof {
                lemma_fill_fifo_total(resting.last().value, incoming);
            }
            let largest_quantity_orders = order_list.value_at_mut(count - 1);
            Self::handle_time_priority_list(largest_quantity_orders, quantity);
            if order_list.value_at(count - 1).is_empty() {
                order_list.pop_last();
                assert(order_list@ == resting.drop_last());
            } else {
                assert(order_list@ == fill_buckets(resting, incoming));
            }
            if *quantity == 0 {
                // no quantity remaining
                break ;
            }
        }
    }
}

} // verus!
