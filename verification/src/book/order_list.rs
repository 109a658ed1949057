use vstd::prelude::*;

use crate::book::{Order, OrderType};
use crate::matching::{
    all_buckets_empty, all_open, all_stand_at, bucket_orders, buckets_stand_at, buckets_total,
    buckets_wf, fill_buckets, fill_fifo, lemma_bucket_orders_none, lemma_buckets_total_of_wf,
    lemma_fill_buckets_nothing, lemma_fill_buckets_stands, lemma_fill_buckets_total,
    lemma_fill_buckets_wf, lemma_fill_fifo_nothing, lemma_fill_fifo_open,
    lemma_fill_fifo_stands, lemma_fill_fifo_total, lemma_push_bucket,
    lemma_push_bucket_stands, lemma_total_of_open, lemma_total_push, push_bucket,
    total_quantity, unfilled,
};
use crate::trading::{TradingPriorityType, TradingSystem};
use crate::types::{keys_ascending, Entry, FifoList, QuantityPriorityList};

verus! {

/// The orders that rest at one price, in one of two arrangements.
#[derive(Debug, Clone, PartialEq)]
pub enum OrderList {
    /// Earliest first
    Time(FifoList),
    /// Largest first
    Quantity(QuantityPriorityList),
}

/// What an [`OrderList`] holds.
pub enum OrderListView {
    /// The orders from the oldest to the newest.
    Time(Seq<Order>),
    /// The buckets in ascending order of their keys, each with its orders
    /// from the oldest to the newest.
    Quantity(Seq<Entry<Seq<Order>>>),
}

impl OrderListView {
    /// The list without orders that a new price level starts with.
    pub open spec fn empty(priority_type: TradingPriorityType) -> OrderListView {
        match priority_type {
            TradingPriorityType::Time => OrderListView::Time(Seq::empty()),
            TradingPriorityType::Quantity => OrderListView::Quantity(Seq::empty()),
        }
    }

    /// Whether the list is empty, which is to say that no order rests in
    /// it. A quantity-priority list is empty when it has no bucket, and also
    /// when every bucket it has is empty.
    pub open spec fn is_empty(self) -> bool {
        match self {
            OrderListView::Time(orders) => orders.len() == 0,
            OrderListView::Quantity(buckets) => all_buckets_empty(buckets),
        }
    }

    /// The open quantity of all orders of the list together.
    pub open spec fn total(self) -> nat {
        match self {
            OrderListView::Time(orders) => total_quantity(orders),
            OrderListView::Quantity(buckets) => buckets_total(buckets),
        }
    }

    /// The orders of the list in the order in which they are matched.
    pub open spec fn orders(self) -> Seq<Order> {
        match self {
            OrderListView::Time(orders) => orders,
            OrderListView::Quantity(buckets) => bucket_orders(buckets),
        }
    }

    /// Whether the list is in order: the keys of the buckets of a
    /// quantity-priority list ascend. A time-priority list always is.
    pub open spec fn ordered(self) -> bool {
        match self {
            OrderListView::Time(_) => true,
            OrderListView::Quantity(buckets) => keys_ascending(buckets),
        }
    }

    /// The invariant of a list at a price level: every order has some
    /// quantity open, and a quantity-priority list has its buckets in order
    /// and none of them empty.
    pub open spec fn wf(self) -> bool {
        match self {
            OrderListView::Time(orders) => all_open(orders),
            OrderListView::Quantity(buckets) => buckets_wf(buckets),
        }
    }

    /// Whether every order of the list is an order of `side` with the limit
    /// price `price`.
    pub open spec fn rests_at(self, side: OrderType, price: u64) -> bool {
        match self {
            OrderListView::Time(orders) => all_stand_at(orders, side, price),
            OrderListView::Quantity(buckets) => buckets_stand_at(buckets, side, price),
        }
    }

    /// The list after an incoming `quantity` has been matched against it.
    pub open spec fn filled(self, quantity: nat) -> OrderListView {
        match self {
            OrderListView::Time(orders) => OrderListView::Time(fill_fifo(orders, quantity)),
            OrderListView::Quantity(buckets) => OrderListView::Quantity(
                fill_buckets(buckets, quantity),
            ),
        }
    }

    /// The list after `order` has come to rest in it.
    pub open spec fn pushed(self, order: Order) -> OrderListView {
        match self {
            OrderListView::Time(orders) => OrderListView::Time(orders.push(order)),
            OrderListView::Quantity(buckets) => OrderListView::Quantity(
                push_bucket(buckets, order),
            ),
        }
    }

    /// A list is empty exactly when it holds no order.
    pub proof fn lemma_empty_is_no_order(self)
        ensures
            self.is_empty() <==> self.orders().len() == 0,
    {
        match self {
            OrderListView::Time(orders) => {},
            OrderListView::Quantity(buckets) => lemma_bucket_orders_none(buckets),
        }
    }

    /// A list that keeps its invariant is empty exactly when it holds no
    /// quantity, and a quantity-priority list that keeps it is empty exactly
    /// when it has no bucket.
    pub proof fn lemma_empty_is_no_quantity(self)
        requires
            self.wf(),
        ensures
            self.is_empty() <==> self.total() == 0,
            self is Quantity ==> (self.is_empty() <==> self->Quantity_0.len() == 0),
    {
        match self {
            OrderListView::Time(orders) => lemma_total_of_open(orders),
            OrderListView::Quantity(buckets) => {
                lemma_buckets_total_of_wf(buckets);
                if buckets.len() > 0 {
                    assert(buckets[buckets.len() - 1].value.len() > 0);
                }
            },
        }
    }

    /// Matching keeps the invariant of the list, and takes from the list
    /// exactly what it takes from the incoming quantity. The list ends up
    /// empty exactly when the quantity covers all of it.
    pub proof fn lemma_filled(self, quantity: nat)
        requires
            self.wf(),
        ensures
            self.filled(quantity).wf(),
            self.filled(quantity).total() + quantity == self.total() + unfilled(
                quantity,
                self.total(),
            ),
            self.filled(quantity).is_empty() <==> quantity >= self.total(),
            quantity == 0 ==> self.filled(quantity) == self,
    {
        match self {
            OrderListView::Time(orders) => {
                lemma_fill_fifo_open(orders, quantity);
                lemma_fill_fifo_total(orders, quantity);
                if quantity == 0 {
                    lemma_fill_fifo_nothing(orders);
                }
            },
            OrderListView::Quantity(buckets) => {
                lemma_fill_buckets_wf(buckets, quantity);
                lemma_fill_buckets_total(buckets, quantity);
                if quantity == 0 {
                    lemma_fill_buckets_nothing(buckets);
                }
            },
        }
        self.filled(quantity).lemma_empty_is_no_quantity();
    }

    /// Matching changes neither the side nor the price of an order of the
    /// list.
    pub proof fn lemma_filled_rests_at(self, side: OrderType, price: u64, quantity: nat)
        requires
            self.rests_at(side, price),
        ensures
            self.filled(quantity).rests_at(side, price),
    {
        match self {
            OrderListView::Time(orders) => {
                lemma_fill_fifo_stands(orders, quantity, side, price);
            },
            OrderListView::Quantity(buckets) => {
                lemma_fill_buckets_stands(buckets, quantity, side, price);
            },
        }
    }

    /// A list of orders of one side and one price stays one when another
    /// such order comes to rest in it.
    pub proof fn lemma_pushed_rests_at(self, side: OrderType, price: u64, order: Order)
        requires
            self.ordered(),
            self.rests_at(side, price),
            order.stands_at(side, price),
        ensures
            self.pushed(order).rests_at(side, price),
    {
        match self {
            OrderListView::Time(orders) => {
                let joined = orders.push(order);
                assert forall|i: int| 0 <= i < joined.len() implies (
                #[trigger] joined[i]).stands_at(side, price) by {
                    if i < orders.len() {
                        assert(orders[i].stands_at(side, price));
                    }
                }
            },
            OrderListView::Quantity(buckets) => {
                lemma_push_bucket_stands(buckets, order, side, price);
            },
        }
    }

    /// An order that comes to rest with some quantity open keeps the
    /// invariant of the list and adds its quantity to the list's total.
    pub proof fn lemma_pushed(self, order: Order)
        requires
            self.wf(),
            order.quantity > 0,
        ensures
            self.pushed(order).wf(),
            !self.pushed(order).is_empty(),
            self.pushed(order).total() == self.total() + order.quantity,
    {
        match self {
            OrderListView::Time(orders) => {
                lemma_total_push(orders, order);
            },
            OrderListView::Quantity(buckets) => {
                lemma_push_bucket(buckets, order);
            },
        }
        self.pushed(order).lemma_empty_is_no_quantity();
    }
}

impl View for OrderList {
    type V = OrderListView;

    open spec fn view(&self) -> OrderListView {
        match self {
            OrderList::Time(orders) => OrderListView::Time(orders@),
            OrderList::Quantity(buckets) => OrderListView::Quantity(buckets@),
        }
    }
}

impl Default for OrderList {
    fn default() -> (list: Self)
        ensures
            list@ == OrderListView::Time(Seq::empty()),
    {
        OrderList::Time(FifoList::new())
    }
}

impl OrderList {
    /// An empty list that matches the earliest order first.
    pub fn new_time_priority() -> (list: Self)
        ensures
            list@ == OrderListView::Time(Seq::empty()),
    {
        Self::Time(FifoList::new())
    }

    /// An empty list that matches the largest order first.
    pub fn new_quantity_priority() -> (list: Self)
        ensures
            list@ == OrderListView::Quantity(Seq::empty()),
    {
        Self::Quantity(QuantityPriorityList::new())
    }

    /// An empty list of the arrangement that `priority_type` asks for.
    pub fn new(priority_type: TradingPriorityType) -> (list: Self)
        ensures
            list@ == OrderListView::empty(priority_type),
    {
        match priority_type {
            TradingPriorityType::Time => Self::new_time_priority(),
            TradingPriorityType::Quantity => Self::new_quantity_priority(),
        }
    }

    /// Whether no order rests in the list. A time-priority list answers from
    /// its length. A quantity-priority list looks at its buckets from the
    /// largest key down until one holds an order, which is the first one in a
    /// list that keeps its invariant.
    pub fn is_empty(&self) -> (empty: bool)
        ensures
            empty <==> self@.orders().len() == 0,
            empty <==> self@.is_empty(),
    {
        proof {
            self@.lemma_empty_is_no_order();
        }
        match self {
            OrderList::Time(orders) => orders.is_empty(),
            OrderList::Quantity(orders) => orders.holds_no_order(),
        }
    }

    /// The orders of the list in the order in which they are matched.
    pub fn orders(&self) -> (orders: Vec<Order>)
        ensures
            orders@ == self@.orders(),
    {
        match self {
            OrderList::Time(list) => {
                let mut orders: Vec<Order> = Vec::new();
                list.append_to(&mut orders);
                assert(orders@ =~= list@);
                orders
            },
            OrderList::Quantity(list) => list.orders(),
        }
    }

    /// Lets `order` come to rest in the list. In a time-priority list it
    /// joins the back. In a quantity-priority list it joins the back of the
    /// bucket whose key is its quantity.
    pub fn push(&mut self, order: Order)
        requires
            old(self)@.ordered(),
        ensures
            final(self)@ == old(self)@.pushed(order),
            final(self)@.ordered(),
            old(self)@.wf() && order.quantity > 0 ==> final(self)@.wf(),
    {
        proof {
            if self@.wf() && order.quantity > 0 {
                self@.lemma_pushed(order);
            }
        }
        match self {
            OrderList::Time(orders) => {
                orders.push_new(order);
            },
            OrderList::Quantity(orders) => {
                orders.get_or_insert(order.quantity, FifoList::new()).push_new(order);
            },
        }
    }

    /// Matches an incoming `quantity` against the list, in the order of the
    /// list's arrangement, until the list or the quantity is used up. On
    /// return `quantity` holds what could not be matched.
    pub fn consume(&mut self, quantity: &mut u64)
        ensures
            final(self)@ == old(self)@.filled(*old(quantity) as nat),
            *final(quantity) == unfilled(*old(quantity) as nat, old(self)@.total()),
            old(self)@.total() - final(self)@.total() == *old(quantity) - *final(quantity),
            old(self)@.ordered() ==> final(self)@.ordered(),
            old(self)@.wf() ==> final(self)@.wf(),
    {
        proof {
            if self@.wf() {
                self@.lemma_filled(*quantity as nat);
            }
        }
        match self {
            OrderList::Time(orders) => {
                TradingSystem::handle_time_priority_list(orders, quantity);
            },
            OrderList::Quantity(orders) => {
                TradingSystem::handle_quantity_priority_list(orders, quantity);
            },
        }
    }
}

} // verus!
