use std::collections::VecDeque;

use vstd::prelude::*;
use vstd::std_specs::iter::IteratorSpec;

use crate::book::Order;

verus! {

/// A FIFO list of orders: the newest order joins at the back, the oldest
/// leaves from the front.
#[derive(Debug, Clone, PartialEq)]
pub struct FifoList(VecDeque<Order>);

impl View for FifoList {
    type V = Seq<Order>;

    closed spec fn view(&self) -> Seq<Order> {
        self.0@
    }
}

/// `std::collections::VecDeque::front_mut`: hands out the front element of
/// the deque for mutation, or `None` when the deque is empty. Taken on trust:
/// every other element stays as it is, and the front ends up as whatever the
/// caller leaves behind the reference.
#[verifier::external_body]
fn deque_front_mut(deque: &mut VecDeque<Order>) -> (front: Option<&mut Order>)
    ensures
        old(deque)@.len() == 0 ==> front is None && final(deque)@ == old(deque)@,
        old(deque)@.len() > 0 ==> front is Some && *front.unwrap() == old(deque)@[0]
            && final(deque)@ == old(deque)@.update(0, *final(front.unwrap())),
{
    deque.front_mut()
}

impl FifoList {
    /// An empty list.
    pub fn new() -> (list: Self)
        ensures
            list@ == Seq::<Order>::empty(),
    {
        FifoList(VecDeque::new())
    }

    /// Appends `order` behind every order already in the list.
    pub fn push_new(&mut self, order: Order)
        ensures
            final(self)@ == old(self)@.push(order),
    {
        self.0.push_back(order);
    }

    /// Takes the oldest order out of the list, if there is one.
    pub fn pop_oldest(&mut self) -> (oldest: Option<Order>)
        ensures
            old(self)@.len() == 0 ==> oldest is None && final(self)@ == old(self)@,
            old(self)@.len() > 0 ==> oldest == Some(old(self)@[0])
                && final(self)@ == old(self)@.drop_first(),
    {
        self.0.pop_front()
    }

    /// The oldest order, open for mutation in place, if there is one.
    pub fn oldest_mut(&mut self) -> (oldest: Option<&mut Order>)
        ensures
            old(self)@.len() == 0 ==> oldest is None && final(self)@ == old(self)@,
            old(self)@.len() > 0 ==> oldest is Some && *oldest.unwrap() == old(self)@[0]
                && final(self)@ == old(self)@.update(0, *final(oldest.unwrap())),
    {
        deque_front_mut(&mut self.0)
    }

    /// Whether the list holds no order.
    pub fn is_empty(&self) -> (empty: bool)
        ensures
            empty <==> self@.len() == 0,
    {
        self.0.len() == 0
    }

    /// The number of orders in the list.
    pub fn len(&self) -> (len: usize)
        ensures
            len == self@.len(),
    {
        self.0.len()
    }

    /// Copies the orders of the list, oldest first, to the back of `orders`.
    pub fn append_to(&self, orders: &mut Vec<Order>)
        ensures
            final(orders)@ == old(orders)@ + self@,
    {
        let count: usize = self.0.len();
        let mut at: usize = 0;
        while at < count
            invariant
                at <= count == self@.len(),
                orders@ == old(orders)@ + self@.take(at as int),
            decreases count - at,
        {
            orders.push(self.0[at]);
            assert(self@.take(at + 1) =~= self@.take(at as int).push(self@[at as int]));
            at += 1;
        }
        assert(self@.take(count as int) =~= self@);
    }
}

impl Default for FifoList {
    fn default() -> (list: Self)
        ensures
            list@ == Seq::<Order>::empty(),
    {
        FifoList::new()
    }
}

impl core::ops::Index<usize> for FifoList {
    type Output = Order;

    /// The order at `index`, counted from the oldest.
    fn index(&self, index: usize) -> (order: &Order)
        ensures
            *order == self@[index as int],
    {
        &self.0[index]
    }
}

impl<'a> IntoIterator for &'a FifoList {
    type Item = &'a Order;

    type IntoIter = std::collections::vec_deque::Iter<'a, Order>;

    /// An iterator over the orders, oldest first.
    fn into_iter(self) -> (orders: std::collections::vec_deque::Iter<'a, Order>)
        ensures
            orders.remaining() == self@.as_ref(),
    {
        self.0.iter()
    }
}

impl vstd::std_specs::core::IndexSpecImpl<usize> for FifoList {
    open spec fn index_req(&self, index: &usize) -> bool {
        *index < self@.len()
    }
}

} // verus!
