use vstd::prelude::*;

use crate::book::Order;
use crate::matching::{all_buckets_empty, bucket_orders, lemma_bucket_orders_none};
use crate::types::{FifoList, OrderedMap};

verus! {

/// The orders that rest at one price, largest first: a first-in-first-out
/// bucket for each quantity at which orders came in, under that quantity as
/// its key. As a map it is empty when it has no bucket; whether no order
/// rests in it is what `holds_no_order` tells.
pub type QuantityPriorityList = OrderedMap<FifoList>;

impl OrderedMap<FifoList> {
    /// Whether no order rests in the list: it has no bucket, or every bucket
    /// it has is empty. The buckets are looked at from the largest key down,
    /// and the first one that holds an order settles the answer.
    pub fn holds_no_order(&self) -> (none: bool)
        ensures
            none <==> all_buckets_empty(self@),
            none <==> bucket_orders(self@).len() == 0,
    {
        proof {
            lemma_bucket_orders_none(self@);
        }
        let mut below: usize = self.len();
        while below > 0
            invariant
                below <= self@.len(),
                bucket_orders(self@).len() == 0 <==> all_buckets_empty(self@),
                forall|i: int|
                    below <= i < self@.len() ==> (#[trigger] self@[i]).value.len() == 0,
            decreases below,
        {
            below -= 1;
            if !self.value_at(below).is_empty() {
                assert(self@[below as int].value.len() > 0);
                return false;
            }
        }
        true
    }

    /// The orders of the list in the order in which they are matched: the
    /// bucket with the largest key first, and each bucket from its oldest
    /// order on.
    pub fn orders(&self) -> (orders: Vec<Order>)
        ensures
            orders@ == bucket_orders(self@),
    {
        let mut orders: Vec<Order> = Vec::new();
        let mut below: usize = self.len();
        assert(self@.take(below as int) =~= self@);
        while below > 0
            invariant
                below <= self@.len(),
                orders@ + bucket_orders(self@.take(below as int)) == bucket_orders(self@),
            decreases below,
        {
            below -= 1;
            assert(self@.take(below + 1).drop_last() =~= self@.take(below as int));
            self.value_at(below).append_to(&mut orders);
            assert(orders@ + bucket_orders(self@.take(below as int)) =~= bucket_orders(self@));
        }
        assert(orders@ =~= bucket_orders(self@));
        orders
    }
}

} // verus!
