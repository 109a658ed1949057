use vstd::prelude::*;

use crate::book::{OrderList, OrderListView};
use crate::matching::{holds_orders, without_empty_levels};
use crate::trading::TradingPriorityType;
use crate::types::{entries_view, keys_ascending, rank, with_key, Entry, OrderedMap, Price};

verus! {

/// The resting orders of one side of the market: a list of orders for each
/// price at which some order rests, in ascending order of the prices.
pub type OrderBook = OrderedMap<OrderList>;

impl OrderedMap<OrderList> {
    /// The list at `price`, open for mutation in place. Where the book has no
    /// level at that price yet, one is made first, with an empty list of the
    /// arrangement that `priority_type` asks for.
    pub fn entry_or_create(
        &mut self,
        price: Price,
        priority_type: TradingPriorityType,
    ) -> (list: &mut OrderList)
        requires
            old(self).wf(),
        ensures
            list@ == with_key(old(self)@, price, OrderListView::empty(priority_type))[rank(
                old(self)@,
                price,
            ) as int].value,
            final(self)@ == with_key(
                old(self)@,
                price,
                OrderListView::empty(priority_type),
            ).update(rank(old(self)@, price) as int, Entry { key: price, value: final(list)@ }),
            final(self).wf(),
    {
        self.get_or_insert(price, OrderList::new(priority_type))
    }

    /// Removes every price level at which no order rests.
    pub fn remove_empty_levels(&mut self)
        requires
            old(self).wf(),
        ensures
            final(self)@ == without_empty_levels(old(self)@),
            final(self).wf(),
    {
        let levels = self.take_entries();
        let ghost all = old(self)@;
        let ghost keep = holds_orders();
        assert(all.take(0).filter(keep) =~= Seq::<Entry<OrderListView>>::empty());
        for level in rest: levels
            invariant
                keys_ascending(all),
                all == old(self)@,
                keep == holds_orders(),
                entries_view(rest.seq()) == all,
                self.wf(),
                self@ == all.take(rest.index() as int).filter(keep),
                forall|i: int, j: int|
                    0 <= i < self@.len() && rest.index() <= j < all.len() ==> self@[i].key
                        < all[j].key,
        {
            let ghost at = rest.index() as int;
            proof {
                assert(all[at].key == level.key && all[at].value == level.value@);
                assert(all.take(at + 1) =~= all.take(at).push(all[at]));
                all.take(at).lemma_filter_push(all[at], keep);
            }
            if !level.value.is_empty() {
                self.push_last(level.key, level.value);
            }
        }
        assert(all.take(all.len() as int) =~= all);
    }
}

} // verus!
