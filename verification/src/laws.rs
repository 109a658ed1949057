//! Laws of the matching engine. Those of a whole system are proved of every
//! state that keeps the engine's invariant and of every order; those of a
//! single list ask for no more than they say.

use vstd::prelude::*;

use crate::book::{Order, OrderListView, OrderType};
use crate::matching::{
    better_levels, book_total, book_wf, buckets_total, fill_buckets, fill_fifo, fill_levels,
    lemma_bucket_after_matching, lemma_buckets_total_remove, lemma_fill_fifo_shape,
    lemma_fill_fifo_total, lemma_fill_levels, lemma_fill_levels_lacks,
    lemma_level_after_matching, no_empty_levels, reaching, rest_order, total_quantity,
    unfilled,
};
use crate::trading::{TradingPriorityType, TradingSystemView};
use crate::types::{
    has_key, keys_ascending, lemma_has_key, lemma_lookup_at, lemma_lookup_none,
    lemma_rank_parts, lemma_set_value, lemma_with_key, lookup, rank, with_key, Entry,
};

verus! {

/// Conservation. The quantity of a submitted order is accounted for in full:
/// what the resting orders of the opposite side lost to it, and what came to
/// rest of it on its own side, add up to it.
pub proof fn lemma_quantity_is_conserved(system: TradingSystemView, order: Order)
    requires
        system.wf(),
    ensures
        order.quantity == (system.resting(order.order_type.opposite()) - system.submitted(
            order,
        ).resting(order.order_type.opposite())) + (system.submitted(order).resting(
            order.order_type,
        ) - system.resting(order.order_type)),
        system.submitted(order).resting(order.order_type.opposite()) <= system.resting(
            order.order_type.opposite(),
        ),
        system.submitted(order).resting(order.order_type) >= system.resting(order.order_type),
{
    system.lemma_submitted(order);
}

/// An order without quantity changes nothing.
pub proof fn lemma_nothing_submitted(system: TradingSystemView, order: Order)
    requires
        order.quantity == 0,
    ensures
        system.submitted(order) == system,
{
}

/// Level cleanup. After a submission no price level without orders is left
/// in either book.
pub proof fn lemma_no_empty_level_remains(system: TradingSystemView, order: Order)
    requires
        system.wf(),
    ensures
        no_empty_levels(system.submitted(order).ask_orders),
        no_empty_levels(system.submitted(order).bid_orders),
{
    system.lemma_submitted(order);
}

/// First in, first out. When an incoming quantity is matched against a
/// first-in-first-out list, an order loses quantity only after every order
/// that came before it has left the list: if the later of two orders is gone
/// or has changed, the earlier one is gone.
pub proof fn lemma_earlier_order_first(
    orders: Seq<Order>,
    quantity: nat,
    earlier: int,
    later: int,
)
    requires
        0 <= earlier < later < orders.len(),
    ensures
        fill_fifo(orders, quantity).len() <= orders.len(),
        ({
            let left = fill_fifo(orders, quantity);
            let gone = orders.len() - left.len();
            (later < gone || left[later - gone] != orders[later]) ==> earlier < gone
        }),
{
    lemma_fill_fifo_shape(orders, quantity);
}

/// Time priority. Of two orders that rest at the same price in a
/// time-priority list, a submission from the opposite side takes from the
/// one that came later only after it has used up the one that came earlier.
/// After the submission the level is gone, both orders with it, or it holds
/// what is left of its list, and then: if the later order is gone or has
/// changed, the earlier one is gone.
pub proof fn lemma_time_priority(
    system: TradingSystemView,
    order: Order,
    at: int,
    earlier: int,
    later: int,
)
    requires
        system.wf(),
        0 <= at < system.book(order.order_type.opposite()).len(),
        system.book(order.order_type.opposite())[at].value is Time,
        0 <= earlier < later < system.book(order.order_type.opposite())[at].value->Time_0.len(),
    ensures
        ({
            let side = order.order_type.opposite();
            let level = system.book(side)[at];
            let orders = level.value->Time_0;
            match lookup(system.submitted(order).book(side), level.key) {
                None => true,
                Some(list) => {
                    &&& list is Time
                    &&& list->Time_0.len() <= orders.len()
                    &&& ({
                        let left = list->Time_0;
                        let gone = orders.len() - left.len();
                        (later < gone || left[later - gone] != orders[later]) ==> earlier
                            < gone
                    })
                },
            }
        }),
{
    let side = order.order_type.opposite();
    let levels = system.book(side);
    let orders = levels[at].value->Time_0;
    lemma_level_after_matching(levels, side, order.quantity as nat, at);
    lemma_fill_fifo_shape(orders, reaching(levels, side, order.quantity as nat, at));
}

/// Largest bucket first, of any buckets whatever. Matching takes buckets
/// away from the end with the largest keys and leaves every other bucket
/// under its key. Of the buckets that stay, only the one with the largest key
/// may hold other orders than before: then it has been matched, as a
/// first-in-first-out list, with what the buckets above it could not cover,
/// and it still holds an order.
pub proof fn lemma_largest_bucket_first(buckets: Seq<Entry<Seq<Order>>>, quantity: nat)
    ensures
        fill_buckets(buckets, quantity).len() <= buckets.len(),
        ({
            let left = fill_buckets(buckets, quantity);
            let last = left.len() - 1;
            &&& forall|i: int| 0 <= i < last ==> left[i] == buckets[i]
            &&& left.len() > 0 ==> {
                ||| left[last] == buckets[last]
                ||| {
                    &&& left[last].key == buckets[last].key
                    &&& left[last].value.len() > 0
                    &&& left[last].value == fill_fifo(
                        buckets[last].value,
                        unfilled(quantity, buckets_total(buckets.skip(last + 1))),
                    )
                }
            }
        }),
    decreases buckets.len(),
{
    if buckets.len() > 0 {
        let front = buckets.drop_last();
        let largest = buckets.last();
        let kept = fill_fifo(largest.value, quantity);
        let rest = unfilled(quantity, total_quantity(largest.value));
        let left = fill_buckets(buckets, quantity);
        let last = left.len() - 1;
        if kept.len() > 0 {
            assert(buckets.skip(last + 1).len() == 0);
        } else if rest != 0 {
            lemma_largest_bucket_first(front, rest);
            assert(left == fill_buckets(front, rest));
            if left.len() > 0 {
                let above = buckets.skip(last + 1);
                assert(above.last() == largest);
                assert(above.drop_last() =~= front.skip(last + 1));
                assert(front[last] == buckets[last]);
            }
        } else {
            assert(left == front);
        }
    }
}

/// The total of some buckets is the total of those below a position plus
/// that of those from the position on.
proof fn lemma_buckets_total_split(buckets: Seq<Entry<Seq<Order>>>, at: int)
    requires
        0 <= at <= buckets.len(),
    ensures
        buckets_total(buckets) == buckets_total(buckets.take(at)) + buckets_total(
            buckets.skip(at),
        ),
    decreases buckets.len() - at,
{
    if at == buckets.len() {
        assert(buckets.take(at) =~= buckets);
    } else {
        lemma_buckets_total_split(buckets, at + 1);
        assert(buckets.take(at + 1).drop_last() =~= buckets.take(at));
        lemma_buckets_total_remove(buckets.skip(at), 0);
        assert(buckets.skip(at).remove(0) =~= buckets.skip(at + 1));
    }
}

/// Quantity priority. Of two buckets of a quantity-priority list, a
/// submission from the opposite side takes from the one with the smaller key
/// only after it has used up the one with the larger key. After the
/// submission the level is gone, both buckets with it, or it holds what is
/// left of its list, and then: if the bucket with the smaller key is gone or
/// has changed, the bucket with the larger key is gone.
pub proof fn lemma_quantity_priority(
    system: TradingSystemView,
    order: Order,
    at: int,
    smaller: int,
    larger: int,
)
    requires
        system.wf(),
        0 <= at < system.book(order.order_type.opposite()).len(),
        system.book(order.order_type.opposite())[at].value is Quantity,
        0 <= smaller < larger < system.book(
            order.order_type.opposite(),
        )[at].value->Quantity_0.len(),
    ensures
        ({
            let side = order.order_type.opposite();
            let level = system.book(side)[at];
            let buckets = level.value->Quantity_0;
            match lookup(system.submitted(order).book(side), level.key) {
                None => true,
                Some(list) => {
                    &&& list is Quantity
                    &&& lookup(list->Quantity_0, buckets[smaller].key) != Some(
                        buckets[smaller].value,
                    ) ==> lookup(list->Quantity_0, buckets[larger].key) is None
                },
            }
        }),
{
    let side = order.order_type.opposite();
    let levels = system.book(side);
    let buckets = levels[at].value->Quantity_0;
    let reach = reaching(levels, side, order.quantity as nat, at);
    assert(levels[at].value.wf());
    lemma_level_after_matching(levels, side, order.quantity as nat, at);
    lemma_bucket_after_matching(buckets, reach, smaller);
    lemma_bucket_after_matching(buckets, reach, larger);
    let above_smaller = buckets.skip(smaller + 1);
    lemma_buckets_total_split(above_smaller, larger - smaller);
    assert(above_smaller.skip(larger - smaller) =~= buckets.skip(larger + 1));
    lemma_buckets_total_remove(above_smaller.take(larger - smaller), larger - smaller - 1);
    assert(above_smaller.take(larger - smaller)[larger - smaller - 1] == buckets[larger]);
    lemma_fill_fifo_total(
        buckets[larger].value,
        unfilled(reach, buckets_total(buckets.skip(larger + 1))),
    );
}

/// No leakage across levels. A submission takes nothing from a level of the
/// opposite book as long as the levels at better prices cover its quantity:
/// such a level stays in the book as it is. So an order that uses up the
/// best level exactly leaves every other level untouched.
pub proof fn lemma_covered_level_is_untouched(system: TradingSystemView, order: Order, at: int)
    requires
        system.wf(),
        0 <= at < system.book(order.order_type.opposite()).len(),
        order.quantity <= book_total(
            better_levels(
                system.book(order.order_type.opposite()),
                order.order_type.opposite(),
                at,
            ),
        ),
    ensures
        ({
            let side = order.order_type.opposite();
            let level = system.book(side)[at];
            lookup(system.submitted(order).book(side), level.key) == Some(level.value)
        }),
{
    let side = order.order_type.opposite();
    lemma_level_after_matching(system.book(side), side, order.quantity as nat, at);
}

/// The book after matching, price by price. A price at which nothing rested
/// has no level afterwards either. A level that was there has been matched
/// with what reached it of the incoming quantity, and is gone where that
/// used it up.
pub proof fn lemma_book_after_matching(
    levels: Seq<Entry<OrderListView>>,
    side: OrderType,
    quantity: nat,
    price: u64,
)
    requires
        book_wf(levels),
    ensures
        lookup(fill_levels(levels, side, quantity), price) == if has_key(levels, price) {
            let at = rank(levels, price) as int;
            let left = levels[at].value.filled(reaching(levels, side, quantity, at));
            if left.is_empty() {
                None
            } else {
                Some(left)
            }
        } else {
            None
        },
{
    lemma_fill_levels(levels, side, quantity);
    if has_key(levels, price) {
        lemma_level_after_matching(levels, side, quantity, rank(levels, price) as int);
    } else {
        lemma_has_key(levels, price);
        lemma_fill_levels_lacks(levels, side, quantity, price);
        lemma_lookup_none(fill_levels(levels, side, quantity), price);
    }
}

/// An order that comes to rest joins the list at its own price, which is
/// made first, empty, where the book has no level at that price.
pub proof fn lemma_rest_order_at_price(
    levels: Seq<Entry<OrderListView>>,
    priority_type: TradingPriorityType,
    order: Order,
)
    requires
        keys_ascending(levels),
    ensures
        lookup(rest_order(levels, priority_type, order), order.price) == Some(
            match lookup(levels, order.price) {
                Some(list) => list.pushed(order),
                None => OrderListView::empty(priority_type).pushed(order),
            },
        ),
{
    let fresh = OrderListView::empty(priority_type);
    let at = rank(levels, order.price) as int;
    let ensured = with_key(levels, order.price, fresh);
    lemma_rank_parts(levels, order.price);
    lemma_with_key(levels, order.price, fresh);
    lemma_set_value(ensured, at, ensured[at].value.pushed(order));
    lemma_lookup_at(rest_order(levels, priority_type, order), at);
}

/// An order that comes to rest changes the level at its own price and no
/// other.
pub proof fn lemma_rest_order_elsewhere(
    levels: Seq<Entry<OrderListView>>,
    priority_type: TradingPriorityType,
    order: Order,
    price: u64,
)
    requires
        keys_ascending(levels),
        price != order.price,
    ensures
        lookup(rest_order(levels, priority_type, order), price) == lookup(levels, price),
{
    let fresh = OrderListView::empty(priority_type);
    let at = rank(levels, order.price) as int;
    let ensured = with_key(levels, order.price, fresh);
    let after = rest_order(levels, priority_type, order);
    lemma_rank_parts(levels, order.price);
    lemma_with_key(levels, order.price, fresh);
    lemma_set_value(ensured, at, ensured[at].value.pushed(order));
    lemma_has_key(levels, price);
    if has_key(levels, price) {
        let found = choose|i: int| 0 <= i < levels.len() && levels[i].key == price;
        let moved = if ensured == levels || found < at { found } else { found + 1 };
        lemma_lookup_at(levels, found);
        assert(after[moved] == levels[found]);
        lemma_lookup_at(after, moved);
    } else {
        assert forall|i: int| 0 <= i < after.len() implies after[i].key != price by {
            if i != at {
                let from = if ensured == levels || i < at { i } else { i - 1 };
                assert(levels[from].key != price);
            }
        }
        lemma_lookup_none(after, price);
    }
}

} // verus!
