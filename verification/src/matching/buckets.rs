//! Matching against a quantity-priority list: first-in-first-out buckets of
//! orders, one bucket for each quantity at which orders came in.

use vstd::prelude::*;

use crate::book::{Order, OrderType};
use crate::matching::fifo::{
    all_open, all_stand_at, fill_fifo, lemma_fill_fifo_nothing, lemma_fill_fifo_shape,
    lemma_fill_fifo_stands, lemma_fill_fifo_total, lemma_total_push, total_quantity, unfilled,
};
use crate::types::{
    keys_ascending, lemma_lookup_at, lemma_lookup_none, lemma_rank_parts, lemma_set_value,
    lemma_with_key, lookup, rank, with_key, Entry,
};

verus! {

/// The open quantity of all orders in all of `buckets`.
pub open spec fn buckets_total(buckets: Seq<Entry<Seq<Order>>>) -> nat
    decreases buckets.len(),
{
    if buckets.len() == 0 {
        0
    } else {
        buckets_total(buckets.drop_last()) + total_quantity(buckets.last().value)
    }
}

/// The orders of `buckets` in the order in which they are matched: the bucket
/// with the largest key first, and each bucket from its oldest order on.
pub open spec fn bucket_orders(buckets: Seq<Entry<Seq<Order>>>) -> Seq<Order>
    decreases buckets.len(),
{
    if buckets.len() == 0 {
        Seq::empty()
    } else {
        buckets.last().value + bucket_orders(buckets.drop_last())
    }
}

/// Whether none of `buckets` holds an order: there is no bucket, or every
/// bucket is empty.
pub open spec fn all_buckets_empty(buckets: Seq<Entry<Seq<Order>>>) -> bool {
    forall|i: int| 0 <= i < buckets.len() ==> (#[trigger] buckets[i]).value.len() == 0
}

/// The invariant of a quantity-priority list: the keys of its buckets ascend,
/// no bucket is empty, and every order has some quantity open, though no more
/// than the key of its bucket. The key is the quantity with which the order
/// came in; an order that has been matched in part stays in its bucket.
pub open spec fn buckets_wf(buckets: Seq<Entry<Seq<Order>>>) -> bool {
    &&& keys_ascending(buckets)
    &&& forall|i: int| 0 <= i < buckets.len() ==> (#[trigger] buckets[i]).value.len() > 0
    &&& forall|i: int, j: int|
        0 <= i < buckets.len() && 0 <= j < buckets[i].value.len() ==> 0 < (
        #[trigger] buckets[i].value[j]).quantity <= buckets[i].key
}

/// Whether every order in every one of `buckets` is an order of `side` with
/// the limit price `price`.
pub open spec fn buckets_stand_at(
    buckets: Seq<Entry<Seq<Order>>>,
    side: OrderType,
    price: u64,
) -> bool {
    forall|i: int|
        0 <= i < buckets.len() ==> all_stand_at((#[trigger] buckets[i]).value, side, price)
}

/// The buckets that stay after an incoming `quantity` has been matched against
/// them. The bucket with the largest key is matched first, as a
/// first-in-first-out list. A bucket that is left without orders is removed,
/// and matching goes on with the next bucket while some of the quantity is
/// left.
pub open spec fn fill_buckets(buckets: Seq<Entry<Seq<Order>>>, quantity: nat) -> Seq<
    Entry<Seq<Order>>,
>
    decreases buckets.len(),
{
    if buckets.len() == 0 {
        buckets
    } else {
        let largest = buckets.last();
        let left = fill_fifo(largest.value, quantity);
        let rest = unfilled(quantity, total_quantity(largest.value));
        if left.len() > 0 {
            buckets.update(buckets.len() - 1, Entry { key: largest.key, value: left })
        } else if rest == 0 {
            buckets.drop_last()
        } else {
            fill_buckets(buckets.drop_last(), rest)
        }
    }
}

/// The buckets after `order` has come in: it joins the back of the bucket
/// whose key is its quantity, and that bucket is made first where there is
/// none yet.
pub open spec fn push_bucket(buckets: Seq<Entry<Seq<Order>>>, order: Order) -> Seq<
    Entry<Seq<Order>>,
> {
    let at = rank(buckets, order.quantity) as int;
    let ensured = with_key(buckets, order.quantity, Seq::<Order>::empty());
    ensured.update(at, Entry { key: order.quantity, value: ensured[at].value.push(order) })
}

/// Buckets hold no order exactly when every one of them is empty.
pub proof fn lemma_bucket_orders_none(buckets: Seq<Entry<Seq<Order>>>)
    ensures
        bucket_orders(buckets).len() == 0 <==> all_buckets_empty(buckets),
    decreases buckets.len(),
{
    if buckets.len() > 0 {
        let front = buckets.drop_last();
        lemma_bucket_orders_none(front);
        if all_buckets_empty(buckets) {
            assert(buckets[buckets.len() - 1].value.len() == 0);
            assert forall|i: int| 0 <= i < front.len() implies (#[trigger] front[i]).value.len()
                == 0 by {
                assert(buckets[i].value.len() == 0);
            }
        }
        if bucket_orders(buckets).len() == 0 {
            assert forall|i: int| 0 <= i < buckets.len() implies (
            #[trigger] buckets[i]).value.len() == 0 by {
                if i < front.len() {
                    assert(front[i].value.len() == 0);
                }
            }
        }
    }
}

/// The total of some buckets is the total of one of them plus that of the
/// others.
pub proof fn lemma_buckets_total_remove(buckets: Seq<Entry<Seq<Order>>>, at: int)
    requires
        0 <= at < buckets.len(),
    ensures
        buckets_total(buckets) == buckets_total(buckets.remove(at)) + total_quantity(
            buckets[at].value,
        ),
    decreases buckets.len(),
{
    if at == buckets.len() - 1 {
        assert(buckets.remove(at) =~= buckets.drop_last());
    } else {
        lemma_buckets_total_remove(buckets.drop_last(), at);
        assert(buckets.remove(at).drop_last() =~= buckets.drop_last().remove(at));
    }
}

/// Matching takes from the buckets exactly what it takes from the incoming
/// quantity: the smaller of the incoming quantity and the buckets' total.
pub proof fn lemma_fill_buckets_total(buckets: Seq<Entry<Seq<Order>>>, quantity: nat)
    ensures
        buckets_total(fill_buckets(buckets, quantity)) + quantity == buckets_total(buckets)
            + unfilled(quantity, buckets_total(buckets)),
    decreases buckets.len(),
{
    if buckets.len() > 0 {
        let front = buckets.drop_last();
        let largest = buckets.last();
        let left = fill_fifo(largest.value, quantity);
        let rest = unfilled(quantity, total_quantity(largest.value));
        lemma_fill_fifo_total(largest.value, quantity);
        if left.len() > 0 {
            let after = buckets.update(buckets.len() - 1, Entry { key: largest.key, value: left });
            assert(after.drop_last() =~= front);
        } else if rest != 0 {
            lemma_fill_buckets_total(front, rest);
        }
    }
}

/// A quantity-priority list without its largest bucket keeps its invariant,
/// and each of its buckets is a list of open orders.
pub proof fn lemma_buckets_wf_parts(buckets: Seq<Entry<Seq<Order>>>)
    requires
        buckets_wf(buckets),
    ensures
        buckets.len() > 0 ==> buckets_wf(buckets.drop_last()),
        forall|i: int| 0 <= i < buckets.len() ==> all_open((#[trigger] buckets[i]).value),
{
    if buckets.len() > 0 {
        let front = buckets.drop_last();
        assert forall|i: int| 0 <= i < front.len() implies (#[trigger] front[i]).value.len()
            > 0 by {
            assert(buckets[i].value.len() > 0);
        }
        assert forall|i: int, j: int|
            0 <= i < front.len() && 0 <= j < front[i].value.len() implies 0 < (
        #[trigger] front[i].value[j]).quantity <= front[i].key by {
            assert(0 < buckets[i].value[j].quantity <= buckets[i].key);
        }
    }
    assert forall|i: int| 0 <= i < buckets.len() implies all_open(
        (#[trigger] buckets[i]).value,
    ) by {
        assert forall|j: int| 0 <= j < buckets[i].value.len() implies buckets[i].value[j].quantity
            > 0 by {
            assert(0 < buckets[i].value[j].quantity <= buckets[i].key);
        }
    }
}

/// Matching keeps the invariant of a quantity-priority list.
pub proof fn lemma_fill_buckets_wf(buckets: Seq<Entry<Seq<Order>>>, quantity: nat)
    requires
        buckets_wf(buckets),
    ensures
        buckets_wf(fill_buckets(buckets, quantity)),
    decreases buckets.len(),
{
    if buckets.len() > 0 {
        let front = buckets.drop_last();
        let largest = buckets.last();
        let left = fill_fifo(largest.value, quantity);
        let rest = unfilled(quantity, total_quantity(largest.value));
        lemma_buckets_wf_parts(buckets);
        if left.len() > 0 {
            let after = fill_buckets(buckets, quantity);
            lemma_set_value(buckets, buckets.len() - 1, left);
            lemma_fill_fifo_shape(largest.value, quantity);
            let gone = largest.value.len() - left.len();
            assert forall|i: int| 0 <= i < after.len() implies (#[trigger] after[i]).value.len()
                > 0 by {
                if i < front.len() {
                    assert(buckets[i].value.len() > 0);
                }
            }
            assert forall|i: int, j: int|
                0 <= i < after.len() && 0 <= j < after[i].value.len() implies 0 < (
            #[trigger] after[i].value[j]).quantity <= after[i].key by {
                if i < front.len() {
                    assert(0 < buckets[i].value[j].quantity <= buckets[i].key);
                } else {
                    assert(0 < largest.value[gone + j].quantity <= largest.key);
                }
            }
        } else if rest != 0 {
            lemma_fill_buckets_wf(front, rest);
        }
    }
}

/// An order that comes in with some quantity open keeps the invariant of a
/// quantity-priority list, and adds its quantity to the list's total.
pub proof fn lemma_push_bucket(buckets: Seq<Entry<Seq<Order>>>, order: Order)
    requires
        buckets_wf(buckets),
        order.quantity > 0,
    ensures
        buckets_wf(push_bucket(buckets, order)),
        buckets_total(push_bucket(buckets, order)) == buckets_total(buckets) + order.quantity,
{
    let key = order.quantity;
    let at = rank(buckets, key) as int;
    let ensured = with_key(buckets, key, Seq::<Order>::empty());
    let joined = ensured[at].value.push(order);
    let after = push_bucket(buckets, order);
    lemma_rank_parts(buckets, key);
    lemma_with_key(buckets, key, Seq::<Order>::empty());
    lemma_set_value(ensured, at, joined);
    assert forall|i: int| 0 <= i < after.len() implies (#[trigger] after[i]).value.len() > 0 by {
        if i != at {
            if ensured == buckets {
                assert(buckets[i].value.len() > 0);
            } else if i < at {
                assert(buckets[i].value.len() > 0);
            } else {
                assert(buckets[i - 1].value.len() > 0);
            }
        }
    }
    assert forall|i: int, j: int|
        0 <= i < after.len() && 0 <= j < after[i].value.len() implies 0 < (
    #[trigger] after[i].value[j]).quantity <= after[i].key by {
        if i != at {
            if ensured == buckets {
                assert(0 < buckets[i].value[j].quantity <= buckets[i].key);
            } else if i < at {
                assert(0 < buckets[i].value[j].quantity <= buckets[i].key);
            } else {
                assert(0 < buckets[i - 1].value[j].quantity <= buckets[i - 1].key);
            }
        } else if j < ensured[at].value.len() {
            assert(ensured == buckets);
            assert(0 < buckets[at].value[j].quantity <= buckets[at].key);
        }
    }
    lemma_buckets_total_remove(after, at);
    lemma_total_push(ensured[at].value, order);
    if ensured == buckets {
        lemma_buckets_total_remove(buckets, at);
        assert(after.remove(at) =~= buckets.remove(at));
    } else {
        assert(after.remove(at) =~= buckets);
    }
}

/// A quantity-priority list holds no quantity only when it has no bucket.
pub proof fn lemma_buckets_total_of_wf(buckets: Seq<Entry<Seq<Order>>>)
    requires
        buckets_wf(buckets),
    ensures
        buckets_total(buckets) == 0 <==> buckets.len() == 0,
{
    if buckets.len() > 0 {
        let largest = buckets.last();
        assert(largest.value.len() > 0);
        assert(0 < largest.value[0].quantity);
    }
}

/// Matching nothing against a quantity-priority list changes nothing.
pub proof fn lemma_fill_buckets_nothing(buckets: Seq<Entry<Seq<Order>>>)
    requires
        buckets_wf(buckets),
    ensures
        fill_buckets(buckets, 0) == buckets,
{
    if buckets.len() > 0 {
        let largest = buckets.last();
        assert(largest.value.len() > 0);
        lemma_buckets_wf_parts(buckets);
        lemma_fill_fifo_nothing(largest.value);
        assert(buckets.update(buckets.len() - 1, Entry { key: largest.key, value: largest.value })
            =~= buckets);
    }
}

/// Matching makes no bucket: a key that the list does not have before it
/// does not have afterwards.
pub proof fn lemma_fill_buckets_lacks(buckets: Seq<Entry<Seq<Order>>>, quantity: nat, key: u64)
    requires
        forall|i: int| 0 <= i < buckets.len() ==> buckets[i].key != key,
    ensures
        forall|i: int|
            0 <= i < fill_buckets(buckets, quantity).len() ==> fill_buckets(
                buckets,
                quantity,
            )[i].key != key,
    decreases buckets.len(),
{
    let after = fill_buckets(buckets, quantity);
    if buckets.len() > 0 {
        let front = buckets.drop_last();
        let largest = buckets.last();
        let left = fill_fifo(largest.value, quantity);
        let rest = unfilled(quantity, total_quantity(largest.value));
        assert forall|i: int| 0 <= i < front.len() implies front[i].key != key by {
            assert(buckets[i].key != key);
        }
        if left.len() > 0 {
            assert forall|i: int| 0 <= i < after.len() implies after[i].key != key by {
                assert(buckets[i].key != key);
            }
        } else if rest != 0 {
            lemma_fill_buckets_lacks(front, rest, key);
            assert(after == fill_buckets(front, rest));
        } else {
            assert(after == front);
        }
    }
}

/// What matching leaves of one bucket. The bucket is matched, as a
/// first-in-first-out list, with what reaches it of the incoming quantity:
/// what the buckets with larger keys cannot cover. It leaves the list when
/// that uses it up, and stays under its key with the orders that are left
/// when not. A bucket that nothing reaches stays as it is.
pub proof fn lemma_bucket_after_matching(
    buckets: Seq<Entry<Seq<Order>>>,
    quantity: nat,
    at: int,
)
    requires
        buckets_wf(buckets),
        0 <= at < buckets.len(),
    ensures
        ({
            let reach = unfilled(quantity, buckets_total(buckets.skip(at + 1)));
            let left = fill_fifo(buckets[at].value, reach);
            &&& lookup(fill_buckets(buckets, quantity), buckets[at].key) == if left.len() == 0 {
                None
            } else {
                Some(left)
            }
            &&& reach == 0 ==> left == buckets[at].value
        }),
    decreases buckets.len(),
{
    let after = fill_buckets(buckets, quantity);
    let bucket = buckets[at];
    let above = buckets.skip(at + 1);
    let reach = unfilled(quantity, buckets_total(above));
    let front = buckets.drop_last();
    let largest = buckets.last();
    let left = fill_fifo(largest.value, quantity);
    let rest = unfilled(quantity, total_quantity(largest.value));
    lemma_buckets_wf_parts(buckets);
    lemma_fill_buckets_wf(buckets, quantity);
    lemma_fill_fifo_total(largest.value, quantity);
    assert(bucket.value.len() > 0 && all_open(bucket.value));
    if reach == 0 {
        lemma_fill_fifo_nothing(bucket.value);
    }
    if at == buckets.len() - 1 {
        assert(above.len() == 0);
        if left.len() > 0 {
            lemma_lookup_at(after, at);
        } else {
            assert forall|i: int| 0 <= i < front.len() implies front[i].key != bucket.key by {
                assert(buckets[i].key < buckets[at].key);
            }
            if rest != 0 {
                lemma_fill_buckets_lacks(front, rest, bucket.key);
                assert(after == fill_buckets(front, rest));
            } else {
                assert(after == front);
            }
            lemma_lookup_none(after, bucket.key);
        }
    } else {
        assert(above.last() == largest);
        assert(above.drop_last() =~= front.skip(at + 1));
        if left.len() > 0 {
            assert(reach == 0);
            lemma_lookup_at(after, at);
        } else if rest != 0 {
            lemma_bucket_after_matching(front, rest, at);
            assert(after == fill_buckets(front, rest));
        } else {
            assert(reach == 0);
            assert(after == front);
            lemma_lookup_at(front, at);
        }
    }
}

/// Matching changes neither the side nor the price of an order in a bucket.
pub proof fn lemma_fill_buckets_stands(
    buckets: Seq<Entry<Seq<Order>>>,
    quantity: nat,
    side: OrderType,
    price: u64,
)
    requires
        buckets_stand_at(buckets, side, price),
    ensures
        buckets_stand_at(fill_buckets(buckets, quantity), side, price),
    decreases buckets.len(),
{
    let after = fill_buckets(buckets, quantity);
    if buckets.len() > 0 {
        let front = buckets.drop_last();
        let largest = buckets.last();
        let left = fill_fifo(largest.value, quantity);
        let rest = unfilled(quantity, total_quantity(largest.value));
        assert forall|i: int| 0 <= i < front.len() implies all_stand_at(
            (#[trigger] front[i]).value,
            side,
            price,
        ) by {
            assert(all_stand_at(buckets[i].value, side, price));
        }
        if left.len() > 0 {
            assert(all_stand_at(buckets[buckets.len() - 1].value, side, price));
            lemma_fill_fifo_stands(largest.value, quantity, side, price);
            assert forall|i: int| 0 <= i < after.len() implies all_stand_at(
                (#[trigger] after[i]).value,
                side,
                price,
            ) by {
                if i < front.len() {
                    assert(all_stand_at(buckets[i].value, side, price));
                }
            }
        } else if rest != 0 {
            lemma_fill_buckets_stands(front, rest, side, price);
            assert(after == fill_buckets(front, rest));
        } else {
            assert(after == front);
        }
    }
}

/// An order of the right side and price that comes into the buckets leaves
/// all their orders of that side and price.
pub proof fn lemma_push_bucket_stands(
    buckets: Seq<Entry<Seq<Order>>>,
    order: Order,
    side: OrderType,
    price: u64,
)
    requires
        keys_ascending(buckets),
        buckets_stand_at(buckets, side, price),
        order.stands_at(side, price),
    ensures
        buckets_stand_at(push_bucket(buckets, order), side, price),
{
    let key = order.quantity;
    let at = rank(buckets, key) as int;
    let ensured = with_key(buckets, key, Seq::<Order>::empty());
    let after = push_bucket(buckets, order);
    lemma_rank_parts(buckets, key);
    assert forall|i: int| 0 <= i < after.len() implies all_stand_at(
        (#[trigger] after[i]).value,
        side,
        price,
    ) by {
        if i != at {
            let from = if ensured == buckets || i < at { i } else { i - 1 };
            assert(all_stand_at(buckets[from].value, side, price));
        } else if ensured == buckets {
            assert(all_stand_at(buckets[at].value, side, price));
        }
    }
}

} // verus!
