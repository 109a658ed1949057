//! Matching against a first-in-first-out list of orders.
use vstd::prelude::*;

use crate::book::{Order, OrderType};

verus! {

/// The open quantity of all of `orders` together.
pub open spec fn total_quantity(orders: Seq<Order>) -> nat
    decreases orders.len(),
{
    if orders.len() == 0 {
        0
    } else {
        orders[0].quantity as nat + total_quantity(orders.drop_first())
    }
}

/// What is left of an incoming `quantity` once it has been matched against
/// resting orders whose open quantities add up to `resting`.
pub open spec fn unfilled(quantity: nat, resting: nat) -> nat {
    if quantity >= resting {
        (quantity - resting) as nat
    } else {
        0
    }
}

/// The orders that stay in a first-in-first-out list after an incoming
/// `quantity` has been matched against it. The oldest order is matched first.
/// An order that the quantity covers leaves the list; the first order that it
/// does not cover stays at the head with what is left of it, and nothing
/// behind that order is touched.
pub open spec fn fill_fifo(orders: Seq<Order>, quantity: nat) -> Seq<Order>
    decreases orders.len(),
{
    if orders.len() == 0 {
        orders
    } else if quantity >= orders[0].quantity {
        fill_fifo(orders.drop_first(), (quantity - orders[0].quantity) as nat)
    } else {
        orders.update(0, orders[0].with_quantity((orders[0].quantity - quantity) as u64))
    }
}

/// Whether every order of `orders` has some quantity open.
pub open spec fn all_open(orders: Seq<Order>) -> bool {
    forall|i: int| 0 <= i < orders.len() ==> orders[i].quantity > 0
}

/// Whether every order of `orders` is an order of `side` with the limit price
/// `price`.
pub open spec fn all_stand_at(orders: Seq<Order>, side: OrderType, price: u64) -> bool {
    forall|i: int| 0 <= i < orders.len() ==> (#[trigger] orders[i]).stands_at(side, price)
}

/// The total of a list with one more order at its back.
pub proof fn lemma_total_push(orders: Seq<Order>, order: Order)
    ensures
        total_quantity(orders.push(order)) == total_quantity(orders) + order.quantity,
    decreases orders.len(),
{
    let pushed = orders.push(order);
    if orders.len() == 0 {
        assert(pushed.drop_first() =~= orders);
    } else {
        lemma_total_push(orders.drop_first(), order);
        assert(pushed.drop_first() =~= orders.drop_first().push(order));
    }
}

/// A list of open orders holds no quantity only when it holds no order.
pub proof fn lemma_total_of_open(orders: Seq<Order>)
    requires
        all_open(orders),
    ensures
        total_quantity(orders) == 0 <==> orders.len() == 0,
{
    if orders.len() > 0 {
        assert(orders[0].quantity > 0);
    }
}

/// The shape of a filled list. Some number of orders at the front are gone,
/// and the incoming quantity covered them all. Of what stays, only the head
/// may have changed: it has given up what was left of the incoming quantity,
/// which was less than it held.
pub proof fn lemma_fill_fifo_shape(orders: Seq<Order>, quantity: nat)
    ensures
        fill_fifo(orders, quantity).len() <= orders.len(),
        ({
            let left = fill_fifo(orders, quantity);
            let gone = orders.len() - left.len();
            let spent = total_quantity(orders.take(gone));
            &&& spent <= quantity
            &&& forall|i: int| 1 <= i < left.len() ==> left[i] == orders[gone + i]
            &&& left.len() > 0 ==> {
                &&& quantity - spent < orders[gone].quantity
                &&& left[0] == orders[gone].with_quantity(
                    (orders[gone].quantity - (quantity - spent)) as u64,
                )
            }
        }),
    decreases orders.len(),
{
    if orders.len() == 0 {
        assert(orders.take(0) =~= orders);
    } else if quantity >= orders[0].quantity {
        let rest = orders.drop_first();
        let less = (quantity - orders[0].quantity) as nat;
        lemma_fill_fifo_shape(rest, less);
        let left = fill_fifo(orders, quantity);
        let gone = orders.len() - left.len();
        assert(orders.take(gone).drop_first() =~= rest.take(gone - 1));
        assert forall|i: int| 1 <= i < left.len() implies left[i] == orders[gone + i] by {
            assert(left[i] == rest[gone - 1 + i]);
        }
        if left.len() > 0 {
            assert(rest[gone - 1] == orders[gone]);
        }
    } else {
        assert(orders.take(0).len() == 0);
    }
}

/// Matching takes from a list exactly what it takes from the incoming
/// quantity: the smaller of the incoming quantity and the list's total.
pub proof fn lemma_fill_fifo_total(orders: Seq<Order>, quantity: nat)
    ensures
        total_quantity(fill_fifo(orders, quantity)) + quantity == total_quantity(orders)
            + unfilled(quantity, total_quantity(orders)),
        fill_fifo(orders, quantity).len() > 0 ==> quantity < total_quantity(orders),
        fill_fifo(orders, quantity).len() == 0 ==> quantity >= total_quantity(orders),
    decreases orders.len(),
{
    if orders.len() == 0 {
    } else if quantity >= orders[0].quantity {
        lemma_fill_fifo_total(orders.drop_first(), (quantity - orders[0].quantity) as nat);
    } else {
        let left = fill_fifo(orders, quantity);
        assert(left.drop_first() =~= orders.drop_first());
    }
}

/// Matching leaves every order that stays with some quantity open.
pub proof fn lemma_fill_fifo_open(orders: Seq<Order>, quantity: nat)
    requires
        all_open(orders),
    ensures
        all_open(fill_fifo(orders, quantity)),
{
    lemma_fill_fifo_shape(orders, quantity);
    let left = fill_fifo(orders, quantity);
    let gone = orders.len() - left.len();
    assert forall|i: int| 0 <= i < left.len() implies left[i].quantity > 0 by {
        assert(orders[gone + i].quantity > 0);
    }
}

/// Matching nothing against open orders changes nothing.
pub proof fn lemma_fill_fifo_nothing(orders: Seq<Order>)
    requires
        all_open(orders),
    ensures
        fill_fifo(orders, 0) == orders,
{
    if orders.len() > 0 {
        assert(orders[0].quantity > 0);
        assert(orders.update(0, orders[0].with_quantity(orders[0].quantity)) =~= orders);
    }
}

/// Matching changes neither the side nor the price of an order.
pub proof fn lemma_fill_fifo_stands(orders: Seq<Order>, quantity: nat, side: OrderType, price: u64)
    requires
        all_stand_at(orders, side, price),
    ensures
        all_stand_at(fill_fifo(orders, quantity), side, price),
{
    lemma_fill_fifo_shape(orders, quantity);
    let left = fill_fifo(orders, quantity);
    let gone = orders.len() - left.len();
    assert forall|i: int| 0 <= i < left.len() implies (#[trigger] left[i]).stands_at(
        side,
        price,
    ) by {
        assert(orders[gone + i].stands_at(side, price));
    }
}

} // verus!
