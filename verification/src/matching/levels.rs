//! Matching against the price levels of a book, and resting an order in one.

use vstd::prelude::*;

use crate::book::{Order, OrderListView, OrderType};
use crate::matching::fifo::unfilled;
use crate::trading::TradingPriorityType;
use crate::types::{
    keys_ascending, lemma_lookup_at, lemma_lookup_none, lemma_rank_parts, lemma_set_value,
    lemma_with_key, lookup, rank, with_key, Entry,
};

verus! {

/// The open quantity of all orders at all of `levels`.
pub open spec fn book_total(levels: Seq<Entry<OrderListView>>) -> nat
    decreases levels.len(),
{
    if levels.len() == 0 {
        0
    } else {
        book_total(levels.drop_last()) + levels.last().value.total()
    }
}

/// Whether every one of `levels` has an order resting at it.
pub open spec fn no_empty_levels(levels: Seq<Entry<OrderListView>>) -> bool {
    forall|i: int| 0 <= i < levels.len() ==> !(#[trigger] levels[i]).value.is_empty()
}

/// The invariant of a book between two submissions: its prices ascend, so
/// that none occurs twice; the list at every price keeps its own invariant;
/// and no price is left without an order.
pub open spec fn book_wf(levels: Seq<Entry<OrderListView>>) -> bool {
    &&& keys_ascending(levels)
    &&& forall|i: int| 0 <= i < levels.len() ==> (#[trigger] levels[i]).value.wf()
    &&& no_empty_levels(levels)
}

/// Whether every order of a book stands where it belongs: it is an order of
/// `side`, the side of the book, and it rests at the level of its own limit
/// price.
pub open spec fn book_sided(levels: Seq<Entry<OrderListView>>, side: OrderType) -> bool {
    forall|i: int|
        0 <= i < levels.len() ==> (#[trigger] levels[i]).value.rests_at(side, levels[i].key)
}

/// Where the best price stands in a book of resting orders of `side`: the
/// lowest price for asks, the highest for bids.
pub open spec fn best_index(levels: Seq<Entry<OrderListView>>, side: OrderType) -> int {
    match side {
        OrderType::Ask => 0,
        OrderType::Bid => levels.len() - 1,
    }
}

/// The levels of a book of resting orders of `side` whose price is better
/// than that of the level at `at`, and which are therefore matched before it:
/// the lower prices among asks, the higher prices among bids.
pub open spec fn better_levels(
    levels: Seq<Entry<OrderListView>>,
    side: OrderType,
    at: int,
) -> Seq<Entry<OrderListView>> {
    match side {
        OrderType::Ask => levels.take(at),
        OrderType::Bid => levels.skip(at + 1),
    }
}

/// How much of an incoming `quantity` reaches the level at `at`: what the
/// levels at better prices cannot cover.
pub open spec fn reaching(
    levels: Seq<Entry<OrderListView>>,
    side: OrderType,
    quantity: nat,
    at: int,
) -> nat {
    unfilled(quantity, book_total(better_levels(levels, side, at)))
}

/// The test that a level passes when some order rests at it.
pub open spec fn holds_orders() -> spec_fn(Entry<OrderListView>) -> bool {
    |level: Entry<OrderListView>| !level.value.is_empty()
}

/// The levels without those at which no order rests.
pub open spec fn without_empty_levels(levels: Seq<Entry<OrderListView>>) -> Seq<
    Entry<OrderListView>,
> {
    levels.filter(holds_orders())
}

/// What a pass over a book of resting orders of `side` leaves behind once
/// the levels without orders are removed, seen in the middle of the pass: the
/// levels from `low` up to `high` are still to be visited, best price first,
/// with `quantity` left to match, and the levels outside have been visited.
pub open spec fn pass_outcome(
    levels: Seq<Entry<OrderListView>>,
    low: int,
    high: int,
    side: OrderType,
    quantity: nat,
) -> Seq<Entry<OrderListView>> {
    without_empty_levels(levels.take(low)) + fill_levels(
        levels.subrange(low, high),
        side,
        quantity,
    ) + without_empty_levels(levels.skip(high))
}

/// The levels of a book of resting orders of `side` after an incoming
/// `quantity` has been matched against it. The level at the best price is
/// matched first. A level that is used up leaves the book, and matching goes
/// on at the next best price while some of the quantity is left. The price of
/// a level is never held against a limit.
pub open spec fn fill_levels(
    levels: Seq<Entry<OrderListView>>,
    side: OrderType,
    quantity: nat,
) -> Seq<Entry<OrderListView>>
    decreases levels.len(),
{
    if levels.len() == 0 || quantity == 0 {
        levels
    } else {
        let at = best_index(levels, side);
        let best = levels[at];
        let left = best.value.filled(quantity);
        if left.is_empty() {
            fill_levels(levels.remove(at), side, unfilled(quantity, best.value.total()))
        } else {
            levels.update(at, Entry { key: best.key, value: left })
        }
    }
}

/// The levels after `order` has come to rest at its price. Where the book has
/// no level at that price yet, one is made first, with an empty list of the
/// arrangement that `priority_type` asks for.
pub open spec fn rest_order(
    levels: Seq<Entry<OrderListView>>,
    priority_type: TradingPriorityType,
    order: Order,
) -> Seq<Entry<OrderListView>> {
    let at = rank(levels, order.price) as int;
    let ensured = with_key(levels, order.price, OrderListView::empty(priority_type));
    ensured.update(at, Entry { key: order.price, value: ensured[at].value.pushed(order) })
}

/// The total of a book is the total of one of its levels plus that of the
/// others.
pub proof fn lemma_book_total_remove(levels: Seq<Entry<OrderListView>>, at: int)
    requires
        0 <= at < levels.len(),
    ensures
        book_total(levels) == book_total(levels.remove(at)) + levels[at].value.total(),
    decreases levels.len(),
{
    if at == levels.len() - 1 {
        assert(levels.remove(at) =~= levels.drop_last());
    } else {
        lemma_book_total_remove(levels.drop_last(), at);
        assert(levels.remove(at).drop_last() =~= levels.drop_last().remove(at));
    }
}

/// A book that loses one of its levels keeps its invariant.
pub proof fn lemma_book_wf_remove(levels: Seq<Entry<OrderListView>>, at: int)
    requires
        book_wf(levels),
        0 <= at < levels.len(),
    ensures
        book_wf(levels.remove(at)),
{
    let others = levels.remove(at);
    assert forall|i: int, j: int| 0 <= i < j < others.len() implies others[i].key
        < others[j].key by {
        let from_i = if i < at { i } else { i + 1 };
        let from_j = if j < at { j } else { j + 1 };
        assert(levels[from_i].key < levels[from_j].key);
    }
    assert forall|i: int| 0 <= i < others.len() implies (#[trigger] others[i]).value.wf() && !(
    others[i]).value.is_empty() by {
        let from = if i < at { i } else { i + 1 };
        assert(levels[from].value.wf() && !levels[from].value.is_empty());
    }
}

/// Matching keeps the invariant of a book, and takes from the book exactly
/// what it takes from the incoming quantity: the smaller of the incoming
/// quantity and the book's total.
pub proof fn lemma_fill_levels(levels: Seq<Entry<OrderListView>>, side: OrderType, quantity: nat)
    requires
        book_wf(levels),
    ensures
        book_wf(fill_levels(levels, side, quantity)),
        book_total(fill_levels(levels, side, quantity)) + quantity == book_total(levels)
            + unfilled(quantity, book_total(levels)),
    decreases levels.len(),
{
    if levels.len() > 0 && quantity > 0 {
        let at = best_index(levels, side);
        let best = levels[at];
        let left = best.value.filled(quantity);
        let others = levels.remove(at);
        assert(best.value.wf() && !best.value.is_empty());
        best.value.lemma_filled(quantity);
        lemma_book_total_remove(levels, at);
        lemma_book_wf_remove(levels, at);
        if left.is_empty() {
            lemma_fill_levels(others, side, unfilled(quantity, best.value.total()));
        } else {
            let after = levels.update(at, Entry { key: best.key, value: left });
            lemma_set_value(levels, at, left);
            assert forall|i: int| 0 <= i < after.len() implies (#[trigger] after[i]).value.wf()
                && !after[i].value.is_empty() by {
                if i != at {
                    assert(levels[i].value.wf() && !levels[i].value.is_empty());
                }
            }
            lemma_book_total_remove(after, at);
            assert(after.remove(at) =~= others);
        }
    }
}

/// An order that comes to rest with some quantity open keeps the invariant of
/// the book and adds its quantity to the book's total.
pub proof fn lemma_rest_order(
    levels: Seq<Entry<OrderListView>>,
    priority_type: TradingPriorityType,
    order: Order,
)
    requires
        book_wf(levels),
        order.quantity > 0,
    ensures
        book_wf(rest_order(levels, priority_type, order)),
        book_total(rest_order(levels, priority_type, order)) == book_total(levels)
            + order.quantity,
{
    let key = order.price;
    let at = rank(levels, key) as int;
    let fresh = OrderListView::empty(priority_type);
    let ensured = with_key(levels, key, fresh);
    let joined = ensured[at].value.pushed(order);
    let after = rest_order(levels, priority_type, order);
    lemma_rank_parts(levels, key);
    lemma_with_key(levels, key, fresh);
    lemma_set_value(ensured, at, joined);
    if ensured == levels {
        assert(levels[at].value.wf());
    }
    assert(ensured[at].value.wf());
    ensured[at].value.lemma_pushed(order);
    assert forall|i: int| 0 <= i < after.len() implies (#[trigger] after[i]).value.wf()
        && !after[i].value.is_empty() by {
        if i != at {
            let from = if ensured == levels || i < at { i } else { i - 1 };
            assert(levels[from].value.wf() && !levels[from].value.is_empty());
        }
    }
    lemma_book_total_remove(after, at);
    if ensured == levels {
        lemma_book_total_remove(levels, at);
        assert(after.remove(at) =~= levels.remove(at));
    } else {
        assert(after.remove(at) =~= levels);
    }
}

/// Removing the levels without orders from a book that has none changes
/// nothing.
pub proof fn lemma_without_empty_levels(levels: Seq<Entry<OrderListView>>)
    requires
        no_empty_levels(levels),
    ensures
        without_empty_levels(levels) == levels,
    decreases levels.len(),
{
    if levels.len() == 0 {
        assert(levels.filter(holds_orders()).len() <= 0) by {
            levels.lemma_filter_len(holds_orders());
        }
        assert(without_empty_levels(levels) =~= levels);
    } else {
        let front = levels.drop_last();
        assert forall|i: int| 0 <= i < front.len() implies !(
        #[trigger] front[i]).value.is_empty() by {
            assert(!levels[i].value.is_empty());
        }
        lemma_without_empty_levels(front);
        front.lemma_filter_push(levels.last(), holds_orders());
        assert(front.push(levels.last()) =~= levels);
        assert(!levels[levels.len() - 1].value.is_empty());
    }
}

/// One step of a pass: matching at the best level that is still to be
/// visited, and leaving it in its place even where it is used up, does not
/// change what the pass leaves behind.
pub proof fn lemma_pass_step(
    levels: Seq<Entry<OrderListView>>,
    low: int,
    high: int,
    side: OrderType,
    quantity: nat,
)
    requires
        0 <= low < high <= levels.len(),
        quantity > 0,
        book_wf(levels.subrange(low, high)),
    ensures
        ({
            let at = low + best_index(levels.subrange(low, high), side);
            let best = levels[at];
            let after = levels.update(
                at,
                Entry { key: best.key, value: best.value.filled(quantity) },
            );
            let rest = unfilled(quantity, best.value.total());
            let next_low = if side == OrderType::Ask { low + 1 } else { low };
            let next_high = if side == OrderType::Ask { high } else { high - 1 };
            &&& best.value.wf()
            &&& book_wf(after.subrange(next_low, next_high))
            &&& pass_outcome(after, next_low, next_high, side, rest) == pass_outcome(
                levels,
                low,
                high,
                side,
                quantity,
            )
            &&& unfilled(rest, book_total(after.subrange(next_low, next_high))) == unfilled(
                quantity,
                book_total(levels.subrange(low, high)),
            )
        }),
{
    let open = levels.subrange(low, high);
    let within = best_index(open, side);
    let at = low + within;
    let best = levels[at];
    let left = best.value.filled(quantity);
    let entry = Entry { key: best.key, value: left };
    let after = levels.update(at, entry);
    let rest = unfilled(quantity, best.value.total());
    let next_low = if side == OrderType::Ask { low + 1 } else { low };
    let next_high = if side == OrderType::Ask { high } else { high - 1 };
    assert(open[within] == best);
    assert(best.value.wf() && !best.value.is_empty());
    best.value.lemma_filled(quantity);
    lemma_book_total_remove(open, within);
    lemma_book_wf_remove(open, within);
    assert(after.subrange(next_low, next_high) =~= open.remove(within));
    let single = Seq::<Entry<OrderListView>>::empty().push(entry);
    Seq::<Entry<OrderListView>>::empty().lemma_filter_push(entry, holds_orders());
    assert(Seq::<Entry<OrderListView>>::empty().filter(holds_orders()) =~= Seq::<
        Entry<OrderListView>,
    >::empty()) by {
        Seq::<Entry<OrderListView>>::empty().lemma_filter_len(holds_orders());
    }
    if side == OrderType::Ask {
        assert(after.take(next_low) =~= levels.take(low).push(entry));
        levels.take(low).lemma_filter_push(entry, holds_orders());
        assert(after.skip(next_high) =~= levels.skip(high));
        if !left.is_empty() {
            assert(open.update(0, entry) =~= single + open.remove(0));
            assert(pass_outcome(after, next_low, next_high, side, rest) =~= pass_outcome(
                levels,
                low,
                high,
                side,
                quantity,
            ));
        }
    } else {
        assert(after.take(next_low) =~= levels.take(low));
        assert(after.skip(next_high) =~= single + levels.skip(high));
        Seq::filter_distributes_over_add(single, levels.skip(high), holds_orders());
        if !left.is_empty() {
            assert(open.update(within, entry) =~= open.remove(within) + single);
            assert(pass_outcome(after, next_low, next_high, side, rest) =~= pass_outcome(
                levels,
                low,
                high,
                side,
                quantity,
            ));
        } else {
            assert(pass_outcome(after, next_low, next_high, side, rest) =~= pass_outcome(
                levels,
                low,
                high,
                side,
                quantity,
            ));
        }
    }
}

/// The end of a pass: once every level has been visited or nothing is left
/// to match, removing the levels without orders gives what the pass leaves
/// behind.
pub proof fn lemma_pass_end(
    levels: Seq<Entry<OrderListView>>,
    low: int,
    high: int,
    side: OrderType,
    quantity: nat,
)
    requires
        0 <= low <= high <= levels.len(),
        low == high || quantity == 0,
        book_wf(levels.subrange(low, high)),
    ensures
        pass_outcome(levels, low, high, side, quantity) == without_empty_levels(levels),
{
    let open = levels.subrange(low, high);
    lemma_without_empty_levels(open);
    assert(fill_levels(open, side, quantity) == open);
    Seq::filter_distributes_over_add(levels.take(low), open, holds_orders());
    Seq::filter_distributes_over_add(levels.take(low) + open, levels.skip(high), holds_orders());
    assert(levels.take(low) + open + levels.skip(high) =~= levels);
}

/// Matching makes no price level: a price that the book does not have before
/// it does not have afterwards.
pub proof fn lemma_fill_levels_lacks(
    levels: Seq<Entry<OrderListView>>,
    side: OrderType,
    quantity: nat,
    price: u64,
)
    requires
        forall|i: int| 0 <= i < levels.len() ==> levels[i].key != price,
    ensures
        forall|i: int|
            0 <= i < fill_levels(levels, side, quantity).len() ==> fill_levels(
                levels,
                side,
                quantity,
            )[i].key != price,
    decreases levels.len(),
{
    let after = fill_levels(levels, side, quantity);
    if levels.len() > 0 && quantity > 0 {
        let at = best_index(levels, side);
        let best = levels[at];
        if best.value.filled(quantity).is_empty() {
            let others = levels.remove(at);
            let rest = unfilled(quantity, best.value.total());
            assert forall|i: int| 0 <= i < others.len() implies others[i].key != price by {
                let from = if i < at { i } else { i + 1 };
                assert(levels[from].key != price);
            }
            lemma_fill_levels_lacks(others, side, rest, price);
            assert(after == fill_levels(others, side, rest));
        } else {
            let left = best.value.filled(quantity);
            assert(after == levels.update(at, Entry { key: best.key, value: left }));
            assert forall|i: int| 0 <= i < after.len() implies after[i].key != price by {
                assert(levels[i].key != price);
            }
        }
    } else {
        assert(after == levels);
    }
}

/// What matching leaves of the level at the best price: it is matched with
/// all of the incoming quantity, and leaves the book when that uses it up.
pub proof fn lemma_best_level_after_matching(
    levels: Seq<Entry<OrderListView>>,
    side: OrderType,
    quantity: nat,
)
    requires
        book_wf(levels),
        levels.len() > 0,
        quantity > 0,
    ensures
        ({
            let best = levels[best_index(levels, side)];
            let left = best.value.filled(quantity);
            lookup(fill_levels(levels, side, quantity), best.key) == if left.is_empty() {
                None
            } else {
                Some(left)
            }
        }),
{
    let after = fill_levels(levels, side, quantity);
    let first = best_index(levels, side);
    let best = levels[first];
    let left = best.value.filled(quantity);
    lemma_fill_levels(levels, side, quantity);
    if left.is_empty() {
        let others = levels.remove(first);
        assert forall|i: int| 0 <= i < others.len() implies others[i].key != best.key by {
            let from = if i < first { i } else { i + 1 };
            if from < first {
                assert(levels[from].key < levels[first].key);
            } else {
                assert(levels[first].key < levels[from].key);
            }
        }
        lemma_fill_levels_lacks(others, side, unfilled(quantity, best.value.total()), best.key);
        assert(after == fill_levels(others, side, unfilled(quantity, best.value.total())));
        lemma_lookup_none(after, best.key);
    } else {
        lemma_lookup_at(after, first);
    }
}

/// What matching leaves of one price level. The level is matched with what
/// reaches it of the incoming quantity, which is what the levels at better
/// prices cannot cover. It leaves the book when that uses it up, and stays
/// under its price with what is left of its list when not. A level that
/// nothing reaches stays as it is.
pub proof fn lemma_level_after_matching(
    levels: Seq<Entry<OrderListView>>,
    side: OrderType,
    quantity: nat,
    at: int,
)
    requires
        book_wf(levels),
        0 <= at < levels.len(),
    ensures
        ({
            let left = levels[at].value.filled(reaching(levels, side, quantity, at));
            lookup(fill_levels(levels, side, quantity), levels[at].key) == if left.is_empty() {
                None
            } else {
                Some(left)
            }
        }),
        reaching(levels, side, quantity, at) == 0 ==> lookup(
            fill_levels(levels, side, quantity),
            levels[at].key,
        ) == Some(levels[at].value),
    decreases levels.len(),
{
    let after = fill_levels(levels, side, quantity);
    let level = levels[at];
    let reach = reaching(levels, side, quantity, at);
    let first = best_index(levels, side);
    let better = better_levels(levels, side, at);
    assert(level.value.wf() && !level.value.is_empty());
    level.value.lemma_filled(reach);
    if quantity == 0 {
        lemma_lookup_at(levels, at);
    } else if at == first {
        assert(better.len() == 0);
        lemma_best_level_after_matching(levels, side, quantity);
    } else {
        let best = levels[first];
        let left = best.value.filled(quantity);
        let within = if side == OrderType::Ask { 0 } else { better.len() - 1 };
        assert(better[within] == best);
        assert(best.value.wf() && !best.value.is_empty());
        best.value.lemma_filled(quantity);
        lemma_book_total_remove(better, within);
        if left.is_empty() {
            let others = levels.remove(first);
            let moved = if first < at { at - 1 } else { at };
            let rest = unfilled(quantity, best.value.total());
            lemma_book_wf_remove(levels, first);
            assert(others[moved] == level);
            assert(better_levels(others, side, moved) =~= better.remove(within));
            assert(reaching(others, side, rest, moved) == reach);
            lemma_level_after_matching(others, side, rest, moved);
            assert(after == fill_levels(others, side, rest));
        } else {
            assert(reach == 0);
            assert(after == levels.update(first, Entry { key: best.key, value: left }));
            lemma_set_value(levels, first, left);
            lemma_lookup_at(after, at);
        }
    }
}

/// Matching leaves every order of a book on its side and at its price.
pub proof fn lemma_fill_levels_sided(
    levels: Seq<Entry<OrderListView>>,
    side: OrderType,
    quantity: nat,
    held: OrderType,
)
    requires
        book_sided(levels, held),
    ensures
        book_sided(fill_levels(levels, side, quantity), held),
    decreases levels.len(),
{
    let after = fill_levels(levels, side, quantity);
    if levels.len() > 0 && quantity > 0 {
        let at = best_index(levels, side);
        let best = levels[at];
        let left = best.value.filled(quantity);
        assert(best.value.rests_at(held, best.key));
        if left.is_empty() {
            let others = levels.remove(at);
            let rest = unfilled(quantity, best.value.total());
            assert forall|i: int| 0 <= i < others.len() implies (
            #[trigger] others[i]).value.rests_at(held, others[i].key) by {
                let from = if i < at { i } else { i + 1 };
                assert(levels[from].value.rests_at(held, levels[from].key));
            }
            lemma_fill_levels_sided(others, side, rest, held);
            assert(after == fill_levels(others, side, rest));
        } else {
            best.value.lemma_filled_rests_at(held, best.key, quantity);
            assert(after == levels.update(at, Entry { key: best.key, value: left }));
            assert forall|i: int| 0 <= i < after.len() implies (#[trigger] after[i]).value.rests_at(
                held,
                after[i].key,
            ) by {
                if i != at {
                    assert(levels[i].value.rests_at(held, levels[i].key));
                }
            }
        }
    } else {
        assert(after == levels);
    }
}

/// An order of the side of a book that comes to rest leaves every order of
/// the book on its side and at its price.
pub proof fn lemma_rest_order_sided(
    levels: Seq<Entry<OrderListView>>,
    priority_type: TradingPriorityType,
    order: Order,
)
    requires
        book_wf(levels),
        book_sided(levels, order.order_type),
    ensures
        book_sided(rest_order(levels, priority_type, order), order.order_type),
{
    let side = order.order_type;
    let key = order.price;
    let at = rank(levels, key) as int;
    let fresh = OrderListView::empty(priority_type);
    let ensured = with_key(levels, key, fresh);
    let after = rest_order(levels, priority_type, order);
    lemma_rank_parts(levels, key);
    lemma_with_key(levels, key, fresh);
    if ensured == levels {
        assert(levels[at].value.rests_at(side, key));
        assert(levels[at].value.wf());
    }
    assert(ensured[at].value.rests_at(side, key));
    assert(ensured[at].value.ordered());
    ensured[at].value.lemma_pushed_rests_at(side, key, order);
    assert forall|i: int| 0 <= i < after.len() implies (#[trigger] after[i]).value.rests_at(
        side,
        after[i].key,
    ) by {
        if i != at {
            let from = if ensured == levels || i < at { i } else { i - 1 };
            assert(levels[from].value.rests_at(side, levels[from].key));
        }
    }
}

} // verus!
