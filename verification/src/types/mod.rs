use vstd::prelude::*;

mod fifo_list;
mod ordered_map;
mod quantity_list;

pub use self::fifo_list::FifoList;
pub use self::ordered_map::{
    entries_view, has_key, keys_ascending, lemma_has_key, lemma_lookup_at, lemma_lookup_none,
    lemma_rank_is, lemma_rank_parts, lemma_set_value, lemma_with_key, lookup, rank, with_key,
    Entry, OrderedMap,
};
pub use self::quantity_list::QuantityPriorityList;

verus! {

/// A limit price.
pub type Price = u64;

} // verus!
