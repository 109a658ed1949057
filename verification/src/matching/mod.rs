//! What matching does to resting orders, stated over sequences: first for the
//! orders that rest at one price, then for the price levels of a book.

mod buckets;
mod fifo;
mod levels;

pub use self::buckets::{
    all_buckets_empty, bucket_orders, buckets_stand_at, buckets_total, buckets_wf,
    fill_buckets, lemma_bucket_after_matching, lemma_bucket_orders_none,
    lemma_buckets_total_of_wf, lemma_buckets_total_remove, lemma_buckets_wf_parts,
    lemma_fill_buckets_lacks, lemma_fill_buckets_nothing, lemma_fill_buckets_stands,
    lemma_fill_buckets_total, lemma_fill_buckets_wf, lemma_push_bucket,
    lemma_push_bucket_stands, push_bucket,
};
pub use self::fifo::{
    all_open, all_stand_at, fill_fifo, lemma_fill_fifo_nothing, lemma_fill_fifo_open,
    lemma_fill_fifo_shape, lemma_fill_fifo_stands, lemma_fill_fifo_total, lemma_total_of_open,
    lemma_total_push, total_quantity, unfilled,
};
pub use self::levels::{
    best_index, better_levels, book_sided, book_total, book_wf, fill_levels, holds_orders,
    lemma_best_level_after_matching, lemma_book_total_remove, lemma_book_wf_remove,
    lemma_fill_levels, lemma_fill_levels_lacks, lemma_fill_levels_sided,
    lemma_level_after_matching, lemma_pass_end, lemma_pass_step, lemma_rest_order,
    lemma_rest_order_sided, lemma_without_empty_levels, no_empty_levels, pass_outcome,
    reaching, rest_order, without_empty_levels,
};
