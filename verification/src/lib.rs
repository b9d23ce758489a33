//! An interval-keyed associative container: one `insert` call assigns a
//! value to every key in a half-open range `[begin, end)`, and `get`
//! returns, for any single key, whichever value currently covers it.
//! Keys not covered by any inserted range keep the value supplied at
//! construction, which conceptually covers the whole key domain.

pub mod order;
pub mod value;
pub mod interval_map;

pub use crate::interval_map::{
    IntervalMap, canonical, keys_sorted, lemma_insert_empty_range_no_op, lemma_insert_idempotent,
    lemma_later_insert_overrides, lemma_override_semantics, lemma_upper_bound_excluded,
    written_value,
};
pub use crate::order::{Min, TotalOrder, in_range, key_lt, lemma_empty_range};
pub use crate::value::ValEq;
