//! A least-significant-digit radix sort for 32-bit signed integers.
//!
//! The sort works in four passes, one per 8-bit digit, each pass a stable
//! counting sort.  Signedness is handled by flipping the sign bit before a
//! digit is read, so that unsigned digit order agrees with signed value
//! order.  The sort is verified: it returns an ascending permutation of its
//! input, for every input.

mod classes;
mod digits;
mod random;
mod sorting;

pub use random::generate_vector;
pub use random::pow10;
pub use sorting::lemma_sort_idempotent;
pub use sorting::lemma_sort_of_extremes;
pub use sorting::lemma_sort_of_short;
pub use sorting::lemma_sorted_unique;
pub use sorting::radix_sort;
pub use sorting::sort_of;
pub use sorting::sorted;
