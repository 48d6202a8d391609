//! A stable, adaptive, in-memory sorting engine together with a conformance
//! harness for exercising sorting backends.
//!
//! The engine detects naturally sorted runs, extends short runs with a
//! panic-free insertion sort or fixed-size sorting networks, and merges
//! adjacent runs with a scratch buffer, keeping a run stack whose collapse
//! rule bounds the total merge work.  Every public operation states its
//! behaviour as a contract: the element multiset is preserved for *every*
//! comparator, and for comparators that define a total preorder the result
//! is sorted and stable.

pub mod classes;
pub mod engine;
pub mod harness;
pub mod insertion;
pub mod laws;
pub mod merge;
pub mod merge_spec;
pub mod order;
pub mod parity;
pub mod patterns;
pub mod small_sort;

pub use engine::{sort, sort_by, stable_sort};
