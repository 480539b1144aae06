//! Bucket-based ordered containers: `SortedSet`, `SortedMultiset` and the
//! unsorted `BucketList`. Items are kept in a list of buckets; negative
//! indices count from the end, and missing values or invalid indices give
//! `None` (or `Err`) instead of panicking.

pub mod bucket_list;
pub mod counting;
pub mod laws;
pub mod layout;
pub mod order;
pub mod pieces;
pub mod rank;
pub mod sorted;
pub mod sorted_vec;

pub use bucket_list::BucketList;
pub use sorted::{SortedCollection, SortedMultiset, SortedSet};
