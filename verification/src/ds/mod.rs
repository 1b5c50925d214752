//! Data structures.
pub mod range_list;

pub use range_list::RangeList;
