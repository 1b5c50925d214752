//! The reliability layer's acknowledgements.
use vstd::prelude::*;

use crate::ds::range_list::RangeList;
use crate::internal_packet::MessageNumberType;

verus! {

/// The message numbers to acknowledge.
pub type AckList = RangeList<1, MessageNumberType>;

} // verus!
