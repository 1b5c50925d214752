//! Helpers.
use vstd::prelude::*;

use crate::internal_packet::MessageNumberType;

verus! {

/// Hands out message numbers, counting up from 0.
pub struct MsgNumGenerator {
    next: MessageNumberType,
}

impl View for MsgNumGenerator {
    type V = MessageNumberType;

    /// The number handed out next.
    closed spec fn view(&self) -> MessageNumberType {
        self.next
    }
}

impl Default for MsgNumGenerator {
    fn default() -> (r: Self)
        ensures
            r@ == 0,
    {
        MsgNumGenerator { next: 0 }
    }
}

impl MsgNumGenerator {
    /// Hands out the next number.
    pub fn next(&mut self) -> (r: MessageNumberType)
        requires
            old(self)@ < MessageNumberType::MAX,
        ensures
            r == old(self)@,
            final(self)@ == old(self)@ + 1,
    {
        let next = self.next + 1;
        let r = self.next;
        self.next = next;
        r
    }

    /// The number handed out next, left in place.
    pub(crate) fn peek(&self) -> (r: MessageNumberType)
        ensures
            r == self@,
    {
        self.next
    }

    /// A generator that hands out 0 first.
    pub fn new() -> (r: Self)
        ensures
            r@ == 0,
    {
        Self::default()
    }
}

} // verus!
