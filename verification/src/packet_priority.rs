//! How and when packets are delivered.
use vstd::prelude::*;

use crate::bit_stream::{pow2_u8, Bits};

verus! {

/// These enumerations are used to describe when packets are delivered.
#[derive(Debug, Clone, Copy, PartialEq, Eq, PartialOrd, Ord, Structural)]
pub enum PacketPriority {
    /// Used by RakNet to send above-high priority messages.
    System,
    /// High priority messages are send before medium priority messages.
    High,
    /// Medium priority messages are send before low priority messages.
    Medium,
    /// Low priority messages are only sent when no other messages are waiting.
    Low,
    P4,
    P5,
    P6,
    P7,
}

/// The channel on which ordered packets are ordered: a number below 32.
#[derive(Debug, Copy, Clone, PartialEq, Eq, Structural)]
pub struct OrderingChannel(u8);

impl OrderingChannel {
    #[verifier::type_invariant]
    spec fn below_32(self) -> bool {
        self.0 < 32
    }

    /// The channel's number.
    pub closed spec fn value(self) -> u8 {
        self.0
    }
}

/// These enumerations are used to describe how packets are delivered.
/// Written with 3 bits in the stream.
#[derive(Debug, Clone, Copy, PartialEq, Eq, PartialOrd, Ord, Structural)]
pub enum PacketReliability {
    /// Same as regular UDP, except that it will also discard duplicate datagrams.
    Unreliable,
    /// Regular UDP with a sequence counter.  Out of order messages will be discarded.
    UnreliableSequenced,
    /// The message is sent reliably, but not necessarily in any order.
    Reliable,
    /// This message is reliable and will arrive in the order you sent it.
    ReliableOrdered,
    /// This message is reliable and will arrive in the sequence you sent it.  Out or order messages will be dropped.
    ReliableSequenced,
    R5,
    R6,
    R7,
}

/// The number by which a reliability is written.
pub open spec fn reliability_number(r: PacketReliability) -> u8 {
    match r {
        PacketReliability::Unreliable => 0,
        PacketReliability::UnreliableSequenced => 1,
        PacketReliability::Reliable => 2,
        PacketReliability::ReliableOrdered => 3,
        PacketReliability::ReliableSequenced => 4,
        PacketReliability::R5 => 5,
        PacketReliability::R6 => 6,
        PacketReliability::R7 => 7,
    }
}

/// The reliability that a number of 3 bits stands for.
pub open spec fn reliability_of_number(b: u8) -> PacketReliability {
    if b == 0 {
        PacketReliability::Unreliable
    } else if b == 1 {
        PacketReliability::UnreliableSequenced
    } else if b == 2 {
        PacketReliability::Reliable
    } else if b == 3 {
        PacketReliability::ReliableOrdered
    } else if b == 4 {
        PacketReliability::ReliableSequenced
    } else if b == 5 {
        PacketReliability::R5
    } else if b == 6 {
        PacketReliability::R6
    } else {
        PacketReliability::R7
    }
}

impl Bits for OrderingChannel {
    open spec fn num_bits() -> nat {
        5
    }

    closed spec fn bits_byte(&self) -> u8 {
        self.0
    }

    closed spec fn from_bits_byte(b: u8) -> Self {
        OrderingChannel(b)
    }

    fn num() -> (r: usize) {
        5
    }

    fn to_bits(&self) -> (r: u8) {
        self.0
    }

    fn from_bits(b: u8) -> (r: Self) {
        proof {
            reveal_with_fuel(pow2_u8, 6);
        }
        OrderingChannel(b)
    }

    proof fn lemma_bits_round_trip(b: u8) {
    }
}

impl Bits for PacketReliability {
    open spec fn num_bits() -> nat {
        3
    }

    open spec fn bits_byte(&self) -> u8 {
        reliability_number(*self)
    }

    open spec fn from_bits_byte(b: u8) -> Self {
        reliability_of_number(b)
    }

    fn num() -> (r: usize) {
        3
    }

    fn to_bits(&self) -> (r: u8) {
        match self {
            PacketReliability::Unreliable => 0,
            PacketReliability::UnreliableSequenced => 1,
            PacketReliability::Reliable => 2,
            PacketReliability::ReliableOrdered => 3,
            PacketReliability::ReliableSequenced => 4,
            PacketReliability::R5 => 5,
            PacketReliability::R6 => 6,
            PacketReliability::R7 => 7,
        }
    }

    fn from_bits(b: u8) -> (r: Self) {
        if b == 0 {
            PacketReliability::Unreliable
        } else if b == 1 {
            PacketReliability::UnreliableSequenced
        } else if b == 2 {
            PacketReliability::Reliable
        } else if b == 3 {
            PacketReliability::ReliableOrdered
        } else if b == 4 {
            PacketReliability::ReliableSequenced
        } else if b == 5 {
            PacketReliability::R5
        } else if b == 6 {
            PacketReliability::R6
        } else {
            PacketReliability::R7
        }
    }

    proof fn lemma_bits_round_trip(b: u8) {
        reveal_with_fuel(pow2_u8, 4);
    }
}

/// A channel is read back from the byte it is written as, which is below 32.
pub proof fn lemma_channel_round_trip(c: OrderingChannel)
    requires
        c.value() < 32,
    ensures
        OrderingChannel::from_bits_byte(c.bits_byte()) == c,
        (c.bits_byte() as int) < pow2_u8(OrderingChannel::num_bits()),
{
    reveal_with_fuel(pow2_u8, 6);
}

/// A reliability is read back from the number it is written as.
pub proof fn lemma_reliability_round_trip(r: PacketReliability)
    ensures
        reliability_of_number(reliability_number(r)) == r,
        reliability_number(r) < 8,
{
}

/// The 3-bit numbers that reliabilities are written as on the wire, and read
/// back from, are their RakNet numbers: `Unreliable` 0, `UnreliableSequenced`
/// 1, `Reliable` 2, `ReliableOrdered` 3, `ReliableSequenced` 4, then 5, 6 and 7
/// for the others.
pub proof fn lemma_reliability_wire_numbers()
    ensures
        PacketReliability::Unreliable.bits_byte() == 0u8,
        PacketReliability::UnreliableSequenced.bits_byte() == 1u8,
        PacketReliability::Reliable.bits_byte() == 2u8,
        PacketReliability::ReliableOrdered.bits_byte() == 3u8,
        PacketReliability::ReliableSequenced.bits_byte() == 4u8,
        PacketReliability::R5.bits_byte() == 5u8,
        PacketReliability::R6.bits_byte() == 6u8,
        PacketReliability::R7.bits_byte() == 7u8,
        <PacketReliability as Bits>::from_bits_byte(0u8) == PacketReliability::Unreliable,
        <PacketReliability as Bits>::from_bits_byte(1u8) == PacketReliability::UnreliableSequenced,
        <PacketReliability as Bits>::from_bits_byte(2u8) == PacketReliability::Reliable,
        <PacketReliability as Bits>::from_bits_byte(3u8) == PacketReliability::ReliableOrdered,
        <PacketReliability as Bits>::from_bits_byte(4u8) == PacketReliability::ReliableSequenced,
        <PacketReliability as Bits>::from_bits_byte(5u8) == PacketReliability::R5,
        <PacketReliability as Bits>::from_bits_byte(6u8) == PacketReliability::R6,
        <PacketReliability as Bits>::from_bits_byte(7u8) == PacketReliability::R7,
{
}

} // verus!
