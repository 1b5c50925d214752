//! A RakNet bit stream, packet and reliability layer.
use vstd::prelude::*;

pub mod bit_stream;
pub mod bits;
pub mod ds;
pub mod error;
pub mod internal_packet;
pub mod message;
pub mod packet_priority;
pub mod peer;
pub mod queue;
pub mod reliability_layer;
pub mod server;
pub mod types;
pub mod util;

pub use bit_stream::{BitSize, BitStreamRead, BitStreamWrite, Bits, ReadSafe, WriteSafe};
pub use error::{Error, Result};
pub use internal_packet::{InternalPacket, MessageNumberType, OrderingIndexType, PacketOrdering};
pub use packet_priority::{OrderingChannel, PacketPriority, PacketReliability};
pub use peer::{RakPeerConfig, RemoteSystemConnectMode};
pub use queue::Queue;
pub use reliability_layer::AckList;
pub use server::{PacketHandler, RemoteSystem};
pub use types::{RakNetTime, SystemAddress, SystemIndex};

verus! {
} // verus!
