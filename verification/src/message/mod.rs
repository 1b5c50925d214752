//! Messages that packets carry.
use vstd::prelude::*;

use crate::bit_stream::{place_bits, BitStreamRead, ReadSafe};
use crate::error::Error;
use crate::types::{RakNetTime, SystemAddress};

verus! {

/// What the ID at the front of a packet means, for the IDs a connection acts
/// on; `Other` for the other IDs of the protocol.
#[derive(Debug, Copy, Clone, PartialEq, Eq, Structural)]
pub enum MessageId {
    ConnectionRequest,
    NewIncomingConnection,
    DisconnectionNotification,
    InternalPing,
    OpenConnectionRequest,
    Other,
}

/// The ID bytes that start the replies a connection sends.
#[derive(Debug, Copy, Clone, PartialEq, Eq, Structural)]
pub struct ReplyIds {
    pub invalid_password: u8,
    pub connection_request_accepted: u8,
    pub connected_pong: u8,
    pub open_connection_reply: u8,
}

/// A message read from a bit stream.
pub trait Parse: Sized {
    fn from_bit_stream(bs: &mut BitStreamRead) -> (r: Result<Self, Error>)
        requires
            old(bs).wf(),
    ;
}

/// The address of a connection's two ends.
#[derive(Debug)]
pub struct NewIncomingConnection {
    pub local: SystemAddress,
    pub remote: SystemAddress,
}

/// The address held in the 48 bits of `bits` from bit `at` on: the IPv4
/// address as a `u32`, then the port as a `u16`.
pub open spec fn address_read(bits: Seq<bool>, at: int) -> SystemAddress {
    SystemAddress {
        ip: <u32 as ReadSafe>::from_bytes(place_bits(bits.skip(at), 32, 4)),
        port: <u16 as ReadSafe>::from_bytes(place_bits(bits.skip(at + 32), 16, 2)),
    }
}

impl Parse for NewIncomingConnection {
    /// Reads the local address, then the remote one. Fails, having read the
    /// values that fit, where fewer than 96 bits are left.
    fn from_bit_stream(bs: &mut BitStreamRead) -> (r: Result<Self, Error>)
        ensures
            final(bs).bytes() == old(bs).bytes(),
            final(bs).bits_used() == old(bs).bits_used(),
            final(bs).wf(),
            r is Ok <==> old(bs)@.len() >= 96,
            r is Err ==> r == Err::<Self, Error>(Error::BitStreamEos),
            r matches Ok(m) ==> m.local == address_read(old(bs)@, 0) && m.remote == address_read(
                old(bs)@,
                48,
            ),
            final(bs).offset() == old(bs).offset() + if old(bs)@.len() < 32 {
                0int
            } else if old(bs)@.len() < 48 {
                32int
            } else if old(bs)@.len() < 80 {
                48int
            } else if old(bs)@.len() < 96 {
                80int
            } else {
                96int
            },
    {
        let ghost bits = bs@;
        let local_ip: u32 = bs.read()?;
        proof {
            assert(bs@ =~= bits.skip(32));
        }
        let local_port: u16 = bs.read()?;
        proof {
            assert(bs@ =~= bits.skip(48));
            assert(bits.skip(32).skip(16) =~= bits.skip(48));
        }
        let remote_ip: u32 = bs.read()?;
        proof {
            assert(bs@ =~= bits.skip(80));
            assert(bits.skip(48).skip(32) =~= bits.skip(80));
        }
        let remote_port: u16 = bs.read()?;
        proof {
            assert(bits.skip(80).skip(16) =~= bits.skip(96));
            assert(bits.skip(0) =~= bits);
            assert(bits.skip(48).skip(32) =~= bits.skip(80));
        }
        Ok(Self {
            local: SystemAddress::new(local_ip, local_port),
            remote: SystemAddress::new(remote_ip, remote_port),
        })
    }
}

/// A ping from the other end.
#[derive(Debug)]
pub struct InternalPing {
    pub send_ping_time: RakNetTime,
}

impl Parse for InternalPing {
    /// Reads the time the ping was sent at.
    fn from_bit_stream(bs: &mut BitStreamRead) -> (r: Result<Self, Error>)
        ensures
            final(bs).bytes() == old(bs).bytes(),
            final(bs).bits_used() == old(bs).bits_used(),
            final(bs).wf(),
            r is Ok <==> old(bs)@.len() >= 32,
            r is Err ==> r == Err::<Self, Error>(Error::BitStreamEos) && final(bs).offset()
                == old(bs).offset(),
            r matches Ok(m) ==> m.send_ping_time == <RakNetTime as ReadSafe>::from_bytes(
                place_bits(old(bs)@, 32, 4),
            ) && final(bs).offset() == old(bs).offset() + 32,
    {
        Ok(Self { send_ping_time: bs.read()? })
    }
}

} // verus!
