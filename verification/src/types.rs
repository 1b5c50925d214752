//! Times and addresses.
use std::num::TryFromIntError;
use std::time::Duration;

use vstd::prelude::*;

use crate::bit_stream::{ReadSafe, Wire, WriteSafe};

verus! {

/// A time in milliseconds, as the protocol sends it.
#[derive(Debug, Copy, Clone, PartialEq, Eq, Structural)]
pub struct RakNetTime(pub u32);

impl RakNetTime {
    /// The time 0.
    pub fn zero() -> (r: RakNetTime)
        ensures
            r.0 == 0,
    {
        RakNetTime(0)
    }
}

/// The whole milliseconds of a duration, as `Duration::as_millis` gives them.
pub uninterp spec fn millis_of(d: Duration) -> u128;

/// Calls `Duration::as_millis`, the total number of whole milliseconds in the
/// duration; the contract names that number `millis_of(*value)`, a function of
/// the duration alone.
#[verifier::external_body]
fn duration_millis(value: &Duration) -> (r: u128)
    ensures
        r == millis_of(*value),
{
    value.as_millis()
}

impl RakNetTime {
    /// The time `millis` milliseconds; fails where they do not fit in a `u32`.
    pub fn try_from_millis(millis: u128) -> (r: Result<Self, TryFromIntError>)
        ensures
            millis <= u32::MAX ==> r == Ok::<Self, TryFromIntError>(RakNetTime(millis as u32)),
            millis > u32::MAX ==> r is Err,
    {
        match u32::try_from(millis) {
            Ok(ms) => Ok(RakNetTime(ms)),
            Err(e) => Err(e),
        }
    }

    /// The whole milliseconds of `value` (see `try_from_millis`); fails where
    /// they do not fit in a `u32`.
    pub fn try_from_duration(value: Duration) -> (r: Result<Self, TryFromIntError>)
        ensures
            millis_of(value) <= u32::MAX ==> r == Ok::<Self, TryFromIntError>(
                RakNetTime(millis_of(value) as u32),
            ),
            millis_of(value) > u32::MAX ==> r is Err,
    {
        Self::try_from_millis(duration_millis(&value))
    }
}

impl ReadSafe for RakNetTime {
    open spec fn read_size() -> nat {
        4
    }

    open spec fn from_bytes(b: Seq<u8>) -> RakNetTime {
        RakNetTime(<u32 as ReadSafe>::from_bytes(b))
    }

    fn size_in_bytes() -> (r: usize) {
        4
    }

    fn from_stream_bytes(b: &[u8]) -> (r: RakNetTime) {
        RakNetTime(<u32 as ReadSafe>::from_stream_bytes(b))
    }
}

impl WriteSafe for RakNetTime {
    open spec fn write_size() -> nat {
        4
    }

    open spec fn to_bytes(&self) -> Seq<u8> {
        self.0.to_bytes()
    }

    fn stream_bytes(&self) -> (r: Vec<u8>) {
        self.0.stream_bytes()
    }
}

impl Wire for RakNetTime {
    proof fn lemma_wire_round_trip(v: RakNetTime) {
        <u32 as Wire>::lemma_wire_round_trip(v.0);
    }
}

/// The index of a connected system.
pub type SystemIndex = u16;

/// An IPv4 address and port: the address as the `u32` whose big-endian bytes
/// are its octets.
#[derive(Debug, Copy, Clone, PartialEq, Eq, Structural)]
pub struct SystemAddress {
    pub ip: u32,
    pub port: u16,
}

impl SystemAddress {
    pub fn new(ip: u32, port: u16) -> (r: Self)
        ensures
            r.ip == ip,
            r.port == port,
    {
        SystemAddress { ip, port }
    }
}

} // verus!
