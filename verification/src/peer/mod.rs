//! The configuration of a peer and the states of its connections.
use vstd::prelude::*;

pub mod remote_system;

pub use remote_system::ConnectMode as RemoteSystemConnectMode;

verus! {

/// `bstr::BString`: a byte string, carried through as it is.
#[verifier::external_type_specification]
#[verifier::external_body]
pub struct ExBString(bstr::BString);

/// The bytes that a `BString` holds.
pub uninterp spec fn bstring_bytes(s: bstr::BString) -> Seq<u8>;

/// Calls bstr's `PartialEq` of a `&BStr` (made by `BStr::new` from `given`)
/// with a `BString`, which compares the bytes that the two hold: the contract
/// claims the result is whether `given` holds the bytes of `expected`.
#[verifier::external_body]
pub(crate) fn bstr_eq(given: &[u8], expected: &bstr::BString) -> (r: bool)
    ensures
        r == (given@ == bstring_bytes(*expected)),
{
    bstr::BStr::new(given) == *expected
}

/// Configuration for peers.
pub struct RakPeerConfig {
    /// The most connections the peer accepts.
    pub max_incoming_connections: usize,
    /// The password a connection request must carry.
    pub incoming_password: bstr::BString,
}

} // verus!
