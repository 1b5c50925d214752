//! The states of a connection.
use vstd::prelude::*;

verus! {

/// Where a connection to a remote system stands.
#[derive(Debug, Copy, Clone, PartialEq, Eq, Structural)]
pub enum ConnectMode {
    NoAction,
    DisconnectAsap,
    DisconnectAsapSilently,
    DisconnectOnNoAck,
    RequestedConnection,
    HandlingConnectionRequest,
    UnverifiedSender,
    SetEncryptionOnMultiple16BytePacket,
    Connected,
}

} // verus!
