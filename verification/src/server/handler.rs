//! What a peer does with the packets its users define.
use std::ops::ControlFlow;

use vstd::prelude::*;

use crate::server::connection::RemoteSystem;

verus! {

/// Handles the packets whose ID the protocol does not define.
pub trait PacketHandler {
    /// Handles the packet `bytes` (its ID first) that came from `conn`:
    /// `Break` where it was handled, `Continue` where it was not.
    fn on_user_packet(&mut self, bytes: &[u8], conn: &mut RemoteSystem) -> ControlFlow<()>;
}

} // verus!
