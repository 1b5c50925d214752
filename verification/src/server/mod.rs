//! The connections of a peer and what it does with their packets.
use vstd::prelude::*;

pub mod connection;
pub mod handler;

pub use connection::RemoteSystem;
pub use handler::PacketHandler;

use crate::message::{MessageId, ReplyIds};
use crate::types::SystemAddress;

verus! {

/// What a peer does with a datagram from `origin`.
#[derive(Debug, PartialEq, Eq)]
pub enum PeerAction {
    /// The datagram is for the connection at this index.
    Connection(usize),
    /// A connection to the sender was opened; these bytes answer it.
    Opened(Vec<u8>),
    /// The datagram is left alone.
    Ignore,
}

/// The index of the first connection to `origin`, if any.
pub fn find_connection(conns: &Vec<RemoteSystem>, origin: SystemAddress) -> (r: Option<usize>)
    ensures
        r matches Some(i) ==> i < conns@.len() && conns@[i as int].address() == origin
            && forall|j: int| 0 <= j < i ==> #[trigger] conns@[j].address() != origin,
        r is None ==> forall|j: int| 0 <= j < conns@.len() ==> #[trigger] conns@[j].address()
            != origin,
{
    let mut i: usize = 0;
    while i < conns.len()
        invariant
            i <= conns@.len(),
            forall|j: int| 0 <= j < i ==> #[trigger] conns@[j].address() != origin,
        decreases conns@.len() - i,
    {
        if conns[i].system_address() == origin {
            return Some(i);
        }
        i = i + 1;
    }
    None
}

/// Decides what a peer does with a datagram from `origin` whose first byte
/// means `first_id`: a datagram from a connected system goes to its
/// connection; else an open connection request opens a connection to the
/// sender, answered with `ids.open_connection_reply` and a 0; anything else is
/// left alone.
pub fn on_datagram(
    conns: &mut Vec<RemoteSystem>,
    origin: SystemAddress,
    first_id: Option<MessageId>,
    ids: &ReplyIds,
) -> (r: PeerAction)
    requires
        forall|j: int| 0 <= j < old(conns)@.len() ==> #[trigger] old(conns)@[j].wf(),
    ensures
        forall|j: int| 0 <= j < final(conns)@.len() ==> #[trigger] final(conns)@[j].wf(),
        (exists|j: int| 0 <= j < old(conns)@.len() && #[trigger] old(conns)@[j].address()
            == origin) ==> (r matches PeerAction::Connection(i) && i < old(conns)@.len()
            && old(conns)@[i as int].address() == origin && (forall|j: int|
            0 <= j < i ==> #[trigger] old(conns)@[j].address() != origin)) && final(conns)@
            == old(conns)@,
        !(exists|j: int| 0 <= j < old(conns)@.len() && #[trigger] old(conns)@[j].address()
            == origin) ==> if first_id == Some(MessageId::OpenConnectionRequest) {
            &&& r matches PeerAction::Opened(v) && v@ == seq![ids.open_connection_reply, 0u8]
            &&& final(conns)@.len() == old(conns)@.len() + 1
            &&& final(conns)@.drop_last() == old(conns)@
            &&& final(conns)@.last().address() == origin
            &&& final(conns)@.last().ack_ranges().len() == 0
            &&& final(conns)@.last().waiting().len() == 0
        } else {
            r == PeerAction::Ignore && final(conns)@ == old(conns)@
        },
{
    match find_connection(conns, origin) {
        Some(i) => PeerAction::Connection(i),
        None => {
            if first_id == Some(MessageId::OpenConnectionRequest) {
                conns.push(RemoteSystem::new(origin));
                proof {
                    assert(conns@.drop_last() =~= old(conns)@);
                }
                PeerAction::Opened(vec![ids.open_connection_reply, 0u8])
            } else {
                PeerAction::Ignore
            }
        },
    }
}

} // verus!
