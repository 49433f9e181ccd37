//! Rollback networking building blocks: frame inputs, error types, a handshaking socket
//! wrapper with its wire format, an in-memory transport and the session builder.

use vstd::prelude::*;

pub mod error;
pub mod frame_info;
pub mod network;
pub mod sessions;
pub mod socket;

verus! {

/// A frame is a single step of game execution.
pub type Frame = i32;

/// The frame number that stands for "no frame".
pub const NULL_FRAME: Frame = -1;

/// The handle of a player or spectator in a session.
#[derive(Debug, Clone, Copy, PartialEq, Eq, Hash, PartialOrd, Ord, Structural)]
pub struct PlayerHandle(pub usize);

/// The kind of a registered player and where its inputs come from.
#[derive(Debug, Clone, Copy, PartialEq, Eq, Hash)]
pub enum PlayerType<A> {
    /// A player playing on this device.
    Local,
    /// A player playing on a remote device, at the given address.
    Remote(A),
    /// A spectator at the given address, who receives inputs but provides none.
    Spectator(A),
}

/// Whether sessions compare checksums of confirmed frames to detect desyncs.
#[derive(Debug, Clone, Copy, PartialEq, Eq, Hash, Structural)]
pub enum DesyncDetection {
    /// Checksums are compared every `interval` frames.
    On { interval: u32 },
    /// No checksums are compared.
    Off,
}

/// An address that a socket can send to and receive from.
///
/// Addresses are copied freely and compared for equality when a socket looks up the state it
/// keeps for a peer.
pub trait Address: Copy + Eq + core::hash::Hash {
}

impl<T: Copy + Eq + core::hash::Hash> Address for T {
}

/// Datagrams as (address, bytes) pairs of mathematical values.
pub open spec fn datagrams<A>(v: Seq<(A, Vec<u8>)>) -> Seq<(A, Seq<u8>)> {
    v.map_values(|p: (A, Vec<u8>)| (p.0, p.1@))
}

/// A non-blocking transport: it sends byte buffers to addresses and hands back everything it
/// has received since the last call. Delivery may be unreliable.
///
/// A socket keeps, for reasoning only, the log of every datagram it was asked to send and of
/// every datagram it handed back as received. It may refuse to send to some addresses, and
/// which ones never changes; it is used only while it is ready, which each use keeps.
pub trait NonBlockingSocket<A: Address> {
    /// Every datagram this socket was asked to send, in order, as (address, bytes). A socket
    /// whose `send_to` is verified defines it.
    open spec fn sent_log(&self) -> Seq<(A, Seq<u8>)> {
        Seq::empty()
    }

    /// Every datagram this socket handed back as received, in order, as (sender, bytes). A
    /// socket whose `receive_all_messages` is verified defines it.
    open spec fn received_log(&self) -> Seq<(A, Seq<u8>)> {
        Seq::empty()
    }

    /// Whether this socket can send to `addr`; by default to every address.
    open spec fn accepts(&self, addr: A) -> bool {
        true
    }

    /// Whether this socket is in a state in which it can be used; by default always.
    open spec fn ready(&self) -> bool {
        true
    }

    /// Sends `buf` to `addr`.
    fn send_to(&mut self, buf: &[u8], addr: &A)
        requires
            old(self).ready(),
            old(self).accepts(*addr),
        ensures
            final(self).ready(),
            final(self).sent_log() == old(self).sent_log().push((*addr, buf@)),
            final(self).received_log() == old(self).received_log(),
            forall|a: A| #[trigger] final(self).accepts(a) == old(self).accepts(a),
    ;

    /// Returns every datagram received since the last call, with the address it came from.
    fn receive_all_messages(&mut self) -> (r: Vec<(A, Vec<u8>)>)
        requires
            old(self).ready(),
        ensures
            final(self).ready(),
            final(self).received_log() == old(self).received_log() + datagrams(r@),
            final(self).sent_log() == old(self).sent_log(),
            forall|a: A| #[trigger] final(self).accepts(a) == old(self).accepts(a),
    ;
}

} // verus!
