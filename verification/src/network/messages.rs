//! The messages two endpoints exchange, and the statistics of a connection.

use vstd::prelude::*;

use crate::{Frame, PlayerHandle, NULL_FRAME};

verus! {

/// What an endpoint knows of a player's connection.
#[derive(Debug, Clone, Copy, PartialEq, Eq, Structural)]
pub struct ConnectionStatus {
    /// The player has disconnected.
    pub disconnected: bool,
    /// The last frame of which the player's input is known.
    pub last_frame: Frame,
}

impl Default for ConnectionStatus {
    /// Connected, with no frame known.
    fn default() -> (r: Self)
        ensures
            r == (ConnectionStatus { disconnected: false, last_frame: NULL_FRAME }),
    {
        ConnectionStatus { disconnected: false, last_frame: NULL_FRAME }
    }
}

/// Encoded inputs of consecutive frames, with the sender's view of the connections.
#[derive(Debug, Clone)]
pub struct Input {
    /// The sender's connection status of each player.
    pub peer_connect_status: Vec<(PlayerHandle, ConnectionStatus)>,
    /// The sender asks to disconnect.
    pub disconnect_requested: bool,
    /// The frame of the first encoded input.
    pub start_frame: Frame,
    /// The last frame of which the sender has received input from the receiver.
    pub ack_frame: Frame,
    /// The encoded inputs.
    pub bytes: Vec<u8>,
}

/// Acknowledges inputs up to a frame.
#[derive(Debug, Clone, Copy, PartialEq, Eq, Structural)]
pub struct InputAck {
    pub ack_frame: Frame,
}

/// The sender's frame advantage, and its clock for the round trip time.
#[derive(Debug, Clone, Copy, PartialEq, Eq, Structural)]
pub struct QualityReport {
    pub frame_advantage: i16,
    pub ping: u128,
}

/// The answer to a quality report: the clock value it carried.
#[derive(Debug, Clone, Copy, PartialEq, Eq, Structural)]
pub struct QualityReply {
    pub pong: u128,
}

/// The checksum of a confirmed frame.
#[derive(Debug, Clone, Copy, PartialEq, Eq, Structural)]
pub struct ChecksumReport {
    pub frame: Frame,
    pub checksum: u128,
}

/// The body of a message.
#[derive(Debug, Clone)]
pub enum MessageBody {
    Input(Input),
    InputAck(InputAck),
    QualityReport(QualityReport),
    QualityReply(QualityReply),
    ChecksumReport(ChecksumReport),
    KeepAlive,
}

/// The header of a message: the sender's magic number.
#[derive(Debug, Clone, Copy, PartialEq, Eq, Structural)]
pub struct MessageHeader {
    pub magic: u16,
}

/// A message between two endpoints.
#[derive(Debug, Clone)]
pub struct Message {
    pub header: MessageHeader,
    pub body: MessageBody,
}

/// The statistics of a connection.
#[derive(Debug, Clone, Copy, PartialEq, Eq, Structural)]
pub struct NetworkStats {
    /// The round trip time, in milliseconds.
    pub ping: u128,
    /// The number of inputs waiting to be acknowledged.
    pub send_queue_len: usize,
    /// The kilobytes per second sent, headers included.
    pub kbps_sent: usize,
    /// How many frames the local client is behind the remote one.
    pub local_frames_behind: i32,
    /// How many frames the remote client is behind the local one.
    pub remote_frames_behind: i32,
}

} // verus!
