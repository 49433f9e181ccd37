//! The wire format of handshake messages.
//!
//! Every message starts with its variant tag as a little-endian `u32` (0 for a sync request,
//! 1 for a sync response, 2 for data). A sync request carries its sync number (`u32`); a sync
//! response carries the acknowledged sync number (`u32`) and the sender's header id (`u16`);
//! a data message carries the header id (`u16`), the payload length as a `u64` and the payload.
//! All integers are little-endian. Bytes after a complete message are ignored when decoding.

use vstd::prelude::*;
use vstd::bytes::*;
use vstd::slice::*;

verus! {

broadcast use vstd::seq_lib::group_seq_properties;

/// The handshaking process consists of sending a sequence of sync numbers to the remote
/// endpoint; once each of them has been echoed back, the handshake is complete.
pub type SyncNumber = u32;

/// Once the handshake is complete, only messages carrying the agreed header id are accepted.
pub type HeaderId = u16;

/// Some data sent or received by a handshaking socket.
#[derive(Debug, PartialEq, Eq)]
pub enum HandshakeMessage {
    SyncRequest(SyncNumber),
    SyncResponse { ack_sync_number: SyncNumber, remote_header_id: HeaderId },
    /// Data sent or received by the user of the socket.
    Data { header_id: HeaderId, buf: Vec<u8> },
}

/// The mathematical value of a [`HandshakeMessage`].
pub enum MessageModel {
    SyncRequest(u32),
    SyncResponse { ack_sync_number: u32, remote_header_id: u16 },
    Data { header_id: u16, buf: Seq<u8> },
}

impl View for HandshakeMessage {
    type V = MessageModel;

    open spec fn view(&self) -> MessageModel {
        match self {
            HandshakeMessage::SyncRequest(n) => MessageModel::SyncRequest(*n),
            HandshakeMessage::SyncResponse { ack_sync_number, remote_header_id } =>
                MessageModel::SyncResponse {
                    ack_sync_number: *ack_sync_number,
                    remote_header_id: *remote_header_id,
                },
            HandshakeMessage::Data { header_id, buf } =>
                MessageModel::Data { header_id: *header_id, buf: buf@ },
        }
    }
}

/// Length in bytes of the variant tag.
pub const TAG_LEN: usize = 4;

/// A message can be encoded when its payload length fits the `u64` length prefix.
pub open spec fn encodable(m: MessageModel) -> bool {
    match m {
        MessageModel::Data { buf, .. } => buf.len() <= u64::MAX,
        _ => true,
    }
}

/// The bytes of a message on the wire.
pub open spec fn spec_encode(m: MessageModel) -> Seq<u8> {
    match m {
        MessageModel::SyncRequest(n) => spec_u32_to_le_bytes(0) + spec_u32_to_le_bytes(n),
        MessageModel::SyncResponse { ack_sync_number, remote_header_id } =>
            spec_u32_to_le_bytes(1) + spec_u32_to_le_bytes(ack_sync_number)
                + spec_u16_to_le_bytes(remote_header_id),
        MessageModel::Data { header_id, buf } =>
            spec_u32_to_le_bytes(2) + spec_u16_to_le_bytes(header_id)
                + spec_u64_to_le_bytes(buf.len() as u64) + buf,
    }
}

/// The message that a byte string starts with, if it starts with a complete message.
pub open spec fn spec_decode(s: Seq<u8>) -> Option<MessageModel> {
    if s.len() < 4 {
        None
    } else {
        let tag = spec_u32_from_le_bytes(s.subrange(0, 4));
        if tag == 0 {
            if s.len() < 8 {
                None
            } else {
                Some(MessageModel::SyncRequest(spec_u32_from_le_bytes(s.subrange(4, 8))))
            }
        } else if tag == 1 {
            if s.len() < 10 {
                None
            } else {
                Some(
                    MessageModel::SyncResponse {
                        ack_sync_number: spec_u32_from_le_bytes(s.subrange(4, 8)),
                        remote_header_id: spec_u16_from_le_bytes(s.subrange(8, 10)),
                    },
                )
            }
        } else if tag == 2 {
            if s.len() < 14 {
                None
            } else {
                let len = spec_u64_from_le_bytes(s.subrange(6, 14));
                if s.len() - 14 < len {
                    None
                } else {
                    Some(
                        MessageModel::Data {
                            header_id: spec_u16_from_le_bytes(s.subrange(4, 6)),
                            buf: s.subrange(14, 14 + len),
                        },
                    )
                }
            }
        } else {
            None
        }
    }
}

/// Encodes a message into its wire bytes.
pub fn encode(msg: &HandshakeMessage) -> (r: Vec<u8>)
    requires
        encodable(msg@),
    ensures
        r@ == spec_encode(msg@),
{
    match msg {
        HandshakeMessage::SyncRequest(n) => {
            let mut v = u32_to_le_bytes(0);
            let mut n_bytes = u32_to_le_bytes(*n);
            v.append(&mut n_bytes);
            v
        },
        HandshakeMessage::SyncResponse { ack_sync_number, remote_header_id } => {
            let mut v = u32_to_le_bytes(1);
            let mut a = u32_to_le_bytes(*ack_sync_number);
            let mut h = u16_to_le_bytes(*remote_header_id);
            v.append(&mut a);
            v.append(&mut h);
            v
        },
        HandshakeMessage::Data { header_id, buf } => {
            let mut v = u32_to_le_bytes(2);
            let mut h = u16_to_le_bytes(*header_id);
            let mut l = u64_to_le_bytes(buf.len() as u64);
            let mut payload = slice_to_vec(buf.as_slice());
            v.append(&mut h);
            v.append(&mut l);
            v.append(&mut payload);
            v
        },
    }
}

/// Decodes the message that `bytes` starts with; `None` when the bytes do not start with a
/// complete message (too short, unknown tag, or a payload longer than the bytes that follow).
pub fn decode(bytes: &[u8]) -> (r: Option<HandshakeMessage>)
    ensures
        match r {
            Some(m) => spec_decode(bytes@) == Some(m@),
            None => spec_decode(bytes@) is None,
        },
{
    let n = bytes.len();
    if n < 4 {
        return None;
    }
    let tag = u32_from_le_bytes(slice_subrange(bytes, 0, 4));
    if tag == 0 {
        if n < 8 {
            return None;
        }
        let sync = u32_from_le_bytes(slice_subrange(bytes, 4, 8));
        Some(HandshakeMessage::SyncRequest(sync))
    } else if tag == 1 {
        if n < 10 {
            return None;
        }
        let ack = u32_from_le_bytes(slice_subrange(bytes, 4, 8));
        let hid = u16_from_le_bytes(slice_subrange(bytes, 8, 10));
        Some(HandshakeMessage::SyncResponse { ack_sync_number: ack, remote_header_id: hid })
    } else if tag == 2 {
        if n < 14 {
            return None;
        }
        let hid = u16_from_le_bytes(slice_subrange(bytes, 4, 6));
        let len = u64_from_le_bytes(slice_subrange(bytes, 6, 14));
        let avail = n - 14;
        if (avail as u64) < len {
            return None;
        }
        let len_usize = len as usize;
        let payload = slice_to_vec(slice_subrange(bytes, 14, 14 + len_usize));
        Some(HandshakeMessage::Data { header_id: hid, buf: payload })
    } else {
        None
    }
}

/// Decoding the encoding of a message gives the message back, whatever bytes follow it.
pub proof fn lemma_decode_encode(m: MessageModel, rest: Seq<u8>)
    requires
        encodable(m),
    ensures
        spec_decode(spec_encode(m) + rest) == Some(m),
{
    lemma_auto_spec_u16_to_from_le_bytes();
    lemma_auto_spec_u32_to_from_le_bytes();
    lemma_auto_spec_u64_to_from_le_bytes();
    let s = spec_encode(m) + rest;
    match m {
        MessageModel::SyncRequest(n) => {
            assert(s.subrange(0, 4) == spec_u32_to_le_bytes(0));
            assert(s.subrange(4, 8) == spec_u32_to_le_bytes(n));
        },
        MessageModel::SyncResponse { ack_sync_number, remote_header_id } => {
            assert(s.subrange(0, 4) == spec_u32_to_le_bytes(1));
            assert(s.subrange(4, 8) == spec_u32_to_le_bytes(ack_sync_number));
            assert(s.subrange(8, 10) == spec_u16_to_le_bytes(remote_header_id));
        },
        MessageModel::Data { header_id, buf } => {
            assert(s.subrange(0, 4) == spec_u32_to_le_bytes(2));
            assert(s.subrange(4, 6) == spec_u16_to_le_bytes(header_id));
            assert(s.subrange(6, 14) == spec_u64_to_le_bytes(buf.len() as u64));
            assert(s.subrange(14, 14 + buf.len() as int) == buf);
        },
    }
}

/// A decoded message re-encodes to exactly the bytes it was decoded from.
pub proof fn lemma_encode_decode(s: Seq<u8>)
    requires
        spec_decode(s) is Some,
    ensures
        encodable(spec_decode(s)->0),
        spec_encode(spec_decode(s)->0) == s.subrange(0, spec_encode(spec_decode(s)->0).len() as int),
{
    lemma_auto_spec_u16_to_from_le_bytes();
    lemma_auto_spec_u32_to_from_le_bytes();
    lemma_auto_spec_u64_to_from_le_bytes();
    let m = spec_decode(s)->0;
    let tag = spec_u32_from_le_bytes(s.subrange(0, 4));
    assert(spec_u32_to_le_bytes(tag) == s.subrange(0, 4));
    match m {
        MessageModel::SyncRequest(n) => {
            assert(spec_u32_to_le_bytes(n) == s.subrange(4, 8));
            assert(spec_encode(m) == s.subrange(0, 8));
        },
        MessageModel::SyncResponse { ack_sync_number, remote_header_id } => {
            assert(spec_u32_to_le_bytes(ack_sync_number) == s.subrange(4, 8));
            assert(spec_u16_to_le_bytes(remote_header_id) == s.subrange(8, 10));
            assert(spec_encode(m) == s.subrange(0, 10));
        },
        MessageModel::Data { header_id, buf } => {
            let len = spec_u64_from_le_bytes(s.subrange(6, 14));
            assert(spec_u16_to_le_bytes(header_id) == s.subrange(4, 6));
            assert(buf.len() == len);
            assert(spec_u64_to_le_bytes(buf.len() as u64) == s.subrange(6, 14));
            assert(spec_encode(m) == s.subrange(0, 14 + len));
        },
    }
}

} // verus!
