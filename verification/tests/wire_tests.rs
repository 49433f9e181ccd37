use ggrs::socket::wire::{decode, encode, HandshakeMessage};

#[test]
fn sync_request_bytes() {
    let bytes = encode(&HandshakeMessage::SyncRequest(0x0102_0304));
    assert_eq!(bytes, vec![0, 0, 0, 0, 4, 3, 2, 1]);
    assert_eq!(bytes, bincode::serialize(&(0u32, 0x0102_0304u32)).unwrap());
}

#[test]
fn sync_response_bytes() {
    let msg = HandshakeMessage::SyncResponse { ack_sync_number: 7, remote_header_id: 0xabcd };
    let bytes = encode(&msg);
    assert_eq!(bytes, vec![1, 0, 0, 0, 7, 0, 0, 0, 0xcd, 0xab]);
    assert_eq!(bytes, bincode::serialize(&(1u32, 7u32, 0xabcdu16)).unwrap());
}

#[test]
fn data_bytes() {
    let msg = HandshakeMessage::Data { header_id: 5, buf: vec![9, 8, 7] };
    let bytes = encode(&msg);
    assert_eq!(bytes, vec![2, 0, 0, 0, 5, 0, 3, 0, 0, 0, 0, 0, 0, 0, 9, 8, 7]);
    assert_eq!(bytes, bincode::serialize(&(2u32, 5u16, vec![9u8, 8, 7])).unwrap());
}

#[test]
fn decode_gives_back_each_message() {
    let msgs = vec![
        HandshakeMessage::SyncRequest(42),
        HandshakeMessage::SyncResponse { ack_sync_number: u32::MAX, remote_header_id: 1 },
        HandshakeMessage::Data { header_id: u16::MAX, buf: vec![] },
        HandshakeMessage::Data { header_id: 3, buf: vec![1, 2, 3, 4, 5] },
    ];
    for m in msgs {
        let bytes = encode(&m);
        assert_eq!(decode(&bytes), Some(m));
    }
}

#[test]
fn decode_ignores_trailing_bytes() {
    let mut bytes = encode(&HandshakeMessage::SyncRequest(1));
    bytes.extend_from_slice(&[0xff, 0xff]);
    assert_eq!(decode(&bytes), Some(HandshakeMessage::SyncRequest(1)));
}

#[test]
fn decode_rejects_short_or_unknown_input() {
    assert_eq!(decode(&[]), None);
    assert_eq!(decode(&[0, 0, 0]), None);
    assert_eq!(decode(&[0, 0, 0, 0, 1, 2, 3]), None);
    assert_eq!(decode(&[1, 0, 0, 0, 1, 0, 0, 0, 5]), None);
    assert_eq!(decode(&[3, 0, 0, 0, 1, 0, 0, 0]), None);
    // a data message announcing more payload than follows
    assert_eq!(decode(&[2, 0, 0, 0, 5, 0, 4, 0, 0, 0, 0, 0, 0, 0, 9, 8, 7]), None);
    // a huge announced length
    assert_eq!(decode(&[2, 0, 0, 0, 5, 0, 0xff, 0xff, 0xff, 0xff, 0xff, 0xff, 0xff, 0xff]), None);
}

#[test]
fn decoded_message_re_encodes_to_its_bytes() {
    let bytes = vec![1, 0, 0, 0, 9, 0, 0, 0, 3, 0, 42, 42];
    let m = decode(&bytes).unwrap();
    assert_eq!(encode(&m), bytes[..10].to_vec());
}
