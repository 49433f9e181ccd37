use ggrs::socket::handshake::{HandshakeState, HandshakingSocket};
use ggrs::socket::memory::MemoryNetwork;
use ggrs::socket::wire::{encode, HandshakeMessage};
use ggrs::NonBlockingSocket;

#[test]
fn state_sends_unsent_numbers_last_first_then_cycles() {
    let mut st = HandshakeState::new(vec![1, 2, 3]);
    assert_eq!(st.next_sync_number(), Some(3));
    assert_eq!(st.next_sync_number(), Some(2));
    assert_eq!(st.next_sync_number(), Some(1));
    // all sent: cycle through the awaited ones, oldest first
    assert_eq!(st.next_sync_number(), Some(3));
    assert_eq!(st.next_sync_number(), Some(2));
    assert_eq!(st.next_sync_number(), Some(1));
    assert_eq!(st.next_sync_number(), Some(3));
}

#[test]
fn state_acknowledges_only_awaited_numbers() {
    let mut st = HandshakeState::new(vec![1, 2]);
    assert!(!st.acknowledge_sync_response(2)); // not sent yet
    assert_eq!(st.next_sync_number(), Some(2));
    assert!(!st.acknowledge_sync_response(9));
    assert!(st.acknowledge_sync_response(2));
    assert!(!st.acknowledge_sync_response(2)); // already acknowledged
    let status = st.status();
    assert_eq!((status.received(), status.remaining()), (1, 1));
    assert!(!status.completed());
    assert!(!st.completed());
}

#[test]
fn state_completes_on_the_last_echo() {
    let mut st = HandshakeState::new(vec![4]);
    let m = st.outgoing(&[1, 2, 3]);
    assert_eq!(m, HandshakeMessage::SyncRequest(4));
    let (reply, payload) = st.handle_message(10, HandshakeMessage::SyncResponse { ack_sync_number: 4, remote_header_id: 77 });
    assert_eq!(reply, None);
    assert_eq!(payload, None);
    assert!(st.completed());
    assert!(st.status().completed());
    assert_eq!(st.outgoing(&[1, 2, 3]), HandshakeMessage::Data { header_id: 77, buf: vec![1, 2, 3] });
}

#[test]
fn state_answers_sync_requests_and_filters_data() {
    let mut st = HandshakeState::new(vec![4]);
    let (reply, payload) = st.handle_message(10, HandshakeMessage::SyncRequest(55));
    assert_eq!(reply, Some(HandshakeMessage::SyncResponse { ack_sync_number: 55, remote_header_id: 10 }));
    assert_eq!(payload, None);
    // data before completion is dropped
    let (reply, payload) = st.handle_message(10, HandshakeMessage::Data { header_id: 10, buf: vec![1] });
    assert_eq!((reply, payload), (None, None));
    st.next_sync_number();
    st.handle_message(10, HandshakeMessage::SyncResponse { ack_sync_number: 4, remote_header_id: 20 });
    // data with a wrong header id is dropped
    let (reply, payload) = st.handle_message(10, HandshakeMessage::Data { header_id: 11, buf: vec![1] });
    assert_eq!((reply, payload), (None, None));
    let (reply, payload) = st.handle_message(10, HandshakeMessage::Data { header_id: 10, buf: vec![1] });
    assert_eq!((reply, payload), (None, Some(vec![1])));
}

fn all_complete<S: NonBlockingSocket<usize>>(s: &HandshakingSocket<usize, S>) -> bool {
    s.handshake_status().values().all(|st| st.completed())
}

#[test]
fn two_sockets_complete_their_handshakes_and_exchange_data() {
    let mut net = MemoryNetwork::new();
    let s1 = net.add_socket();
    let s2 = net.add_socket();
    let (a1, a2) = (s1.address(), s2.address());
    let mut h1 = HandshakingSocket::wrap_with_id(s1, 111);
    let mut h2 = HandshakingSocket::wrap_with_id(s2, 222);
    h1.register_with_data(a2, vec![10, 11, 12]);
    h2.register_with_data(a1, vec![20, 21]);

    // data sent before the handshake is dropped
    h1.send_to(&[1, 2, 3], &a2);
    assert!(h2.receive_all_messages().is_empty());

    let mut rounds = 0;
    while !(all_complete(&h1) && all_complete(&h2)) {
        h1.poll();
        h2.poll();
        rounds += 1;
        assert!(rounds < 20, "handshake did not complete");
    }
    let st1 = h1.handshake_status()[&a2];
    assert_eq!((st1.received(), st1.remaining()), (3, 0));
    let st2 = h2.handshake_status()[&a1];
    assert_eq!((st2.received(), st2.remaining()), (2, 0));

    h1.send_to(&[7, 7, 7], &a2);
    assert_eq!(h2.receive_all_messages(), vec![(a1, vec![7, 7, 7])]);
    h2.send_to(&[], &a1);
    assert_eq!(h1.receive_all_messages(), vec![(a2, vec![])]);
}

#[test]
fn data_with_a_foreign_header_id_is_dropped() {
    let mut net = MemoryNetwork::new();
    let s1 = net.add_socket();
    let mut raw = net.add_socket();
    let (a1, a2) = (s1.address(), raw.address());
    let mut h1 = HandshakingSocket::wrap_with_id(s1, 111);
    h1.register_with_data(a2, vec![5]);
    // answer the handshake by hand
    h1.poll();
    let got = raw.receive_all_messages();
    assert_eq!(got, vec![(a1, encode(&HandshakeMessage::SyncRequest(5)))]);
    raw.send_to(&encode(&HandshakeMessage::SyncResponse { ack_sync_number: 5, remote_header_id: 9 }), &a1);
    assert!(h1.receive_all_messages().is_empty());
    assert!(h1.handshake_status()[&a2].completed());
    // data must carry h1's own header id
    raw.send_to(&encode(&HandshakeMessage::Data { header_id: 9, buf: vec![1] }), &a1);
    raw.send_to(&encode(&HandshakeMessage::Data { header_id: 111, buf: vec![2] }), &a1);
    raw.send_to(&[0xde, 0xad], &a1);
    assert_eq!(h1.receive_all_messages(), vec![(a2, vec![2])]);
    // sending wraps the payload with the remote header id
    h1.send_to(&[4, 4], &a2);
    assert_eq!(raw.receive_all_messages(), vec![(a1, encode(&HandshakeMessage::Data { header_id: 9, buf: vec![4, 4] }))]);
}

#[test]
fn unregistered_senders_get_no_reply() {
    let mut net = MemoryNetwork::new();
    let s1 = net.add_socket();
    let mut other = net.add_socket();
    let a1 = s1.address();
    let mut h1 = HandshakingSocket::wrap_with_id(s1, 1);
    other.send_to(&encode(&HandshakeMessage::SyncRequest(3)), &a1);
    assert!(h1.receive_all_messages().is_empty());
    assert!(other.receive_all_messages().is_empty());
    assert!(h1.handshake_status().is_empty());
}

#[test]
fn random_registration_uses_five_sync_numbers() {
    let mut net = MemoryNetwork::new();
    let s1 = net.add_socket();
    let mut h1 = HandshakingSocket::wrap(s1);
    h1.register(42);
    let st = h1.handshake_status()[&42];
    assert_eq!((st.received(), st.remaining()), (0, 5));
}

#[test]
fn received_plus_remaining_never_changes() {
    let mut st = HandshakeState::new(vec![1, 2, 3]);
    let total = |st: &HandshakeState| st.status().received() + st.status().remaining();
    assert_eq!(total(&st), 3);
    st.outgoing(&[]);
    st.outgoing(&[]);
    assert_eq!(total(&st), 3);
    st.handle_message(0, HandshakeMessage::SyncResponse { ack_sync_number: 3, remote_header_id: 1 });
    assert_eq!((st.status().received(), st.status().remaining()), (1, 2));
    st.handle_message(0, HandshakeMessage::SyncResponse { ack_sync_number: 3, remote_header_id: 1 });
    assert_eq!((st.status().received(), st.status().remaining()), (1, 2));
    st.handle_message(0, HandshakeMessage::SyncRequest(8));
    assert_eq!(total(&st), 3);
}

#[test]
fn single_number_handshakes_complete_in_three_receives() {
    let mut n = MemoryNetwork::new();
    let mut a = HandshakingSocket::wrap_with_id(n.add_socket(), 7);
    let mut b = HandshakingSocket::wrap_with_id(n.add_socket(), 9);
    a.register_with_data(1, vec![42]);
    b.register_with_data(0, vec![99]);
    a.send_to(&[], &1);
    b.send_to(&[], &0);
    b.receive_all_messages();
    a.receive_all_messages();
    b.receive_all_messages();
    a.send_to(&[1, 2, 3], &1);
    assert_eq!(b.receive_all_messages(), vec![(0usize, vec![1u8, 2, 3])]);
}
