use ggrs::socket::memory::{apply_queue_op, MemoryMsg, MemoryNetwork, QueueOp, QueueResult};
use ggrs::NonBlockingSocket;

#[test]
fn test_basic_memory_socket_communication() {
    let mut network = MemoryNetwork::new();
    let mut socket1 = network.add_socket();
    let mut socket2 = network.add_socket();

    socket1.send_to(&vec![1, 2, 3, 4], &socket2.address());
    socket2.send_to(&vec![5, 6, 7, 8], &socket1.address());

    let received_by_socket2 = socket2.receive_all_messages();
    assert_eq!(received_by_socket2.len(), 1);
    assert_eq!(received_by_socket2[0].0, socket1.address());
    assert_eq!(received_by_socket2[0].1, vec![1, 2, 3, 4]);

    let received_by_socket1 = socket1.receive_all_messages();
    assert_eq!(received_by_socket1.len(), 1);
    assert_eq!(received_by_socket1[0].0, socket2.address());
    assert_eq!(received_by_socket1[0].1, vec![5, 6, 7, 8]);

    // Verify cleanup behavior - messages should be removed after being received
    assert_eq!(socket1.num_queued_messages(), 0);

    let message3 = vec![9, 10, 11, 12];
    socket1.send_to(&message3, &socket2.address());

    // Verify messages are only delivered to intended recipients
    assert!(socket1.receive_all_messages().is_empty());
    let received_by_socket2 = socket2.receive_all_messages();
    assert_eq!(received_by_socket2.len(), 1);
    assert_eq!(received_by_socket2[0].1, message3);
}

#[test]
fn sockets_get_consecutive_addresses() {
    let mut network = MemoryNetwork::new();
    assert_eq!(network.num_sockets(), 0);
    let a = network.add_socket();
    let b = network.add_socket();
    let c = network.add_socket();
    assert_eq!((a.address(), b.address(), c.address()), (0, 1, 2));
    assert_eq!(network.num_sockets(), 3);
}

#[test]
fn messages_arrive_in_sending_order() {
    let mut network = MemoryNetwork::new();
    let mut a = network.add_socket();
    let mut b = network.add_socket();
    let mut c = network.add_socket();
    a.send_to(&[1], &c.address());
    b.send_to(&[2], &c.address());
    a.send_to(&[3], &b.address());
    a.send_to(&[4], &c.address());
    assert_eq!(a.num_queued_messages(), 4);
    let got = c.receive_all_messages();
    assert_eq!(got, vec![(0, vec![1]), (1, vec![2]), (0, vec![4])]);
    assert_eq!(a.num_queued_messages(), 1);
    assert_eq!(b.receive_all_messages(), vec![(0, vec![3])]);
    assert!(c.receive_all_messages().is_empty());
}

#[test]
fn taking_from_a_queue_keeps_the_other_messages_in_order() {
    let mut queue = vec![
        MemoryMsg { from: 0, to: 1, data: vec![1] },
        MemoryMsg { from: 2, to: 3, data: vec![2] },
        MemoryMsg { from: 4, to: 1, data: vec![3] },
        MemoryMsg { from: 5, to: 6, data: vec![4] },
    ];
    match apply_queue_op(&mut queue, QueueOp::TakeFor(1)) {
        QueueResult::Taken(v) => assert_eq!(v, vec![(0, vec![1]), (4, vec![3])]),
        _ => panic!("expected taken messages"),
    }
    let kept: Vec<(usize, usize, Vec<u8>)> = queue.iter().map(|m| (m.from, m.to, m.data.clone())).collect();
    assert_eq!(kept, vec![(2, 3, vec![2]), (5, 6, vec![4])]);
    match apply_queue_op(&mut queue, QueueOp::Count) {
        QueueResult::Count(n) => assert_eq!(n, 2),
        _ => panic!("expected a count"),
    }
}
