use ggrs::error::NetworkStatsError;
use ggrs::frame_info::PlayerInput;
use ggrs::network::messages::{
    ChecksumReport, ConnectionStatus, Input, InputAck, Message, MessageBody, MessageHeader,
    QualityReply, QualityReport,
};
use ggrs::network::protocol::{
    Event, InputBytes, ProtocolState, UdpProtocol,
};
use ggrs::sessions::builder::SessionBuilder;
use ggrs::{DesyncDetection, PlayerHandle, PlayerType, NULL_FRAME};

fn endpoint(now: u64) -> UdpProtocol<u16> {
    UdpProtocol::new(
        vec![PlayerHandle(1)],
        9000,
        &[PlayerHandle(0), PlayerHandle(1)],
        &[PlayerHandle(0)],
        8,
        2000,
        500,
        60,
        DesyncDetection::On { interval: 10 },
        2,
        now,
        100_000,
    )
}

fn status(last_frame: i32) -> Vec<(PlayerHandle, ConnectionStatus)> {
    vec![
        (PlayerHandle(0), ConnectionStatus { disconnected: false, last_frame }),
        (PlayerHandle(1), ConnectionStatus { disconnected: false, last_frame }),
    ]
}

fn input_of(frame: i32, byte: u8) -> Vec<(PlayerHandle, PlayerInput)> {
    vec![(PlayerHandle(0), PlayerInput::new_from_bytes(frame, vec![byte, byte]))]
}

#[test]
fn new_endpoint_is_running_and_blank() {
    let p = endpoint(10);
    assert_ne!(p.config.magic, 0);
    assert!(p.is_running());
    assert_eq!(p.handles(), &vec![PlayerHandle(1)]);
    assert_eq!(p.peer_addr(), 9000);
    assert_eq!(p.last_recv_frame(), NULL_FRAME);
    assert_eq!(p.peer_connect_status(PlayerHandle(1)), ConnectionStatus::default());
    assert_eq!(p.recv_inputs[0].bytes, vec![0, 0]);
    assert_eq!(p.last_acked_input.bytes, vec![0, 0]);
    assert!(p.is_handling_message(&9000));
    assert!(!p.is_handling_message(&9001));
}

#[test]
fn sent_inputs_stay_pending_until_acknowledged() {
    let mut p = endpoint(0);
    p.send_input(&input_of(0, 7), &status(0), vec![1, 2, 3], 5);
    p.send_input(&input_of(1, 8), &status(1), vec![4, 5], 6);
    assert_eq!(p.pending_output.len(), 2);
    let msgs = p.send_all_messages();
    assert_eq!(msgs.len(), 2);
    match &msgs[1].body {
        MessageBody::Input(i) => {
            assert_eq!(i.start_frame, 0);
            assert_eq!(i.ack_frame, NULL_FRAME);
            assert_eq!(i.bytes, vec![4, 5]);
            assert!(!i.disconnect_requested);
        }
        other => panic!("unexpected body {:?}", other),
    }
    assert_eq!(msgs[0].header.magic, p.config.magic);
    p.on_input_ack(InputAck { ack_frame: 0 });
    assert_eq!(p.pending_output.len(), 1);
    assert_eq!(p.pending_output[0].frame, 1);
    assert_eq!(p.last_acked_input.frame, 0);
    assert_eq!(p.last_acked_input.bytes, vec![7, 7]);
}

#[test]
fn quality_report_is_answered_and_reply_sets_round_trip() {
    let mut p = endpoint(0);
    p.on_quality_report(&QualityReport { frame_advantage: -3, ping: 777 }, 1);
    assert_eq!(p.stats.remote_frame_advantage, -3);
    let msgs = p.send_all_messages();
    assert_eq!(msgs.len(), 1);
    match msgs[0].body {
        MessageBody::QualityReply(r) => assert_eq!(r.pong, 777),
        ref other => panic!("unexpected body {:?}", other),
    }
    p.on_quality_reply(&QualityReply { pong: 100_000 }, 100_040);
    assert_eq!(p.stats.round_trip_time, 40);
}

#[test]
fn network_stats_need_a_second() {
    let mut p = endpoint(0);
    assert_eq!(p.network_stats(100_500).err(), Some(NetworkStatsError::Unavailable));
    p.send_keep_alive(1);
    let stats = p.network_stats(102_000).unwrap();
    let expected = (p.stats.bytes_sent + 28) / 2 / 1024;
    assert_eq!(stats.kbps_sent, expected);
    assert_eq!(stats.send_queue_len, 0);
    p.disconnect(3);
    assert_eq!(p.network_stats(102_000).err(), Some(NetworkStatsError::Unavailable));
}

#[test]
fn poll_reports_interruption_then_disconnect_once() {
    let mut p = endpoint(0);
    let ev = p.poll(100, 100_100, &status(0), vec![]);
    assert!(ev.is_empty());
    let ev = p.poll(501, 100_501, &status(0), vec![]);
    assert_eq!(ev.len(), 1);
    match ev[0] {
        Event::NetworkInterrupted { disconnect_timeout } => assert_eq!(disconnect_timeout, 1500),
        ref other => panic!("unexpected event {:?}", other),
    }
    let ev = p.poll(1000, 101_000, &status(0), vec![]);
    assert!(ev.is_empty());
    let ev = p.poll(2001, 102_001, &status(0), vec![]);
    assert_eq!(ev.len(), 1);
    assert!(matches!(ev[0], Event::Disconnected));
    let ev = p.poll(3000, 103_000, &status(0), vec![]);
    assert!(ev.is_empty());
}

#[test]
fn poll_sends_quality_report_and_keep_alive() {
    let mut p = endpoint(0);
    let _ = p.poll(201, 100_201, &status(0), vec![]);
    let msgs = p.send_all_messages();
    // a quality report counts as the last send, so no keep-alive follows it
    assert_eq!(msgs.len(), 1);
    match msgs[0].body {
        MessageBody::QualityReport(r) => {
            assert_eq!(r.ping, 100_201);
            assert_eq!(r.frame_advantage, 0);
        }
        ref other => panic!("unexpected body {:?}", other),
    }
    assert_eq!(p.timers.last_send_time, 201);
}

#[test]
fn poll_resends_pending_input() {
    let mut p = endpoint(0);
    p.send_input(&input_of(0, 1), &status(0), vec![9], 1);
    let _ = p.send_all_messages();
    let _ = p.poll(300, 100_300, &status(0), vec![6, 6]);
    let msgs = p.send_all_messages();
    assert_eq!(msgs.len(), 2);
    match &msgs[0].body {
        MessageBody::Input(i) => assert_eq!(i.bytes, vec![6, 6]),
        other => panic!("unexpected body {:?}", other),
    }
    assert_eq!(p.timers.running_last_input_recv, 300);
}

#[test]
fn disconnected_endpoint_shuts_down_and_drops_messages() {
    let mut p = endpoint(0);
    p.disconnect(10);
    assert_eq!(p.timers.state, ProtocolState::Disconnected);
    let _ = p.poll(5010, 105_010, &status(0), vec![]);
    assert_eq!(p.timers.state, ProtocolState::Disconnected);
    let _ = p.poll(5011, 105_011, &status(0), vec![]);
    assert_eq!(p.timers.state, ProtocolState::Shutdown);
    p.send_keep_alive(5012);
    assert!(p.send_all_messages().is_empty());
    p.disconnect(6000);
    assert_eq!(p.timers.state, ProtocolState::Shutdown);
}

fn input_message(magic: u16, start_frame: i32, ack_frame: i32, disconnect_requested: bool) -> Message {
    Message {
        header: MessageHeader { magic },
        body: MessageBody::Input(Input {
            peer_connect_status: vec![(PlayerHandle(1), ConnectionStatus { disconnected: true, last_frame: 4 })],
            disconnect_requested,
            start_frame,
            ack_frame,
            bytes: vec![],
        }),
    }
}

#[test]
fn received_inputs_are_stored_reported_and_acknowledged() {
    let mut p = endpoint(0);
    let msg = input_message(5, 0, NULL_FRAME, false);
    let start = match &msg.body {
        MessageBody::Input(i) => i.start_frame,
        _ => unreachable!(),
    };
    let reference: Option<&InputBytes> = p.decode_reference(start);
    assert_eq!(reference.map(|r| r.frame), Some(NULL_FRAME));
    p.handle_message(&msg, 50, 100_050, Some(vec![vec![1, 2], vec![3, 4]]));
    assert_eq!(p.last_recv_frame(), 1);
    assert_eq!(p.timers.last_recv_time, 50);
    let events = p.poll(60, 100_060, &status(0), vec![]);
    assert_eq!(events.len(), 2);
    match &events[1] {
        Event::Input { input, player } => {
            assert_eq!(*player, PlayerHandle(1));
            assert_eq!(input.frame, 1);
            assert_eq!(input.input.as_slice(), &[3, 4]);
        }
        other => panic!("unexpected event {:?}", other),
    }
    let msgs = p.send_all_messages();
    assert_eq!(msgs.len(), 1);
    match msgs[0].body {
        MessageBody::InputAck(a) => assert_eq!(a.ack_frame, 1),
        ref other => panic!("unexpected body {:?}", other),
    }
    // the peer's report of player 1 is merged in; player 0 is left out of it
    assert_eq!(p.peer_connect_status(PlayerHandle(1)), ConnectionStatus { disconnected: true, last_frame: 4 });
    assert_eq!(p.peer_connect_status(PlayerHandle(0)), ConnectionStatus::default());
    // a repeated input is not reported again
    let msg = input_message(5, 1, NULL_FRAME, false);
    p.handle_message(&msg, 70, 100_070, Some(vec![vec![3, 4], vec![5, 6]]));
    let events = p.poll(71, 100_071, &status(0), vec![]);
    assert_eq!(events.len(), 1);
    assert_eq!(p.last_recv_frame(), 2);
}

#[test]
fn undecodable_input_changes_nothing_but_the_clock() {
    let mut p = endpoint(0);
    let msg = input_message(5, 0, NULL_FRAME, false);
    p.handle_message(&msg, 50, 100_050, None);
    assert_eq!(p.last_recv_frame(), NULL_FRAME);
    assert!(p.send_all_messages().is_empty());
    assert!(p.poll(51, 100_051, &status(0), vec![]).is_empty());
}

#[test]
fn requested_disconnect_is_reported_once() {
    let mut p = endpoint(0);
    let msg = input_message(5, 0, NULL_FRAME, true);
    p.handle_message(&msg, 10, 100_010, None);
    p.handle_message(&msg, 11, 100_011, None);
    let events = p.poll(12, 100_012, &status(0), vec![]);
    assert_eq!(events.len(), 1);
    assert!(matches!(events[0], Event::Disconnected));
    // the report is not merged when a disconnect is requested
    assert_eq!(p.peer_connect_status(PlayerHandle(1)), ConnectionStatus::default());
}

#[test]
fn message_after_interruption_resumes() {
    let mut p = endpoint(0);
    let _ = p.poll(600, 100_600, &status(0), vec![]);
    let keep_alive = Message { header: MessageHeader { magic: 5 }, body: MessageBody::KeepAlive };
    p.handle_message(&keep_alive, 700, 100_700, None);
    let events = p.poll(701, 100_701, &status(0), vec![]);
    assert_eq!(events.len(), 1);
    assert!(matches!(events[0], Event::NetworkResumed));
}

#[test]
fn checksum_history_records_and_replaces() {
    let mut p = endpoint(0);
    p.on_checksum_report(&ChecksumReport { frame: 10, checksum: 1 });
    p.on_checksum_report(&ChecksumReport { frame: 20, checksum: 2 });
    p.on_checksum_report(&ChecksumReport { frame: 10, checksum: 3 });
    assert_eq!(p.pending_checksums, vec![(10, 3), (20, 2)]);
}

#[test]
fn full_checksum_history_drops_old_frames() {
    let mut p = endpoint(0);
    for k in 0..32 {
        p.on_checksum_report(&ChecksumReport { frame: k * 10, checksum: k as u128 });
    }
    // interval 10: frames older than 400 - 31 * 10 = 90 are dropped
    p.on_checksum_report(&ChecksumReport { frame: 400, checksum: 99 });
    assert_eq!(p.pending_checksums.len(), 23 + 1);
    assert_eq!(p.pending_checksums[0], (90, 9));
    assert_eq!(*p.pending_checksums.last().unwrap(), (400, 99));
}

#[test]
fn frame_advantage_estimate() {
    let mut p = endpoint(0);
    p.update_local_frame_advantage(5);
    assert_eq!(p.stats.local_frame_advantage, 0);
    let msg = input_message(5, 0, NULL_FRAME, false);
    p.handle_message(&msg, 50, 100_050, Some(vec![vec![1, 2]; 11]));
    assert_eq!(p.last_recv_frame(), 10);
    p.on_quality_reply(&QualityReply { pong: 100_000 }, 100_200);
    // half of a 200 ms round trip at 60 fps is 6 frames
    p.update_local_frame_advantage(4);
    assert_eq!(p.stats.local_frame_advantage, 10 + 6 - 4);
}

#[test]
fn synctest_settings_list_local_players_in_order() {
    let b = SessionBuilder::<u16>::new()
        .add_player(PlayerType::Local, PlayerHandle(3))
        .unwrap()
        .add_player(PlayerType::Remote(7), PlayerHandle(0))
        .unwrap()
        .add_player(PlayerType::Local, PlayerHandle(1))
        .unwrap();
    let s = b.start_synctest_session().unwrap();
    assert_eq!(s.local_handles, vec![PlayerHandle(1), PlayerHandle(3)]);
    assert_eq!(s.check_distance, 2);
    assert_eq!(s.max_prediction, 8);
}

#[test]
fn synctest_with_too_big_check_distance_is_refused() {
    let b = SessionBuilder::<u16>::new().with_check_distance(8);
    match b.start_synctest_session() {
        Err(ggrs::error::GgrsError::InvalidRequest { info }) => assert_eq!(info, "Check distance too big."),
        other => panic!("unexpected result {:?}", other.map(|s| s.local_handles)),
    }
}

#[test]
fn spectator_host_endpoint_takes_all_playing_players() {
    let b = SessionBuilder::<u16>::new()
        .add_player(PlayerType::Remote(7), PlayerHandle(1))
        .unwrap()
        .add_player(PlayerType::Local, PlayerHandle(0))
        .unwrap()
        .add_player(PlayerType::Spectator(8), PlayerHandle(2))
        .unwrap();
    let b = b.with_max_frames_behind(20).unwrap().with_catchup_speed(3).unwrap();
    let settings = b.start_spectator_session(9, 4, 0, 100_000);
    assert_eq!(settings.max_frames_behind, 20);
    assert_eq!(settings.catchup_speed, 3);
    let host = settings.host;
    assert_eq!(host.config.handles, vec![PlayerHandle(0), PlayerHandle(1)]);
    assert_eq!(host.config.peer_addr, 9);
    assert_eq!(host.config.desync_detection, DesyncDetection::Off);
    assert_eq!(host.config.disconnect_timeout, 2000);
    assert_eq!(host.config.disconnect_notify_start, 500);
    assert_eq!(host.recv_inputs[0].bytes.len(), 8);
    assert_eq!(host.last_acked_input.bytes.len(), 4);
    assert_eq!(host.peer_connect_status.len(), 2);
}

#[test]
fn p2p_endpoints_one_per_address() {
    let b = SessionBuilder::<u16>::new()
        .add_player(PlayerType::Local, PlayerHandle(0))
        .unwrap()
        .add_player(PlayerType::Remote(7), PlayerHandle(1))
        .unwrap()
        .add_player(PlayerType::Remote(7), PlayerHandle(2))
        .unwrap()
        .add_player(PlayerType::Remote(8), PlayerHandle(3))
        .unwrap()
        .add_player(PlayerType::Spectator(9), PlayerHandle(4))
        .unwrap();
    let mut eps = b.start_p2p_session(1, 0, 100_000).unwrap();
    eps.sort_by_key(|(_, ep)| ep.config.peer_addr);
    assert_eq!(eps.len(), 3);
    assert_eq!(eps[0].0, PlayerType::Remote(7));
    assert_eq!(eps[0].1.config.handles, vec![PlayerHandle(1), PlayerHandle(2)]);
    // a remote endpoint sends the local player's input
    assert_eq!(eps[0].1.last_acked_input.bytes.len(), 1);
    assert_eq!(eps[1].1.config.handles, vec![PlayerHandle(3)]);
    assert_eq!(eps[2].0, PlayerType::Spectator(9));
    assert_eq!(eps[2].1.config.handles, vec![PlayerHandle(4)]);
    // the spectator's endpoint sends the inputs of all four playing players
    assert_eq!(eps[2].1.last_acked_input.bytes.len(), 4);
    assert_eq!(eps[2].1.peer_connect_status.len(), 4);
}

#[test]
fn p2p_session_without_playing_players_is_refused() {
    let b = SessionBuilder::<u16>::new();
    match b.start_p2p_session(1, 0, 100_000) {
        Err(ggrs::error::GgrsError::InvalidRequest { info }) => assert_eq!(info, "Not enough players have been added."),
        Err(other) => panic!("unexpected error {:?}", other),
        Ok(eps) => panic!("unexpected {} endpoints", eps.len()),
    }
    let b = SessionBuilder::<u16>::new().add_player(PlayerType::Spectator(3), PlayerHandle(0)).unwrap();
    assert!(b.start_p2p_session(1, 0, 100_000).is_err());
}
