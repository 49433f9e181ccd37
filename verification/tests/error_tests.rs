use ggrs::error::{GgrsError, NetworkStatsError};

#[test]
fn network_stats_error_messages() {
    assert_eq!(
        NetworkStatsError::Unavailable.to_string(),
        "Network statistics are unavailable for this player."
    );
    assert_eq!(
        NetworkStatsError::BadPlayerHandle.to_string(),
        "Network statistics were requested for an invalid player handle."
    );
}

#[test]
fn simple_error_messages() {
    assert_eq!(
        GgrsError::PredictionThreshold.to_string(),
        "Prediction threshold is reached, cannot proceed without catching up."
    );
    assert_eq!(
        GgrsError::NotSynchronized.to_string(),
        "The session is not yet synchronized with all remote sessions."
    );
    assert_eq!(
        GgrsError::SpectatorTooFarBehind.to_string(),
        "The spectator got so far behind the host that catching up is impossible."
    );
}

#[test]
fn invalid_request_message_carries_the_info() {
    let e = GgrsError::InvalidRequest { info: "Check distance too big.".to_owned() };
    assert_eq!(e.to_string(), "Invalid Request: Check distance too big.");
}

#[test]
fn mismatched_checksum_message_lists_the_frames() {
    let e = GgrsError::MismatchedChecksum { current_frame: 120, mismatched_frames: vec![118, -1, 0, 2147483647] };
    assert_eq!(
        e.to_string(),
        "Detected checksum mismatch during rollback on frame 120, mismatched frames: [118, -1, 0, 2147483647]"
    );
    let e = GgrsError::MismatchedChecksum { current_frame: i32::MIN, mismatched_frames: vec![] };
    assert_eq!(
        e.to_string(),
        format!("Detected checksum mismatch during rollback on frame {}, mismatched frames: {:?}", i32::MIN, Vec::<i32>::new())
    );
}
