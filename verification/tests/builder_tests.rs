use ggrs::error::GgrsError;
use ggrs::sessions::builder::SessionBuilder;
use ggrs::{PlayerHandle, PlayerType};

fn info(e: GgrsError) -> String {
    match e {
        GgrsError::InvalidRequest { info } => info,
        other => panic!("unexpected error {:?}", other),
    }
}

#[test]
fn duplicate_player_handles_are_refused() {
    let b = SessionBuilder::<usize>::new()
        .add_player(PlayerType::Local, PlayerHandle(0))
        .unwrap()
        .add_player(PlayerType::Remote(5), PlayerHandle(1))
        .unwrap();
    let e = b.add_player(PlayerType::Spectator(6), PlayerHandle(1)).err().unwrap();
    assert_eq!(info(e), "Player handle already in use.");
}

#[test]
fn fps_must_be_positive() {
    let e = SessionBuilder::<usize>::new().with_fps(0).err().unwrap();
    assert_eq!(info(e), "FPS should be higher than 0.");
    assert!(SessionBuilder::<usize>::new().with_fps(30).is_ok());
}

#[test]
fn max_frames_behind_bounds() {
    let e = SessionBuilder::<usize>::new().with_max_frames_behind(0).err().unwrap();
    assert_eq!(info(e), "Max frames behind cannot be smaller than 1.");
    let e = SessionBuilder::<usize>::new().with_max_frames_behind(60).err().unwrap();
    assert_eq!(info(e), "Max frames behind cannot be larger or equal than the Spectator buffer size (60)");
    assert!(SessionBuilder::<usize>::new().with_max_frames_behind(59).is_ok());
    assert!(SessionBuilder::<usize>::new().with_max_frames_behind(1).is_ok());
}

#[test]
fn catchup_speed_bounds() {
    let e = SessionBuilder::<usize>::new().with_catchup_speed(0).err().unwrap();
    assert_eq!(info(e), "Catchup speed cannot be smaller than 1.");
    // default max frames behind is 10
    let e = SessionBuilder::<usize>::new().with_catchup_speed(10).err().unwrap();
    assert_eq!(info(e), "Catchup speed cannot be larger or equal than the allowed maximum frames behind host");
    assert!(SessionBuilder::<usize>::new().with_catchup_speed(9).is_ok());
    let b = SessionBuilder::<usize>::new().with_max_frames_behind(20).unwrap();
    assert!(b.with_catchup_speed(15).is_ok());
}

#[test]
fn setters_chain() {
    let b = SessionBuilder::<usize>::default()
        .with_max_prediction_window(0)
        .with_input_delay(2)
        .with_sparse_saving_mode(true)
        .with_check_distance(3)
        .with_disconnect_timeout(std::time::Duration::from_millis(100))
        .with_disconnect_notify_delay(std::time::Duration::from_millis(50));
    let text = format!("{:?}", b);
    assert!(text.contains("max_prediction: 0"));
    assert!(text.contains("input_delay: 2"));
    assert!(text.contains("sparse_saving: true"));
    assert!(text.contains("check_dist: 3"));
    assert!(text.contains("disconnect_timeout: 100ms"));
}
