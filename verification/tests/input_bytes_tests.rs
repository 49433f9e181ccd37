use ggrs::frame_info::PlayerInput;
use ggrs::network::protocol::InputBytes;
use ggrs::{PlayerHandle, NULL_FRAME};

#[test]
fn zeroed_input_bytes() {
    let z = InputBytes::zeroed(3, 2);
    assert_eq!(z.frame, NULL_FRAME);
    assert_eq!(z.bytes, vec![0; 6]);
    assert!(InputBytes::zeroed(4, 0).bytes.is_empty());
}

#[test]
fn inputs_are_laid_out_in_handle_order() {
    let inputs = vec![
        (PlayerHandle(0), PlayerInput::new_from_bytes(5, vec![1, 2])),
        (PlayerHandle(2), PlayerInput::new_from_bytes(NULL_FRAME, vec![3, 4])),
        (PlayerHandle(7), PlayerInput::new_from_bytes(5, vec![5, 6])),
    ];
    let ib = InputBytes::from_inputs(&inputs);
    assert_eq!(ib.frame, 5);
    assert_eq!(ib.bytes, vec![1, 2, 3, 4, 5, 6]);

    let handles = [PlayerHandle(0), PlayerHandle(2), PlayerHandle(7)];
    let back = ib.to_player_inputs(&handles);
    assert_eq!(back.len(), 3);
    for (i, (h, input)) in back.iter().enumerate() {
        assert_eq!(*h, handles[i]);
        assert_eq!(input.frame, 5);
        assert_eq!(input.input.as_slice(), inputs[i].1.input.as_slice());
    }
}

#[test]
fn inputs_without_a_frame_belong_to_no_frame() {
    let inputs = vec![(PlayerHandle(1), PlayerInput::new_from_bytes(NULL_FRAME, vec![9]))];
    let ib = InputBytes::from_inputs(&inputs);
    assert_eq!(ib.frame, NULL_FRAME);
    assert_eq!(ib.bytes, vec![9]);
    assert!(InputBytes::from_inputs(&[]).bytes.is_empty());
}
