use ggrs::frame_info::{GameState, PlayerInput};
use ggrs::NULL_FRAME;
use serde::ser::{Serialize, SerializeSeq, SerializeStruct, Serializer};

#[derive(Default)]
struct TestInput {
    inp: u8,
}

impl Serialize for TestInput {
    fn serialize<S: Serializer>(&self, serializer: S) -> Result<S::Ok, S::Error> {
        let mut state = serializer.serialize_struct("TestInput", 1)?;
        state.serialize_field("inp", &self.inp)?;
        state.end()
    }
}

#[test]
fn test_input_equality() {
    let input1 = PlayerInput::new_from_input(0, TestInput { inp: 5 }).unwrap();
    let input2 = PlayerInput::new_from_input(0, TestInput { inp: 5 }).unwrap();
    assert!(input1.equal(&input2, false));
}

#[test]
fn test_input_equality_input_only() {
    let input1 = PlayerInput::new_from_input(0, TestInput { inp: 5 }).unwrap();
    let input2 = PlayerInput::new_from_input(5, TestInput { inp: 5 }).unwrap();
    assert!(input1.equal(&input2, true)); // different frames, but does not matter
}

#[test]
fn test_input_equality_fail() {
    let input1 = PlayerInput::new_from_input(0, TestInput { inp: 5 }).unwrap();
    let input2 = PlayerInput::new_from_input(0, TestInput { inp: 7 }).unwrap();
    assert!(!input1.equal(&input2, false)); // different bits
}

#[test]
fn serialized_input_holds_the_encoded_struct() {
    let input = PlayerInput::new_from_input(3, TestInput { inp: 9 }).unwrap();
    assert_eq!(input.frame, 3);
    assert_eq!(input.input.as_slice(), &[9u8][..]);
}

#[test]
fn blank_input_is_the_default_value() {
    let input = PlayerInput::new_blank_input::<TestInput>(4).unwrap();
    assert_eq!(input.frame, 4);
    assert_eq!(input.input.as_slice(), &[0u8][..]);
}

#[test]
fn input_from_bytes_keeps_them() {
    let input = PlayerInput::new_from_bytes(7, vec![1, 2, 3]);
    assert_eq!(input.frame, 7);
    assert_eq!(input.input.as_slice(), &[1u8, 2, 3][..]);
}

#[test]
fn equal_frames_differ_without_input_only() {
    let a = PlayerInput::new_from_bytes(1, vec![1, 2]);
    let b = PlayerInput::new_from_bytes(2, vec![1, 2]);
    assert!(!a.equal(&b, false));
    assert!(a.equal(&b, true));
}

#[test]
fn equal_inputs_of_different_length_differ() {
    let a = PlayerInput::new_from_bytes(1, vec![1, 2]);
    let b = PlayerInput::new_from_bytes(1, vec![1, 2, 0]);
    assert!(!a.equal(&b, true));
}

#[test]
fn default_game_state_belongs_to_no_frame() {
    let gs: GameState<u32> = GameState::default();
    assert_eq!(gs.frame, NULL_FRAME);
    assert!(gs.data.is_none());
    assert!(gs.checksum.is_none());
}

struct UnknownLengthSequence;

impl Serialize for UnknownLengthSequence {
    fn serialize<S: Serializer>(&self, serializer: S) -> Result<S::Ok, S::Error> {
        let seq = serializer.serialize_seq(None)?;
        SerializeSeq::end(seq)
    }
}

#[test]
fn unserializable_input_is_an_error() {
    assert!(PlayerInput::new_from_input(0, UnknownLengthSequence).is_err());
}
