//! Game states and per-frame player inputs.

use vstd::prelude::*;

use crate::{Frame, NULL_FRAME};

verus! {

/// The game state of a single frame: `data` holds the state, `frame` the frame number, and
/// `checksum` may be provided to compare states.
#[derive(Debug, Clone)]
pub struct GameState<S> {
    /// The frame to which this info belongs to.
    pub frame: Frame,
    /// The game state
    pub data: Option<S>,
    /// The checksum of the gamestate.
    pub checksum: Option<u128>,
}

impl<S> Default for GameState<S> {
    /// An empty state that belongs to no frame.
    fn default() -> (r: Self)
        ensures
            r.frame == NULL_FRAME,
            r.data is None,
            r.checksum is None,
    {
        Self { frame: NULL_FRAME, data: None, checksum: None }
    }
}

/// An input in its serialized form.
#[derive(Debug, Clone, PartialEq)]
pub struct SerializedPlayerInput(Vec<u8>);

impl View for SerializedPlayerInput {
    type V = Seq<u8>;

    closed spec fn view(&self) -> Seq<u8> {
        self.0@
    }
}

impl SerializedPlayerInput {
    /// Serializes an input; `None` where serialization fails (for example for a type that
    /// serializes a sequence of unknown length).
    ///
    /// Calls `bincode::serialize(&input)`. Nothing is promised of the bytes, nor of when it
    /// fails: that depends on the input type's `Serialize` impl.
    #[verifier::external_body]
    pub(crate) fn encode<I: serde::Serialize>(input: I) -> (r: Option<Self>) {
        bincode::serialize(&input).ok().map(Self)
    }

    /// The serialized bytes.
    pub fn as_slice(&self) -> (r: &[u8])
        ensures
            r@ == self@,
    {
        self.0.as_slice()
    }
}

/// An input could not be serialized.
#[derive(Debug, Clone, Copy, PartialEq, Eq)]
pub struct InputSerializationError;

/// An input for a single player in a single frame.
#[derive(Debug, Clone, PartialEq)]
pub struct PlayerInput {
    /// The frame to which this info belongs to. [`NULL_FRAME`] represents an invalid frame.
    pub frame: Frame,
    /// The input given by the user, serialized.
    pub input: SerializedPlayerInput,
}

impl PlayerInput {
    /// The input of a frame, serialized; an error where the input cannot be serialized.
    pub fn new_from_input<I: serde::Serialize>(frame: Frame, input: I) -> (r: Result<Self, InputSerializationError>)
        ensures
            r matches Ok(p) ==> p.frame == frame,
    {
        match SerializedPlayerInput::encode(input) {
            Some(serialized) => Ok(Self { frame, input: serialized }),
            None => Err(InputSerializationError),
        }
    }

    /// The default input of a frame, serialized; an error where it cannot be serialized.
    pub fn new_blank_input<I: Default + serde::Serialize>(frame: Frame) -> (r: Result<Self, InputSerializationError>)
        ensures
            r matches Ok(p) ==> p.frame == frame,
    {
        Self::new_from_input(frame, I::default())
    }

    /// An input of a frame from its serialized bytes.
    pub fn new_from_bytes(frame: Frame, bytes: Vec<u8>) -> (r: Self)
        ensures
            r.frame == frame,
            r.input@ == bytes@,
    {
        Self { frame, input: SerializedPlayerInput(bytes) }
    }

    /// Two inputs are equal when their serialized bytes are; unless `input_only` is set, their
    /// frames must be equal too.
    pub fn equal(&self, other: &Self, input_only: bool) -> (r: bool)
        ensures
            r == ((input_only || self.frame == other.frame) && self.input@ == other.input@),
    {
        (input_only || self.frame == other.frame) && bytes_equal(self.input.as_slice(), other.input.as_slice())
    }
}

/// Whether two byte strings are equal.
pub fn bytes_equal(a: &[u8], b: &[u8]) -> (r: bool)
    ensures
        r == (a@ == b@),
{
    if a.len() != b.len() {
        return false;
    }
    let mut i: usize = 0;
    while i < a.len()
        invariant
            i <= a.len(),
            a@.len() == b@.len(),
            forall|j: int| 0 <= j < i ==> a@[j] == b@[j],
        decreases a.len() - i,
    {
        if a[i] != b[i] {
            return false;
        }
        i = i + 1;
    }
    assert(a@ =~= b@);
    true
}

} // verus!
