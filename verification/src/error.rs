//! The errors this library returns, and their messages.

use vstd::prelude::*;
use vstd::string::StringExecFns;

use crate::Frame;

verus! {

/// Why network statistics could not be given.
#[derive(Debug, Clone, Copy, PartialEq, Eq, Hash, Structural)]
pub enum NetworkStatsError {
    /// Network statistics are unavailable if no time has elapsed or if the peer has been disconnected.
    Unavailable,
    /// Network statistics were requested for an invalid player handle.
    BadPlayerHandle,
}

/// The errors this library can return.
#[derive(Debug, Clone, PartialEq, Hash)]
pub enum GgrsError {
    /// When the prediction threshold has been reached, we cannot accept more inputs from the local player.
    PredictionThreshold,
    /// You made an invalid request, usually by using wrong parameters for function calls.
    InvalidRequest {
        /// Further specifies why the request was invalid.
        info: String,
    },
    /// Checksums of resimulated frames do not match up with the original checksums.
    MismatchedChecksum {
        /// The frame at which the mismatch occurred.
        current_frame: Frame,
        /// The frames with mismatched checksums (one or more)
        mismatched_frames: Vec<Frame>,
    },
    /// The Session is not synchronized yet. Please start the session and wait a few ms to let the clients synchronize.
    NotSynchronized,
    /// The spectator got so far behind the host that catching up is impossible.
    SpectatorTooFarBehind,
}

/// The text of a decimal digit.
pub open spec fn digit_text(d: nat) -> Seq<char> {
    if d == 0 {
        "0"@
    } else if d == 1 {
        "1"@
    } else if d == 2 {
        "2"@
    } else if d == 3 {
        "3"@
    } else if d == 4 {
        "4"@
    } else if d == 5 {
        "5"@
    } else if d == 6 {
        "6"@
    } else if d == 7 {
        "7"@
    } else if d == 8 {
        "8"@
    } else {
        "9"@
    }
}

/// The decimal digits of a natural number, most significant first, without leading zeros.
pub open spec fn decimal_text(n: nat) -> Seq<char>
    decreases n,
{
    if n < 10 {
        digit_text(n)
    } else {
        decimal_text(n / 10) + digit_text(n % 10)
    }
}

/// The decimal text of an integer, with a leading minus sign when it is negative.
pub open spec fn int_text(n: int) -> Seq<char> {
    if n < 0 {
        "-"@ + decimal_text((-n) as nat)
    } else {
        decimal_text(n as nat)
    }
}

/// The integers of a list, in decimal, separated by a comma and a space.
pub open spec fn list_items_text(s: Seq<i32>) -> Seq<char>
    decreases s.len(),
{
    if s.len() == 0 {
        Seq::empty()
    } else if s.len() == 1 {
        int_text(s[0] as int)
    } else {
        list_items_text(s.drop_last()) + ", "@ + int_text(s.last() as int)
    }
}

/// A list of integers as text: its items in square brackets.
pub open spec fn list_text(s: Seq<i32>) -> Seq<char> {
    "["@ + list_items_text(s) + "]"@
}

impl NetworkStatsError {
    /// The message of this error.
    pub open spec fn spec_text(self) -> Seq<char> {
        match self {
            NetworkStatsError::Unavailable => "Network statistics are unavailable for this player."@,
            NetworkStatsError::BadPlayerHandle => "Network statistics were requested for an invalid player handle."@,
        }
    }

    /// The message of this error.
    pub fn to_string(&self) -> (r: String)
        ensures
            r@ == self.spec_text(),
    {
        match self {
            NetworkStatsError::Unavailable => String::from_str(
                "Network statistics are unavailable for this player.",
            ),
            NetworkStatsError::BadPlayerHandle => String::from_str(
                "Network statistics were requested for an invalid player handle.",
            ),
        }
    }
}

impl GgrsError {
    /// The message of this error.
    pub open spec fn spec_text(self) -> Seq<char> {
        match self {
            GgrsError::PredictionThreshold => "Prediction threshold is reached, cannot proceed without catching up."@,
            GgrsError::InvalidRequest { info } => "Invalid Request: "@ + info@,
            GgrsError::NotSynchronized => "The session is not yet synchronized with all remote sessions."@,
            GgrsError::MismatchedChecksum { current_frame, mismatched_frames } =>
                "Detected checksum mismatch during rollback on frame "@ + int_text(current_frame as int)
                    + ", mismatched frames: "@ + list_text(mismatched_frames@),
            GgrsError::SpectatorTooFarBehind => "The spectator got so far behind the host that catching up is impossible."@,
        }
    }

    /// The message of this error.
    pub fn to_string(&self) -> (r: String)
        ensures
            r@ == self.spec_text(),
    {
        match self {
            GgrsError::PredictionThreshold => String::from_str(
                "Prediction threshold is reached, cannot proceed without catching up.",
            ),
            GgrsError::InvalidRequest { info } => {
                let mut s = String::from_str("Invalid Request: ");
                s.append(info.as_str());
                s
            },
            GgrsError::NotSynchronized => String::from_str(
                "The session is not yet synchronized with all remote sessions.",
            ),
            GgrsError::MismatchedChecksum { current_frame, mismatched_frames } => {
                let mut s = String::from_str("Detected checksum mismatch during rollback on frame ");
                append_int(&mut s, *current_frame);
                s.append(", mismatched frames: ");
                append_list(&mut s, mismatched_frames.as_slice());
                s
            },
            GgrsError::SpectatorTooFarBehind => String::from_str(
                "The spectator got so far behind the host that catching up is impossible.",
            ),
        }
    }
}

/// The text of a decimal digit.
fn digit_str(d: u64) -> (r: &'static str)
    requires
        d < 10,
    ensures
        r@ == digit_text(d as nat),
{
    if d == 0 {
        "0"
    } else if d == 1 {
        "1"
    } else if d == 2 {
        "2"
    } else if d == 3 {
        "3"
    } else if d == 4 {
        "4"
    } else if d == 5 {
        "5"
    } else if d == 6 {
        "6"
    } else if d == 7 {
        "7"
    } else if d == 8 {
        "8"
    } else {
        "9"
    }
}

/// Appends the decimal digits of `n`.
fn append_decimal(s: &mut String, n: u64)
    ensures
        final(s)@ == old(s)@ + decimal_text(n as nat),
    decreases n,
{
    if n >= 10 {
        append_decimal(s, n / 10);
    }
    s.append(digit_str(n % 10));
    proof {
        if n >= 10 {
            assert(final(s)@ =~= old(s)@ + decimal_text(n as nat));
        }
    }
}

/// Appends the decimal text of `n`.
fn append_int(s: &mut String, n: i32)
    ensures
        final(s)@ == old(s)@ + int_text(n as int),
{
    if n < 0 {
        s.append("-");
        let magnitude: u64 = (0i64 - n as i64) as u64;
        append_decimal(s, magnitude);
        assert(final(s)@ =~= old(s)@ + int_text(n as int));
    } else {
        append_decimal(s, n as u64);
    }
}

/// Appends a list of integers as text.
fn append_list(s: &mut String, items: &[i32])
    ensures
        final(s)@ == old(s)@ + list_text(items@),
{
    let ghost start = s@;
    s.append("[");
    let mut i: usize = 0;
    while i < items.len()
        invariant
            i <= items.len(),
            s@ == start + "["@ + list_items_text(items@.take(i as int)),
        decreases items.len() - i,
    {
        proof {
            assert(items@.take(i as int + 1).drop_last() =~= items@.take(i as int));
        }
        if i > 0 {
            s.append(", ");
        }
        append_int(s, items[i]);
        proof {
            if i == 0 {
                assert(items@.take(1) =~= seq![items@[0]]);
                assert(s@ =~= start + "["@ + list_items_text(items@.take(i as int + 1)));
            } else {
                assert(s@ =~= start + "["@ + list_items_text(items@.take(i as int + 1)));
            }
        }
        i = i + 1;
    }
    s.append("]");
    proof {
        assert(items@.take(items@.len() as int) =~= items@);
        assert(s@ =~= start + list_text(items@));
    }
}

} // verus!
