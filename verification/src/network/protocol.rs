//! The byte layout of the inputs a client sends for one frame: the serialized inputs of its
//! players, one after the other in handle order.

use vstd::prelude::*;
use vstd::slice::{slice_subrange, slice_to_vec};

use crate::error::NetworkStatsError;
use crate::frame_info::PlayerInput;
use crate::network::messages::{
    ChecksumReport, ConnectionStatus, Input, InputAck, Message, MessageBody, MessageHeader,
    NetworkStats, QualityReply, QualityReport,
};
use vstd::std_specs::cmp::PartialEqSpec;

use crate::{Address, DesyncDetection, Frame, PlayerHandle, NULL_FRAME};

verus! {

broadcast use vstd::seq_lib::group_seq_properties;

/// Size of IP + UDP headers
pub const UDP_HEADER_SIZE: usize = 28;
/// Number of old checksums to keep in memory
pub const MAX_CHECKSUM_HISTORY_SIZE: usize = 32;
/// Milliseconds from a disconnect until the endpoint shuts down.
pub const UDP_SHUTDOWN_TIMER: u64 = 5000;
/// The number of unacknowledged inputs above which a peer is disconnected.
pub const PENDING_OUTPUT_SIZE: usize = 128;
/// Milliseconds without received input after which pending inputs are sent again.
pub const RUNNING_RETRY_INTERVAL: u64 = 200;
/// Milliseconds without a sent message after which a keep-alive is sent.
pub const KEEP_ALIVE_INTERVAL: u64 = 200;
/// Milliseconds between two quality reports.
pub const QUALITY_REPORT_INTERVAL: u64 = 200;

/// Byte-encoded inputs of a client, possibly for multiple players at the same time.
#[derive(Debug, Clone)]
pub struct InputBytes {
    /// The frame to which this info belongs to. [`NULL_FRAME`] represents an invalid frame.
    pub frame: Frame,
    /// The serialized inputs, one after the other.
    pub bytes: Vec<u8>,
}

/// Handles in strictly increasing order (as a sorted map or set walks them).
pub open spec fn increasing_handles(hs: Seq<PlayerHandle>) -> bool {
    forall|i: int, j: int| 0 <= i < j < hs.len() ==> hs[i].0 < hs[j].0
}

/// The handles of a list of (handle, input) pairs.
pub open spec fn handles_of(inputs: Seq<(PlayerHandle, PlayerInput)>) -> Seq<PlayerHandle> {
    inputs.map_values(|p: (PlayerHandle, PlayerInput)| p.0)
}

/// The inputs agree on their frame: any two that belong to a frame belong to the same one.
pub open spec fn frames_agree(inputs: Seq<(PlayerHandle, PlayerInput)>) -> bool {
    forall|i: int, j: int|
        0 <= i < inputs.len() && 0 <= j < inputs.len() && inputs[i].1.frame != NULL_FRAME
            && inputs[j].1.frame != NULL_FRAME ==> inputs[i].1.frame == inputs[j].1.frame
}

/// The frame of a list of inputs: the frame of the last input that belongs to one, or
/// [`NULL_FRAME`] if none does.
pub open spec fn combined_frame(inputs: Seq<(PlayerHandle, PlayerInput)>) -> Frame
    decreases inputs.len(),
{
    if inputs.len() == 0 {
        NULL_FRAME
    } else if inputs.last().1.frame != NULL_FRAME {
        inputs.last().1.frame
    } else {
        combined_frame(inputs.drop_last())
    }
}

/// The serialized inputs, one after the other.
pub open spec fn concat_inputs(inputs: Seq<(PlayerHandle, PlayerInput)>) -> Seq<u8>
    decreases inputs.len(),
{
    if inputs.len() == 0 {
        Seq::empty()
    } else {
        concat_inputs(inputs.drop_last()) + inputs.last().1.input@
    }
}



impl InputBytes {
    /// Zeroed bytes for `num_handles` inputs of `input_size` bytes each, belonging to no frame.
    pub fn zeroed(input_size: usize, num_handles: usize) -> (r: Self)
        requires
            input_size * num_handles <= usize::MAX,
        ensures
            r.frame == NULL_FRAME,
            r.bytes@ == Seq::new((input_size * num_handles) as nat, |i: int| 0u8),
    {
        let size = input_size * num_handles;
        let mut bytes: Vec<u8> = Vec::new();
        let mut i: usize = 0;
        while i < size
            invariant
                i <= size,
                bytes@ == Seq::new(i as nat, |k: int| 0u8),
            decreases size - i,
        {
            bytes.push(0u8);
            i = i + 1;
            assert(bytes@ =~= Seq::new(i as nat, |k: int| 0u8));
        }
        Self { frame: NULL_FRAME, bytes }
    }

    /// The inputs of several players for one frame, given in increasing handle order: their
    /// serialized bytes one after the other, and the frame that they belong to.
    pub fn from_inputs(inputs: &[(PlayerHandle, PlayerInput)]) -> (r: Self)
        requires
            increasing_handles(handles_of(inputs@)),
            frames_agree(inputs@),
            concat_inputs(inputs@).len() <= usize::MAX,
        ensures
            r.frame == combined_frame(inputs@),
            r.bytes@ == concat_inputs(inputs@),
    {
        let mut frame = NULL_FRAME;
        let mut bytes: Vec<u8> = Vec::new();
        let mut i: usize = 0;
        while i < inputs.len()
            invariant
                i <= inputs.len(),
                frames_agree(inputs@),
                concat_inputs(inputs@).len() <= usize::MAX,
                frame == combined_frame(inputs@.take(i as int)),
                bytes@ == concat_inputs(inputs@.take(i as int)),
            decreases inputs.len() - i,
        {
            proof {
                assert(inputs@.take(i as int + 1).drop_last() == inputs@.take(i as int));
                lemma_concat_prefix_len(inputs@, i as int + 1);
            }
            let input = &inputs[i].1;
            if input.frame != NULL_FRAME {
                frame = input.frame;
            }
            let mut serialized = slice_to_vec(input.input.as_slice());
            bytes.append(&mut serialized);
            i = i + 1;
        }
        proof {
            assert(inputs@.take(inputs@.len() as int) == inputs@);
        }
        Self { frame, bytes }
    }
}

impl InputBytes {
    /// The input of each player, cut from the bytes in equal parts in handle order, all
    /// belonging to this frame.
    pub fn to_player_inputs(&self, handles: &[PlayerHandle]) -> (r: Vec<(PlayerHandle, PlayerInput)>)
        requires
            handles@.len() > 0,
            self.bytes@.len() > 0,
            self.bytes@.len() % handles@.len() == 0,
        ensures
            r@.len() == handles@.len(),
            forall|i: int|
                0 <= i < r@.len() ==> {
                    let k = self.bytes@.len() / handles@.len();
                    &&& (#[trigger] r@[i]).0 == handles@[i]
                    &&& r@[i].1.frame == self.frame
                    &&& r@[i].1.input@ == self.bytes@.subrange(i * k, i * k + k)
                },
    {
        let n = handles.len();
        let len = self.bytes.len();
        let per = len / n;
        proof {
            vstd::arithmetic::div_mod::lemma_fundamental_div_mod(len as int, n as int);
            assert(per > 0) by (nonlinear_arith)
                requires
                    len == n * per + len % n,
                    len % n == 0,
                    len > 0,
            ;
        }
        let mut out: Vec<(PlayerHandle, PlayerInput)> = Vec::new();
        let mut start: usize = 0;
        let mut i: usize = 0;
        while i < n
            invariant
                n == handles@.len(),
                len == self.bytes@.len(),
                per == len / n,
                per > 0,
                n * per == len,
                i <= n,
                start == i * per,
                out@.len() == i,
                forall|j: int|
                    0 <= j < i ==> {
                        &&& (#[trigger] out@[j]).0 == handles@[j]
                        &&& out@[j].1.frame == self.frame
                        &&& out@[j].1.input@ == self.bytes@.subrange(j * per, j * per + per)
                    },
            decreases n - i,
        {
            proof {
                assert(start + per <= len) by (nonlinear_arith)
                    requires
                        i < n,
                        start == i * per,
                        n * per == len,
                ;
            }
            let chunk = slice_to_vec(slice_subrange(self.bytes.as_slice(), start, start + per));
            out.push((handles[i], PlayerInput::new_from_bytes(self.frame, chunk)));
            start = start + per;
            i = i + 1;
            proof {
                assert(start == i * per) by (nonlinear_arith)
                    requires
                        start == (i - 1) * per + per,
                ;
            }
        }
        out
    }
}

/// Cutting the serialized inputs of several players, all of one size, into parts of that
/// size gives back each player's serialized input in order.
pub proof fn law_split_recovers_inputs(inputs: Seq<(PlayerHandle, PlayerInput)>, k: nat)
    requires
        forall|i: int| 0 <= i < inputs.len() ==> (#[trigger] inputs[i]).1.input@.len() == k,
    ensures
        concat_inputs(inputs).len() == inputs.len() * k,
        forall|i: int|
            0 <= i < inputs.len() ==> concat_inputs(inputs).subrange(i * k, i * k + k) == (
            #[trigger] inputs[i]).1.input@,
    decreases inputs.len(),
{
    if inputs.len() > 0 {
        let prev = inputs.drop_last();
        assert forall|i: int| 0 <= i < prev.len() implies (#[trigger] prev[i]).1.input@.len() == k by {
            assert(prev[i] == inputs[i]);
        }
        law_split_recovers_inputs(prev, k);
        let c = concat_inputs(inputs);
        let cp = concat_inputs(prev);
        let n = inputs.len() as int;
        assert(cp.len() == (n - 1) * k);
        assert(c.len() == n * k) by (nonlinear_arith)
            requires
                c.len() == cp.len() + k,
                cp.len() == (n - 1) * k,
        ;
        assert forall|i: int| 0 <= i < inputs.len() implies c.subrange(i * k, i * k + k) == (
        #[trigger] inputs[i]).1.input@ by {
            if i < n - 1 {
                assert(prev[i] == inputs[i]);
                assert(i * k + k <= (n - 1) * k) by (nonlinear_arith)
                    requires
                        i < n - 1,
                ;
                assert(c.subrange(i * k, i * k + k) =~= cp.subrange(i * k, i * k + k));
            } else {
                assert(i * k == (n - 1) * k);
                assert(c.subrange(i * k, i * k + k) =~= inputs.last().1.input@);
            }
        }
    }
}

/// When every input that belongs to a frame belongs to the same one, that is the frame of the
/// whole list; when none does, the list belongs to no frame.
pub proof fn law_combined_frame(inputs: Seq<(PlayerHandle, PlayerInput)>, f: Frame)
    requires
        forall|i: int| 0 <= i < inputs.len() ==> (#[trigger] inputs[i]).1.frame == f
            || inputs[i].1.frame == NULL_FRAME,
    ensures
        combined_frame(inputs) == f || combined_frame(inputs) == NULL_FRAME,
        (exists|i: int| 0 <= i < inputs.len() && (#[trigger] inputs[i]).1.frame == f) ==> combined_frame(inputs) == f,
    decreases inputs.len(),
{
    if inputs.len() > 0 {
        let prev = inputs.drop_last();
        assert forall|i: int| 0 <= i < prev.len() implies (#[trigger] prev[i]).1.frame == f
            || prev[i].1.frame == NULL_FRAME by {
            assert(prev[i] == inputs[i]);
        }
        law_combined_frame(prev, f);
        if exists|i: int| 0 <= i < inputs.len() && (#[trigger] inputs[i]).1.frame == f {
            let i = choose|i: int| 0 <= i < inputs.len() && (#[trigger] inputs[i]).1.frame == f;
            if i < inputs.len() - 1 {
                assert(prev[i] == inputs[i]);
            }
        }
    }
}

/// The serialized inputs of a prefix are no longer than those of the whole list.
proof fn lemma_concat_prefix_len(inputs: Seq<(PlayerHandle, PlayerInput)>, n: int)
    requires
        0 <= n <= inputs.len(),
    ensures
        concat_inputs(inputs.take(n)).len() <= concat_inputs(inputs).len(),
    decreases inputs.len(),
{
    if n < inputs.len() {
        assert(inputs.drop_last().take(n) == inputs.take(n));
        lemma_concat_prefix_len(inputs.drop_last(), n);
    } else {
        assert(inputs.take(n) == inputs);
    }
}


/// What an endpoint reports to its session.
#[derive(Debug, Clone)]
pub enum Event {
    /// The remote client has sent the input of a player. This event will not be forwarded to
    /// the user.
    Input { input: PlayerInput, player: PlayerHandle },
    /// The remote client has disconnected.
    Disconnected,
    /// Nothing has been received from the remote client for a while; it will be disconnected
    /// after `disconnect_timeout` more milliseconds.
    NetworkInterrupted { disconnect_timeout: u128 },
    /// Sent only after a `NetworkInterrupted` event, if communication has resumed.
    NetworkResumed,
}

/// The state of the connection to the remote client.
#[derive(Debug, Clone, Copy, PartialEq, Eq, Structural)]
pub enum ProtocolState {
    Running,
    Disconnected,
    Shutdown,
}

/// What an endpoint is given when it is created and keeps unchanged.
pub struct ProtocolConfig<A> {
    /// The handles of the players at the remote address.
    pub handles: Vec<PlayerHandle>,
    /// The remote address.
    pub peer_addr: A,
    /// The number that marks this endpoint's messages; never zero.
    pub magic: u16,
    /// The expected number of frames per second.
    pub fps: usize,
    /// Milliseconds without a received message until the peer is disconnected.
    pub disconnect_timeout: u64,
    /// Milliseconds without a received message until the session is told of an interruption.
    pub disconnect_notify_start: u64,
    /// The prediction window, in frames.
    pub max_prediction: usize,
    /// Whether checksums are compared, and how often.
    pub desync_detection: DesyncDetection,
    /// The wall clock, in milliseconds, when the endpoint was created.
    pub stats_start_time: u128,
}

/// The clock readings and flags that drive the endpoint's timers. Times are milliseconds of
/// the caller's monotonic clock.
#[derive(Debug, Clone, Copy, PartialEq, Eq, Structural)]
pub struct ProtocolTimers {
    pub state: ProtocolState,
    /// When a quality report was last sent.
    pub running_last_quality_report: u64,
    /// When input was last received, or pending input last sent again.
    pub running_last_input_recv: u64,
    /// The session has been told that the connection is interrupted.
    pub disconnect_notify_sent: bool,
    /// The session has been told that the peer disconnected.
    pub disconnect_event_sent: bool,
    /// When the endpoint was disconnected; it shuts down `UDP_SHUTDOWN_TIMER` later.
    pub shutdown_timer_start: u64,
    /// When a message was last queued.
    pub last_send_time: u64,
    /// When a message was last received.
    pub last_recv_time: u64,
}

/// The numbers behind the network statistics.
#[derive(Debug, Clone, Copy, PartialEq, Eq, Structural)]
pub struct ProtocolStats {
    /// How many frames this client is behind the remote one.
    pub local_frame_advantage: i32,
    /// How many frames the remote client says it is behind.
    pub remote_frame_advantage: i32,
    /// The number of messages queued (saturating).
    pub packets_sent: usize,
    /// The in-memory size of the messages queued (saturating).
    pub bytes_sent: usize,
    /// The last measured round trip time, in milliseconds.
    pub round_trip_time: u128,
}

/// One endpoint of a connection to a remote client: it queues the messages to send to it,
/// handles the messages received from it and reports events to the session.
pub struct UdpProtocol<A> {
    pub config: ProtocolConfig<A>,
    pub timers: ProtocolTimers,
    pub stats: ProtocolStats,
    /// Messages waiting to be sent to the peer.
    pub send_queue: Vec<Message>,
    /// Events waiting to be handed to the session.
    pub event_queue: Vec<Event>,
    /// What the peer last told of each playing player's connection.
    pub peer_connect_status: Vec<(PlayerHandle, ConnectionStatus)>,
    /// Inputs sent and not yet acknowledged, oldest first.
    pub pending_output: Vec<InputBytes>,
    /// The last acknowledged input; sent inputs are delta-encoded against it.
    pub last_acked_input: InputBytes,
    /// Received inputs in increasing frame order; received inputs are delta-decoded against
    /// them.
    pub recv_inputs: Vec<InputBytes>,
    /// Checksums the peer reported, by frame.
    pub pending_checksums: Vec<(Frame, u128)>,
}

/// The frames of a list of inputs increase strictly.
pub open spec fn frames_increasing(s: Seq<InputBytes>) -> bool {
    forall|i: int, j: int| 0 <= i < j < s.len() ==> s[i].frame < s[j].frame
}

/// No frame occurs twice among the checksums.
pub open spec fn checksum_frames_distinct(s: Seq<(Frame, u128)>) -> bool {
    forall|i: int, j: int| 0 <= i < j < s.len() ==> s[i].0 != s[j].0
}

/// The frame of the newest of inputs kept in increasing frame order, or [`NULL_FRAME`].
pub open spec fn newest_frame(s: Seq<InputBytes>) -> Frame {
    if s.len() == 0 {
        NULL_FRAME
    } else {
        s.last().frame
    }
}

/// The number of oldest pending inputs whose frame is at most `ack_frame`: those an
/// acknowledgement of `ack_frame` removes.
pub open spec fn acked_count(pending: Seq<InputBytes>, ack_frame: Frame) -> nat
    decreases pending.len(),
{
    if pending.len() == 0 {
        0
    } else if pending[0].frame <= ack_frame {
        1 + acked_count(pending.drop_first(), ack_frame)
    } else {
        0
    }
}

/// A message with this endpoint's magic number and the given body.
pub open spec fn message_of(magic: u16, body: MessageBody) -> Message {
    Message { header: MessageHeader { magic }, body }
}

/// `m` is an input message with the given magic number and contents.
pub open spec fn is_input_message(
    m: Message,
    magic: u16,
    connect_status: Seq<(PlayerHandle, ConnectionStatus)>,
    disconnect_requested: bool,
    start_frame: Frame,
    ack_frame: Frame,
    bytes: Seq<u8>,
) -> bool {
    &&& m.header.magic == magic
    &&& m.body matches MessageBody::Input(i) && i.peer_connect_status@ == connect_status
        && i.disconnect_requested == disconnect_requested && i.start_frame == start_frame
        && i.ack_frame == ack_frame && i.bytes@ == bytes
}

/// The frame advantage clamped into the range of an `i16`.
pub open spec fn clamp_i16(v: i32) -> i16 {
    if v < i16::MIN {
        i16::MIN
    } else if v > i16::MAX {
        i16::MAX
    } else {
        v as i16
    }
}

/// `a + b`, or the largest `usize` where that does not fit.
pub open spec fn sat_add(a: usize, b: int) -> usize {
    if a + b > usize::MAX {
        usize::MAX
    } else {
        (a + b) as usize
    }
}

impl<A: Address> UdpProtocol<A> {
    /// The endpoint's invariant: received inputs in increasing frame order, and checksums of
    /// distinct frames.
    pub open spec fn inv(&self) -> bool {
        &&& frames_increasing(self.recv_inputs@)
        &&& forall|t: int| 0 <= t < self.recv_inputs@.len() ==> #[trigger] self.recv_inputs@[t].frame >= NULL_FRAME
        &&& checksum_frames_distinct(self.pending_checksums@)
    }

    /// The frame of the last received input, or [`NULL_FRAME`].
    pub open spec fn spec_last_recv_frame(&self) -> Frame {
        newest_frame(self.recv_inputs@)
    }

    /// The state after a message with this body is queued at time `now`: everything but the
    /// send queue, the time of the last send and the counters is unchanged.
    pub open spec fn queued(&self, old: &Self, body: MessageBody, now: u64) -> bool {
        &&& self.queued_one(old, now)
        &&& self.send_queue@.last() == message_of(old.config.magic, body)
    }

    /// The state after one message is queued at time `now`: the send queue grows by one
    /// message, the time of the last send is `now`, the counters grow by one message and its
    /// size, and nothing else changes.
    pub open spec fn queued_one(&self, old: &Self, now: u64) -> bool {
        &&& self.send_queue@.len() == old.send_queue@.len() + 1
        &&& self.send_queue@.drop_last() == old.send_queue@
        &&& self.timers == (ProtocolTimers { last_send_time: now, ..old.timers })
        &&& self.stats.packets_sent == sat_add(old.stats.packets_sent, 1)
        &&& self.stats.bytes_sent == sat_add(
            old.stats.bytes_sent,
            vstd::layout::spec_size_of_val::<Message>(&self.send_queue@.last()) as int,
        )
        &&& self.stats.local_frame_advantage == old.stats.local_frame_advantage
        &&& self.stats.remote_frame_advantage == old.stats.remote_frame_advantage
        &&& self.stats.round_trip_time == old.stats.round_trip_time
        &&& self.unchanged_except_queue_and_clock(old)
    }

    /// Nothing observable has changed.
    pub open spec fn same_as(&self, old: &Self) -> bool {
        &&& self.send_queue@ == old.send_queue@
        &&& self.timers == old.timers
        &&& self.stats == old.stats
        &&& self.unchanged_except_queue_and_clock(old)
    }

    /// Configuration, events, peer status, inputs and checksums are those of `old`.
    pub open spec fn unchanged_except_queue_and_clock(&self, old: &Self) -> bool {
        &&& self.config == old.config
        &&& self.event_queue@ == old.event_queue@
        &&& self.peer_connect_status@ == old.peer_connect_status@
        &&& self.pending_output@ == old.pending_output@
        &&& self.last_acked_input == old.last_acked_input
        &&& self.recv_inputs@ == old.recv_inputs@
        &&& self.pending_checksums@ == old.pending_checksums@
    }
}

impl<A: Address> UdpProtocol<A> {
    /// A running endpoint for the remote client at `peer_addr`, whose players have the given
    /// `handles`. `playing_player_handles` are the players of the game (not spectators), whose
    /// connection status the peer reports; `local_player_handles` are those whose inputs this
    /// endpoint sends. Inputs take `input_size` bytes each. `now` is the monotonic clock and
    /// `wall_now` the wall clock, both in milliseconds.
    pub fn new(
        handles: Vec<PlayerHandle>,
        peer_addr: A,
        playing_player_handles: &[PlayerHandle],
        local_player_handles: &[PlayerHandle],
        max_prediction: usize,
        disconnect_timeout: u64,
        disconnect_notify_start: u64,
        fps: usize,
        desync_detection: DesyncDetection,
        input_size: usize,
        now: u64,
        wall_now: u128,
    ) -> (r: Self)
        requires
            input_size * handles@.len() <= usize::MAX,
            input_size * local_player_handles@.len() <= usize::MAX,
        ensures
            r.created(
                handles@,
                peer_addr,
                playing_player_handles@,
                local_player_handles@.len(),
                max_prediction,
                disconnect_timeout,
                disconnect_notify_start,
                fps,
                desync_detection,
                input_size,
                now,
                wall_now,
            ),
    {
        let magic = random_magic();
        let mut peer_connect_status: Vec<(PlayerHandle, ConnectionStatus)> = Vec::new();
        let mut i: usize = 0;
        while i < playing_player_handles.len()
            invariant
                i <= playing_player_handles@.len(),
                peer_connect_status@.len() == i,
                forall|k: int|
                    0 <= k < i ==> #[trigger] peer_connect_status@[k] == (playing_player_handles@[k], ConnectionStatus { disconnected: false, last_frame: NULL_FRAME }),
            decreases playing_player_handles@.len() - i,
        {
            peer_connect_status.push((playing_player_handles[i], ConnectionStatus::default()));
            i = i + 1;
        }
        // the zeroed input is the reference against which the very first received input is
        // decoded
        let mut recv_inputs: Vec<InputBytes> = Vec::new();
        recv_inputs.push(InputBytes::zeroed(input_size, handles.len()));
        let last_acked_input = InputBytes::zeroed(input_size, local_player_handles.len());
        Self {
            config: ProtocolConfig {
                handles,
                peer_addr,
                magic,
                fps,
                disconnect_timeout,
                disconnect_notify_start,
                max_prediction,
                desync_detection,
                stats_start_time: wall_now,
            },
            timers: ProtocolTimers {
                state: ProtocolState::Running,
                running_last_quality_report: now,
                running_last_input_recv: now,
                disconnect_notify_sent: false,
                disconnect_event_sent: false,
                shutdown_timer_start: now,
                last_send_time: now,
                last_recv_time: now,
            },
            stats: ProtocolStats {
                local_frame_advantage: 0,
                remote_frame_advantage: 0,
                packets_sent: 0,
                bytes_sent: 0,
                round_trip_time: 0,
            },
            send_queue: Vec::new(),
            event_queue: Vec::new(),
            peer_connect_status,
            pending_output: Vec::new(),
            last_acked_input,
            recv_inputs,
            pending_checksums: Vec::new(),
        }
    }

    /// The handles of the players at the remote address.
    pub fn handles(&self) -> (r: &Vec<PlayerHandle>)
        ensures
            r@ == self.config.handles@,
    {
        &self.config.handles
    }

    /// Whether the connection is running.
    pub fn is_running(&self) -> (r: bool)
        ensures
            r == (self.timers.state == ProtocolState::Running),
    {
        self.timers.state == ProtocolState::Running
    }

    /// The remote address.
    pub fn peer_addr(&self) -> (r: A)
        ensures
            r == self.config.peer_addr,
    {
        self.config.peer_addr
    }

    /// Disconnects: a running or disconnected endpoint is marked disconnected and shuts down
    /// `UDP_SHUTDOWN_TIMER` milliseconds after `now`; a shut down endpoint is unchanged.
    pub fn disconnect(&mut self, now: u64)
        ensures
            old(self).timers.state == ProtocolState::Shutdown ==> final(self).timers == old(self).timers,
            old(self).timers.state != ProtocolState::Shutdown ==> final(self).timers == (ProtocolTimers {
                state: ProtocolState::Disconnected,
                shutdown_timer_start: now,
                ..old(self).timers
            }),
            final(self).stats == old(self).stats,
            final(self).send_queue@ == old(self).send_queue@,
            final(self).unchanged_except_queue_and_clock(old(self)),
            lifecycle_step(old(self).timers, final(self).timers, Seq::<Event>::empty()),
    {
        proof {
            assert(count_disconnects(Seq::<Event>::empty()) == 0);
            assert(count_interruptions(Seq::<Event>::empty()) == 0);
            assert(count_resumes(Seq::<Event>::empty()) == 0);
        }
        if self.timers.state == ProtocolState::Shutdown {
            return;
        }
        self.timers.state = ProtocolState::Disconnected;
        self.timers.shutdown_timer_start = now;
    }

    /// Queues a message with this body, stamped with the endpoint's magic number.
    fn queue_message(&mut self, body: MessageBody, now: u64)
        ensures
            final(self).queued(old(self), body, now),
    {
        let msg = Message { header: MessageHeader { magic: self.config.magic }, body };
        self.stats.packets_sent = self.stats.packets_sent.saturating_add(1);
        self.timers.last_send_time = now;
        let size = core::mem::size_of_val(&msg);
        self.stats.bytes_sent = self.stats.bytes_sent.saturating_add(size);
        self.send_queue.push(msg);
        assert(self.send_queue@.drop_last() =~= old(self).send_queue@);
    }

    /// The frame of the last received input, or [`NULL_FRAME`].
    pub fn last_recv_frame(&self) -> (r: Frame)
        ensures
            r == self.spec_last_recv_frame(),
    {
        if self.recv_inputs.len() == 0 {
            NULL_FRAME
        } else {
            self.recv_inputs[self.recv_inputs.len() - 1].frame
        }
    }

    /// Queues an acknowledgement of the inputs received so far.
    pub fn send_input_ack(&mut self, now: u64)
        ensures
            final(self).queued(
                old(self),
                MessageBody::InputAck(InputAck { ack_frame: old(self).spec_last_recv_frame() }),
                now,
            ),
    {
        let body = InputAck { ack_frame: self.last_recv_frame() };
        self.queue_message(MessageBody::InputAck(body), now);
    }

    /// Queues a keep-alive message.
    pub fn send_keep_alive(&mut self, now: u64)
        ensures
            final(self).queued(old(self), MessageBody::KeepAlive, now),
    {
        self.queue_message(MessageBody::KeepAlive, now);
    }

    /// Queues a quality report with the local frame advantage (clamped into an `i16`) and
    /// the wall clock, and restarts the quality report timer.
    pub fn send_quality_report(&mut self, now: u64, wall_now: u128)
        ensures
            final(self).queued(
                &UdpProtocol { timers: ProtocolTimers { running_last_quality_report: now, ..old(self).timers }, ..*old(self) },
                MessageBody::QualityReport(QualityReport {
                    frame_advantage: clamp_i16(old(self).stats.local_frame_advantage),
                    ping: wall_now,
                }),
                now,
            ),
    {
        self.timers.running_last_quality_report = now;
        let adv = self.stats.local_frame_advantage;
        let frame_advantage: i16 = if adv < -32768 {
            -32768
        } else if adv > 32767 {
            32767
        } else {
            adv as i16
        };
        let body = QualityReport { frame_advantage, ping: wall_now };
        self.queue_message(MessageBody::QualityReport(body), now);
    }

    /// Queues the checksum of a frame.
    pub fn send_checksum_report(&mut self, frame_to_send: Frame, checksum: u128, now: u64)
        ensures
            final(self).queued(
                old(self),
                MessageBody::ChecksumReport(ChecksumReport { frame: frame_to_send, checksum }),
                now,
            ),
    {
        let body = ChecksumReport { frame: frame_to_send, checksum };
        self.queue_message(MessageBody::ChecksumReport(body), now);
    }
}


/// The checksums of frames from `oldest` on, in their order.
pub open spec fn keep_checksums_from(s: Seq<(Frame, u128)>, oldest: Frame) -> Seq<(Frame, u128)>
    decreases s.len(),
{
    if s.len() == 0 {
        s
    } else if s.last().0 >= oldest {
        keep_checksums_from(s.drop_last(), oldest).push(s.last())
    } else {
        keep_checksums_from(s.drop_last(), oldest)
    }
}

/// The checksums with `checksum` recorded for `frame`: it replaces the one of that frame, or
/// is added at the end.
pub open spec fn record_checksum(s: Seq<(Frame, u128)>, frame: Frame, checksum: u128) -> Seq<(Frame, u128)> {
    if exists|i: int| 0 <= i < s.len() && s[i].0 == frame {
        s.update(choose|i: int| 0 <= i < s.len() && s[i].0 == frame, (frame, checksum))
    } else {
        s.push((frame, checksum))
    }
}

/// The oldest frame whose checksum is kept when the history is full and a checksum of
/// `frame` arrives, for checksums every `interval` frames (computed in `i32`, wrapping).
pub open spec fn oldest_checksum_frame(frame: Frame, interval: u32) -> Frame {
    vstd::wrapping::i32_specs::wrapping_sub(frame, vstd::wrapping::i32_specs::wrapping_mul(31i32, interval as i32))
}

/// The checksum interval of a desync detection mode; 1 when detection is off.
pub open spec fn checksum_interval(d: DesyncDetection) -> u32 {
    match d {
        DesyncDetection::On { interval } => interval,
        DesyncDetection::Off => 1,
    }
}

/// The checksum history after a report of `checksum` for `frame`: when the history is full,
/// checksums older than `MAX_CHECKSUM_HISTORY_SIZE - 1` intervals before `frame` are dropped
/// first.
pub open spec fn spec_checksum_history(s: Seq<(Frame, u128)>, d: DesyncDetection, frame: Frame, checksum: u128) -> Seq<(Frame, u128)> {
    let kept = if s.len() >= MAX_CHECKSUM_HISTORY_SIZE {
        keep_checksums_from(s, oldest_checksum_frame(frame, checksum_interval(d)))
    } else {
        s
    };
    record_checksum(kept, frame, checksum)
}

/// Every checksum that is kept was there before.
proof fn lemma_keep_checksums_subset(s: Seq<(Frame, u128)>, oldest: Frame)
    ensures
        forall|x: (Frame, u128)| keep_checksums_from(s, oldest).contains(x) ==> s.contains(x),
        checksum_frames_distinct(s) ==> checksum_frames_distinct(keep_checksums_from(s, oldest)),
    decreases s.len(),
{
    if s.len() > 0 {
        let p = s.drop_last();
        lemma_keep_checksums_subset(p, oldest);
        let kp = keep_checksums_from(p, oldest);
        assert forall|x: (Frame, u128)| keep_checksums_from(s, oldest).contains(x) implies s.contains(x) by {
            if kp.contains(x) {
                assert(p.contains(x));
                let j = choose|j: int| 0 <= j < p.len() && p[j] == x;
                assert(p[j] == s[j]);
                assert(s[j] == x);
            } else {
                assert(x == s.last());
                assert(s[s.len() - 1] == x);
            }
        }
        if checksum_frames_distinct(s) {
            assert(checksum_frames_distinct(p)) by {
                assert forall|i: int, j: int| 0 <= i < j < p.len() implies p[i].0 != p[j].0 by {
                    assert(p[i] == s[i] && p[j] == s[j]);
                }
            }
            if s.last().0 >= oldest {
                let k = keep_checksums_from(s, oldest);
                assert forall|i: int, j: int| 0 <= i < j < k.len() implies k[i].0 != k[j].0 by {
                    if j == k.len() - 1 {
                        assert(kp.contains(k[i]));
                        assert(p.contains(k[i]));
                        let m = choose|m: int| 0 <= m < p.len() && p[m] == k[i];
                        assert(s[m] == p[m]);
                        assert(s[m].0 != s[s.len() - 1].0);
                    } else {
                        assert(k[i] == kp[i] && k[j] == kp[j]);
                    }
                }
            }
        }
    }
}

impl<A: Address> UdpProtocol<A> {
    /// Whether the endpoint's frame advantage can be computed from a local frame in `i32`:
    /// the half round trip time fits in an `i32` and no step of the estimate overflows.
    pub open spec fn advantage_fits(&self, local_frame: Frame) -> bool {
        let ping = self.stats.round_trip_time / 2;
        let last = self.spec_last_recv_frame();
        local_frame != NULL_FRAME && last != NULL_FRAME ==> {
            &&& ping <= i32::MAX
            &&& self.config.fps <= i32::MAX
            &&& ping * self.config.fps <= i32::MAX
            &&& last + (ping * self.config.fps) / 1000 <= i32::MAX
            &&& i32::MIN <= last + (ping * self.config.fps) / 1000 - local_frame <= i32::MAX
        }
    }

    /// Estimates how many frames this client is behind the remote one: the last frame received
    /// from it plus the frames that pass in half a round trip, minus `local_frame`. Nothing
    /// changes where either frame is [`NULL_FRAME`].
    pub fn update_local_frame_advantage(&mut self, local_frame: Frame)
        requires
            old(self).advantage_fits(local_frame),
        ensures
            ({
                let last = old(self).spec_last_recv_frame();
                let ping = old(self).stats.round_trip_time / 2;
                final(self).stats.local_frame_advantage == if local_frame == NULL_FRAME || last == NULL_FRAME {
                    old(self).stats.local_frame_advantage as int
                } else {
                    last + (ping * old(self).config.fps) / 1000 - local_frame
                }
            }),
            final(self).stats == (ProtocolStats { local_frame_advantage: final(self).stats.local_frame_advantage, ..old(self).stats }),
            final(self).timers == old(self).timers,
            final(self).send_queue@ == old(self).send_queue@,
            final(self).unchanged_except_queue_and_clock(old(self)),
    {
        let last = self.last_recv_frame();
        if local_frame == NULL_FRAME || last == NULL_FRAME {
            return;
        }
        let ping = (self.stats.round_trip_time / 2) as i32;
        let fps = self.config.fps as i32;
        let remote_frame = last + (ping * fps) / 1000;
        self.stats.local_frame_advantage = remote_frame - local_frame;
    }

    /// The statistics of the connection at wall clock `wall_now`: unavailable unless the
    /// connection is running and at least a second has passed since the endpoint was created.
    pub fn network_stats(&self, wall_now: u128) -> (r: Result<NetworkStats, NetworkStatsError>)
        requires
            self.timers.state == ProtocolState::Running ==> {
                &&& wall_now >= self.config.stats_start_time
                &&& self.stats.bytes_sent + self.stats.packets_sent * UDP_HEADER_SIZE <= usize::MAX
                &&& (wall_now - self.config.stats_start_time) / 1000 <= usize::MAX
            },
        ensures
            ({
                let seconds = (wall_now - self.config.stats_start_time) / 1000;
                let total = self.stats.bytes_sent + self.stats.packets_sent * UDP_HEADER_SIZE;
                if self.timers.state != ProtocolState::Running || seconds == 0 {
                    r == Err::<NetworkStats, NetworkStatsError>(NetworkStatsError::Unavailable)
                } else {
                    r == Ok::<NetworkStats, NetworkStatsError>(NetworkStats {
                        ping: self.stats.round_trip_time,
                        send_queue_len: self.pending_output@.len() as usize,
                        kbps_sent: ((total / seconds) / 1024) as usize,
                        local_frames_behind: self.stats.local_frame_advantage,
                        remote_frames_behind: self.stats.remote_frame_advantage,
                    })
                }
            }),
    {
        if self.timers.state != ProtocolState::Running {
            return Err(NetworkStatsError::Unavailable);
        }
        let seconds = (wall_now - self.config.stats_start_time) / 1000;
        if seconds == 0 {
            return Err(NetworkStatsError::Unavailable);
        }
        let total_bytes_sent = self.stats.bytes_sent + self.stats.packets_sent * UDP_HEADER_SIZE;
        let bps = total_bytes_sent / (seconds as usize);
        Ok(NetworkStats {
            ping: self.stats.round_trip_time,
            send_queue_len: self.pending_output.len(),
            kbps_sent: bps / 1024,
            local_frames_behind: self.stats.local_frame_advantage,
            remote_frames_behind: self.stats.remote_frame_advantage,
        })
    }

    /// Whether messages from `addr` are this endpoint's to handle: whether it is the remote
    /// address (by the address type's `==`).
    pub fn is_handling_message(&self, addr: &A) -> (r: bool)
        ensures
            A::obeys_eq_spec() ==> r == self.config.peer_addr.eq_spec(addr),
    {
        self.config.peer_addr == *addr
    }

    /// What the peer last told of the connection of the player with this handle.
    pub fn peer_connect_status(&self, handle: PlayerHandle) -> (r: ConnectionStatus)
        requires
            exists|i: int| 0 <= i < self.peer_connect_status@.len() && self.peer_connect_status@[i].0 == handle,
        ensures
            exists|i: int|
                0 <= i < self.peer_connect_status@.len() && self.peer_connect_status@[i] == (handle, r)
                    && forall|j: int| 0 <= j < i ==> self.peer_connect_status@[j].0 != handle,
    {
        let mut i: usize = 0;
        while i < self.peer_connect_status.len()
            invariant
                i <= self.peer_connect_status@.len(),
                forall|j: int| 0 <= j < i ==> self.peer_connect_status@[j].0 != handle,
                exists|k: int| 0 <= k < self.peer_connect_status@.len() && self.peer_connect_status@[k].0 == handle,
            decreases self.peer_connect_status@.len() - i,
        {
            if self.peer_connect_status[i].0 == handle {
                return self.peer_connect_status[i].1;
            }
            i = i + 1;
        }
        proof {
            let k = choose|k: int| 0 <= k < self.peer_connect_status@.len() && self.peer_connect_status@[k].0 == handle;
            assert(self.peer_connect_status@[k].0 != handle);
        }
        self.peer_connect_status[0].1
    }

    /// Hands out the queued messages, to be sent to the peer, and empties the queue; a shut
    /// down endpoint drops them instead.
    pub fn send_all_messages(&mut self) -> (r: Vec<Message>)
        ensures
            r@ == if old(self).timers.state == ProtocolState::Shutdown {
                Seq::<Message>::empty()
            } else {
                old(self).send_queue@
            },
            final(self).send_queue@.len() == 0,
            final(self).timers == old(self).timers,
            final(self).stats == old(self).stats,
            final(self).unchanged_except_queue_and_clock(old(self)),
    {
        let mut out: Vec<Message> = Vec::new();
        std::mem::swap(&mut out, &mut self.send_queue);
        if self.timers.state == ProtocolState::Shutdown {
            return Vec::new();
        }
        out
    }

    /// Drops the pending inputs acknowledged by `ack_frame`, oldest first; the last of them
    /// becomes the last acknowledged input.
    fn pop_pending_output(&mut self, ack_frame: Frame)
        ensures
            ({
                let k = acked_count(old(self).pending_output@, ack_frame);
                &&& final(self).pending_output@ == old(self).pending_output@.skip(k as int)
                &&& final(self).last_acked_input == if k > 0 {
                    old(self).pending_output@[k - 1]
                } else {
                    old(self).last_acked_input
                }
            }),
            final(self).config == old(self).config,
            final(self).timers == old(self).timers,
            final(self).stats == old(self).stats,
            final(self).send_queue@ == old(self).send_queue@,
            final(self).event_queue@ == old(self).event_queue@,
            final(self).peer_connect_status@ == old(self).peer_connect_status@,
            final(self).recv_inputs@ == old(self).recv_inputs@,
            final(self).pending_checksums@ == old(self).pending_checksums@,
    {
        let ghost orig = self.pending_output@;
        let ghost j: int = 0;
        while self.pending_output.len() > 0
            invariant_except_break
                0 <= j <= orig.len(),
                self.pending_output@ == orig.skip(j),
                acked_count(orig, ack_frame) == j + acked_count(orig.skip(j), ack_frame),
                self.last_acked_input == if j > 0 { orig[j - 1] } else { old(self).last_acked_input },
                self.config == old(self).config,
                self.timers == old(self).timers,
                self.stats == old(self).stats,
                self.send_queue@ == old(self).send_queue@,
                self.event_queue@ == old(self).event_queue@,
                self.peer_connect_status@ == old(self).peer_connect_status@,
                self.recv_inputs@ == old(self).recv_inputs@,
                self.pending_checksums@ == old(self).pending_checksums@,
            ensures
                0 <= j <= orig.len(),
                self.pending_output@ == orig.skip(j),
                acked_count(orig, ack_frame) == j,
                self.last_acked_input == if j > 0 { orig[j - 1] } else { old(self).last_acked_input },
                self.config == old(self).config,
                self.timers == old(self).timers,
                self.stats == old(self).stats,
                self.send_queue@ == old(self).send_queue@,
                self.event_queue@ == old(self).event_queue@,
                self.peer_connect_status@ == old(self).peer_connect_status@,
                self.recv_inputs@ == old(self).recv_inputs@,
                self.pending_checksums@ == old(self).pending_checksums@,
            decreases self.pending_output@.len(),
        {
            if self.pending_output[0].frame <= ack_frame {
                proof {
                    assert(orig.skip(j).drop_first() == orig.skip(j + 1));
                    assert(orig.skip(j)[0] == orig[j]);
                }
                self.last_acked_input = self.pending_output.remove(0);
                proof {
                    j = j + 1;
                }
            } else {
                break;
            }
        }
        proof {
            if self.pending_output@.len() == 0 {
                assert(acked_count(orig.skip(j), ack_frame) == 0);
            }
        }
    }

    /// Upon receiving an `InputAck`, discards the oldest buffered inputs up to the acknowledged
    /// one.
    pub fn on_input_ack(&mut self, body: InputAck)
        ensures
            ({
                let k = acked_count(old(self).pending_output@, body.ack_frame);
                &&& final(self).pending_output@ == old(self).pending_output@.skip(k as int)
                &&& final(self).last_acked_input == if k > 0 {
                    old(self).pending_output@[k - 1]
                } else {
                    old(self).last_acked_input
                }
            }),
            final(self).config == old(self).config,
            final(self).timers == old(self).timers,
            final(self).stats == old(self).stats,
            final(self).send_queue@ == old(self).send_queue@,
            final(self).event_queue@ == old(self).event_queue@,
            final(self).peer_connect_status@ == old(self).peer_connect_status@,
            final(self).recv_inputs@ == old(self).recv_inputs@,
            final(self).pending_checksums@ == old(self).pending_checksums@,
    {
        self.pop_pending_output(body.ack_frame);
    }

    /// Upon receiving a `QualityReport`, records the remote frame advantage and replies with
    /// the clock value it carried.
    pub fn on_quality_report(&mut self, body: &QualityReport, now: u64)
        ensures
            final(self).queued(
                &UdpProtocol { stats: ProtocolStats { remote_frame_advantage: body.frame_advantage as i32, ..old(self).stats }, ..*old(self) },
                MessageBody::QualityReply(QualityReply { pong: body.ping }),
                now,
            ),
    {
        self.stats.remote_frame_advantage = body.frame_advantage as i32;
        let reply_body = QualityReply { pong: body.ping };
        self.queue_message(MessageBody::QualityReply(reply_body), now);
    }

    /// Upon receiving a `QualityReply`, the round trip time is the time since the clock value
    /// it carries.
    pub fn on_quality_reply(&mut self, body: &QualityReply, wall_now: u128)
        requires
            wall_now >= body.pong,
        ensures
            final(self).stats == (ProtocolStats { round_trip_time: (wall_now - body.pong) as u128, ..old(self).stats }),
            final(self).timers == old(self).timers,
            final(self).send_queue@ == old(self).send_queue@,
            final(self).unchanged_except_queue_and_clock(old(self)),
    {
        self.stats.round_trip_time = wall_now - body.pong;
    }

    /// Upon receiving a `ChecksumReport`, adds it to the checksum history.
    pub fn on_checksum_report(&mut self, body: &ChecksumReport)
        requires
            old(self).inv(),
        ensures
            final(self).inv(),
            final(self).pending_checksums@ == spec_checksum_history(
                old(self).pending_checksums@,
                old(self).config.desync_detection,
                body.frame,
                body.checksum,
            ),
            final(self).config == old(self).config,
            final(self).timers == old(self).timers,
            final(self).stats == old(self).stats,
            final(self).send_queue@ == old(self).send_queue@,
            final(self).event_queue@ == old(self).event_queue@,
            final(self).peer_connect_status@ == old(self).peer_connect_status@,
            final(self).pending_output@ == old(self).pending_output@,
            final(self).last_acked_input == old(self).last_acked_input,
            final(self).recv_inputs@ == old(self).recv_inputs@,
    {
        let interval: u32 = match self.config.desync_detection {
            DesyncDetection::On { interval } => interval,
            DesyncDetection::Off => 1,
        };
        if self.pending_checksums.len() >= MAX_CHECKSUM_HISTORY_SIZE {
            let oldest_frame_to_keep = body.frame.wrapping_sub(31i32.wrapping_mul(interval as i32));
            let kept = keep_checksums(&self.pending_checksums, oldest_frame_to_keep);
            self.pending_checksums = kept;
        }
        record_checksum_in(&mut self.pending_checksums, body.frame, body.checksum);
    }
}

/// The checksums of frames from `oldest` on.
fn keep_checksums(s: &Vec<(Frame, u128)>, oldest: Frame) -> (r: Vec<(Frame, u128)>)
    requires
        checksum_frames_distinct(s@),
    ensures
        r@ == keep_checksums_from(s@, oldest),
        checksum_frames_distinct(r@),
{
    let mut out: Vec<(Frame, u128)> = Vec::new();
    let mut i: usize = 0;
    while i < s.len()
        invariant
            i <= s@.len(),
            out@ == keep_checksums_from(s@.take(i as int), oldest),
        decreases s@.len() - i,
    {
        proof {
            assert(s@.take(i as int + 1).drop_last() == s@.take(i as int));
        }
        if s[i].0 >= oldest {
            out.push(s[i]);
        }
        i = i + 1;
    }
    proof {
        assert(s@.take(s@.len() as int) == s@);
        lemma_keep_checksums_subset(s@, oldest);
    }
    out
}

/// Records `checksum` for `frame`, replacing the checksum of that frame if there is one.
fn record_checksum_in(s: &mut Vec<(Frame, u128)>, frame: Frame, checksum: u128)
    requires
        checksum_frames_distinct(old(s)@),
    ensures
        final(s)@ == record_checksum(old(s)@, frame, checksum),
        checksum_frames_distinct(final(s)@),
{
    let mut i: usize = 0;
    while i < s.len()
        invariant
            i <= s@.len(),
            s@ == old(s)@,
            checksum_frames_distinct(s@),
            forall|j: int| 0 <= j < i ==> s@[j].0 != frame,
        decreases s@.len() - i,
    {
        if s[i].0 == frame {
            proof {
                let c = choose|k: int| 0 <= k < s@.len() && s@[k].0 == frame;
                assert(c == i as int);
            }
            s.set(i, (frame, checksum));
            proof {
                assert forall|a: int, b: int| 0 <= a < b < s@.len() implies s@[a].0 != s@[b].0 by {
                    assert(old(s)@[a].0 != old(s)@[b].0);
                }
            }
            return;
        }
        i = i + 1;
    }
    s.push((frame, checksum));
    proof {
        assert forall|a: int, b: int| 0 <= a < b < s@.len() implies s@[a].0 != s@[b].0 by {
            if b < s@.len() - 1 {
                assert(old(s)@[a].0 != old(s)@[b].0);
            }
        }
    }
}


impl<A: Address> UdpProtocol<A> {
    /// The last acknowledged input directly precedes the oldest pending one (or nothing has
    /// been acknowledged yet), as delta encoding against it requires.
    pub open spec fn pending_follows_ack(&self) -> bool {
        self.pending_output@.len() > 0 ==> (self.last_acked_input.frame == NULL_FRAME
            || self.last_acked_input.frame + 1 == self.pending_output@[0].frame)
    }

    /// The state after the pending inputs were sent at time `now` as `encoded`, with the
    /// connection status `connect_status`: one input message from the oldest pending frame,
    /// acknowledging the last received frame and asking to disconnect where the endpoint is
    /// disconnected; nothing where no input is pending.
    pub open spec fn sent_pending(
        &self,
        old: &Self,
        connect_status: Seq<(PlayerHandle, ConnectionStatus)>,
        encoded: Seq<u8>,
        now: u64,
    ) -> bool {
        if old.pending_output@.len() == 0 {
            self.same_as(old)
        } else {
            &&& self.queued_one(old, now)
            &&& is_input_message(
                self.send_queue@.last(),
                old.config.magic,
                connect_status,
                old.timers.state == ProtocolState::Disconnected,
                old.pending_output@[0].frame,
                old.spec_last_recv_frame(),
                encoded,
            )
        }
    }

    /// Sends the pending inputs: `encoded` is their delta encoding against the last
    /// acknowledged input.
    fn send_pending_output(&mut self, connect_status: &[(PlayerHandle, ConnectionStatus)], encoded: Vec<u8>, now: u64)
        requires
            old(self).pending_follows_ack(),
        ensures
            final(self).sent_pending(old(self), connect_status@, encoded@, now),
    {
        if self.pending_output.len() > 0 {
            let start_frame = self.pending_output[0].frame;
            let body = Input {
                peer_connect_status: slice_to_vec(connect_status),
                disconnect_requested: self.timers.state == ProtocolState::Disconnected,
                start_frame,
                ack_frame: self.last_recv_frame(),
                bytes: encoded,
            };
            self.queue_message(MessageBody::Input(body), now);
        }
    }

    /// Queues the inputs of the local players for one frame, given in increasing handle
    /// order, and sends all pending inputs, `encoded` being their delta encoding (this input
    /// included). A peer that leaves more than `PENDING_OUTPUT_SIZE` inputs unacknowledged is
    /// reported disconnected. Nothing happens unless the connection is running.
    pub fn send_input(
        &mut self,
        inputs: &[(PlayerHandle, PlayerInput)],
        connect_status: &[(PlayerHandle, ConnectionStatus)],
        encoded: Vec<u8>,
        now: u64,
    )
        requires
            old(self).timers.state == ProtocolState::Running ==> {
                &&& increasing_handles(handles_of(inputs@))
                &&& frames_agree(inputs@)
                &&& concat_inputs(inputs@).len() <= usize::MAX
                &&& old(self).last_acked_input.frame == NULL_FRAME || old(self).last_acked_input.frame + 1 == (
                    if old(self).pending_output@.len() > 0 {
                        old(self).pending_output@[0].frame
                    } else {
                        combined_frame(inputs@)
                    })
            },
        ensures
            old(self).timers.state != ProtocolState::Running ==> final(self).same_as(old(self)),
            old(self).timers.state == ProtocolState::Running ==> {
                let n = old(self).pending_output@.len();
                &&& final(self).pending_output@.len() == n + 1
                &&& final(self).pending_output@.drop_last() == old(self).pending_output@
                &&& final(self).pending_output@.last().frame == combined_frame(inputs@)
                &&& final(self).pending_output@.last().bytes@ == concat_inputs(inputs@)
                &&& final(self).event_queue@ == if n + 1 > PENDING_OUTPUT_SIZE {
                    old(self).event_queue@.push(Event::Disconnected)
                } else {
                    old(self).event_queue@
                }
                &&& final(self).send_queue@.len() == old(self).send_queue@.len() + 1
                &&& final(self).send_queue@.drop_last() == old(self).send_queue@
                &&& is_input_message(
                    final(self).send_queue@.last(),
                    old(self).config.magic,
                    connect_status@,
                    false,
                    final(self).pending_output@[0].frame,
                    old(self).spec_last_recv_frame(),
                    encoded@,
                )
                &&& final(self).timers == (ProtocolTimers { last_send_time: now, ..old(self).timers })
                &&& final(self).stats.packets_sent == sat_add(old(self).stats.packets_sent, 1)
                &&& final(self).stats.local_frame_advantage == old(self).stats.local_frame_advantage
                &&& final(self).stats.remote_frame_advantage == old(self).stats.remote_frame_advantage
                &&& final(self).stats.round_trip_time == old(self).stats.round_trip_time
                &&& final(self).config == old(self).config
                &&& final(self).peer_connect_status@ == old(self).peer_connect_status@
                &&& final(self).last_acked_input == old(self).last_acked_input
                &&& final(self).recv_inputs@ == old(self).recv_inputs@
                &&& final(self).pending_checksums@ == old(self).pending_checksums@
            },
    {
        if self.timers.state != ProtocolState::Running {
            return;
        }
        let endpoint_data = InputBytes::from_inputs(inputs);
        self.pending_output.push(endpoint_data);
        proof {
            assert(self.pending_output@.drop_last() =~= old(self).pending_output@);
        }
        // a peer that does not acknowledge is dropped: a remote player stops at the
        // prediction window long before this, a spectator does not
        if self.pending_output.len() > PENDING_OUTPUT_SIZE {
            self.event_queue.push(Event::Disconnected);
        }
        self.send_pending_output(connect_status, encoded, now);
    }

    /// Drives the timers at time `now` (wall clock `wall_now`) and hands out the events for
    /// the session. While running: pending inputs are sent again (as `encoded`, with
    /// `connect_status`) when no input arrived for `RUNNING_RETRY_INTERVAL`, a quality report
    /// is sent every `QUALITY_REPORT_INTERVAL`, a keep-alive when nothing was sent for
    /// `KEEP_ALIVE_INTERVAL`; the session is told once of an interruption after
    /// `disconnect_notify_start` without a received message, and once of a disconnect after
    /// `disconnect_timeout`. A disconnected endpoint shuts down `UDP_SHUTDOWN_TIMER` after the
    /// disconnect.
    #[verifier::spinoff_prover]
    #[verifier::rlimit(40)]
    pub fn poll(
        &mut self,
        now: u64,
        wall_now: u128,
        connect_status: &[(PlayerHandle, ConnectionStatus)],
        encoded: Vec<u8>,
    ) -> (r: Vec<Event>)
        requires
            old(self).timers.state == ProtocolState::Running && old(self).timers.running_last_input_recv
                + RUNNING_RETRY_INTERVAL < now ==> old(self).pending_follows_ack(),
            old(self).timers.state == ProtocolState::Running && !old(self).timers.disconnect_notify_sent
                && old(self).timers.last_recv_time + old(self).config.disconnect_notify_start < now
                ==> old(self).config.disconnect_notify_start <= old(self).config.disconnect_timeout,
        ensures
            final(self).event_queue@.len() == 0,
            final(self).config == old(self).config,
            final(self).peer_connect_status@ == old(self).peer_connect_status@,
            final(self).pending_output@ == old(self).pending_output@,
            final(self).last_acked_input == old(self).last_acked_input,
            final(self).recv_inputs@ == old(self).recv_inputs@,
            final(self).pending_checksums@ == old(self).pending_checksums@,
            final(self).stats.local_frame_advantage == old(self).stats.local_frame_advantage,
            final(self).stats.remote_frame_advantage == old(self).stats.remote_frame_advantage,
            final(self).stats.round_trip_time == old(self).stats.round_trip_time,
            old(self).timers.state == ProtocolState::Running ==> final(self).polled_running(
                old(self),
                now,
                wall_now,
                connect_status@,
                encoded@,
                r@,
            ),
            old(self).timers.state == ProtocolState::Disconnected ==> {
                &&& final(self).timers == if old(self).timers.shutdown_timer_start + UDP_SHUTDOWN_TIMER < now {
                    ProtocolTimers { state: ProtocolState::Shutdown, ..old(self).timers }
                } else {
                    old(self).timers
                }
                &&& final(self).send_queue@ == old(self).send_queue@
                &&& final(self).stats == old(self).stats
                &&& r@ == old(self).event_queue@
            },
            old(self).timers.state == ProtocolState::Shutdown ==> {
                &&& final(self).timers == old(self).timers
                &&& final(self).send_queue@ == old(self).send_queue@
                &&& final(self).stats == old(self).stats
                &&& r@ == old(self).event_queue@
            },
            r@.len() >= old(self).event_queue@.len(),
            r@.subrange(0, old(self).event_queue@.len() as int) == old(self).event_queue@,
            lifecycle_step(old(self).timers, final(self).timers, r@.subrange(old(self).event_queue@.len() as int, r@.len() as int)),
    {
        let ghost enc = encoded@;
        match self.timers.state {
            ProtocolState::Running => {
                let ghost s0 = self.send_queue@;
                // resend pending inputs, if some time has passed without sending or receiving
                // inputs
                let retry = elapsed(self.timers.running_last_input_recv, RUNNING_RETRY_INTERVAL, now);
                if retry {
                    self.send_pending_output(connect_status, encoded, now);
                    self.timers.running_last_input_recv = now;
                }
                let ghost s1 = self.send_queue@;
                // periodically send a quality report
                if elapsed(self.timers.running_last_quality_report, QUALITY_REPORT_INTERVAL, now) {
                    self.send_quality_report(now, wall_now);
                }
                let ghost s2 = self.send_queue@;
                let ghost p2 = self.stats.packets_sent;
                // send keep alive packet if we didn't send a packet for some time
                if elapsed(self.timers.last_send_time, KEEP_ALIVE_INTERVAL, now) {
                    self.send_keep_alive(now);
                    proof {
                        assert(self.send_queue@[s2.len() as int] == self.send_queue@.last());
                    }
                }
                let ghost e0 = self.event_queue@;
                // tell of an interruption if nothing was received for some time
                if !self.timers.disconnect_notify_sent && elapsed(
                    self.timers.last_recv_time,
                    self.config.disconnect_notify_start,
                    now,
                ) {
                    let remaining = self.config.disconnect_timeout - self.config.disconnect_notify_start;
                    self.event_queue.push(Event::NetworkInterrupted { disconnect_timeout: remaining as u128 });
                    self.timers.disconnect_notify_sent = true;
                }
                let ghost e1 = self.event_queue@;
                // past the disconnect timeout, tell of a disconnect
                if !self.timers.disconnect_event_sent && elapsed(
                    self.timers.last_recv_time,
                    self.config.disconnect_timeout,
                    now,
                ) {
                    self.event_queue.push(Event::Disconnected);
                    self.timers.disconnect_event_sent = true;
                }
                proof {
                    assert(self.send_queue@.subrange(0, s0.len() as int) =~= s0);
                    assert(self.send_queue@.subrange(0, s1.len() as int) =~= s1);
                    assert(self.send_queue@.subrange(0, s2.len() as int) =~= s2);
                    let t = old(self).timers;
                    let notify = !t.disconnect_notify_sent && t.last_recv_time + old(self).config.disconnect_notify_start < now;
                    let disconnect = !t.disconnect_event_sent && t.last_recv_time + old(self).config.disconnect_timeout < now;
                    assert(e1 =~= e0 + (if notify {
                        seq![Event::NetworkInterrupted {
                            disconnect_timeout: (old(self).config.disconnect_timeout - old(self).config.disconnect_notify_start) as u128,
                        }]
                    } else {
                        Seq::<Event>::empty()
                    }));
                    assert(self.event_queue@ =~= e1 + (if disconnect {
                        seq![Event::Disconnected]
                    } else {
                        Seq::<Event>::empty()
                    }));
                    let sent = self.send_queue@.subrange(s0.len() as int, self.send_queue@.len() as int);
                    if s2.len() == s0.len() && self.send_queue@.len() > s2.len() {
                        assert(sent[0] == self.send_queue@[s2.len() as int]);
                    }
                }
            },
            ProtocolState::Disconnected => {
                if elapsed(self.timers.shutdown_timer_start, UDP_SHUTDOWN_TIMER, now) {
                    self.timers.state = ProtocolState::Shutdown;
                }
            },
            ProtocolState::Shutdown => {},
        }
        let mut events: Vec<Event> = Vec::new();
        std::mem::swap(&mut events, &mut self.event_queue);
        proof {
            if old(self).timers.state == ProtocolState::Running {
                assert(self.polled_running(old(self), now, wall_now, connect_status@, enc, events@));
                lemma_poll_lifecycle(*old(self), *self, now, wall_now, connect_status@, enc, events@);
            } else {
                let n = events@.len() as int;
                assert(events@.subrange(0, n) =~= events@);
                assert(events@.subrange(n, n) =~= Seq::<Event>::empty());
                assert(count_disconnects(Seq::<Event>::empty()) == 0);
                assert(count_interruptions(Seq::<Event>::empty()) == 0);
                assert(count_resumes(Seq::<Event>::empty()) == 0);
            }
        }
        events
    }
}

/// Whether more than `interval` milliseconds have passed from `since` to `now`.
fn elapsed(since: u64, interval: u64, now: u64) -> (r: bool)
    ensures
        r == (since + interval < now),
{
    now > since && now - since > interval
}

impl<A: Address> UdpProtocol<A> {
    /// What a poll of a running endpoint at `now` did, from `old` to `self`, handing out
    /// `events`.
    pub open spec fn polled_running(
        &self,
        old: &Self,
        now: u64,
        wall_now: u128,
        connect_status: Seq<(PlayerHandle, ConnectionStatus)>,
        encoded: Seq<u8>,
        events: Seq<Event>,
    ) -> bool {
        let t = old.timers;
        let retry = t.running_last_input_recv + RUNNING_RETRY_INTERVAL < now;
        let sends_input = retry && old.pending_output@.len() > 0;
        let quality = t.running_last_quality_report + QUALITY_REPORT_INTERVAL < now;
        let keep_alive = !sends_input && !quality && t.last_send_time + KEEP_ALIVE_INTERVAL < now;
        let notify = !t.disconnect_notify_sent && t.last_recv_time + old.config.disconnect_notify_start < now;
        let disconnect = !t.disconnect_event_sent && t.last_recv_time + old.config.disconnect_timeout < now;
        let n_input: int = if sends_input { 1 } else { 0 };
        let n_quality: int = if quality { 1 } else { 0 };
        let n_keep: int = if keep_alive { 1 } else { 0 };
        let sent = self.send_queue@.subrange(old.send_queue@.len() as int, self.send_queue@.len() as int);
        &&& self.send_queue@.len() == old.send_queue@.len() + n_input + n_quality + n_keep
        &&& self.send_queue@.subrange(0, old.send_queue@.len() as int) == old.send_queue@
        &&& sends_input ==> is_input_message(
            sent[0],
            old.config.magic,
            connect_status,
            false,
            old.pending_output@[0].frame,
            old.spec_last_recv_frame(),
            encoded,
        )
        &&& quality ==> sent[n_input] == message_of(
            old.config.magic,
            MessageBody::QualityReport(QualityReport {
                frame_advantage: clamp_i16(old.stats.local_frame_advantage),
                ping: wall_now,
            }),
        )
        &&& keep_alive ==> sent[0] == message_of(old.config.magic, MessageBody::KeepAlive)
        &&& self.timers == (ProtocolTimers {
            state: ProtocolState::Running,
            running_last_input_recv: if retry { now } else { t.running_last_input_recv },
            running_last_quality_report: if quality { now } else { t.running_last_quality_report },
            last_send_time: if sends_input || quality || keep_alive { now } else { t.last_send_time },
            disconnect_notify_sent: t.disconnect_notify_sent || notify,
            disconnect_event_sent: t.disconnect_event_sent || disconnect,
            ..t
        })
        &&& self.stats.packets_sent == sat_add(old.stats.packets_sent, n_input + n_quality + n_keep)
        &&& events == old.event_queue@ + (if notify {
            seq![Event::NetworkInterrupted {
                disconnect_timeout: (old.config.disconnect_timeout - old.config.disconnect_notify_start) as u128,
            }]
        } else {
            Seq::<Event>::empty()
        }) + (if disconnect {
            seq![Event::Disconnected]
        } else {
            Seq::<Event>::empty()
        })
    }
}


/// The status of `handle` in a report: that of its first entry, if any.
pub open spec fn reported_status(reported: Seq<(PlayerHandle, ConnectionStatus)>, handle: PlayerHandle) -> Option<ConnectionStatus>
    decreases reported.len(),
{
    if reported.len() == 0 {
        None
    } else if reported[0].0 == handle {
        Some(reported[0].1)
    } else {
        reported_status(reported.drop_first(), handle)
    }
}

/// A player's status merged with the peer's report of it: disconnected if either says so,
/// with the later of the two last frames; unchanged where the report leaves the player out.
pub open spec fn merge_status(own: (PlayerHandle, ConnectionStatus), reported: Seq<(PlayerHandle, ConnectionStatus)>) -> (PlayerHandle, ConnectionStatus) {
    match reported_status(reported, own.0) {
        Some(r) => (
            own.0,
            ConnectionStatus {
                disconnected: r.disconnected || own.1.disconnected,
                last_frame: if own.1.last_frame >= r.last_frame { own.1.last_frame } else { r.last_frame },
            },
        ),
        None => own,
    }
}

/// The decoded inputs that are new: paired with their frames (`start` for the first), those
/// of frames after `last`.
pub open spec fn fresh_items(list: Seq<Seq<u8>>, start: Frame, last: Frame) -> Seq<(Frame, Seq<u8>)>
    decreases list.len(),
{
    if list.len() == 0 {
        Seq::empty()
    } else if start + list.len() - 1 > last {
        fresh_items(list.drop_last(), start, last).push(((start + list.len() - 1) as Frame, list.last()))
    } else {
        fresh_items(list.drop_last(), start, last)
    }
}

/// `e` reports `bytes` as the input of `player` for `frame`.
pub open spec fn is_input_event(e: Event, frame: Frame, player: PlayerHandle, bytes: Seq<u8>) -> bool {
    e matches Event::Input { input, player: p } && p == player && input.frame == frame && input.input@ == bytes
}

/// `evs` report the input of one frame, cut into equal parts, one per handle in order.
pub open spec fn frame_events(evs: Seq<Event>, frame: Frame, bytes: Seq<u8>, handles: Seq<PlayerHandle>) -> bool {
    let k = bytes.len() / handles.len();
    &&& evs.len() == handles.len()
    &&& forall|j: int| 0 <= j < handles.len() ==> is_input_event(#[trigger] evs[j], frame, handles[j], bytes.subrange(j * k, j * k + k))
}

/// `evs` report the inputs of the given frames, one frame after the other.
pub open spec fn input_events(evs: Seq<Event>, items: Seq<(Frame, Seq<u8>)>, handles: Seq<PlayerHandle>) -> bool
    decreases items.len(),
{
    if items.len() == 0 {
        evs.len() == 0
    } else {
        let n = evs.len() - handles.len();
        &&& n >= 0
        &&& input_events(evs.subrange(0, n), items.drop_last(), handles)
        &&& frame_events(evs.subrange(n, evs.len() as int), items.last().0, items.last().1, handles)
    }
}

/// `mid` is `old` followed by inputs with the given frames and bytes.
pub open spec fn inputs_appended(mid: Seq<InputBytes>, old: Seq<InputBytes>, items: Seq<(Frame, Seq<u8>)>) -> bool {
    &&& mid.len() == old.len() + items.len()
    &&& mid.subrange(0, old.len() as int) == old
    &&& forall|t: int| 0 <= t < items.len() ==> (#[trigger] mid[old.len() + t]).frame == items[t].0 && mid[old.len() + t].bytes@ == items[t].1
}

/// The inputs of frames from `oldest` on, in their order.
pub open spec fn keep_inputs_from(s: Seq<InputBytes>, oldest: Frame) -> Seq<InputBytes>
    decreases s.len(),
{
    if s.len() == 0 {
        s
    } else if s.last().frame >= oldest {
        keep_inputs_from(s.drop_last(), oldest).push(s.last())
    } else {
        keep_inputs_from(s.drop_last(), oldest)
    }
}

/// Some input has this frame.
pub open spec fn has_frame(s: Seq<InputBytes>, frame: Frame) -> bool {
    exists|t: int| 0 <= t < s.len() && s[t].frame == frame
}

/// The bytes can be cut into `n` equal parts, none of them empty.
pub open spec fn splits_evenly(bytes: Seq<u8>, n: nat) -> bool {
    n > 0 && bytes.len() > 0 && bytes.len() % n == 0
}

/// The byte views of decoded inputs.
pub open spec fn byte_views(list: Seq<Vec<u8>>) -> Seq<Seq<u8>> {
    list.map_values(|v: Vec<u8>| v@)
}

/// Kept inputs come from the list, in increasing frame order if the list's were.
proof fn lemma_keep_inputs(s: Seq<InputBytes>, oldest: Frame)
    ensures
        forall|x: InputBytes| keep_inputs_from(s, oldest).contains(x) ==> s.contains(x),
        frames_increasing(s) ==> frames_increasing(keep_inputs_from(s, oldest)),
    decreases s.len(),
{
    if s.len() > 0 {
        let p = s.drop_last();
        lemma_keep_inputs(p, oldest);
        let kp = keep_inputs_from(p, oldest);
        assert forall|x: InputBytes| keep_inputs_from(s, oldest).contains(x) implies s.contains(x) by {
            if kp.contains(x) {
                assert(p.contains(x));
                let j = choose|j: int| 0 <= j < p.len() && p[j] == x;
                assert(p[j] == s[j]);
            } else {
                assert(s[s.len() - 1] == x);
            }
        }
        if frames_increasing(s) {
            assert(frames_increasing(p)) by {
                assert forall|i: int, j: int| 0 <= i < j < p.len() implies p[i].frame < p[j].frame by {
                    assert(p[i] == s[i] && p[j] == s[j]);
                }
            }
            if s.last().frame >= oldest {
                let k = keep_inputs_from(s, oldest);
                assert forall|i: int, j: int| 0 <= i < j < k.len() implies k[i].frame < k[j].frame by {
                    if j == k.len() - 1 {
                        assert(kp.contains(k[i]));
                        assert(p.contains(k[i]));
                        let m = choose|m: int| 0 <= m < p.len() && p[m] == k[i];
                        assert(s[m] == p[m]);
                    } else {
                        assert(k[i] == kp[i] && k[j] == kp[j]);
                    }
                }
            }
        }
    }
}

/// Fresh items come in increasing frame order, all after `last`, the newest being that of
/// the last decoded input when there is any.
proof fn lemma_fresh_items(list: Seq<Seq<u8>>, start: Frame, last: Frame)
    requires
        list.len() == 0 || start + list.len() - 1 <= i32::MAX,
    ensures
        forall|t: int| 0 <= t < fresh_items(list, start, last).len() ==> #[trigger] fresh_items(list, start, last)[t].0 > last
            && fresh_items(list, start, last)[t].0 <= start + list.len() - 1,
        forall|a: int, b: int| 0 <= a < b < fresh_items(list, start, last).len() ==> fresh_items(list, start, last)[a].0 < fresh_items(list, start, last)[b].0,
    decreases list.len(),
{
    if list.len() > 0 {
        let p = fresh_items(list.drop_last(), start, last);
        lemma_fresh_items(list.drop_last(), start, last);
        let f = start + list.len() - 1;
        if f > last {
            let q = p.push((f as Frame, list.last()));
            assert(fresh_items(list, start, last) == q);
            assert forall|t: int| 0 <= t < q.len() implies #[trigger] q[t].0 > last && q[t].0 <= f by {
                if t < p.len() {
                    assert(q[t] == p[t]);
                }
            }
            assert forall|a: int, b: int| 0 <= a < b < q.len() implies q[a].0 < q[b].0 by {
                assert(q[a] == p[a]);
                if b < p.len() {
                    assert(q[b] == p[b]);
                }
            }
        }
    }
}

impl<A: Address> UdpProtocol<A> {
    /// The pending inputs acknowledged by `ack_frame` were dropped from `old`, the last of
    /// them becoming the last acknowledged input.
    pub open spec fn acked(&self, old: &Self, ack_frame: Frame) -> bool {
        let k = acked_count(old.pending_output@, ack_frame);
        &&& self.pending_output@ == old.pending_output@.skip(k as int)
        &&& self.last_acked_input == if k > 0 {
            old.pending_output@[k - 1]
        } else {
            old.last_acked_input
        }
    }

    /// Whether `on_input` can handle `body` without a failed check or an overflow, `decoded`
    /// being the result of decoding its bytes.
    pub open spec fn input_acceptable(&self, body: Input, decoded: Option<Vec<Vec<u8>>>) -> bool {
        let last = self.spec_last_recv_frame();
        let decode_frame = if last == NULL_FRAME { NULL_FRAME } else { (body.start_frame - 1) as Frame };
        &&& last == NULL_FRAME || (last < i32::MAX && last + 1 >= body.start_frame && body.start_frame > i32::MIN)
        &&& has_frame(self.recv_inputs@, decode_frame) && decoded is Some ==> {
            let list = byte_views(decoded->0@);
            &&& list.len() == 0 || (list.len() - 1 <= i32::MAX && body.start_frame + list.len() - 1 <= i32::MAX)
            &&& 2 * self.config.max_prediction <= i32::MAX
            &&& forall|i: int|
                0 <= i < list.len() && body.start_frame + i > last ==> splits_evenly((#[trigger] list[i]), self.config.handles@.len())
        }
    }

    /// What handling an input message from `old` at time `now` did, `decoded` being the
    /// decoding of its bytes against the input before its first frame: acknowledged inputs
    /// are dropped; a requested disconnect is reported once, else the peer's connection
    /// report is merged in; where the input to decode against is known and the bytes decoded,
    /// the inputs of new frames are stored and reported, player by player in handle order,
    /// an acknowledgement is queued and inputs older than twice the prediction window before
    /// the newest are forgotten.
    pub open spec fn input_handled(&self, old: &Self, body: Input, now: u64, decoded: Option<Vec<Vec<u8>>>) -> bool {
        let last = old.spec_last_recv_frame();
        let decode_frame = if last == NULL_FRAME { NULL_FRAME } else { (body.start_frame - 1) as Frame };
        let disconnect_event = body.disconnect_requested && old.timers.state != ProtocolState::Disconnected
            && !old.timers.disconnect_event_sent;
        let ev0 = if disconnect_event { old.event_queue@.push(Event::Disconnected) } else { old.event_queue@ };
        let timers0 = ProtocolTimers { disconnect_event_sent: old.timers.disconnect_event_sent || disconnect_event, ..old.timers };
        &&& self.acked(old, body.ack_frame)
        &&& self.config == old.config
        &&& self.pending_checksums@ == old.pending_checksums@
        &&& self.peer_connect_status@ == if body.disconnect_requested {
            old.peer_connect_status@
        } else {
            Seq::new(old.peer_connect_status@.len(), |i: int| merge_status(old.peer_connect_status@[i], body.peer_connect_status@))
        }
        &&& if has_frame(old.recv_inputs@, decode_frame) && decoded is Some {
            let items = fresh_items(byte_views(decoded->0@), body.start_frame, last);
            let new_last = if items.len() > 0 { items.last().0 } else { last };
            &&& exists|mid: Seq<InputBytes>|
                inputs_appended(mid, old.recv_inputs@, items) && self.recv_inputs@ == keep_inputs_from(
                    mid,
                    (new_last - 2 * old.config.max_prediction) as Frame,
                )
            &&& self.event_queue@.len() >= ev0.len()
            &&& self.event_queue@.subrange(0, ev0.len() as int) == ev0
            &&& input_events(self.event_queue@.subrange(ev0.len() as int, self.event_queue@.len() as int), items, old.config.handles@)
            &&& self.send_queue@.len() == old.send_queue@.len() + 1
            &&& self.send_queue@.drop_last() == old.send_queue@
            &&& self.send_queue@.last() == message_of(old.config.magic, MessageBody::InputAck(InputAck { ack_frame: new_last }))
            &&& self.timers == (ProtocolTimers { running_last_input_recv: now, last_send_time: now, ..timers0 })
            &&& self.stats.packets_sent == sat_add(old.stats.packets_sent, 1)
            &&& self.stats.local_frame_advantage == old.stats.local_frame_advantage
            &&& self.stats.remote_frame_advantage == old.stats.remote_frame_advantage
            &&& self.stats.round_trip_time == old.stats.round_trip_time
        } else {
            &&& self.recv_inputs@ == old.recv_inputs@
            &&& self.event_queue@ == ev0
            &&& self.send_queue@ == old.send_queue@
            &&& self.timers == timers0
            &&& self.stats == old.stats
        }
    }

    /// The input against which the bytes of an input message starting at `start_frame` are
    /// delta-decoded: the blank input before anything was received, else the input of the
    /// frame before `start_frame`; `None` where it is no longer (or not yet) kept.
    pub fn decode_reference(&self, start_frame: Frame) -> (r: Option<&InputBytes>)
        requires
            self.spec_last_recv_frame() != NULL_FRAME ==> start_frame > i32::MIN,
        ensures
            ({
                let decode_frame = if self.spec_last_recv_frame() == NULL_FRAME {
                    NULL_FRAME
                } else {
                    (start_frame - 1) as Frame
                };
                match r {
                    Some(b) => b.frame == decode_frame && self.recv_inputs@.contains(*b),
                    None => !has_frame(self.recv_inputs@, decode_frame),
                }
            }),
    {
        let decode_frame = if self.last_recv_frame() == NULL_FRAME { NULL_FRAME } else { start_frame - 1 };
        let mut t: usize = 0;
        while t < self.recv_inputs.len()
            invariant
                t <= self.recv_inputs@.len(),
                decode_frame == if self.spec_last_recv_frame() == NULL_FRAME {
                    NULL_FRAME
                } else {
                    (start_frame - 1) as Frame
                },
                forall|u: int| 0 <= u < t ==> self.recv_inputs@[u].frame != decode_frame,
            decreases self.recv_inputs@.len() - t,
        {
            if self.recv_inputs[t].frame == decode_frame {
                let b = &self.recv_inputs[t];
                proof {
                    assert(self.recv_inputs@[t as int] == *b);
                    assert(self.recv_inputs@.contains(*b));
                }
                return Some(b);
            }
            t = t + 1;
        }
        None
    }

    /// Upon receiving an `Input` at time `now`, `decoded` being its bytes decoded against
    /// [`Self::decode_reference`] (`None` where decoding failed).
    pub fn on_input(&mut self, body: &Input, now: u64, decoded: Option<Vec<Vec<u8>>>)
        requires
            old(self).inv(),
            old(self).input_acceptable(*body, decoded),
        ensures
            final(self).inv(),
            final(self).input_handled(old(self), *body, now, decoded),
    {
        // drop pending outputs until the ack frame
        self.pop_pending_output(body.ack_frame);
        if body.disconnect_requested {
            // if a disconnect is requested, disconnect now
            if self.timers.state != ProtocolState::Disconnected && !self.timers.disconnect_event_sent {
                self.event_queue.push(Event::Disconnected);
                self.timers.disconnect_event_sent = true;
            }
        } else {
            merge_peer_status(&mut self.peer_connect_status, &body.peer_connect_status);
        }
        let last = self.last_recv_frame();
        // if we did not receive any input yet, we decode with the blank input, otherwise we
        // use the input previous to the start of the encoded inputs
        let reference = self.decode_reference(body.start_frame);
        let has_base = reference.is_some();
        let ghost decode_frame = if last == NULL_FRAME { NULL_FRAME } else { (body.start_frame - 1) as Frame };
        proof {
            if has_base {
                let b = reference->0;
                assert(self.recv_inputs@.contains(*b));
                let t = choose|t: int| 0 <= t < self.recv_inputs@.len() && self.recv_inputs@[t] == *b;
                assert(self.recv_inputs@[t].frame == decode_frame);
                assert(has_frame(old(self).recv_inputs@, decode_frame));
            } else {
                assert(!has_frame(old(self).recv_inputs@, decode_frame));
            }
        }
        if !has_base {
            return;
        }
        let list = match decoded {
            Some(list) => list,
            None => {
                return;
            },
        };
        self.timers.running_last_input_recv = now;
        proof {
            assert(decoded->0 == list);
            let views = byte_views(list@);
            assert forall|i: int|
                0 <= i < list@.len() && body.start_frame + i > self.spec_last_recv_frame() implies splits_evenly((#[trigger] list@[i])@, self.config.handles@.len()) by {
                assert(views[i] == list@[i]@);
            }
        }
        self.store_fresh_inputs(&list, body.start_frame);
        let ghost mid = self.recv_inputs@;
        // send an input ack
        self.send_input_ack(now);
        // forget received inputs that are too old
        let last_now = self.last_recv_frame();
        let oldest = last_now - 2 * (self.config.max_prediction as i32);
        let mut taken: Vec<InputBytes> = Vec::new();
        std::mem::swap(&mut taken, &mut self.recv_inputs);
        self.recv_inputs = keep_recent_inputs(taken, oldest);
        proof {
            lemma_keep_inputs(mid, oldest);
            assert forall|t: int| 0 <= t < self.recv_inputs@.len() implies #[trigger] self.recv_inputs@[t].frame >= NULL_FRAME by {
                assert(mid.contains(self.recv_inputs@[t]));
            }
        }
    }
}


impl<A: Address> UdpProtocol<A> {
    /// Stores the decoded inputs of frames after the last received one, `start_frame` being
    /// the frame of the first, and reports them player by player in handle order.
    fn store_fresh_inputs(&mut self, list: &Vec<Vec<u8>>, start_frame: Frame)
        requires
            old(self).inv(),
            list@.len() == 0 || (list@.len() - 1 <= i32::MAX && start_frame + list@.len() - 1 <= i32::MAX),
            forall|i: int|
                0 <= i < list@.len() && start_frame + i > old(self).spec_last_recv_frame() ==> splits_evenly((#[trigger] list@[i])@, old(self).config.handles@.len()),
        ensures
            ({
                let last = old(self).spec_last_recv_frame();
                let items = fresh_items(byte_views(list@), start_frame, last);
                &&& inputs_appended(final(self).recv_inputs@, old(self).recv_inputs@, items)
                &&& final(self).spec_last_recv_frame() == if items.len() > 0 { items.last().0 } else { last }
                &&& final(self).event_queue@.len() >= old(self).event_queue@.len()
                &&& final(self).event_queue@.subrange(0, old(self).event_queue@.len() as int) == old(self).event_queue@
                &&& input_events(
                    final(self).event_queue@.subrange(old(self).event_queue@.len() as int, final(self).event_queue@.len() as int),
                    items,
                    old(self).config.handles@,
                )
            }),
            frames_increasing(final(self).recv_inputs@),
            forall|t: int| 0 <= t < final(self).recv_inputs@.len() ==> #[trigger] final(self).recv_inputs@[t].frame >= NULL_FRAME,
            final(self).config == old(self).config,
            final(self).timers == old(self).timers,
            final(self).stats == old(self).stats,
            final(self).send_queue@ == old(self).send_queue@,
            final(self).peer_connect_status@ == old(self).peer_connect_status@,
            final(self).pending_output@ == old(self).pending_output@,
            final(self).last_acked_input == old(self).last_acked_input,
            final(self).pending_checksums@ == old(self).pending_checksums@,
    {
        let ghost views = byte_views(list@);
        let ghost recv0 = self.recv_inputs@;
        let ghost ev0 = self.event_queue@;
        let last = self.last_recv_frame();
        let ghost snap = *self;
        let mut i: usize = 0;
        while i < list.len()
            invariant
                0 <= i <= list@.len(),
                views == byte_views(list@),
                views.len() == list@.len(),
                list@.len() == 0 || (list@.len() - 1 <= i32::MAX && start_frame + list@.len() - 1 <= i32::MAX),
                forall|k: int|
                    0 <= k < list@.len() && start_frame + k > old(self).spec_last_recv_frame() ==> splits_evenly((#[trigger] list@[k])@, old(self).config.handles@.len()),
                last == old(self).spec_last_recv_frame(),
                ev0 == old(self).event_queue@,
                recv0 == old(self).recv_inputs@,
                frames_increasing(recv0),
                newest_frame(recv0) == last,
                forall|t: int| 0 <= t < recv0.len() ==> #[trigger] recv0[t].frame >= NULL_FRAME,
                inputs_appended(self.recv_inputs@, recv0, fresh_items(views.take(i as int), start_frame, last)),
                self.spec_last_recv_frame() == if fresh_items(views.take(i as int), start_frame, last).len() > 0 {
                    fresh_items(views.take(i as int), start_frame, last).last().0
                } else {
                    last
                },
                frames_increasing(self.recv_inputs@),
                forall|t: int| 0 <= t < self.recv_inputs@.len() ==> #[trigger] self.recv_inputs@[t].frame >= NULL_FRAME,
                self.event_queue@.len() >= ev0.len(),
                self.event_queue@.subrange(0, ev0.len() as int) == ev0,
                input_events(
                    self.event_queue@.subrange(ev0.len() as int, self.event_queue@.len() as int),
                    fresh_items(views.take(i as int), start_frame, last),
                    self.config.handles@,
                ),
                self.config == snap.config,
                self.timers == snap.timers,
                self.stats == snap.stats,
                self.send_queue@ == snap.send_queue@,
                self.peer_connect_status@ == snap.peer_connect_status@,
                self.pending_output@ == snap.pending_output@,
                self.last_acked_input == snap.last_acked_input,
                self.pending_checksums@ == snap.pending_checksums@,
                snap.config == old(self).config,
            decreases list@.len() - i,
        {
            let ghost items = fresh_items(views.take(i as int), start_frame, last);
            proof {
                assert(views.take(i as int).len() == i);
                assert(views.take(i as int + 1).drop_last() =~= views.take(i as int));
                assert(views.take(i as int + 1).last() == views[i as int]);
                lemma_fresh_items(views.take(i as int), start_frame, last);
                if items.len() > 0 {
                    assert(items[items.len() - 1].0 > last);
                    assert(items[items.len() - 1].0 <= start_frame + i - 1);
                }
                assert(views[i as int] == list@[i as int]@);
            }
            let inp_frame = start_frame + i as i32;
            // skip inputs that we already have
            if inp_frame <= self.last_recv_frame() {
                i = i + 1;
                continue;
            }
            let input_data = InputBytes { frame: inp_frame, bytes: slice_to_vec(list[i].as_slice()) };
            let player_inputs = input_data.to_player_inputs(self.config.handles.as_slice());
            let ghost r0 = self.recv_inputs@;
            let ghost e0 = self.event_queue@;
            self.recv_inputs.push(input_data);
            push_input_events(&mut self.event_queue, player_inputs);
            proof {
                let items2 = fresh_items(views.take(i as int + 1), start_frame, last);
                assert(items2 == items.push((inp_frame, views[i as int])));
                assert(self.recv_inputs@.subrange(0, recv0.len() as int) =~= r0.subrange(0, recv0.len() as int));
                assert forall|t: int| 0 <= t < items2.len() implies (#[trigger] self.recv_inputs@[recv0.len() + t]).frame == items2[t].0
                    && self.recv_inputs@[recv0.len() + t].bytes@ == items2[t].1 by {
                    if t < items.len() {
                        assert(self.recv_inputs@[recv0.len() + t] == r0[recv0.len() + t]);
                    }
                }
                assert forall|a: int, b: int| 0 <= a < b < self.recv_inputs@.len() implies self.recv_inputs@[a].frame < self.recv_inputs@[b].frame by {
                    if b < r0.len() {
                        assert(self.recv_inputs@[a] == r0[a] && self.recv_inputs@[b] == r0[b]);
                    } else {
                        assert(self.recv_inputs@[a] == r0[a]);
                        if a < r0.len() - 1 {
                            assert(r0[a].frame < r0[r0.len() - 1].frame);
                        }
                    }
                }
                assert forall|t: int| 0 <= t < self.recv_inputs@.len() implies #[trigger] self.recv_inputs@[t].frame >= NULL_FRAME by {
                    if t < r0.len() {
                        assert(self.recv_inputs@[t] == r0[t]);
                    }
                }
                let mapped = player_inputs@.map_values(|p: (PlayerHandle, PlayerInput)| Event::Input { input: p.1, player: p.0 });
                let tail0 = e0.subrange(ev0.len() as int, e0.len() as int);
                let tail = self.event_queue@.subrange(ev0.len() as int, self.event_queue@.len() as int);
                assert(self.event_queue@.subrange(0, ev0.len() as int) =~= e0.subrange(0, ev0.len() as int));
                assert(tail.subrange(0, tail.len() - self.config.handles@.len()) =~= tail0);
                assert(tail.subrange(tail.len() - self.config.handles@.len(), tail.len() as int) =~= mapped);
                let h = self.config.handles@;
                let k = views[i as int].len() / h.len();
                assert forall|j: int| 0 <= j < h.len() implies is_input_event(#[trigger] mapped[j], inp_frame, h[j], views[i as int].subrange(j * k, j * k + k)) by {
                    assert(mapped[j] == Event::Input { input: player_inputs@[j].1, player: player_inputs@[j].0 });
                }
                assert(frame_events(mapped, inp_frame, views[i as int], h));
                assert(items2.drop_last() =~= items);
                assert(items2.last() == (inp_frame, views[i as int]));
            }
            i = i + 1;
        }
        proof {
            assert(views.take(views.len() as int) =~= views);
        }
        proof {
            assert(views.take(views.len() as int) =~= views);
        }
    }
}

/// Keeps the inputs of frames from `oldest` on.
fn keep_recent_inputs(v: Vec<InputBytes>, oldest: Frame) -> (r: Vec<InputBytes>)
    ensures
        r@ == keep_inputs_from(v@, oldest),
{
    let ghost orig = v@;
    let ghost j: int = 0;
    let mut rest = v;
    let mut out: Vec<InputBytes> = Vec::new();
    while rest.len() > 0
        invariant
            0 <= j <= orig.len(),
            rest@ == orig.skip(j),
            out@ == keep_inputs_from(orig.take(j), oldest),
        decreases rest@.len(),
    {
        proof {
            assert(orig.take(j + 1).drop_last() =~= orig.take(j));
            assert(orig.skip(j)[0] == orig[j]);
            assert(orig.skip(j).drop_first() =~= orig.skip(j + 1));
            assert(orig.take(j + 1).last() == orig[j]);
        }
        let x = rest.remove(0);
        if x.frame >= oldest {
            out.push(x);
        }
        proof {
            j = j + 1;
        }
    }
    proof {
        assert(orig.take(j) =~= orig);
    }
    out
}

/// Appends an input event for each player's input, in order.
fn push_input_events(events: &mut Vec<Event>, inputs: Vec<(PlayerHandle, PlayerInput)>)
    ensures
        final(events)@ == old(events)@ + inputs@.map_values(|p: (PlayerHandle, PlayerInput)| Event::Input { input: p.1, player: p.0 }),
{
    let ghost orig = inputs@;
    let ghost j: int = 0;
    let mut rest = inputs;
    while rest.len() > 0
        invariant
            0 <= j <= orig.len(),
            rest@ == orig.skip(j),
            events@ == old(events)@ + orig.take(j).map_values(|p: (PlayerHandle, PlayerInput)| Event::Input { input: p.1, player: p.0 }),
        decreases rest@.len(),
    {
        proof {
            assert(orig.skip(j)[0] == orig[j]);
            assert(orig.skip(j).drop_first() =~= orig.skip(j + 1));
        }
        let (player, input) = rest.remove(0);
        events.push(Event::Input { input, player });
        proof {
            assert(orig.take(j + 1).map_values(|p: (PlayerHandle, PlayerInput)| Event::Input { input: p.1, player: p.0 })
                =~= orig.take(j).map_values(|p: (PlayerHandle, PlayerInput)| Event::Input { input: p.1, player: p.0 }).push(
                Event::Input { input: orig[j].1, player: orig[j].0 },
            ));
            j = j + 1;
        }
    }
    proof {
        assert(orig.take(j) =~= orig);
    }
}

/// Looks up the status of `handle` in a report: that of its first entry.
fn find_reported_status(reported: &Vec<(PlayerHandle, ConnectionStatus)>, handle: PlayerHandle) -> (r: Option<ConnectionStatus>)
    ensures
        r == reported_status(reported@, handle),
{
    let mut j: usize = 0;
    while j < reported.len()
        invariant
            j <= reported@.len(),
            reported_status(reported@, handle) == reported_status(reported@.skip(j as int), handle),
        decreases reported@.len() - j,
    {
        proof {
            assert(reported@.skip(j as int).drop_first() =~= reported@.skip(j as int + 1));
        }
        if reported[j].0 == handle {
            return Some(reported[j].1);
        }
        j = j + 1;
    }
    None
}

/// Merges the peer's report into each player's status.
fn merge_peer_status(own: &mut Vec<(PlayerHandle, ConnectionStatus)>, reported: &Vec<(PlayerHandle, ConnectionStatus)>)
    ensures
        final(own)@ == Seq::new(old(own)@.len(), |i: int| merge_status(old(own)@[i], reported@)),
{
    let mut i: usize = 0;
    while i < own.len()
        invariant
            i <= own@.len(),
            own@.len() == old(own)@.len(),
            forall|k: int| 0 <= k < i ==> #[trigger] own@[k] == merge_status(old(own)@[k], reported@),
            forall|k: int| i <= k < own@.len() ==> #[trigger] own@[k] == old(own)@[k],
        decreases own@.len() - i,
    {
        let (handle, status) = own[i];
        match find_reported_status(reported, handle) {
            Some(r) => {
                let last_frame = if status.last_frame >= r.last_frame { status.last_frame } else { r.last_frame };
                own.set(i, (handle, ConnectionStatus { disconnected: r.disconnected || status.disconnected, last_frame }));
            },
            None => {},
        }
        i = i + 1;
    }
    assert(own@ =~= Seq::new(old(own)@.len(), |i: int| merge_status(old(own)@[i], reported@)));
}


impl<A: Address> UdpProtocol<A> {
    /// The state after a message arrives at time `now`, before it is handled: the time of the
    /// last received message is `now`, and a running endpoint that told of an interruption
    /// tells that the connection resumed.
    pub open spec fn resumed(&self, old: &Self, now: u64) -> bool {
        let resume = old.timers.disconnect_notify_sent && old.timers.state == ProtocolState::Running;
        &&& self.timers == (ProtocolTimers {
            last_recv_time: now,
            disconnect_notify_sent: old.timers.disconnect_notify_sent && !resume,
            ..old.timers
        })
        &&& self.event_queue@ == if resume { old.event_queue@.push(Event::NetworkResumed) } else { old.event_queue@ }
        &&& self.config == old.config
        &&& self.stats == old.stats
        &&& self.send_queue@ == old.send_queue@
        &&& self.peer_connect_status@ == old.peer_connect_status@
        &&& self.pending_output@ == old.pending_output@
        &&& self.last_acked_input == old.last_acked_input
        &&& self.recv_inputs@ == old.recv_inputs@
        &&& self.pending_checksums@ == old.pending_checksums@
    }

    /// What handling a message with this body did, from `old` (the state once the message
    /// arrived) to `self`.
    pub open spec fn body_handled(
        &self,
        old: &Self,
        body: MessageBody,
        now: u64,
        wall_now: u128,
        decoded: Option<Vec<Vec<u8>>>,
    ) -> bool {
        match body {
            MessageBody::Input(b) => self.input_handled(old, b, now, decoded),
            MessageBody::InputAck(b) => {
                &&& self.acked(old, b.ack_frame)
                &&& self.config == old.config
                &&& self.timers == old.timers
                &&& self.stats == old.stats
                &&& self.send_queue@ == old.send_queue@
                &&& self.event_queue@ == old.event_queue@
                &&& self.peer_connect_status@ == old.peer_connect_status@
                &&& self.recv_inputs@ == old.recv_inputs@
                &&& self.pending_checksums@ == old.pending_checksums@
            },
            MessageBody::QualityReport(b) => self.queued(
                &UdpProtocol { stats: ProtocolStats { remote_frame_advantage: b.frame_advantage as i32, ..old.stats }, ..*old },
                MessageBody::QualityReply(QualityReply { pong: b.ping }),
                now,
            ),
            MessageBody::QualityReply(b) => {
                &&& self.stats == (ProtocolStats { round_trip_time: (wall_now - b.pong) as u128, ..old.stats })
                &&& self.timers == old.timers
                &&& self.send_queue@ == old.send_queue@
                &&& self.unchanged_except_queue_and_clock(old)
            },
            MessageBody::ChecksumReport(b) => {
                &&& self.pending_checksums@ == spec_checksum_history(old.pending_checksums@, old.config.desync_detection, b.frame, b.checksum)
                &&& self.config == old.config
                &&& self.timers == old.timers
                &&& self.stats == old.stats
                &&& self.send_queue@ == old.send_queue@
                &&& self.event_queue@ == old.event_queue@
                &&& self.peer_connect_status@ == old.peer_connect_status@
                &&& self.pending_output@ == old.pending_output@
                &&& self.last_acked_input == old.last_acked_input
                &&& self.recv_inputs@ == old.recv_inputs@
            },
            MessageBody::KeepAlive => self.same_as(old),
        }
    }

    /// Whether a message can be handled without a failed check or an overflow: an input as
    /// `on_input` requires, a quality reply carrying no clock value after `wall_now`.
    pub open spec fn message_acceptable(&self, body: MessageBody, wall_now: u128, decoded: Option<Vec<Vec<u8>>>) -> bool {
        match body {
            MessageBody::Input(b) => self.input_acceptable(b, decoded),
            MessageBody::QualityReply(b) => wall_now >= b.pong,
            _ => true,
        }
    }

    /// Handles a message from the peer at time `now` (wall clock `wall_now`), `decoded` being
    /// the decoding of an input message's bytes (see [`Self::on_input`]). A shut down
    /// endpoint ignores it; otherwise the time of the last received message is updated, a
    /// resumed connection is reported, and the message is handled by its kind.
    pub fn handle_message(&mut self, msg: &Message, now: u64, wall_now: u128, decoded: Option<Vec<Vec<u8>>>)
        requires
            old(self).inv(),
            old(self).message_acceptable(msg.body, wall_now, decoded),
        ensures
            final(self).inv(),
            old(self).timers.state == ProtocolState::Shutdown ==> final(self).same_as(old(self)),
            old(self).timers.state != ProtocolState::Shutdown ==> exists|pre: Self|
                pre.resumed(old(self), now) && final(self).body_handled(&pre, msg.body, now, wall_now, decoded),
            final(self).event_queue@.len() >= old(self).event_queue@.len(),
            final(self).event_queue@.subrange(0, old(self).event_queue@.len() as int) == old(self).event_queue@,
            lifecycle_step(
                old(self).timers,
                final(self).timers,
                final(self).event_queue@.subrange(old(self).event_queue@.len() as int, final(self).event_queue@.len() as int),
            ),
    {
        // don't handle messages if shutdown
        if self.timers.state == ProtocolState::Shutdown {
            proof {
                assert(self.event_queue@.subrange(0, self.event_queue@.len() as int) =~= self.event_queue@);
                assert(self.event_queue@.subrange(self.event_queue@.len() as int, self.event_queue@.len() as int) =~= Seq::<Event>::empty());
                assert(count_disconnects(Seq::<Event>::empty()) == 0);
                assert(count_interruptions(Seq::<Event>::empty()) == 0);
                assert(count_resumes(Seq::<Event>::empty()) == 0);
            }
            return;
        }
        // update time when we last received packages
        self.timers.last_recv_time = now;
        // if the connection has been marked as interrupted, send an event to signal we are
        // receiving again
        if self.timers.disconnect_notify_sent && self.timers.state == ProtocolState::Running {
            self.timers.disconnect_notify_sent = false;
            self.event_queue.push(Event::NetworkResumed);
        }
        let ghost pre = *self;
        match &msg.body {
            MessageBody::Input(body) => self.on_input(body, now, decoded),
            MessageBody::InputAck(body) => self.on_input_ack(*body),
            MessageBody::QualityReport(body) => self.on_quality_report(body, now),
            MessageBody::QualityReply(body) => self.on_quality_reply(body, wall_now),
            MessageBody::ChecksumReport(body) => self.on_checksum_report(body),
            MessageBody::KeepAlive => {},
        }
        proof {
            assert(pre.resumed(old(self), now));
            assert(self.body_handled(&pre, msg.body, now, wall_now, decoded));
            lemma_handled_lifecycle(*old(self), pre, *self, msg.body, now, wall_now, decoded);
        }
    }
}

impl<A: Address> UdpProtocol<A> {
    /// A new running endpoint with the given settings: nothing sent, received or queued yet,
    /// every timer started at `now`, the peer's report of each playing player connected with
    /// no frame, and zeroed reference inputs (`input_size` bytes per player) that belong to
    /// no frame.
    pub open spec fn created(
        &self,
        handles: Seq<PlayerHandle>,
        peer_addr: A,
        playing: Seq<PlayerHandle>,
        local_count: nat,
        max_prediction: usize,
        disconnect_timeout: u64,
        disconnect_notify_start: u64,
        fps: usize,
        desync_detection: DesyncDetection,
        input_size: usize,
        now: u64,
        wall_now: u128,
    ) -> bool {
        &&& self.inv()
        &&& self.config.handles@ == handles
        &&& self.config.peer_addr == peer_addr
        &&& self.config.magic != 0
        &&& self.config.fps == fps
        &&& self.config.disconnect_timeout == disconnect_timeout
        &&& self.config.disconnect_notify_start == disconnect_notify_start
        &&& self.config.max_prediction == max_prediction
        &&& self.config.desync_detection == desync_detection
        &&& self.config.stats_start_time == wall_now
        &&& self.timers == (ProtocolTimers {
            state: ProtocolState::Running,
            running_last_quality_report: now,
            running_last_input_recv: now,
            disconnect_notify_sent: false,
            disconnect_event_sent: false,
            shutdown_timer_start: now,
            last_send_time: now,
            last_recv_time: now,
        })
        &&& self.stats == (ProtocolStats {
            local_frame_advantage: 0,
            remote_frame_advantage: 0,
            packets_sent: 0,
            bytes_sent: 0,
            round_trip_time: 0,
        })
        &&& self.send_queue@.len() == 0
        &&& self.event_queue@.len() == 0
        &&& self.peer_connect_status@.len() == playing.len()
        &&& forall|i: int|
            0 <= i < playing.len() ==> #[trigger] self.peer_connect_status@[i] == (
                playing[i],
                ConnectionStatus { disconnected: false, last_frame: NULL_FRAME },
            )
        &&& self.pending_output@.len() == 0
        &&& self.last_acked_input.frame == NULL_FRAME
        &&& self.last_acked_input.bytes@ == Seq::new((input_size * local_count) as nat, |i: int| 0u8)
        &&& self.recv_inputs@.len() == 1
        &&& self.recv_inputs@[0].frame == NULL_FRAME
        &&& self.recv_inputs@[0].bytes@ == Seq::new((input_size * handles.len()) as nat, |i: int| 0u8)
        &&& self.pending_checksums@.len() == 0
    }
}

/// An acknowledgement drops exactly the oldest pending inputs up to the acknowledged frame:
/// each dropped input belongs to a frame no later than it and, as pending frames increase,
/// each kept input to a later one.
pub proof fn law_ack_drops_acknowledged(pending: Seq<InputBytes>, ack_frame: Frame)
    requires
        frames_increasing(pending),
    ensures
        acked_count(pending, ack_frame) <= pending.len(),
        forall|i: int| 0 <= i < acked_count(pending, ack_frame) ==> (#[trigger] pending[i]).frame <= ack_frame,
        forall|i: int| acked_count(pending, ack_frame) <= i < pending.len() ==> (#[trigger] pending[i]).frame > ack_frame,
    decreases pending.len(),
{
    if pending.len() > 0 {
        let rest = pending.drop_first();
        assert(frames_increasing(rest)) by {
            assert forall|i: int, j: int| 0 <= i < j < rest.len() implies rest[i].frame < rest[j].frame by {
                assert(rest[i] == pending[i + 1] && rest[j] == pending[j + 1]);
            }
        }
        law_ack_drops_acknowledged(rest, ack_frame);
        if pending[0].frame <= ack_frame {
            assert forall|i: int| 0 <= i < acked_count(pending, ack_frame) implies (#[trigger] pending[i]).frame <= ack_frame by {
                if i > 0 {
                    assert(pending[i] == rest[i - 1]);
                }
            }
            assert forall|i: int| acked_count(pending, ack_frame) <= i < pending.len() implies (#[trigger] pending[i]).frame > ack_frame by {
                assert(pending[i] == rest[i - 1]);
            }
        } else {
            assert forall|i: int| 0 <= i < pending.len() implies (#[trigger] pending[i]).frame > ack_frame by {
                if i > 0 {
                    assert(pending[0].frame < pending[i].frame);
                }
            }
        }
    }
}

/// The session is told of an interruption once: polling a running endpoint that has told of
/// it already reports no further interruption, only (once) the disconnect.
pub proof fn law_interruption_reported_once<A: Address>(
    before: UdpProtocol<A>,
    after: UdpProtocol<A>,
    now: u64,
    wall_now: u128,
    connect_status: Seq<(PlayerHandle, ConnectionStatus)>,
    encoded: Seq<u8>,
    events: Seq<Event>,
)
    requires
        after.polled_running(&before, now, wall_now, connect_status, encoded, events),
        before.timers.disconnect_notify_sent,
    ensures
        forall|i: int| before.event_queue@.len() <= i < events.len() ==> (#[trigger] events[i]) is Disconnected,
        after.timers.disconnect_notify_sent,
        before.timers.disconnect_event_sent ==> events == before.event_queue@,
{
}

/// Acknowledged inputs are not sent again: once an acknowledgement of `ack_frame` is
/// handled, the next input message starts after that frame (pending frames increasing).
pub proof fn law_acknowledged_not_resent<A: Address>(
    e1: UdpProtocol<A>,
    e2: UdpProtocol<A>,
    e3: UdpProtocol<A>,
    ack_frame: Frame,
    connect_status: Seq<(PlayerHandle, ConnectionStatus)>,
    encoded: Seq<u8>,
    now: u64,
)
    requires
        frames_increasing(e1.pending_output@),
        e2.acked(&e1, ack_frame),
        e3.sent_pending(&e2, connect_status, encoded, now),
        e2.pending_output@.len() > 0,
    ensures
        e3.send_queue@.last().body matches MessageBody::Input(i) && i.start_frame > ack_frame,
{
    law_ack_drops_acknowledged(e1.pending_output@, ack_frame);
    let k = acked_count(e1.pending_output@, ack_frame);
    assert(e2.pending_output@[0] == e1.pending_output@[k as int]);
}

/// Every event reporting the inputs of the given frames reports an input of one of them.
proof fn lemma_input_event_frames(evs: Seq<Event>, items: Seq<(Frame, Seq<u8>)>, handles: Seq<PlayerHandle>, bound: int)
    requires
        input_events(evs, items, handles),
        forall|t: int| 0 <= t < items.len() ==> (#[trigger] items[t]).0 > bound,
    ensures
        forall|i: int| 0 <= i < evs.len() ==> (#[trigger] evs[i] matches Event::Input { input, .. } && input.frame > bound),
    decreases items.len(),
{
    if items.len() > 0 {
        let n = evs.len() - handles.len();
        let prev = items.drop_last();
        assert forall|t: int| 0 <= t < prev.len() implies (#[trigger] prev[t]).0 > bound by {
            assert(prev[t] == items[t]);
        }
        lemma_input_event_frames(evs.subrange(0, n), prev, handles, bound);
        let last = items[items.len() - 1];
        assert forall|i: int| 0 <= i < evs.len() implies (#[trigger] evs[i] matches Event::Input { input, .. } && input.frame > bound) by {
            if i < n {
                assert(evs[i] == evs.subrange(0, n)[i]);
            } else {
                let chunk = evs.subrange(n, evs.len() as int);
                assert(evs[i] == chunk[i - n]);
                let k = last.1.len() / handles.len();
                assert(is_input_event(chunk[i - n], last.0, handles[i - n], last.1.subrange((i - n) * k, (i - n) * k + k)));
            }
        }
    }
}

/// Each frame's input is reported once: the last received frame never goes back, and the
/// inputs an input message reports all belong to frames after the last one received before it.
pub proof fn law_inputs_reported_once<A: Address>(
    before: UdpProtocol<A>,
    after: UdpProtocol<A>,
    body: Input,
    now: u64,
    decoded: Option<Vec<Vec<u8>>>,
)
    requires
        before.inv(),
        before.input_acceptable(body, decoded),
        after.input_handled(&before, body, now, decoded),
    ensures
        after.spec_last_recv_frame() >= before.spec_last_recv_frame(),
        forall|i: int|
            before.event_queue@.len() <= i < after.event_queue@.len() ==> (#[trigger] after.event_queue@[i] matches Event::Input { input, .. }
                ==> input.frame > before.spec_last_recv_frame()),
{
    let last = before.spec_last_recv_frame();
    let decode_frame = if last == NULL_FRAME { NULL_FRAME } else { (body.start_frame - 1) as Frame };
    let disconnect_event = body.disconnect_requested && before.timers.state != ProtocolState::Disconnected
        && !before.timers.disconnect_event_sent;
    let ev0 = if disconnect_event { before.event_queue@.push(Event::Disconnected) } else { before.event_queue@ };
    if has_frame(before.recv_inputs@, decode_frame) && decoded is Some {
        let list = byte_views(decoded->0@);
        let items = fresh_items(list, body.start_frame, last);
        lemma_fresh_items(list, body.start_frame, last);
        let new_last = if items.len() > 0 { items.last().0 } else { last };
        let mid = choose|mid: Seq<InputBytes>|
            inputs_appended(mid, before.recv_inputs@, items) && after.recv_inputs@ == keep_inputs_from(
                mid,
                (new_last - 2 * before.config.max_prediction) as Frame,
            );
        if mid.len() > 0 {
            if items.len() > 0 {
                assert(mid[before.recv_inputs@.len() + (items.len() - 1)].frame == items[items.len() - 1].0);
                assert(mid.last().frame == new_last);
            } else {
                assert(mid.subrange(0, before.recv_inputs@.len() as int) == before.recv_inputs@);
                assert(mid == before.recv_inputs@);
            }
            if items.len() > 0 {
                assert(items[items.len() - 1].0 > last);
            }
            assert(before.recv_inputs@.len() > 0 ==> before.recv_inputs@.last().frame >= NULL_FRAME);
            assert(keep_inputs_from(mid, (new_last - 2 * before.config.max_prediction) as Frame).last() == mid.last());
        }
        let tail = after.event_queue@.subrange(ev0.len() as int, after.event_queue@.len() as int);
        lemma_input_event_frames(tail, items, before.config.handles@, last as int);
        assert forall|i: int|
            before.event_queue@.len() <= i < after.event_queue@.len() implies (#[trigger] after.event_queue@[i] matches Event::Input { input, .. }
                ==> input.frame > last) by {
            if i >= ev0.len() {
                assert(after.event_queue@[i] == tail[i - ev0.len()]);
            } else {
                assert(after.event_queue@[i] == ev0[i]);
            }
        }
    }
}

/// The order of connection states: running, then disconnected, then shut down.
pub open spec fn state_rank(s: ProtocolState) -> int {
    match s {
        ProtocolState::Running => 0,
        ProtocolState::Disconnected => 1,
        ProtocolState::Shutdown => 2,
    }
}

/// The number of disconnect events.
pub open spec fn count_disconnects(s: Seq<Event>) -> nat
    decreases s.len(),
{
    if s.len() == 0 {
        0
    } else {
        count_disconnects(s.drop_last()) + if s.last() is Disconnected { 1nat } else { 0nat }
    }
}

/// The number of interruption events.
pub open spec fn count_interruptions(s: Seq<Event>) -> nat
    decreases s.len(),
{
    if s.len() == 0 {
        0
    } else {
        count_interruptions(s.drop_last()) + if s.last() is NetworkInterrupted { 1nat } else { 0nat }
    }
}

/// The number of resumption events.
pub open spec fn count_resumes(s: Seq<Event>) -> nat
    decreases s.len(),
{
    if s.len() == 0 {
        0
    } else {
        count_resumes(s.drop_last()) + if s.last() is NetworkResumed { 1nat } else { 0nat }
    }
}

/// One call's effect on the connection's life, from timers `before` to `after`, reporting
/// `new_events`: the state only moves forward (running, disconnected, shut down); a
/// disconnect is reported exactly when the disconnect flag is first raised, and never
/// lowered; an interruption exactly when the interruption flag is raised, and a resumption
/// exactly when it is lowered.
pub open spec fn lifecycle_step(before: ProtocolTimers, after: ProtocolTimers, new_events: Seq<Event>) -> bool {
    &&& state_rank(before.state) <= state_rank(after.state)
    &&& before.disconnect_event_sent ==> after.disconnect_event_sent
    &&& count_disconnects(new_events) == if !before.disconnect_event_sent && after.disconnect_event_sent { 1nat } else { 0nat }
    &&& count_interruptions(new_events) == if !before.disconnect_notify_sent && after.disconnect_notify_sent { 1nat } else { 0nat }
    &&& count_resumes(new_events) == if before.disconnect_notify_sent && !after.disconnect_notify_sent { 1nat } else { 0nat }
}

/// Counting events of a concatenation adds the counts of its parts.
pub proof fn lemma_counts_add(a: Seq<Event>, b: Seq<Event>)
    ensures
        count_disconnects(a + b) == count_disconnects(a) + count_disconnects(b),
        count_interruptions(a + b) == count_interruptions(a) + count_interruptions(b),
        count_resumes(a + b) == count_resumes(a) + count_resumes(b),
    decreases b.len(),
{
    if b.len() > 0 {
        lemma_counts_add(a, b.drop_last());
        assert((a + b).drop_last() =~= a + b.drop_last());
    } else {
        assert(a + b =~= a);
    }
}

/// Events that all report inputs count no disconnect, interruption or resumption.
proof fn lemma_input_events_count_nothing(s: Seq<Event>)
    requires
        forall|i: int| 0 <= i < s.len() ==> (#[trigger] s[i]) is Input,
    ensures
        count_disconnects(s) == 0,
        count_interruptions(s) == 0,
        count_resumes(s) == 0,
    decreases s.len(),
{
    if s.len() > 0 {
        assert forall|i: int| 0 <= i < s.drop_last().len() implies (#[trigger] s.drop_last()[i]) is Input by {
            assert(s.drop_last()[i] == s[i]);
        }
        lemma_input_events_count_nothing(s.drop_last());
        assert(s.last() == s[s.len() - 1]);
    }
}

/// The events of several calls, one after the other.
pub open spec fn all_events(evs: Seq<Seq<Event>>) -> Seq<Event>
    decreases evs.len(),
{
    if evs.len() == 0 {
        Seq::empty()
    } else {
        all_events(evs.drop_last()) + evs.last()
    }
}

/// Over any sequence of polls, handled messages and disconnects, the connection only moves
/// forward from running to disconnected to shut down; a disconnect is reported at most once
/// (exactly when the disconnect flag was raised in between); and interruptions and
/// resumptions alternate: they differ in number by how the interruption flag changed.
pub proof fn law_lifecycle_over_calls(ts: Seq<ProtocolTimers>, evs: Seq<Seq<Event>>)
    requires
        ts.len() == evs.len() + 1,
        forall|i: int| 0 <= i < evs.len() ==> #[trigger] lifecycle_step(ts[i], ts[i + 1], evs[i]),
    ensures
        state_rank(ts[0].state) <= state_rank(ts.last().state),
        ts[0].disconnect_event_sent ==> ts.last().disconnect_event_sent,
        count_disconnects(all_events(evs)) == if !ts[0].disconnect_event_sent && ts.last().disconnect_event_sent { 1nat } else { 0nat },
        count_disconnects(all_events(evs)) <= 1,
        count_interruptions(all_events(evs)) - count_resumes(all_events(evs)) == (if ts.last().disconnect_notify_sent { 1int } else { 0int }) - (if ts[0].disconnect_notify_sent { 1int } else { 0int }),
    decreases evs.len(),
{
    if evs.len() > 0 {
        let ts0 = ts.drop_last();
        let evs0 = evs.drop_last();
        assert forall|i: int| 0 <= i < evs0.len() implies #[trigger] lifecycle_step(ts0[i], ts0[i + 1], evs0[i]) by {
            assert(lifecycle_step(ts[i], ts[i + 1], evs[i]));
        }
        law_lifecycle_over_calls(ts0, evs0);
        let n = evs.len() - 1;
        assert(lifecycle_step(ts[n], ts[n + 1], evs[n]));
        lemma_counts_add(all_events(evs0), evs.last());
    }
}

/// Events reporting the inputs of some frames are all input events.
proof fn lemma_input_events_are_inputs(evs: Seq<Event>, items: Seq<(Frame, Seq<u8>)>, handles: Seq<PlayerHandle>)
    requires
        input_events(evs, items, handles),
    ensures
        forall|i: int| 0 <= i < evs.len() ==> (#[trigger] evs[i]) is Input,
    decreases items.len(),
{
    if items.len() > 0 {
        let n = evs.len() - handles.len();
        lemma_input_events_are_inputs(evs.subrange(0, n), items.drop_last(), handles);
        let last = items[items.len() - 1];
        assert forall|i: int| 0 <= i < evs.len() implies (#[trigger] evs[i]) is Input by {
            if i < n {
                assert(evs[i] == evs.subrange(0, n)[i]);
            } else {
                let chunk = evs.subrange(n, evs.len() as int);
                assert(evs[i] == chunk[i - n]);
                let k = last.1.len() / handles.len();
                assert(is_input_event(chunk[i - n], last.0, handles[i - n], last.1.subrange((i - n) * k, (i - n) * k + k)));
            }
        }
    }
}

/// The counts of a one-event sequence.
proof fn lemma_counts_one(e: Event)
    ensures
        count_disconnects(seq![e]) == if e is Disconnected { 1nat } else { 0nat },
        count_interruptions(seq![e]) == if e is NetworkInterrupted { 1nat } else { 0nat },
        count_resumes(seq![e]) == if e is NetworkResumed { 1nat } else { 0nat },
{
    let s = seq![e];
    assert(s.drop_last() =~= Seq::<Event>::empty());
    assert(s.last() == e);
    assert(count_disconnects(Seq::<Event>::empty()) == 0);
    assert(count_interruptions(Seq::<Event>::empty()) == 0);
    assert(count_resumes(Seq::<Event>::empty()) == 0);
    assert(count_disconnects(s) == count_disconnects(s.drop_last()) + if s.last() is Disconnected { 1nat } else { 0nat });
    assert(count_interruptions(s) == count_interruptions(s.drop_last()) + if s.last() is NetworkInterrupted { 1nat } else { 0nat });
    assert(count_resumes(s) == count_resumes(s.drop_last()) + if s.last() is NetworkResumed { 1nat } else { 0nat });
}

/// A poll of a running endpoint is one step of its life, and only appends events.
proof fn lemma_poll_lifecycle<A: Address>(
    before: UdpProtocol<A>,
    after: UdpProtocol<A>,
    now: u64,
    wall_now: u128,
    connect_status: Seq<(PlayerHandle, ConnectionStatus)>,
    encoded: Seq<u8>,
    events: Seq<Event>,
)
    requires
        before.timers.state == ProtocolState::Running,
        after.polled_running(&before, now, wall_now, connect_status, encoded, events),
    ensures
        events.subrange(0, before.event_queue@.len() as int) == before.event_queue@,
        lifecycle_step(before.timers, after.timers, events.subrange(before.event_queue@.len() as int, events.len() as int)),
{
    let t = before.timers;
    let notify = !t.disconnect_notify_sent && t.last_recv_time + before.config.disconnect_notify_start < now;
    let disconnect = !t.disconnect_event_sent && t.last_recv_time + before.config.disconnect_timeout < now;
    let x = if notify {
        seq![Event::NetworkInterrupted {
            disconnect_timeout: (before.config.disconnect_timeout - before.config.disconnect_notify_start) as u128,
        }]
    } else {
        Seq::<Event>::empty()
    };
    let y = if disconnect { seq![Event::Disconnected] } else { Seq::<Event>::empty() };
    let old_ev = before.event_queue@;
    assert(events == old_ev + x + y);
    assert(events.subrange(0, old_ev.len() as int) =~= old_ev);
    assert(events.subrange(old_ev.len() as int, events.len() as int) =~= x + y);
    lemma_counts_add(x, y);
    if notify {
        lemma_counts_one(x[0]);
        assert(x =~= seq![x[0]]);
    }
    if disconnect {
        lemma_counts_one(Event::Disconnected);
    }
    assert(count_disconnects(Seq::<Event>::empty()) == 0);
    assert(count_interruptions(Seq::<Event>::empty()) == 0);
    assert(count_resumes(Seq::<Event>::empty()) == 0);
    assert(count_disconnects(x) == 0);
    assert(count_resumes(x) == 0);
    assert(count_interruptions(y) == 0);
    assert(count_resumes(y) == 0);
}

/// Handling a message at a running or disconnected endpoint is one step of its life, and
/// only appends events.
proof fn lemma_handled_lifecycle<A: Address>(
    before: UdpProtocol<A>,
    pre: UdpProtocol<A>,
    after: UdpProtocol<A>,
    body: MessageBody,
    now: u64,
    wall_now: u128,
    decoded: Option<Vec<Vec<u8>>>,
)
    requires
        pre.resumed(&before, now),
        after.body_handled(&pre, body, now, wall_now, decoded),
    ensures
        after.event_queue@.len() >= before.event_queue@.len(),
        after.event_queue@.subrange(0, before.event_queue@.len() as int) == before.event_queue@,
        lifecycle_step(
            before.timers,
            after.timers,
            after.event_queue@.subrange(before.event_queue@.len() as int, after.event_queue@.len() as int),
        ),
{
    let resume = before.timers.disconnect_notify_sent && before.timers.state == ProtocolState::Running;
    let r = if resume { seq![Event::NetworkResumed] } else { Seq::<Event>::empty() };
    let n0 = before.event_queue@.len() as int;
    assert(pre.event_queue@ =~= before.event_queue@ + r);
    if resume {
        lemma_counts_one(Event::NetworkResumed);
    }
    // the events this body adds after those of `pre`
    let mut d = Seq::<Event>::empty();
    let mut tail = Seq::<Event>::empty();
    match body {
        MessageBody::Input(b) => {
            let disconnect_event = b.disconnect_requested && pre.timers.state != ProtocolState::Disconnected
                && !pre.timers.disconnect_event_sent;
            if disconnect_event {
                d = seq![Event::Disconnected];
                lemma_counts_one(Event::Disconnected);
            }
            let ev0 = if disconnect_event { pre.event_queue@.push(Event::Disconnected) } else { pre.event_queue@ };
            assert(ev0 =~= pre.event_queue@ + d);
            let last = pre.spec_last_recv_frame();
            let decode_frame = if last == NULL_FRAME { NULL_FRAME } else { (b.start_frame - 1) as Frame };
            if has_frame(pre.recv_inputs@, decode_frame) && decoded is Some {
                let items = fresh_items(byte_views(decoded->0@), b.start_frame, last);
                tail = after.event_queue@.subrange(ev0.len() as int, after.event_queue@.len() as int);
                lemma_input_events_are_inputs(tail, items, pre.config.handles@);
                lemma_input_events_count_nothing(tail);
                assert(after.event_queue@ =~= ev0 + tail);
            } else {
                assert(after.event_queue@ =~= ev0 + tail);
            }
        },
        _ => {
            assert(after.event_queue@ =~= pre.event_queue@ + d + tail);
        },
    }
    assert(after.event_queue@ =~= before.event_queue@ + r + d + tail);
    assert(after.event_queue@.subrange(0, n0) =~= before.event_queue@);
    assert(after.event_queue@.subrange(n0, after.event_queue@.len() as int) =~= r + d + tail);
    lemma_counts_add(r, d);
    lemma_counts_add(r + d, tail);
}

/// Keeping the inputs from a frame on keeps every input of that frame or a later one.
proof fn lemma_keep_inputs_keeps_recent(s: Seq<InputBytes>, oldest: Frame, t: int)
    requires
        0 <= t < s.len(),
        s[t].frame >= oldest,
    ensures
        keep_inputs_from(s, oldest).contains(s[t]),
    decreases s.len(),
{
    if t < s.len() - 1 {
        lemma_keep_inputs_keeps_recent(s.drop_last(), oldest, t);
        assert(s.drop_last()[t] == s[t]);
        let k = keep_inputs_from(s.drop_last(), oldest);
        let j = choose|j: int| 0 <= j < k.len() && k[j] == s[t];
        if s.last().frame >= oldest {
            assert(keep_inputs_from(s, oldest)[j] == s[t]);
        }
    } else {
        let k = keep_inputs_from(s, oldest);
        assert(k[k.len() - 1] == s[t]);
    }
}

/// Handling an input message forgets only received inputs more than twice the prediction
/// window behind the newest received frame afterwards: every input kept before whose frame
/// is within that window is still kept, so a peer resending from an older frame can still
/// be decoded.
pub proof fn law_inputs_kept_for_twice_the_window<A: Address>(
    before: UdpProtocol<A>,
    after: UdpProtocol<A>,
    body: Input,
    now: u64,
    decoded: Option<Vec<Vec<u8>>>,
)
    requires
        before.inv(),
        before.input_acceptable(body, decoded),
        after.input_handled(&before, body, now, decoded),
    ensures
        forall|t: int|
            0 <= t < before.recv_inputs@.len() && before.recv_inputs@[t].frame >= after.spec_last_recv_frame()
                - 2 * before.config.max_prediction ==> after.recv_inputs@.contains(#[trigger] before.recv_inputs@[t]),
{
    let last = before.spec_last_recv_frame();
    let decode_frame = if last == NULL_FRAME { NULL_FRAME } else { (body.start_frame - 1) as Frame };
    if has_frame(before.recv_inputs@, decode_frame) && decoded is Some {
        let list = byte_views(decoded->0@);
        let items = fresh_items(list, body.start_frame, last);
        lemma_fresh_items(list, body.start_frame, last);
        let new_last = if items.len() > 0 { items.last().0 } else { last };
        let thr = (new_last - 2 * before.config.max_prediction) as Frame;
        let mid = choose|mid: Seq<InputBytes>|
            inputs_appended(mid, before.recv_inputs@, items) && after.recv_inputs@ == keep_inputs_from(mid, thr);
        assert forall|t: int|
            0 <= t < before.recv_inputs@.len() && before.recv_inputs@[t].frame >= after.spec_last_recv_frame()
                - 2 * before.config.max_prediction implies after.recv_inputs@.contains(#[trigger] before.recv_inputs@[t]) by {
            assert(mid.subrange(0, before.recv_inputs@.len() as int)[t] == mid[t]);
            assert(mid[t] == before.recv_inputs@[t]);
            if items.len() > 0 {
                assert(mid[before.recv_inputs@.len() + (items.len() - 1)].frame == items[items.len() - 1].0);
                assert(mid.last().frame == new_last);
            } else {
                assert(mid.subrange(0, before.recv_inputs@.len() as int) == before.recv_inputs@);
                assert(mid == before.recv_inputs@);
            }
            assert(keep_inputs_from(mid, thr).last() == mid.last());
            assert(after.spec_last_recv_frame() == new_last);
            lemma_keep_inputs_keeps_recent(mid, thr, t);
        }
    }
}

/// Merging the peer's report never moves a player's last frame back or clears its
/// disconnection: where the report has the player, the result is disconnected if either
/// side says so, and its last frame is the later of the two.
pub proof fn law_merge_keeps_later_frame(own: (PlayerHandle, ConnectionStatus), reported: Seq<(PlayerHandle, ConnectionStatus)>)
    ensures
        merge_status(own, reported).0 == own.0,
        merge_status(own, reported).1.last_frame >= own.1.last_frame,
        own.1.disconnected ==> merge_status(own, reported).1.disconnected,
        reported_status(reported, own.0) matches Some(r) ==> {
            &&& merge_status(own, reported).1.last_frame >= r.last_frame
            &&& (merge_status(own, reported).1.last_frame == own.1.last_frame
                || merge_status(own, reported).1.last_frame == r.last_frame)
            &&& merge_status(own, reported).1.disconnected == (r.disconnected || own.1.disconnected)
        },
        reported_status(reported, own.0) is None ==> merge_status(own, reported) == own,
{
}

/// Handling an input message never moves back the last frame the peer reported of a
/// player, nor clears a reported disconnection.
pub proof fn law_reported_frames_never_go_back<A: Address>(
    before: UdpProtocol<A>,
    after: UdpProtocol<A>,
    body: Input,
    now: u64,
    decoded: Option<Vec<Vec<u8>>>,
)
    requires
        after.input_handled(&before, body, now, decoded),
    ensures
        after.peer_connect_status@.len() == before.peer_connect_status@.len(),
        forall|i: int|
            0 <= i < before.peer_connect_status@.len() ==> {
                &&& (#[trigger] after.peer_connect_status@[i]).0 == before.peer_connect_status@[i].0
                &&& after.peer_connect_status@[i].1.last_frame >= before.peer_connect_status@[i].1.last_frame
                &&& before.peer_connect_status@[i].1.disconnected ==> after.peer_connect_status@[i].1.disconnected
            },
{
    assert forall|i: int| 0 <= i < before.peer_connect_status@.len() implies {
        &&& (#[trigger] after.peer_connect_status@[i]).0 == before.peer_connect_status@[i].0
        &&& after.peer_connect_status@[i].1.last_frame >= before.peer_connect_status@[i].1.last_frame
        &&& before.peer_connect_status@[i].1.disconnected ==> after.peer_connect_status@[i].1.disconnected
    } by {
        law_merge_keeps_later_frame(before.peer_connect_status@[i], body.peer_connect_status@);
    }
}

/// Returns a random magic number, never zero.
///
/// Calls `rand::random::<NonZeroU16>()`, which draws until the value is not zero; the
/// contract claims only that it is not zero.
#[verifier::external_body]
fn random_magic() -> (r: u16)
    ensures
        r != 0,
{
    rand::random::<core::num::NonZeroU16>().get()
}

} // verus!
