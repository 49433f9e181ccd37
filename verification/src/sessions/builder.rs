//! The builder that collects the settings and players of a session.

use std::collections::HashMap;
use vstd::prelude::*;
use vstd::slice::slice_to_vec;
use vstd::std_specs::hash::{obeys_key_model, spec_hash_map_iter};
use vstd::std_specs::iter::IteratorSpec;

use instant::Duration;

use crate::error::GgrsError;
use crate::network::protocol::UdpProtocol;
use crate::{Address, DesyncDetection, PlayerHandle, PlayerType};

verus! {

broadcast use vstd::std_specs::hash::group_hash_axioms;

/// Whether sparse saving is on by default.
pub const DEFAULT_SAVE_MODE: bool = false;
/// The default input delay, in frames.
pub const DEFAULT_INPUT_DELAY: usize = 0;
/// The default disconnect timeout, in milliseconds.
pub const DEFAULT_DISCONNECT_TIMEOUT_MS: u64 = 2000;
/// The default delay before a disconnect notification, in milliseconds.
pub const DEFAULT_DISCONNECT_NOTIFY_START_MS: u64 = 500;
/// The default expected update frequency.
pub const DEFAULT_FPS: usize = 60;
/// The default prediction window, in frames.
pub const DEFAULT_MAX_PREDICTION_FRAMES: usize = 8;
/// The default check distance of sync tests.
pub const DEFAULT_CHECK_DISTANCE: usize = 2;
/// If the spectator is more than this amount of frames behind, it will advance the game two steps at a time to catch up
pub const DEFAULT_MAX_FRAMES_BEHIND: usize = 10;
/// The amount of frames the spectator advances in a single step if too far behind
pub const DEFAULT_CATCHUP_SPEED: usize = 1;
/// The amount of events a spectator can buffer; should never be an issue if the user polls the events at every step
pub const MAX_EVENT_QUEUE_SIZE: usize = 100;
/// The number of frames of inputs a spectator buffers.
pub const SPECTATOR_BUFFER_SIZE: usize = 60;

/// The settings and players that a builder has collected.
pub struct BuilderModel<A> {
    pub max_prediction: usize,
    pub fps: usize,
    pub sparse_saving: bool,
    pub desync_detection: DesyncDetection,
    pub disconnect_timeout: Duration,
    pub disconnect_notify_start: Duration,
    pub players: Map<usize, PlayerType<A>>,
    pub input_delay: usize,
    pub check_dist: usize,
    pub max_frames_behind: usize,
    pub catchup_speed: usize,
}

/// The builder of sessions: it collects settings and players; a session is then started
/// from what it holds.
#[derive(Debug)]
pub struct SessionBuilder<A: Address> {
    max_prediction: usize,
    /// FPS defines the expected update frequency of this session.
    fps: usize,
    sparse_saving: bool,
    desync_detection: DesyncDetection,
    /// The time until a remote player gets disconnected.
    disconnect_timeout: Duration,
    /// The time until the client will get a notification that a remote player is about to be disconnected.
    disconnect_notify_start: Duration,
    /// The registered players, by handle.
    players: HashMap<usize, PlayerType<A>>,
    input_delay: usize,
    check_dist: usize,
    max_frames_behind: usize,
    catchup_speed: usize,
}

impl<A: Address> View for SessionBuilder<A> {
    type V = BuilderModel<A>;

    closed spec fn view(&self) -> BuilderModel<A> {
        BuilderModel {
            max_prediction: self.max_prediction,
            fps: self.fps,
            sparse_saving: self.sparse_saving,
            desync_detection: self.desync_detection,
            disconnect_timeout: self.disconnect_timeout,
            disconnect_notify_start: self.disconnect_notify_start,
            players: self.players@,
            input_delay: self.input_delay,
            check_dist: self.check_dist,
            max_frames_behind: self.max_frames_behind,
            catchup_speed: self.catchup_speed,
        }
    }
}

/// The result is the error of an invalid request with the given explanation.
pub open spec fn fails_with<T>(r: Result<T, GgrsError>, info: Seq<char>) -> bool {
    r matches Err(e) && is_invalid_request(e, info)
}

/// The error of an invalid request with the given explanation.
pub open spec fn is_invalid_request(e: GgrsError, info: Seq<char>) -> bool {
    e matches GgrsError::InvalidRequest { info: i } && i@ == info
}

impl<A: Address> SessionBuilder<A> {
    /// The settings of a new builder: every value at its default, no players.
    pub open spec fn defaults(b: BuilderModel<A>) -> bool {
        &&& b.max_prediction == DEFAULT_MAX_PREDICTION_FRAMES
        &&& b.fps == DEFAULT_FPS
        &&& b.sparse_saving == DEFAULT_SAVE_MODE
        &&& b.desync_detection == DesyncDetection::Off
        &&& b.players == Map::<usize, PlayerType<A>>::empty()
        &&& b.input_delay == DEFAULT_INPUT_DELAY
        &&& b.check_dist == DEFAULT_CHECK_DISTANCE
        &&& b.max_frames_behind == DEFAULT_MAX_FRAMES_BEHIND
        &&& b.catchup_speed == DEFAULT_CATCHUP_SPEED
    }

    /// Construct a new builder with all values set to their defaults.
    ///
    /// The disconnect timeout is two seconds and the disconnect notification comes after half
    /// a second.
    pub fn new() -> (r: Self)
        ensures
            Self::defaults(r@),
            r@.disconnect_timeout == duration_from_millis_value(DEFAULT_DISCONNECT_TIMEOUT_MS),
            r@.disconnect_notify_start == duration_from_millis_value(DEFAULT_DISCONNECT_NOTIFY_START_MS),
    {
        let r = Self {
            max_prediction: DEFAULT_MAX_PREDICTION_FRAMES,
            fps: DEFAULT_FPS,
            sparse_saving: DEFAULT_SAVE_MODE,
            desync_detection: DesyncDetection::Off,
            disconnect_timeout: duration_from_millis(DEFAULT_DISCONNECT_TIMEOUT_MS),
            disconnect_notify_start: duration_from_millis(DEFAULT_DISCONNECT_NOTIFY_START_MS),
            players: HashMap::new(),
            input_delay: DEFAULT_INPUT_DELAY,
            check_dist: DEFAULT_CHECK_DISTANCE,
            max_frames_behind: DEFAULT_MAX_FRAMES_BEHIND,
            catchup_speed: DEFAULT_CATCHUP_SPEED,
        };
        assert(r.players@ =~= Map::<usize, PlayerType<A>>::empty());
        r
    }

    /// Registers a player under a handle. Must be called for each player and spectator of the
    /// session before the session starts.
    ///
    /// # Errors
    /// - Returns [`GgrsError::InvalidRequest`] if a player with that handle has been added before
    pub fn add_player(self, player_type: PlayerType<A>, player_handle: PlayerHandle) -> (r: Result<Self, GgrsError>)
        ensures
            self@.players.contains_key(player_handle.0) ==> fails_with(r, "Player handle already in use."@),
            !self@.players.contains_key(player_handle.0) ==> (r matches Ok(b) && b@ == (BuilderModel {
                players: self@.players.insert(player_handle.0, player_type),
                ..self@
            })),
    {
        let mut this = self;
        assert(obeys_key_model::<usize>());
        // check if the player handle is already in use
        if this.players.contains_key(&player_handle.0) {
            return Err(GgrsError::InvalidRequest { info: "Player handle already in use.".to_owned() });
        }
        this.players.insert(player_handle.0, player_type);
        Ok(this)
    }

    /// Change the maximum prediction window. Default is 8.
    ///
    /// As a special case, a window of 0 runs the session in lockstep mode: the game state is
    /// only advanced once the current frame has inputs confirmed from all other clients, and
    /// it is never saved or rolled back.
    pub fn with_max_prediction_window(self, window: usize) -> (r: Self)
        ensures
            r@ == (BuilderModel { max_prediction: window, ..self@ }),
    {
        let mut this = self;
        this.max_prediction = window;
        this
    }

    /// Change the amount of frames the inputs of local players are delayed by.
    pub fn with_input_delay(self, delay: usize) -> (r: Self)
        ensures
            r@ == (BuilderModel { input_delay: delay, ..self@ }),
    {
        let mut this = self;
        this.input_delay = delay;
        this
    }

    /// Sets the sparse saving mode. With sparse saving turned on, only the minimum confirmed
    /// frame (for which all inputs from all players are confirmed correct) will be saved.
    pub fn with_sparse_saving_mode(self, sparse_saving: bool) -> (r: Self)
        ensures
            r@ == (BuilderModel { sparse_saving, ..self@ }),
    {
        let mut this = self;
        this.sparse_saving = sparse_saving;
        this
    }

    /// Sets the desync detection mode. With desync detection, the session compares checksums
    /// with all peers to detect discrepancies.
    pub fn with_desync_detection_mode(self, desync_detection: DesyncDetection) -> (r: Self)
        ensures
            r@ == (BuilderModel { desync_detection, ..self@ }),
    {
        let mut this = self;
        this.desync_detection = desync_detection;
        this
    }

    /// Sets the disconnect timeout. The session disconnects from a remote peer if it has not
    /// received a packet within this time.
    pub fn with_disconnect_timeout(self, timeout: Duration) -> (r: Self)
        ensures
            r@ == (BuilderModel { disconnect_timeout: timeout, ..self@ }),
    {
        let mut this = self;
        this.disconnect_timeout = timeout;
        this
    }

    /// Sets the time before the first notification is sent when no packets arrive.
    pub fn with_disconnect_notify_delay(self, notify_delay: Duration) -> (r: Self)
        ensures
            r@ == (BuilderModel { disconnect_notify_start: notify_delay, ..self@ }),
    {
        let mut this = self;
        this.disconnect_notify_start = notify_delay;
        this
    }

    /// Sets the FPS this session is used with.
    ///
    /// # Errors
    /// - Returns [`GgrsError::InvalidRequest`] if the fps is 0
    pub fn with_fps(self, fps: usize) -> (r: Result<Self, GgrsError>)
        ensures
            fps == 0 ==> fails_with(r, "FPS should be higher than 0."@),
            fps != 0 ==> (r matches Ok(b) && b@ == (BuilderModel { fps, ..self@ })),
    {
        let mut this = self;
        if fps == 0 {
            return Err(GgrsError::InvalidRequest { info: "FPS should be higher than 0.".to_owned() });
        }
        this.fps = fps;
        Ok(this)
    }

    /// Change the check distance. Default is 2.
    pub fn with_check_distance(self, check_distance: usize) -> (r: Self)
        ensures
            r@ == (BuilderModel { check_dist: check_distance, ..self@ }),
    {
        let mut this = self;
        this.check_dist = check_distance;
        this
    }

    /// Sets the maximum frames behind. If a spectator is more than this amount of frames
    /// behind the received inputs, it catches up with `catchup_speed` frames per step.
    ///
    /// # Errors
    /// - Returns [`GgrsError::InvalidRequest`] if the value is 0 or not smaller than the
    ///   spectator buffer size
    pub fn with_max_frames_behind(self, max_frames_behind: usize) -> (r: Result<Self, GgrsError>)
        ensures
            max_frames_behind < 1 ==> fails_with(r, "Max frames behind cannot be smaller than 1."@),
            max_frames_behind >= SPECTATOR_BUFFER_SIZE ==> fails_with(r, "Max frames behind cannot be larger or equal than the Spectator buffer size (60)"@),
            1 <= max_frames_behind < SPECTATOR_BUFFER_SIZE ==> (r matches Ok(b) && b@ == (BuilderModel {
                max_frames_behind,
                ..self@
            })),
    {
        let mut this = self;
        if max_frames_behind < 1 {
            return Err(GgrsError::InvalidRequest { info: "Max frames behind cannot be smaller than 1.".to_owned() });
        }
        if max_frames_behind >= SPECTATOR_BUFFER_SIZE {
            return Err(
                GgrsError::InvalidRequest {
                    info: "Max frames behind cannot be larger or equal than the Spectator buffer size (60)".to_owned(),
                },
            );
        }
        this.max_frames_behind = max_frames_behind;
        Ok(this)
    }

    /// Sets the catchup speed. Per default, this is set to 1, so the spectator never catches
    /// up. It must be smaller than the maximum frames behind.
    ///
    /// # Errors
    /// - Returns [`GgrsError::InvalidRequest`] if the value is 0 or not smaller than the
    ///   maximum frames behind
    pub fn with_catchup_speed(self, catchup_speed: usize) -> (r: Result<Self, GgrsError>)
        ensures
            catchup_speed < 1 ==> fails_with(r, "Catchup speed cannot be smaller than 1."@),
            catchup_speed >= 1 && catchup_speed >= self@.max_frames_behind ==> fails_with(r, "Catchup speed cannot be larger or equal than the allowed maximum frames behind host"@),
            1 <= catchup_speed < self@.max_frames_behind ==> (r matches Ok(b) && b@ == (BuilderModel {
                catchup_speed,
                ..self@
            })),
    {
        let mut this = self;
        if catchup_speed < 1 {
            return Err(GgrsError::InvalidRequest { info: "Catchup speed cannot be smaller than 1.".to_owned() });
        }
        if catchup_speed >= this.max_frames_behind {
            return Err(
                GgrsError::InvalidRequest {
                    info: "Catchup speed cannot be larger or equal than the allowed maximum frames behind host".to_owned(),
                },
            );
        }
        this.catchup_speed = catchup_speed;
        Ok(this)
    }
}

/// The handles of a list in strictly increasing order.
pub open spec fn strictly_increasing(hs: Seq<PlayerHandle>) -> bool {
    forall|i: int, j: int| 0 <= i < j < hs.len() ==> hs[i].0 < hs[j].0
}

/// `hs` lists the handles of `s`, each once, in increasing order.
pub open spec fn lists_in_order(hs: Seq<PlayerHandle>, s: Set<usize>) -> bool {
    &&& strictly_increasing(hs)
    &&& forall|h: usize| #[trigger] s.contains(h) <==> hs.contains(PlayerHandle(h))
}

/// Whether a player of this kind plays the game (is not a spectator).
pub open spec fn is_playing<A>(t: PlayerType<A>) -> bool {
    t is Local || t is Remote
}

/// The handles of the local players.
pub open spec fn local_handles<A>(players: Map<usize, PlayerType<A>>) -> Set<usize> {
    Set::new(|h: usize| players.contains_key(h) && players[h] is Local)
}

/// The handles of the players that play (local and remote, not spectators).
pub open spec fn playing_handles<A>(players: Map<usize, PlayerType<A>>) -> Set<usize> {
    Set::new(|h: usize| players.contains_key(h) && is_playing(players[h]))
}

/// A duration in milliseconds, capped at the largest `u64` (over half a billion years).
pub open spec fn capped_millis(ms: u128) -> u64 {
    if ms > u64::MAX {
        u64::MAX
    } else {
        ms as u64
    }
}

/// What a sync test session is started with.
#[derive(Debug, Clone)]
pub struct SyncTestSettings {
    /// The local players, in handle order.
    pub local_handles: Vec<PlayerHandle>,
    pub max_prediction: usize,
    pub check_distance: usize,
    pub input_delay: usize,
}

/// What a spectator session is started with.
pub struct SpectatorSettings<A> {
    /// The endpoint to the host.
    pub host: UdpProtocol<A>,
    /// How many frames the spectator may fall behind the host before it catches up.
    pub max_frames_behind: usize,
    /// How many frames the spectator advances per step while catching up.
    pub catchup_speed: usize,
}

impl<A: Address> SessionBuilder<A> {
    /// The registered players, each once, in no particular order.
    fn player_entries(&self) -> (r: Vec<(usize, PlayerType<A>)>)
        ensures
            forall|i: int| 0 <= i < r@.len() ==> self@.players.contains_key(#[trigger] r@[i].0) && self@.players[r@[i].0] == r@[i].1,
            forall|h: usize| #[trigger] self@.players.contains_key(h) ==> exists|i: int| 0 <= i < r@.len() && r@[i].0 == h,
    {
        let mut out: Vec<(usize, PlayerType<A>)> = Vec::new();
        assert(obeys_key_model::<usize>());
        let ghost all = spec_hash_map_iter(&self.players).remaining();
        for (k, v) in it: self.players.iter()
            invariant
                it.seq() == all,
                out@.len() == it.index(),
                forall|i: int| 0 <= i < it.index() ==> #[trigger] out@[i] == (*all[i].0, *all[i].1),
            ensures
                out@.len() == all.len(),
        {
            out.push((*k, *v));
        }
        proof {
            assert forall|h: usize| #[trigger] self@.players.contains_key(h) implies exists|i: int| 0 <= i < out@.len() && out@[i].0 == h by {
                assert(self.players@.contains_key(h));
                assert(all.contains((&h, &self.players@[h])));
                let i = choose|i: int| 0 <= i < all.len() && all[i] == (&h, &self.players@[h]);
                assert(out@[i] == (*all[i].0, *all[i].1));
            }
        }
        out
    }

    /// The handles of the listed players that are local (or, with `playing`, that play), in
    /// increasing order.
    fn sorted_handles(entries: &Vec<(usize, PlayerType<A>)>, playing: bool) -> (r: Vec<PlayerHandle>)
        ensures
            strictly_increasing(r@),
            forall|h: usize| r@.contains(PlayerHandle(h)) <==> exists|i: int|
                0 <= i < entries@.len() && (#[trigger] entries@[i]).0 == h && (if playing {
                    is_playing(entries@[i].1)
                } else {
                    entries@[i].1 is Local
                }),
    {
        let mut out: Vec<PlayerHandle> = Vec::new();
        let mut i: usize = 0;
        while i < entries.len()
            invariant
                i <= entries@.len(),
                strictly_increasing(out@),
                forall|h: usize| out@.contains(PlayerHandle(h)) <==> exists|k: int|
                    0 <= k < i && (#[trigger] entries@[k]).0 == h && (if playing {
                        is_playing(entries@[k].1)
                    } else {
                        entries@[k].1 is Local
                    }),
            decreases entries@.len() - i,
        {
            let (h, t) = entries[i];
            let pick = match t {
                PlayerType::Local => true,
                PlayerType::Remote(_) => playing,
                PlayerType::Spectator(_) => false,
            };
            if pick && !contains_handle(&out, h) {
                insert_sorted(&mut out, PlayerHandle(h));
            }
            i = i + 1;
        }
        out
    }
}

/// Whether the handle is in the list.
fn contains_handle(v: &Vec<PlayerHandle>, h: usize) -> (r: bool)
    ensures
        r == v@.contains(PlayerHandle(h)),
{
    let mut j: usize = 0;
    while j < v.len()
        invariant
            j <= v@.len(),
            forall|k: int| 0 <= k < j ==> v@[k] != PlayerHandle(h),
        decreases v@.len() - j,
    {
        if v[j].0 == h {
            assert(v@[j as int] == PlayerHandle(h));
            return true;
        }
        j = j + 1;
    }
    false
}

/// Inserts a handle that is not in the list at its place in increasing order.
fn insert_sorted(v: &mut Vec<PlayerHandle>, h: PlayerHandle)
    requires
        strictly_increasing(old(v)@),
        !old(v)@.contains(h),
    ensures
        strictly_increasing(final(v)@),
        forall|x: PlayerHandle| final(v)@.contains(x) <==> (old(v)@.contains(x) || x == h),
{
    let mut pos: usize = 0;
    while pos < v.len() && v[pos].0 < h.0
        invariant
            pos <= v@.len(),
            v@ == old(v)@,
            forall|j: int| 0 <= j < pos ==> v@[j].0 < h.0,
        decreases v@.len() - pos,
    {
        pos = pos + 1;
    }
    proof {
        if pos < v@.len() {
            assert(v@[pos as int] != h);
            assert(v@[pos as int].0 != h.0);
        }
    }
    v.insert(pos, h);
    proof {
        assert forall|a: int, b: int| 0 <= a < b < v@.len() implies v@[a].0 < v@[b].0 by {
            if b < pos {
                assert(v@[a] == old(v)@[a] && v@[b] == old(v)@[b]);
            } else if b == pos {
                assert(v@[a] == old(v)@[a]);
            } else if a < pos {
                assert(v@[a] == old(v)@[a] && v@[b] == old(v)@[b - 1]);
                assert(old(v)@[a].0 < old(v)@[b - 1].0 || a == b - 1);
            } else if a == pos {
                assert(v@[b] == old(v)@[b - 1]);
                if pos < b - 1 {
                    assert(old(v)@[pos as int].0 < old(v)@[b - 1].0);
                }
            } else {
                assert(v@[a] == old(v)@[a - 1] && v@[b] == old(v)@[b - 1]);
            }
        }
        assert forall|x: PlayerHandle| v@.contains(x) <==> (old(v)@.contains(x) || x == h) by {
            if old(v)@.contains(x) {
                let k = choose|k: int| 0 <= k < old(v)@.len() && old(v)@[k] == x;
                if k < pos {
                    assert(v@[k] == x);
                } else {
                    assert(v@[k + 1] == x);
                }
            }
            if x == h {
                assert(v@[pos as int] == h);
            }
            if v@.contains(x) {
                let k = choose|k: int| 0 <= k < v@.len() && v@[k] == x;
                if k < pos {
                    assert(old(v)@[k] == x);
                } else if k > pos {
                    assert(old(v)@[k - 1] == x);
                }
            }
        }
    }
}

/// The handles of a list of increasing handles, all registered, are no more than the
/// registered players.
proof fn lemma_handles_bounded(hs: Seq<PlayerHandle>, d: Set<usize>)
    requires
        strictly_increasing(hs),
        d.finite(),
        forall|i: int| 0 <= i < hs.len() ==> d.contains(#[trigger] hs[i].0),
    ensures
        hs.len() <= d.len(),
{
    let ks = hs.map_values(|p: PlayerHandle| p.0);
    assert forall|i: int, j: int| 0 <= i < ks.len() && 0 <= j < ks.len() && i != j implies ks[i] != ks[j] by {
        if i < j {
            assert(hs[i].0 < hs[j].0);
        } else {
            assert(hs[j].0 < hs[i].0);
        }
    }
    assert(ks.no_duplicates());
    ks.unique_seq_to_set();
    assert forall|k: usize| ks.to_set().contains(k) implies d.contains(k) by {
        let i = choose|i: int| 0 <= i < ks.len() && ks[i] == k;
        assert(ks[i] == hs[i].0);
    }
    vstd::set_lib::lemma_len_subset(ks.to_set(), d);
}

impl<A: Address> SessionBuilder<A> {
    /// The handles of the local players (or, with `playing`, of the players that play), in
    /// increasing order.
    fn handles_in_order(&self, playing: bool) -> (r: Vec<PlayerHandle>)
        ensures
            lists_in_order(r@, if playing { playing_handles(self@.players) } else { local_handles(self@.players) }),
            r@.len() <= self@.players.len(),
    {
        let entries = self.player_entries();
        let r = Self::sorted_handles(&entries, playing);
        let ghost s = if playing { playing_handles(self@.players) } else { local_handles(self@.players) };
        proof {
            assert forall|h: usize| #[trigger] s.contains(h) <==> r@.contains(PlayerHandle(h)) by {
                if s.contains(h) {
                    assert(self@.players.contains_key(h));
                    let i = choose|i: int| 0 <= i < entries@.len() && entries@[i].0 == h;
                    assert(entries@[i].1 == self@.players[h]);
                }
                if r@.contains(PlayerHandle(h)) {
                    let i = choose|i: int|
                        0 <= i < entries@.len() && (#[trigger] entries@[i]).0 == h && (if playing {
                            is_playing(entries@[i].1)
                        } else {
                            entries@[i].1 is Local
                        });
                    assert(self@.players.contains_key(entries@[i].0));
                }
            }
            assert forall|i: int| 0 <= i < r@.len() implies self@.players.dom().contains(#[trigger] r@[i].0) by {
                assert(r@.contains(PlayerHandle(r@[i].0)));
                assert(r@[i] == PlayerHandle(r@[i].0));
                assert(s.contains(r@[i].0));
            }
            lemma_handles_bounded(r@, self@.players.dom());
        }
        r
    }

    /// The disconnect timeout in milliseconds, capped at the largest `u64`.
    fn disconnect_timeout_millis(&self) -> (r: u64)
        ensures
            r == capped_millis(duration_millis_value(self@.disconnect_timeout)),
    {
        let ms = duration_as_millis(self.disconnect_timeout);
        if ms > 18446744073709551615u128 { 18446744073709551615u64 } else { ms as u64 }
    }

    /// The disconnect notification delay in milliseconds, capped at the largest `u64`.
    fn disconnect_notify_millis(&self) -> (r: u64)
        ensures
            r == capped_millis(duration_millis_value(self@.disconnect_notify_start)),
    {
        let ms = duration_as_millis(self.disconnect_notify_start);
        if ms > 18446744073709551615u128 { 18446744073709551615u64 } else { ms as u64 }
    }

    /// The settings of a sync test session: the local players, the prediction window, the
    /// check distance and the input delay.
    ///
    /// # Errors
    /// - Returns [`GgrsError::InvalidRequest`] if the check distance is not smaller than the
    ///   prediction window.
    pub fn start_synctest_session(self) -> (r: Result<SyncTestSettings, GgrsError>)
        ensures
            self@.check_dist >= self@.max_prediction ==> fails_with(r, "Check distance too big."@),
            self@.check_dist < self@.max_prediction ==> (r matches Ok(s) && {
                &&& lists_in_order(s.local_handles@, local_handles(self@.players))
                &&& s.max_prediction == self@.max_prediction
                &&& s.check_distance == self@.check_dist
                &&& s.input_delay == self@.input_delay
            }),
    {
        if self.check_dist >= self.max_prediction {
            return Err(GgrsError::InvalidRequest { info: "Check distance too big.".to_owned() });
        }
        Ok(SyncTestSettings {
            local_handles: self.handles_in_order(false),
            max_prediction: self.max_prediction,
            check_distance: self.check_dist,
            input_delay: self.input_delay,
        })
    }

    /// What a spectator session is started with: the endpoint to the host at `host_addr`
    /// (the spectator treats every playing player as one of the host's, receives their inputs
    /// and sends none, and compares no checksums), and how far behind the host it may fall
    /// and how fast it catches up. Inputs take `input_size` bytes each; `now` and `wall_now`
    /// are the monotonic and the wall clock in milliseconds.
    pub fn start_spectator_session(self, host_addr: A, input_size: usize, now: u64, wall_now: u128) -> (r: SpectatorSettings<A>)
        requires
            input_size * self@.players.len() <= usize::MAX,
        ensures
            r.max_frames_behind == self@.max_frames_behind,
            r.catchup_speed == self@.catchup_speed,
            lists_in_order(r.host.config.handles@, playing_handles(self@.players)),
            r.host.created(
                r.host.config.handles@,
                host_addr,
                r.host.config.handles@,
                1,
                self@.max_prediction,
                capped_millis(duration_millis_value(self@.disconnect_timeout)),
                capped_millis(duration_millis_value(self@.disconnect_notify_start)),
                self@.fps,
                DesyncDetection::Off,
                input_size,
                now,
                wall_now,
            ),
    {
        let playing = self.handles_in_order(true);
        proof {
            assert(input_size * playing@.len() <= input_size * self@.players.len()) by (nonlinear_arith)
                requires
                    playing@.len() <= self@.players.len(),
            ;
        }
        let handles = slice_to_vec(playing.as_slice());
        // the spectator never sends, so which handle it claims as its own does not matter
        let local: Vec<PlayerHandle> = vec![PlayerHandle(0)];
        let host = UdpProtocol::new(
            handles,
            host_addr,
            playing.as_slice(),
            local.as_slice(),
            self.max_prediction,
            self.disconnect_timeout_millis(),
            self.disconnect_notify_millis(),
            self.fps,
            DesyncDetection::Off,
            input_size,
            now,
            wall_now,
        );
        SpectatorSettings { host, max_frames_behind: self.max_frames_behind, catchup_speed: self.catchup_speed }
    }
}

/// The handles of the players of this kind and address.
pub open spec fn handles_of_type<A>(players: Map<usize, PlayerType<A>>, t: PlayerType<A>) -> Set<usize> {
    Set::new(|h: usize| players.contains_key(h) && players[h] == t)
}

/// The address of a remote player or spectator.
pub open spec fn address_of<A>(t: PlayerType<A>) -> A
    recommends
        !(t is Local),
{
    match t {
        PlayerType::Remote(a) => a,
        PlayerType::Spectator(a) => a,
        PlayerType::Local => arbitrary(),
    }
}

impl<A: Address> SessionBuilder<A> {
    /// `ep` is the endpoint a session started from this builder keeps for the players of kind
    /// `t` (remote players or spectators at one address): their handles in order, the playing
    /// players' connection reports, and the players whose inputs it sends (the local players
    /// to a remote player; every playing player to a spectator, as its host).
    pub open spec fn endpoint_for(
        b: BuilderModel<A>,
        t: PlayerType<A>,
        ep: UdpProtocol<A>,
        input_size: usize,
        now: u64,
        wall_now: u128,
    ) -> bool {
        exists|p: Seq<PlayerHandle>, l: Seq<PlayerHandle>|
            lists_in_order(p, playing_handles(b.players)) && lists_in_order(
                l,
                if t is Spectator { playing_handles(b.players) } else { local_handles(b.players) },
            ) && lists_in_order(ep.config.handles@, handles_of_type(b.players, t)) && ep.created(
                ep.config.handles@,
                address_of(t),
                p,
                l.len(),
                b.max_prediction,
                capped_millis(duration_millis_value(b.disconnect_timeout)),
                capped_millis(duration_millis_value(b.disconnect_notify_start)),
                b.fps,
                b.desync_detection,
                input_size,
                now,
                wall_now,
            )
    }

    /// An endpoint with this builder's settings for the players `address_players` at
    /// `peer_addr`, reporting on `playing_player_handles` and sending the inputs of
    /// `local_player_handles`.
    fn create_endpoint(
        &self,
        address_players: Vec<PlayerHandle>,
        peer_addr: A,
        playing_player_handles: &[PlayerHandle],
        local_player_handles: &[PlayerHandle],
        input_size: usize,
        now: u64,
        wall_now: u128,
    ) -> (r: UdpProtocol<A>)
        requires
            input_size * address_players@.len() <= usize::MAX,
            input_size * local_player_handles@.len() <= usize::MAX,
        ensures
            r.created(
                address_players@,
                peer_addr,
                playing_player_handles@,
                local_player_handles@.len(),
                self@.max_prediction,
                capped_millis(duration_millis_value(self@.disconnect_timeout)),
                capped_millis(duration_millis_value(self@.disconnect_notify_start)),
                self@.fps,
                self@.desync_detection,
                input_size,
                now,
                wall_now,
            ),
    {
        UdpProtocol::new(
            address_players,
            peer_addr,
            playing_player_handles,
            local_player_handles,
            self.max_prediction,
            self.disconnect_timeout_millis(),
            self.disconnect_notify_millis(),
            self.fps,
            self.desync_detection,
            input_size,
            now,
            wall_now,
        )
    }

    /// The endpoints of a peer-to-peer session: one for each address of remote players or
    /// spectators, with the kind of its players.
    fn p2p_endpoints(&self, input_size: usize, now: u64, wall_now: u128) -> (r: Vec<(PlayerType<A>, UdpProtocol<A>)>)
        requires
            vstd::laws_eq::obeys_concrete_eq::<A>(),
            input_size * self@.players.len() <= usize::MAX,
        ensures
            forall|i: int| 0 <= i < r@.len() ==> !(#[trigger] r@[i].0 is Local) && exists|h: usize|
                self@.players.contains_key(h) && self@.players[h] == r@[i].0,
            forall|h: usize| #[trigger] self@.players.contains_key(h) && !(self@.players[h] is Local) ==> exists|i: int|
                0 <= i < r@.len() && r@[i].0 == self@.players[h],
            forall|i: int, j: int| 0 <= i < j < r@.len() ==> r@[i].0 != r@[j].0,
            forall|i: int| 0 <= i < r@.len() ==> Self::endpoint_for(self@, (#[trigger] r@[i]).0, r@[i].1, input_size, now, wall_now),
    {
        let entries = self.player_entries();
        let playing = self.handles_in_order(true);
        let local = self.handles_in_order(false);
        let mut out: Vec<(PlayerType<A>, UdpProtocol<A>)> = Vec::new();
        let mut i: usize = 0;
        while i < entries.len()
            invariant
                i <= entries@.len(),
                vstd::laws_eq::obeys_concrete_eq::<A>(),
                input_size * self@.players.len() <= usize::MAX,
                playing@.len() <= self@.players.len(),
                local@.len() <= self@.players.len(),
                lists_in_order(playing@, playing_handles(self@.players)),
                lists_in_order(local@, local_handles(self@.players)),
                forall|k: int| 0 <= k < entries@.len() ==> self@.players.contains_key(#[trigger] entries@[k].0) && self@.players[entries@[k].0] == entries@[k].1,
                forall|h: usize| #[trigger] self@.players.contains_key(h) ==> exists|k: int| 0 <= k < entries@.len() && entries@[k].0 == h,
                forall|k: int| 0 <= k < out@.len() ==> !(#[trigger] out@[k].0 is Local) && exists|h: usize|
                    self@.players.contains_key(h) && self@.players[h] == out@[k].0,
                forall|j: int| 0 <= j < i && !(#[trigger] entries@[j].1 is Local) ==> exists|k: int|
                    0 <= k < out@.len() && out@[k].0 == entries@[j].1,
                forall|a: int, b: int| 0 <= a < b < out@.len() ==> out@[a].0 != out@[b].0,
                forall|k: int| 0 <= k < out@.len() ==> Self::endpoint_for(self@, (#[trigger] out@[k]).0, out@[k].1, input_size, now, wall_now),
            decreases entries@.len() - i,
        {
            let t = entries[i].1;
            let (address, is_spectator): (Option<A>, bool) = match t {
                PlayerType::Local => (None, false),
                PlayerType::Remote(a) => (Some(a), false),
                PlayerType::Spectator(a) => (Some(a), true),
            };
            if address.is_some() && !has_endpoint(&out, &t) {
                let handles = handles_with_type(&entries, &t);
                let ghost hs = handles_of_type(self@.players, t);
                let ghost handles_view = handles@;
                proof {
                    assert forall|h: usize| #[trigger] hs.contains(h) <==> handles@.contains(PlayerHandle(h)) by {
                        if hs.contains(h) {
                            let k = choose|k: int| 0 <= k < entries@.len() && entries@[k].0 == h;
                        }
                    }
                    assert forall|k: int| 0 <= k < handles@.len() implies self@.players.dom().contains(#[trigger] handles@[k].0) by {
                        assert(handles@.contains(PlayerHandle(handles@[k].0)));
                        assert(handles@[k] == PlayerHandle(handles@[k].0));
                        assert(hs.contains(handles@[k].0));
                    }
                    lemma_handles_bounded(handles@, self@.players.dom());
                    assert(input_size * handles@.len() <= input_size * self@.players.len()) by (nonlinear_arith)
                        requires
                            handles@.len() <= self@.players.len(),
                    ;
                    assert(input_size * playing@.len() <= input_size * self@.players.len()) by (nonlinear_arith)
                        requires
                            playing@.len() <= self@.players.len(),
                    ;
                    assert(input_size * local@.len() <= input_size * self@.players.len()) by (nonlinear_arith)
                        requires
                            local@.len() <= self@.players.len(),
                    ;
                }
                let addr = address.unwrap();
                let sends_for = if is_spectator { playing.as_slice() } else { local.as_slice() };
                let ep = self.create_endpoint(handles, addr, playing.as_slice(), sends_for, input_size, now, wall_now);
                let ghost out0 = out@;
                out.push((t, ep));
                proof {
                    assert(Self::endpoint_for(self@, t, ep, input_size, now, wall_now)) by {
                        let l = if t is Spectator { playing@ } else { local@ };
                        assert(is_spectator == t is Spectator);
                        assert(sends_for@ == l);
                        assert(address_of(t) == addr);
                        assert(ep.config.handles@ == handles_view);
                        assert(lists_in_order(ep.config.handles@, hs));
                        assert(lists_in_order(playing@, playing_handles(self@.players)));
                        assert(lists_in_order(l, if t is Spectator { playing_handles(self@.players) } else { local_handles(self@.players) }));
                        assert(ep.created(
                            ep.config.handles@,
                            address_of(t),
                            playing@,
                            l.len(),
                            self@.max_prediction,
                            capped_millis(duration_millis_value(self@.disconnect_timeout)),
                            capped_millis(duration_millis_value(self@.disconnect_notify_start)),
                            self@.fps,
                            self@.desync_detection,
                            input_size,
                            now,
                            wall_now,
                        ));
                    }
                    assert forall|k: int| 0 <= k < out@.len() implies Self::endpoint_for(self@, (#[trigger] out@[k]).0, out@[k].1, input_size, now, wall_now) by {
                        if k < out0.len() {
                            assert(out@[k] == out0[k]);
                        }
                    }
                    assert forall|k: int| 0 <= k < out@.len() implies !(#[trigger] out@[k].0 is Local) && exists|h: usize|
                        self@.players.contains_key(h) && self@.players[h] == out@[k].0 by {
                        if k < out0.len() {
                            assert(out@[k] == out0[k]);
                        } else {
                            assert(self@.players.contains_key(entries@[i as int].0));
                        }
                    }
                    assert forall|a: int, b: int| 0 <= a < b < out@.len() implies out@[a].0 != out@[b].0 by {
                        assert(out@[a] == out0[a]);
                        if b < out0.len() {
                            assert(out@[b] == out0[b]);
                        }
                    }
                    assert forall|j: int| 0 <= j < i + 1 && !(#[trigger] entries@[j].1 is Local) implies exists|k: int|
                        0 <= k < out@.len() && out@[k].0 == entries@[j].1 by {
                        if j < i {
                            let k = choose|k: int| 0 <= k < out0.len() && out0[k].0 == entries@[j].1;
                            assert(out@[k] == out0[k]);
                        } else {
                            assert(out@[out0.len() as int].0 == t);
                        }
                    }
                }
            }
            i = i + 1;
        }
        proof {
            assert forall|h: usize| #[trigger] self@.players.contains_key(h) && !(self@.players[h] is Local) implies exists|i: int|
                0 <= i < out@.len() && out@[i].0 == self@.players[h] by {
                let k = choose|k: int| 0 <= k < entries@.len() && entries@[k].0 == h;
                assert(!(entries@[k].1 is Local));
            }
        }
        out
    }

    /// The endpoints of a peer-to-peer session: one for each address of remote players or
    /// spectators, with the kind of its players. Inputs take `input_size` bytes each; `now`
    /// and `wall_now` are the monotonic and the wall clock in milliseconds.
    ///
    /// # Errors
    /// - Returns [`GgrsError::InvalidRequest`] if insufficient players have been registered:
    ///   no player that plays (local or remote).
    pub fn start_p2p_session(self, input_size: usize, now: u64, wall_now: u128) -> (r: Result<Vec<(PlayerType<A>, UdpProtocol<A>)>, GgrsError>)
        requires
            vstd::laws_eq::obeys_concrete_eq::<A>(),
            input_size * self@.players.len() <= usize::MAX,
        ensures
            playing_handles(self@.players).is_empty() ==> fails_with(r, "Not enough players have been added."@),
            !playing_handles(self@.players).is_empty() ==> (r matches Ok(eps) && {
                &&& forall|i: int| 0 <= i < eps@.len() ==> !(#[trigger] eps@[i].0 is Local) && exists|h: usize|
                    self@.players.contains_key(h) && self@.players[h] == eps@[i].0
                &&& forall|h: usize| #[trigger] self@.players.contains_key(h) && !(self@.players[h] is Local) ==> exists|i: int|
                    0 <= i < eps@.len() && eps@[i].0 == self@.players[h]
                &&& forall|i: int, j: int| 0 <= i < j < eps@.len() ==> eps@[i].0 != eps@[j].0
                &&& forall|i: int| 0 <= i < eps@.len() ==> Self::endpoint_for(self@, (#[trigger] eps@[i]).0, eps@[i].1, input_size, now, wall_now)
            }),
    {
        let playing = self.handles_in_order(true);
        proof {
            let ps = playing_handles(self@.players);
            if playing@.len() == 0 {
                assert forall|h: usize| !ps.contains(h) by {
                    if ps.contains(h) {
                        assert(playing@.contains(PlayerHandle(h)));
                    }
                }
                assert(ps =~= Set::<usize>::empty());
            } else {
                assert(playing@[0] == PlayerHandle(playing@[0].0));
                assert(playing@.contains(PlayerHandle(playing@[0].0)));
                assert(ps.contains(playing@[0].0));
            }
        }
        if playing.len() == 0 {
            return Err(GgrsError::InvalidRequest { info: "Not enough players have been added.".to_owned() });
        }
        Ok(self.p2p_endpoints(input_size, now, wall_now))
    }
}

/// Whether two player kinds are the same (with the same address).
fn same_player_type<A: Address>(a: &PlayerType<A>, b: &PlayerType<A>) -> (r: bool)
    requires
        vstd::laws_eq::obeys_concrete_eq::<A>(),
    ensures
        r == (*a == *b),
{
    proof {
        reveal(vstd::laws_eq::obeys_concrete_eq);
    }
    match (a, b) {
        (PlayerType::Local, PlayerType::Local) => true,
        (PlayerType::Remote(x), PlayerType::Remote(y)) => *x == *y,
        (PlayerType::Spectator(x), PlayerType::Spectator(y)) => *x == *y,
        _ => false,
    }
}

/// Whether one of the endpoints is for players of kind `t`.
fn has_endpoint<A: Address>(eps: &Vec<(PlayerType<A>, UdpProtocol<A>)>, t: &PlayerType<A>) -> (r: bool)
    requires
        vstd::laws_eq::obeys_concrete_eq::<A>(),
    ensures
        r == exists|k: int| 0 <= k < eps@.len() && eps@[k].0 == *t,
{
    let mut k: usize = 0;
    while k < eps.len()
        invariant
            k <= eps@.len(),
            vstd::laws_eq::obeys_concrete_eq::<A>(),
            forall|j: int| 0 <= j < k ==> eps@[j].0 != *t,
        decreases eps@.len() - k,
    {
        if same_player_type(&eps[k].0, t) {
            return true;
        }
        k = k + 1;
    }
    false
}

/// The handles of the listed players of kind `t`, in increasing order.
fn handles_with_type<A: Address>(entries: &Vec<(usize, PlayerType<A>)>, t: &PlayerType<A>) -> (r: Vec<PlayerHandle>)
    requires
        vstd::laws_eq::obeys_concrete_eq::<A>(),
    ensures
        strictly_increasing(r@),
        forall|h: usize| r@.contains(PlayerHandle(h)) <==> exists|i: int|
            0 <= i < entries@.len() && (#[trigger] entries@[i]).0 == h && entries@[i].1 == *t,
{
    let mut out: Vec<PlayerHandle> = Vec::new();
    let mut i: usize = 0;
    while i < entries.len()
        invariant
            i <= entries@.len(),
            vstd::laws_eq::obeys_concrete_eq::<A>(),
            strictly_increasing(out@),
            forall|h: usize| out@.contains(PlayerHandle(h)) <==> exists|k: int|
                0 <= k < i && (#[trigger] entries@[k]).0 == h && entries@[k].1 == *t,
        decreases entries@.len() - i,
    {
        let h = entries[i].0;
        if same_player_type(&entries[i].1, t) && !contains_handle(&out, h) {
            insert_sorted(&mut out, PlayerHandle(h));
        }
        i = i + 1;
    }
    out
}

/// The number of whole milliseconds in a duration.
pub uninterp spec fn duration_millis_value(d: Duration) -> u128;

/// The number of whole milliseconds in `d`.
///
/// Calls `Duration::as_millis`, a function of its argument alone.
#[verifier::external_body]
fn duration_as_millis(d: Duration) -> (r: u128)
    ensures
        r == duration_millis_value(d),
{
    d.as_millis()
}

impl<A: Address> Default for SessionBuilder<A> {
    /// A builder with all values set to their defaults.
    fn default() -> (r: Self)
        ensures
            Self::defaults(r@),
            r@.disconnect_timeout == duration_from_millis_value(DEFAULT_DISCONNECT_TIMEOUT_MS),
            r@.disconnect_notify_start == duration_from_millis_value(DEFAULT_DISCONNECT_NOTIFY_START_MS),
    {
        Self::new()
    }
}

/// The duration of a number of milliseconds.
pub uninterp spec fn duration_from_millis_value(ms: u64) -> Duration;

/// The duration of `ms` milliseconds.
///
/// Calls `Duration::from_millis`, a function of its argument alone.
#[verifier::external_body]
fn duration_from_millis(ms: u64) -> (r: Duration)
    ensures
        r == duration_from_millis_value(ms),
        duration_millis_value(r) == ms,
{
    Duration::from_millis(ms)
}

} // verus!
