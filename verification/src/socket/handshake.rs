//! A socket wrapper that drops all traffic with an address until a handshake with it is done.

use vstd::prelude::*;

use std::collections::HashMap;
use vstd::slice::slice_to_vec;
use vstd::std_specs::hash::obeys_key_model;
use vstd::std_specs::iter::IteratorSpec;

use super::wire::{
    decode, encode, encodable, spec_decode, spec_encode, HandshakeMessage, HeaderId, MessageModel,
    SyncNumber,
};
use crate::{datagrams, Address, NonBlockingSocket};

verus! {

broadcast use {vstd::seq_lib::group_seq_properties, vstd::std_specs::hash::group_hash_axioms};

/// The mathematical value of a [`HandshakeState`].
pub struct HandshakeStateModel {
    /// Sync numbers not sent yet; the last one is sent first.
    pub unsent: Seq<u32>,
    /// Sync numbers sent but not echoed back yet, oldest first.
    pub awaiting: Seq<u32>,
    /// How many sync numbers have been echoed back.
    pub recv_count: nat,
    /// The header id the remote endpoint announced with its final sync response.
    pub remote_header_id: Option<u16>,
}

/// `i` is the first position of `n` in `s`.
pub open spec fn is_first_index(s: Seq<u32>, n: u32, i: int) -> bool {
    &&& 0 <= i < s.len()
    &&& s[i] == n
    &&& forall|j: int| 0 <= j < i ==> s[j] != n
}

impl HandshakeStateModel {
    /// Sync numbers still to be echoed back (sent or not).
    pub open spec fn remaining(self) -> nat {
        self.unsent.len() + self.awaiting.len()
    }

    /// The counters fit in a `usize`, and a remote header id is only known once no sync
    /// number remains.
    pub open spec fn wf(self) -> bool {
        &&& self.recv_count + self.remaining() <= usize::MAX
        &&& self.remote_header_id is Some ==> self.remaining() == 0
    }

    /// A well-formed state of a registered handshake: while it is not complete, some sync
    /// number remains to be echoed back.
    pub open spec fn live(self) -> bool {
        &&& self.wf()
        &&& self.remote_header_id is None ==> self.remaining() > 0
    }

    /// The handshake is complete once the remote header id is known.
    pub open spec fn is_complete(self) -> bool {
        self.remote_header_id is Some
    }

    /// The state after picking the next sync number to send, and that number.
    pub open spec fn spec_next(self) -> (HandshakeStateModel, Option<u32>) {
        if self.unsent.len() > 0 {
            let n = self.unsent.last();
            (HandshakeStateModel { unsent: self.unsent.drop_last(), awaiting: self.awaiting.push(n), ..self }, Some(n))
        } else if self.awaiting.len() > 0 {
            let n = self.awaiting[0];
            (HandshakeStateModel { awaiting: self.awaiting.drop_first().push(n), ..self }, Some(n))
        } else {
            (self, None)
        }
    }

    /// The state after a sync response carrying `n`, and whether `n` was awaited.
    pub open spec fn spec_ack(self, n: u32) -> (HandshakeStateModel, bool) {
        if self.awaiting.contains(n) {
            (HandshakeStateModel { awaiting: self.awaiting.remove(first_index(self.awaiting, n)), recv_count: self.recv_count + 1, ..self }, true)
        } else {
            (self, false)
        }
    }

    /// The state after asking for a message to send with payload `buf`, and that message:
    /// the payload itself once the handshake is complete, otherwise the next sync request.
    pub open spec fn spec_outgoing(self, buf: Seq<u8>) -> (HandshakeStateModel, MessageModel) {
        match self.remote_header_id {
            Some(rid) => (self, MessageModel::Data { header_id: rid, buf }),
            None => {
                let (next_state, next) = self.spec_next();
                (next_state, MessageModel::SyncRequest(next->0))
            },
        }
    }

    /// What one incoming message does: the new state, the reply to send back, and the
    /// payload to hand to the user. `own` is the header id of the receiving socket.
    pub open spec fn spec_step(self, own: u16, m: MessageModel) -> (
        HandshakeStateModel,
        Option<MessageModel>,
        Option<Seq<u8>>,
    ) {
        match m {
            MessageModel::SyncRequest(n) => (
                self,
                Some(MessageModel::SyncResponse { ack_sync_number: n, remote_header_id: own }),
                None,
            ),
            MessageModel::SyncResponse { ack_sync_number, remote_header_id } => {
                let (acked, ok) = self.spec_ack(ack_sync_number);
                if !ok {
                    (self, None, None)
                } else {
                    let (next_state, next) = acked.spec_next();
                    match next {
                        Some(x) => (next_state, Some(MessageModel::SyncRequest(x)), None),
                        None => (
                            HandshakeStateModel {
                                remote_header_id: Some(remote_header_id),
                                ..next_state
                            },
                            None,
                            None,
                        ),
                    }
                }
            },
            MessageModel::Data { header_id, buf } => {
                if header_id != own || !self.is_complete() {
                    (self, None, None)
                } else {
                    (self, None, Some(buf))
                }
            },
        }
    }
}

/// The model of an optional message.
pub open spec fn opt_message(o: Option<HandshakeMessage>) -> Option<MessageModel> {
    match o {
        Some(m) => Some(m@),
        None => None,
    }
}

/// The model of an optional byte buffer.
pub open spec fn opt_bytes(o: Option<Vec<u8>>) -> Option<Seq<u8>> {
    match o {
        Some(b) => Some(b@),
        None => None,
    }
}

/// The first position of `n` in `s` (the length of `s` when `n` does not occur).
pub open spec fn first_index(s: Seq<u32>, n: u32) -> int
    decreases s.len(),
{
    if s.len() == 0 {
        0
    } else if s[0] == n {
        0
    } else {
        1 + first_index(s.drop_first(), n)
    }
}

/// [`first_index`] is the first position of an element that occurs.
pub proof fn lemma_first_index(s: Seq<u32>, n: u32)
    requires
        s.contains(n),
    ensures
        is_first_index(s, n, first_index(s, n)),
    decreases s.len(),
{
    if s[0] != n {
        let t = s.drop_first();
        assert(t.contains(n)) by {
            let k = choose|k: int| 0 <= k < s.len() && s[k] == n;
            assert(t[k - 1] == n);
        }
        lemma_first_index(t, n);
        let i = first_index(t, n);
        assert forall|j: int| 0 <= j < i + 1 implies s[j] != n by {
            if j > 0 {
                assert(s[j] == t[j - 1]);
            }
        }
    }
}

/// The first position of an element is unique.
pub proof fn lemma_first_index_unique(s: Seq<u32>, n: u32, i: int, k: int)
    requires
        is_first_index(s, n, i),
        is_first_index(s, n, k),
    ensures
        i == k,
{
}

/// The state machine that controls the handshake with one remote address.
#[derive(Debug)]
pub struct HandshakeState {
    unsent: Vec<SyncNumber>,
    awaiting: Vec<SyncNumber>,
    recv_count: usize,
    remote_header_id: Option<HeaderId>,
}

impl View for HandshakeState {
    type V = HandshakeStateModel;

    closed spec fn view(&self) -> HandshakeStateModel {
        HandshakeStateModel {
            unsent: self.unsent@,
            awaiting: self.awaiting@,
            recv_count: self.recv_count as nat,
            remote_header_id: self.remote_header_id,
        }
    }
}

/// Progress of a handshake: how many sync numbers came back and how many remain.
#[derive(Debug, Clone, Copy, PartialEq, Eq)]
pub struct HandshakeStatus {
    received: usize,
    remaining: usize,
}

impl View for HandshakeStatus {
    /// (received, remaining)
    type V = (nat, nat);

    closed spec fn view(&self) -> (nat, nat) {
        (self.received as nat, self.remaining as nat)
    }
}

/// The status that a handshake state reports.
pub open spec fn status_of(s: HandshakeStateModel) -> (nat, nat) {
    (s.recv_count, s.remaining())
}

impl HandshakeStatus {
    /// Returns true if the handshake is completed.
    pub fn completed(&self) -> (r: bool)
        ensures
            r == (self@.1 == 0),
    {
        self.remaining == 0
    }

    /// Count of sync numbers echoed back by the remote endpoint.
    pub fn received(&self) -> (r: usize)
        ensures
            r == self@.0,
    {
        self.received
    }

    /// Count of sync numbers still to be echoed back.
    pub fn remaining(&self) -> (r: usize)
        ensures
            r == self@.1,
    {
        self.remaining
    }
}

impl HandshakeState {
    /// A handshake that will send the given sync numbers (the last one first).
    pub fn new(unsent: Vec<u32>) -> (r: Self)
        ensures
            r@ == (HandshakeStateModel {
                unsent: unsent@,
                awaiting: Seq::empty(),
                recv_count: 0,
                remote_header_id: None,
            }),
            r@.wf(),
    {
        let len = unsent.len();
        assert(unsent@.len() == len);
        Self { unsent, awaiting: Vec::new(), recv_count: 0, remote_header_id: None }
    }

    /// Returns the next sync number to send, or None if handshaking is complete.
    ///
    /// Unsent numbers go first; after that the oldest awaited number is sent again and moved
    /// to the back, so that repeated calls cycle through the awaited numbers.
    pub fn next_sync_number(&mut self) -> (r: Option<SyncNumber>)
        requires
            old(self)@.wf(),
        ensures
            (final(self)@, r) == old(self)@.spec_next(),
            final(self)@.wf(),
    {
        if let Some(new_sync_number) = self.unsent.pop() {
            self.awaiting.push(new_sync_number);
            Some(new_sync_number)
        } else if self.awaiting.len() > 0 {
            let old_sync_number = self.awaiting.remove(0);
            self.awaiting.push(old_sync_number);
            proof {
                assert(self.awaiting@ == old(self)@.awaiting.drop_first().push(old_sync_number));
            }
            Some(old_sync_number)
        } else {
            None
        }
    }

    /// Returns true if the given sync number is one that was sent and not yet echoed back;
    /// in that case its first occurrence stops being awaited and the received count grows.
    pub fn acknowledge_sync_response(&mut self, sync_number: SyncNumber) -> (r: bool)
        requires
            old(self)@.wf(),
        ensures
            (final(self)@, r) == old(self)@.spec_ack(sync_number),
            final(self)@.wf(),
    {
        let ghost pre = self@;
        let mut i: usize = 0;
        while i < self.awaiting.len()
            invariant
                self@ == pre,
                pre == old(self)@,
                pre.wf(),
                i <= self.awaiting.len(),
                forall|j: int| 0 <= j < i ==> self.awaiting@[j] != sync_number,
            decreases self.awaiting.len() - i,
        {
            if self.awaiting[i] == sync_number {
                proof {
                    assert(is_first_index(pre.awaiting, sync_number, i as int));
                    assert(pre.awaiting.contains(sync_number));
                    lemma_first_index(pre.awaiting, sync_number);
                    lemma_first_index_unique(pre.awaiting, sync_number, i as int, first_index(pre.awaiting, sync_number));
                }
                self.awaiting.remove(i);
                self.recv_count = self.recv_count + 1;
                assert(self@ == pre.spec_ack(sync_number).0);
                return true;
            }
            i = i + 1;
        }
        proof {
            assert(!pre.awaiting.contains(sync_number));
        }
        false
    }

    /// The message to send when the user sends `buf` to this handshake's address: the payload
    /// wrapped with the remote header id once the handshake is complete, otherwise the next sync
    /// request (the payload is then dropped).
    pub fn outgoing(&mut self, buf: &[u8]) -> (m: HandshakeMessage)
        requires
            old(self)@.live(),
        ensures
            (final(self)@, m@) == old(self)@.spec_outgoing(buf@),
            final(self)@.live(),
    {
        if let Some(remote_header_id) = self.remote_header_id {
            HandshakeMessage::Data { header_id: remote_header_id, buf: slice_to_vec(buf) }
        } else {
            // a live handshake that is not complete still has sync numbers left
            let next = self.next_sync_number().unwrap();
            HandshakeMessage::SyncRequest(next)
        }
    }

    /// Handles one message received from this handshake's address, `own` being the header id
    /// of the receiving socket. Returns the reply to send back and the payload to hand to the
    /// user, if any.
    pub fn handle_message(&mut self, own: HeaderId, msg: HandshakeMessage) -> (r: (
        Option<HandshakeMessage>,
        Option<Vec<u8>>,
    ))
        requires
            old(self)@.wf(),
        ensures
            (final(self)@, opt_message(r.0), opt_bytes(r.1)) == old(self)@.spec_step(own, msg@),
            final(self)@.wf(),
            old(self)@.live() ==> final(self)@.live(),
    {
        match msg {
            HandshakeMessage::SyncRequest(sync_number) => {
                // echo the number back, since that is what the remote endpoint expects
                (
                    Some(
                        HandshakeMessage::SyncResponse {
                            ack_sync_number: sync_number,
                            remote_header_id: own,
                        },
                    ),
                    None,
                )
            },
            HandshakeMessage::SyncResponse { ack_sync_number, remote_header_id } => {
                if !self.acknowledge_sync_response(ack_sync_number) {
                    return (None, None);
                }
                if let Some(next_sync_number) = self.next_sync_number() {
                    (Some(HandshakeMessage::SyncRequest(next_sync_number)), None)
                } else {
                    self.remote_header_id = Some(remote_header_id);
                    (None, None)
                }
            },
            HandshakeMessage::Data { header_id, buf } => {
                if header_id != own {
                    return (None, None);
                }
                if !self.completed() {
                    return (None, None);
                }
                (None, Some(buf))
            },
        }
    }

    /// The handshake is complete once the remote header id is known.
    pub fn completed(&self) -> (r: bool)
        ensures
            r == self@.is_complete(),
    {
        self.remote_header_id.is_some()
    }

    /// The progress of this handshake.
    pub fn status(&self) -> (r: HandshakeStatus)
        requires
            self@.wf(),
        ensures
            r@ == status_of(self@),
    {
        HandshakeStatus {
            received: self.recv_count,
            remaining: self.unsent.len() + self.awaiting.len(),
        }
    }
}


/// After a sync response is acknowledged, exactly that occurrence stops being awaited.
proof fn lemma_ack(s: HandshakeStateModel, n: u32)
    requires
        s.wf(),
    ensures
        s.spec_ack(n).1 <==> s.awaiting.contains(n),
        s.spec_ack(n).1 ==> {
            &&& s.spec_ack(n).0.awaiting.len() + 1 == s.awaiting.len()
            &&& s.spec_ack(n).0.recv_count == s.recv_count + 1
            &&& s.spec_ack(n).0.unsent == s.unsent
            &&& s.spec_ack(n).0.remote_header_id == s.remote_header_id
        },
        !s.spec_ack(n).1 ==> s.spec_ack(n).0 == s,
{
    if s.awaiting.contains(n) {
        lemma_first_index(s.awaiting, n);
    }
}

/// Preparing a message or handling one keeps a handshake well formed, never changes how
/// many sync numbers it has in total (what comes back moves from remaining to received), and
/// never lowers the received count.
pub proof fn law_progress_conserved(s: HandshakeStateModel, own: u16, m: MessageModel, buf: Seq<u8>)
    requires
        s.wf(),
    ensures
        s.spec_step(own, m).0.wf(),
        s.spec_step(own, m).0.recv_count + s.spec_step(own, m).0.remaining() == s.recv_count
            + s.remaining(),
        s.spec_step(own, m).0.recv_count >= s.recv_count,
        s.spec_outgoing(buf).0.recv_count + s.spec_outgoing(buf).0.remaining() == s.recv_count
            + s.remaining(),
        s.spec_outgoing(buf).0.recv_count == s.recv_count,
{
    if let MessageModel::SyncResponse { ack_sync_number, .. } = m {
        lemma_ack(s, ack_sync_number);
    }
}

/// A registered handshake is complete exactly when no sync number remains to be echoed back.
pub proof fn law_complete_iff_nothing_remains(s: HandshakeStateModel)
    requires
        s.live(),
    ensures
        s.is_complete() <==> s.remaining() == 0,
        s.is_complete() <==> status_of(s).1 == 0,
{
}

/// Handling a message keeps a registered handshake live, and a complete handshake stays
/// complete with the same remote header id.
pub proof fn law_step_keeps_live(s: HandshakeStateModel, own: u16, m: MessageModel)
    requires
        s.live(),
    ensures
        s.spec_step(own, m).0.live(),
        s.is_complete() ==> s.spec_step(own, m).0.remote_header_id == s.remote_header_id,
        s.spec_outgoing(Seq::empty()).0.live(),
{
    if let MessageModel::SyncResponse { ack_sync_number, .. } = m {
        lemma_ack(s, ack_sync_number);
    }
}

/// A payload is handed to the user only from a complete handshake, only from data that
/// carries the receiving socket's header id, and it is that data's payload.
pub proof fn law_payload_only_after_handshake(s: HandshakeStateModel, own: u16, m: MessageModel)
    ensures
        s.spec_step(own, m).2 is Some ==> {
            &&& s.is_complete()
            &&& m == MessageModel::Data { header_id: own, buf: s.spec_step(own, m).2->0 }
        },
{
}

/// Every sync request is answered with a sync response that echoes its number and carries
/// the receiving socket's header id, whatever the state of the handshake.
pub proof fn law_sync_request_echoed(s: HandshakeStateModel, own: u16, n: u32)
    ensures
        s.spec_step(own, MessageModel::SyncRequest(n)) == (
            s,
            Some(MessageModel::SyncResponse { ack_sync_number: n, remote_header_id: own }),
            None::<Seq<u8>>,
        ),
{
}

/// A handshake becomes complete only on a sync response that echoes the last sync number
/// still awaited, when nothing is left unsent; it then records the header id that response
/// carries.
pub proof fn law_completion_on_last_echo(s: HandshakeStateModel, own: u16, m: MessageModel)
    requires
        s.live(),
        !s.is_complete(),
        s.spec_step(own, m).0.is_complete(),
    ensures
        m is SyncResponse,
        s.unsent.len() == 0,
        s.awaiting == seq![m->ack_sync_number],
        s.spec_step(own, m).0.remote_header_id == Some(m->remote_header_id),
        s.spec_step(own, m).0.recv_count == s.recv_count + 1,
{
    if let MessageModel::SyncResponse { ack_sync_number, .. } = m {
        lemma_ack(s, ack_sync_number);
        lemma_first_index(s.awaiting, ack_sync_number);
        let i = first_index(s.awaiting, ack_sync_number);
        assert(s.awaiting.len() == 1);
        assert(s.awaiting[i] == ack_sync_number);
        assert(s.awaiting == seq![ack_sync_number]);
    }
}

/// The sync response that echoes the last sync number still awaited, when nothing is left
/// unsent, completes the handshake and records the header id it carries.
pub proof fn law_last_echo_completes(s: HandshakeStateModel, own: u16, n: u32, rid: u16)
    requires
        s.wf(),
        s.unsent.len() == 0,
        s.awaiting == seq![n],
    ensures
        s.spec_step(own, MessageModel::SyncResponse { ack_sync_number: n, remote_header_id: rid }).0.remote_header_id
            == Some(rid),
        s.spec_step(own, MessageModel::SyncResponse { ack_sync_number: n, remote_header_id: rid }).0.remaining()
            == 0,
{
    assert(s.awaiting[0] == n);
    lemma_ack(s, n);
}

/// Once the handshake is complete, what the user sends goes out unchanged, wrapped with the
/// remote header id, and the handshake state does not change.
pub proof fn law_send_after_completion(s: HandshakeStateModel, buf: Seq<u8>)
    requires
        s.is_complete(),
    ensures
        s.spec_outgoing(buf) == (
            s,
            MessageModel::Data { header_id: s.remote_header_id->0, buf },
        ),
{
}

/// Before completion, sending asks for a sync request with a sync number of the handshake's
/// own: the last unsent one, or else the oldest awaited one.
pub proof fn law_sync_numbers_are_registered(s: HandshakeStateModel, buf: Seq<u8>)
    requires
        s.live(),
        !s.is_complete(),
    ensures
        s.spec_outgoing(buf).1 is SyncRequest,
        s.unsent.len() > 0 ==> s.spec_outgoing(buf).1 == MessageModel::SyncRequest(s.unsent.last()),
        s.unsent.len() == 0 ==> s.spec_outgoing(buf).1 == MessageModel::SyncRequest(s.awaiting[0]),
{
}

/// A call on a handshake state: picking the next sync number, or acknowledging a sync
/// response.
pub enum HandshakeOp {
    Next,
    Ack(u32),
}

/// The state after a sequence of calls, in order.
pub open spec fn run_ops(s: HandshakeStateModel, ops: Seq<HandshakeOp>) -> HandshakeStateModel
    decreases ops.len(),
{
    if ops.len() == 0 {
        s
    } else {
        let prev = run_ops(s, ops.drop_last());
        match ops.last() {
            HandshakeOp::Next => prev.spec_next().0,
            HandshakeOp::Ack(n) => prev.spec_ack(n).0,
        }
    }
}

/// Over any sequence of calls of `next_sync_number` and `acknowledge_sync_response`, a
/// handshake stays well formed, received + remaining stays what it was, and received never
/// drops.
pub proof fn law_totals_conserved_over_calls(s: HandshakeStateModel, ops: Seq<HandshakeOp>)
    requires
        s.wf(),
    ensures
        run_ops(s, ops).wf(),
        run_ops(s, ops).recv_count + run_ops(s, ops).remaining() == s.recv_count + s.remaining(),
        run_ops(s, ops).recv_count >= s.recv_count,
    decreases ops.len(),
{
    if ops.len() > 0 {
        law_totals_conserved_over_calls(s, ops.drop_last());
        let prev = run_ops(s, ops.drop_last());
        if let HandshakeOp::Ack(n) = ops.last() {
            lemma_ack(prev, n);
        }
    }
}

/// The number of calls among `ops` that acknowledged an awaited sync number.
pub open spec fn successful_acks(s: HandshakeStateModel, ops: Seq<HandshakeOp>) -> nat
    decreases ops.len(),
{
    if ops.len() == 0 {
        0
    } else {
        let prev = run_ops(s, ops.drop_last());
        successful_acks(s, ops.drop_last()) + match ops.last() {
            HandshakeOp::Ack(n) => if prev.spec_ack(n).1 { 1nat } else { 0nat },
            HandshakeOp::Next => 0nat,
        }
    }
}

/// Over any sequence of calls of `next_sync_number` and `acknowledge_sync_response`, the
/// received count grows by exactly the number of acknowledgements that succeeded.
pub proof fn law_received_counts_acknowledgements(s: HandshakeStateModel, ops: Seq<HandshakeOp>)
    ensures
        run_ops(s, ops).recv_count == s.recv_count + successful_acks(s, ops),
    decreases ops.len(),
{
    if ops.len() > 0 {
        law_received_counts_acknowledgements(s, ops.drop_last());
    }
}

/// The same addresses are registered before and after, and each keeps received + remaining.
pub open spec fn status_kept<A>(before: Map<A, HandshakeStateModel>, after: Map<A, HandshakeStateModel>) -> bool {
    &&& after.dom() == before.dom()
    &&& forall|a: A| #[trigger] before.contains_key(a) ==> after[a].recv_count + after[a].remaining()
        == before[a].recv_count + before[a].remaining()
}

/// Over any sequence of sends, receives and polls of a handshaking socket (each keeping the
/// status, as their contracts say), the same addresses stay registered and each keeps
/// received + remaining.
pub proof fn law_status_kept_over_calls<A>(ss: Seq<Map<A, HandshakeStateModel>>)
    requires
        ss.len() > 0,
        forall|i: int| 0 <= i < ss.len() - 1 ==> #[trigger] status_kept(ss[i], ss[i + 1]),
    ensures
        status_kept(ss[0], ss.last()),
    decreases ss.len(),
{
    if ss.len() > 1 {
        let p = ss.drop_last();
        assert forall|i: int| 0 <= i < p.len() - 1 implies #[trigger] status_kept(p[i], p[i + 1]) by {
            assert(status_kept(ss[i], ss[i + 1]));
        }
        law_status_kept_over_calls(p);
        let n = ss.len() - 2;
        assert(status_kept(ss[n], ss[n + 1]));
    }
}

/// Every data datagram that carries the socket's own header id and comes from an address
/// whose handshake is complete is handed back, after everything handed back before it, and
/// changes no handshake: handling a batch drops none of its payloads.
pub proof fn law_each_data_payload_handed_back<A>(
    states: Map<A, HandshakeStateModel>,
    own: u16,
    incoming: Seq<(A, Seq<u8>)>,
    addr: A,
    bytes: Seq<u8>,
    buf: Seq<u8>,
)
    requires
        spec_decode(bytes) == Some(MessageModel::Data { header_id: own, buf }),
        spec_process(states, own, incoming).0.contains_key(addr),
        spec_process(states, own, incoming).0[addr].remote_header_id is Some,
    ensures
        spec_process(states, own, incoming.push((addr, bytes))).1 == spec_process(states, own, incoming).1.push((addr, buf)),
        spec_process(states, own, incoming.push((addr, bytes))).0 == spec_process(states, own, incoming).0,
        spec_process(states, own, incoming.push((addr, bytes))).2 == spec_process(states, own, incoming).2,
{
    assert(incoming.push((addr, bytes)).drop_last() =~= incoming);
}

/// An echo of an awaited sync number, while other numbers remain, is acknowledged and
/// answered at once with the next sync request: the last unsent number if any is left,
/// otherwise the oldest number still awaited once the echoed one is taken out.
pub proof fn law_echo_answered_with_next_request(s: HandshakeStateModel, own: u16, n: u32, rid: u16)
    requires
        s.wf(),
        s.awaiting.contains(n),
        s.remaining() > 1,
    ensures
        s.spec_step(own, MessageModel::SyncResponse { ack_sync_number: n, remote_header_id: rid }).1 == Some(
            MessageModel::SyncRequest(
                if s.unsent.len() > 0 {
                    s.unsent.last()
                } else if s.awaiting[0] != n {
                    s.awaiting[0]
                } else {
                    s.awaiting[1]
                },
            ),
        ),
        s.spec_step(own, MessageModel::SyncResponse { ack_sync_number: n, remote_header_id: rid }).0.recv_count == s.recv_count + 1,
        s.spec_step(own, MessageModel::SyncResponse { ack_sync_number: n, remote_header_id: rid }).0.remote_header_id is None,
        s.spec_step(own, MessageModel::SyncResponse { ack_sync_number: n, remote_header_id: rid }).2 is None,
{
    lemma_ack(s, n);
    lemma_first_index(s.awaiting, n);
    let acked = s.spec_ack(n).0;
    let i = first_index(s.awaiting, n);
    if s.unsent.len() == 0 {
        assert(acked.awaiting == s.awaiting.remove(i));
        if s.awaiting[0] != n {
            assert(i != 0);
            assert(acked.awaiting[0] == s.awaiting[0]);
        } else {
            assert(i == 0);
            assert(acked.awaiting[0] == s.awaiting[1]);
        }
    }
}

/// Data that one side sends once its handshake knows the other side's header id is handed,
/// unchanged, to the user of the other side, once that side's handshake is complete too.
pub proof fn law_data_reaches_peer(sa: HandshakeStateModel, sb: HandshakeStateModel, own_b: u16, buf: Seq<u8>)
    requires
        sa.remote_header_id == Some(own_b),
        sb.is_complete(),
        buf.len() <= u64::MAX,
    ensures
        spec_decode(spec_encode(sa.spec_outgoing(buf).1)) == Some(MessageModel::Data { header_id: own_b, buf }),
        sb.spec_step(own_b, MessageModel::Data { header_id: own_b, buf }).2 == Some(buf),
{
    super::wire::lemma_decode_encode(sa.spec_outgoing(buf).1, Seq::empty());
    assert(spec_encode(sa.spec_outgoing(buf).1) + Seq::<u8>::empty() == spec_encode(sa.spec_outgoing(buf).1));
}

/// Every handshake in the map is live.
pub open spec fn all_live<A>(states: Map<A, HandshakeStateModel>) -> bool {
    forall|a: A| #[trigger] states.contains_key(a) ==> states[a].live()
}

/// The result of handling received datagrams in order: the handshake states afterwards, the
/// payloads handed to the user, and the replies sent back (each with its address).
/// Datagrams that do not decode, or that come from an unregistered address, are dropped.
pub open spec fn spec_process<A>(
    states: Map<A, HandshakeStateModel>,
    own: u16,
    incoming: Seq<(A, Seq<u8>)>,
) -> (Map<A, HandshakeStateModel>, Seq<(A, Seq<u8>)>, Seq<(A, Seq<u8>)>)
    decreases incoming.len(),
{
    if incoming.len() == 0 {
        (states, Seq::empty(), Seq::empty())
    } else {
        let (s0, delivered, replies) = spec_process(states, own, incoming.drop_last());
        let (addr, bytes) = incoming.last();
        match spec_decode(bytes) {
            None => (s0, delivered, replies),
            Some(m) => {
                if !s0.contains_key(addr) {
                    (s0, delivered, replies)
                } else {
                    let (st, reply, payload) = s0[addr].spec_step(own, m);
                    (
                        s0.insert(addr, st),
                        match payload {
                            Some(b) => delivered.push((addr, b)),
                            None => delivered,
                        },
                        match reply {
                            Some(r) => replies.push((addr, spec_encode(r))),
                            None => replies,
                        },
                    )
                }
            },
        }
    }
}

/// Handling received datagrams keeps every registered handshake live and registers no new
/// address; every payload handed to the user comes from an address whose handshake is
/// complete, and each completed handshake keeps its remote header id.
pub proof fn law_process_delivers_only_completed<A>(
    states: Map<A, HandshakeStateModel>,
    own: u16,
    incoming: Seq<(A, Seq<u8>)>,
)
    requires
        all_live(states),
    ensures
        all_live(spec_process(states, own, incoming).0),
        spec_process(states, own, incoming).0.dom() == states.dom(),
        forall|i: int|
            0 <= i < spec_process(states, own, incoming).1.len() ==> {
                let addr = #[trigger] spec_process(states, own, incoming).1[i].0;
                &&& spec_process(states, own, incoming).0.contains_key(addr)
                &&& spec_process(states, own, incoming).0[addr].is_complete()
            },
        forall|i: int|
            0 <= i < spec_process(states, own, incoming).2.len() ==> states.contains_key(
                #[trigger] spec_process(states, own, incoming).2[i].0,
            ),
        forall|a: A|
            #![trigger spec_process(states, own, incoming).0[a]]
            states.contains_key(a) && states[a].is_complete() ==> spec_process(
                states,
                own,
                incoming,
            ).0[a].remote_header_id == states[a].remote_header_id,
    decreases incoming.len(),
{
    if incoming.len() > 0 {
        let prev = incoming.drop_last();
        law_process_delivers_only_completed(states, own, prev);
        let (s0, d0, r0) = spec_process(states, own, prev);
        let (addr, bytes) = incoming.last();
        if let Some(m) = spec_decode(bytes) {
            if s0.contains_key(addr) {
                law_step_keeps_live(s0[addr], own, m);
                law_payload_only_after_handshake(s0[addr], own, m);
                let res = spec_process(states, own, incoming);
                assert forall|a: A| #[trigger] res.0.contains_key(a) implies res.0[a].live() by {
                    if a != addr {
                        assert(s0.contains_key(a));
                    }
                }
                assert(res.0.dom() =~= states.dom());
                assert forall|i: int| 0 <= i < res.1.len() implies {
                    let a = #[trigger] res.1[i].0;
                    &&& res.0.contains_key(a)
                    &&& res.0[a].is_complete()
                } by {
                    if i < d0.len() {
                        assert(res.1[i] == d0[i]);
                        let a = d0[i].0;
                        assert(s0.contains_key(a) && s0[a].is_complete());
                    }
                }
                assert forall|i: int| 0 <= i < res.2.len() implies states.contains_key(#[trigger] res.2[i].0) by {
                    if i < r0.len() {
                        assert(res.2[i] == r0[i]);
                    }
                }
            }
        }
    }
}

/// Handling received datagrams and polling keep received + remaining of every registered
/// handshake what it was.
pub proof fn law_socket_totals_conserved<A>(
    states: Map<A, HandshakeStateModel>,
    own: u16,
    incoming: Seq<(A, Seq<u8>)>,
)
    requires
        all_live(states),
    ensures
        forall|a: A| #[trigger] states.contains_key(a) ==> {
            let after = spec_process(states, own, incoming).0[a];
            after.recv_count + after.remaining() == states[a].recv_count + states[a].remaining()
        },
        forall|a: A| #[trigger] states.contains_key(a) ==> {
            let after = spec_polled(states)[a];
            after.recv_count + after.remaining() == states[a].recv_count + states[a].remaining()
        },
    decreases incoming.len(),
{
    assert forall|a: A| #[trigger] states.contains_key(a) implies {
        let after = spec_polled(states)[a];
        after.recv_count + after.remaining() == states[a].recv_count + states[a].remaining()
    } by {
        law_progress_conserved(states[a], own, MessageModel::SyncRequest(0), Seq::empty());
    }
    if incoming.len() > 0 {
        let prev = incoming.drop_last();
        law_socket_totals_conserved(states, own, prev);
        law_process_delivers_only_completed(states, own, prev);
        let s0 = spec_process(states, own, prev).0;
        let (addr, bytes) = incoming.last();
        assert forall|a: A| #[trigger] states.contains_key(a) implies {
            let after = spec_process(states, own, incoming).0[a];
            after.recv_count + after.remaining() == states[a].recv_count + states[a].remaining()
        } by {
            if let Some(m) = spec_decode(bytes) {
                if s0.contains_key(addr) && a == addr {
                    law_progress_conserved(s0[addr], own, m, Seq::empty());
                }
            }
        }
    }
}

/// Each handshake after one poll round has asked for a message with an empty payload.
pub open spec fn spec_polled<A>(states: Map<A, HandshakeStateModel>) -> Map<A, HandshakeStateModel> {
    states.map_values(|s: HandshakeStateModel| s.spec_outgoing(Seq::empty()).0)
}

/// The handshake state kept for each registered address, together with this socket's own
/// header id.
pub struct HandshakeTable<A: Address> {
    header_id: HeaderId,
    handshakes: HashMap<A, HandshakeState>,
}

impl<A: Address> HandshakeTable<A> {
    #[verifier::type_invariant]
    spec fn inv(self) -> bool {
        &&& obeys_key_model::<A>()
        &&& forall|a: A| #[trigger]
            self.handshakes@.contains_key(a) ==> self.handshakes@[a]@.live()
    }

    /// The handshake state kept for each registered address.
    pub closed spec fn states(self) -> Map<A, HandshakeStateModel> {
        self.handshakes@.map_values(|s: HandshakeState| s@)
    }

    /// The header id of this socket.
    pub closed spec fn own_header_id(self) -> u16 {
        self.header_id
    }

    /// Every handshake of a table is live.
    proof fn lemma_all_live(&self)
        requires
            self.inv(),
        ensures
            all_live(self.states()),
    {
        assert forall|a: A| #[trigger] self.states().contains_key(a) implies self.states()[a].live() by {
            assert(self.handshakes@.contains_key(a));
        }
    }

    /// An empty table for a socket with the given header id.
    pub fn new(header_id: HeaderId) -> (r: Self)
        requires
            obeys_key_model::<A>(),
        ensures
            r.states() == Map::<A, HandshakeStateModel>::empty(),
            r.own_header_id() == header_id,
    {
        let r = Self { header_id, handshakes: HashMap::new() };
        assert(r.states() =~= Map::<A, HandshakeStateModel>::empty());
        r
    }

    /// Registers a handshake with `addr` that will send the given sync numbers.
    pub fn register(&mut self, addr: A, sync_numbers: Vec<SyncNumber>)
        requires
            sync_numbers@.len() > 0,
        ensures
            final(self).states() == old(self).states().insert(
                addr,
                HandshakeStateModel {
                    unsent: sync_numbers@,
                    awaiting: Seq::empty(),
                    recv_count: 0,
                    remote_header_id: None,
                },
            ),
            final(self).own_header_id() == old(self).own_header_id(),
    {
        proof {
            use_type_invariant(&*self);
        }
        let st = HandshakeState::new(sync_numbers);
        let mut map: HashMap<A, HandshakeState> = HashMap::new();
        std::mem::swap(&mut map, &mut self.handshakes);
        map.insert(addr, st);
        self.handshakes = map;
        assert(self.states() =~= old(self).states().insert(addr, st@));
    }

    /// The encoded message to send when the user sends `buf` to `addr`, or `None` when `addr`
    /// is not registered.
    pub fn outgoing(&mut self, buf: &[u8], addr: &A) -> (r: Option<Vec<u8>>)
        ensures
            old(self).states().contains_key(*addr) ==> {
                let (st, m) = old(self).states()[*addr].spec_outgoing(buf@);
                &&& final(self).states() == old(self).states().insert(*addr, st)
                &&& r matches Some(bytes) && bytes@ == spec_encode(m)
            },
            !old(self).states().contains_key(*addr) ==> {
                &&& final(self).states() == old(self).states()
                &&& r is None
            },
            final(self).own_header_id() == old(self).own_header_id(),
    {
        proof {
            use_type_invariant(&*self);
        }
        let mut map: HashMap<A, HandshakeState> = HashMap::new();
        std::mem::swap(&mut map, &mut self.handshakes);
        let removed = map.remove(addr);
        if let Some(mut hs) = removed {
            let msg = hs.outgoing(buf);
            map.insert(*addr, hs);
            self.handshakes = map;
            proof {
                assert(self.states() =~= old(self).states().insert(*addr, hs@));
                assert(buf@.len() == buf.len());
                assert(usize::MAX <= u64::MAX);
            }
            Some(encode(&msg))
        } else {
            self.handshakes = map;
            proof {
                assert(self.states() =~= old(self).states());
            }
            None
        }
    }

    /// Handles datagrams received by the wrapped socket, in order: sync requests are answered,
    /// sync responses advance the handshake, and data from completed handshakes that carries
    /// this socket's header id is handed on. Returns the payloads to hand to the user and the
    /// encoded replies to send back, each with its address.
    pub fn handle_datagrams(&mut self, incoming: Vec<(A, Vec<u8>)>) -> (r: (
        Vec<(A, Vec<u8>)>,
        Vec<(A, Vec<u8>)>,
    ))
        ensures
            (final(self).states(), datagrams(r.0@), datagrams(r.1@)) == spec_process(
                old(self).states(),
                old(self).own_header_id(),
                datagrams(incoming@),
            ),
            final(self).own_header_id() == old(self).own_header_id(),
    {
        proof {
            use_type_invariant(&*self);
        }
        let ghost states0 = self.states();
        let ghost dg = datagrams(incoming@);
        let own = self.header_id;
        let mut map: HashMap<A, HandshakeState> = HashMap::new();
        std::mem::swap(&mut map, &mut self.handshakes);
        let mut delivered: Vec<(A, Vec<u8>)> = Vec::new();
        let mut replies: Vec<(A, Vec<u8>)> = Vec::new();
        let mut i: usize = 0;
        while i < incoming.len()
            invariant
                i <= incoming.len(),
                dg == datagrams(incoming@),
                own == old(self).own_header_id(),
                states0 == old(self).states(),
                obeys_key_model::<A>(),
                all_live(map@.map_values(|s: HandshakeState| s@)),
                (map@.map_values(|s: HandshakeState| s@), datagrams(delivered@), datagrams(replies@))
                    == spec_process(states0, own, dg.take(i as int)),
            decreases incoming.len() - i,
        {
            let ghost before = spec_process(states0, own, dg.take(i as int));
            proof {
                assert(dg.take(i as int + 1).drop_last() == dg.take(i as int));
            }
            let addr: A = incoming[i].0;
            let decoded = decode(incoming[i].1.as_slice());
            if let Some(msg) = decoded {
                let removed = map.remove(&addr);
                if let Some(mut hs) = removed {
                    proof {
                        assert(before.0.contains_key(addr));
                        assert(before.0[addr] == hs@);
                    }
                    let (reply, payload) = hs.handle_message(own, msg);
                    map.insert(addr, hs);
                    proof {
                        assert(map@.map_values(|s: HandshakeState| s@) =~= before.0.insert(addr, hs@));
                    }
                    if let Some(reply_msg) = reply {
                        let bytes = encode(&reply_msg);
                        replies.push((addr, bytes));
                    }
                    if let Some(buf) = payload {
                        delivered.push((addr, buf));
                    }
                    proof {
                        assert(datagrams(delivered@) =~= spec_process(states0, own, dg.take(i as int + 1)).1);
                        assert(datagrams(replies@) =~= spec_process(states0, own, dg.take(i as int + 1)).2);
                    }
                } else {
                    proof {
                        assert(map@.map_values(|s: HandshakeState| s@) =~= before.0);
                    }
                }
            }
            i = i + 1;
        }
        proof {
            assert(dg.take(incoming@.len() as int) == dg);
            assert forall|a: A| #[trigger] map@.contains_key(a) implies map@[a]@.live() by {
                assert(map@.map_values(|s: HandshakeState| s@).contains_key(a));
            }
        }
        self.handshakes = map;
        (delivered, replies)
    }

    /// The registered addresses, each once.
    pub fn addresses(&self) -> (r: Vec<A>)
        ensures
            r@.to_set() == self.states().dom(),
            r@.no_duplicates(),
    {
        proof {
            use_type_invariant(self);
        }
        let mut r: Vec<A> = Vec::new();
        for a in it: self.handshakes.keys()
            invariant
                r@ == it.seq().take(it.index()).unref(),
        {
            r.push(*a);
        }
        r
    }

    /// The status of the handshake with each registered address.
    pub fn status(&self) -> (r: HashMap<A, HandshakeStatus>)
        ensures
            r@.dom() == self.states().dom(),
            forall|a: A| #[trigger] r@.contains_key(a) ==> r@[a]@ == status_of(self.states()[a]),
    {
        proof {
            use_type_invariant(self);
        }
        let mut r: HashMap<A, HandshakeStatus> = HashMap::new();
        for entry in it: self.handshakes.iter()
            invariant
                obeys_key_model::<A>(),
                forall|a: A| #[trigger]
                    self.handshakes@.contains_key(a) ==> self.handshakes@[a]@.live(),
                it.seq() == vstd::std_specs::hash::spec_hash_map_iter(&self.handshakes).remaining(),
                forall|a: A| #[trigger] r@.contains_key(a) <==> exists|j: int|
                    0 <= j < it.index() && *it.seq()[j].0 == a,
                forall|a: A| #[trigger] r@.contains_key(a) ==> self.handshakes@.contains_key(a)
                    && r@[a]@ == status_of(self.handshakes@[a]@),
        {
            proof {
                let v = vstd::std_specs::hash::spec_hash_map_iter(&self.handshakes).remaining();
                assert(entry == v[it.index()]);
                assert(self.handshakes@.contains_key(*v[it.index()].0));
            }
            let (addr, hs) = entry;
            r.insert(*addr, hs.status());
        }
        r
    }
}

/// A socket that wraps another socket and drops all messages sent to or received from any
/// given address until it has completed a handshake with that address.
///
/// A remote address must be registered before any data is sent to it. The handshake sends a
/// sequence of sync numbers to the remote address and waits for each to be echoed back; with
/// the final echo the remote endpoint's header id becomes known, and from then on data is
/// exchanged wrapped with header ids: data carrying another header id than this socket's own
/// is dropped.
pub struct HandshakingSocket<A: Address, S: NonBlockingSocket<A>> {
    wrapped: S,
    table: HandshakeTable<A>,
    /// Every payload this socket was asked to send, in order, as (address, bytes).
    asked: Ghost<Seq<(A, Seq<u8>)>>,
    /// Every payload this socket handed back as received, in order, as (sender, bytes).
    delivered: Ghost<Seq<(A, Seq<u8>)>>,
}

/// The messages one poll round hands to the wrapped socket, one per registered address in
/// the order the addresses are visited: what each handshake asks to send with an empty
/// payload, encoded.
pub open spec fn poll_requests<A>(states: Map<A, HandshakeStateModel>, order: Seq<A>) -> Seq<(A, Seq<u8>)> {
    order.map_values(|a: A| (a, spec_encode(states[a].spec_outgoing(Seq::empty()).1)))
}

impl<A: Address, S: NonBlockingSocket<A>> HandshakingSocket<A, S> {
    /// The wrapped socket.
    pub closed spec fn wrapped(self) -> S {
        self.wrapped
    }

    /// The handshake state kept for each registered address.
    pub closed spec fn states(self) -> Map<A, HandshakeStateModel> {
        self.table.states()
    }

    /// The header id of this socket.
    pub closed spec fn own_header_id(self) -> u16 {
        self.table.own_header_id()
    }

    /// Everything the wrapped socket was asked to send, in order, as (address, bytes).
    pub open spec fn sent(self) -> Seq<(A, Seq<u8>)> {
        self.wrapped().sent_log()
    }

    /// Everything the wrapped socket handed back as received, in order, as (sender, bytes).
    pub open spec fn wrapped_received(self) -> Seq<(A, Seq<u8>)> {
        self.wrapped().received_log()
    }

    /// Wraps some other socket to add handshaking to it, with the given header id. Nothing is
    /// sent or received: the wrapped socket is handed over unchanged.
    pub fn wrap_with_id(socket: S, header_id: HeaderId) -> (r: Self)
        requires
            obeys_key_model::<A>(),
            socket.ready(),
        ensures
            r.ready(),
            r.states() == Map::<A, HandshakeStateModel>::empty(),
            r.own_header_id() == header_id,
            r.wrapped() == socket,
            r.sent_log() == Seq::<(A, Seq<u8>)>::empty(),
            r.received_log() == Seq::<(A, Seq<u8>)>::empty(),
    {
        Self {
            wrapped: socket,
            table: HandshakeTable::new(header_id),
            asked: Ghost(Seq::empty()),
            delivered: Ghost(Seq::empty()),
        }
    }

    /// Wraps some other socket to add handshaking to it, with a random header id. Nothing is
    /// sent or received: the wrapped socket is handed over unchanged.
    pub fn wrap(socket: S) -> (r: Self)
        requires
            obeys_key_model::<A>(),
            socket.ready(),
        ensures
            r.ready(),
            r.states() == Map::<A, HandshakeStateModel>::empty(),
            r.wrapped() == socket,
            r.sent_log() == Seq::<(A, Seq<u8>)>::empty(),
            r.received_log() == Seq::<(A, Seq<u8>)>::empty(),
    {
        Self::wrap_with_id(socket, random_header_id())
    }

    /// Prepares a handshake with a remote address, using the given sync numbers (the last one
    /// is sent first). A handshake registered before for the address is replaced. Nothing is
    /// sent or received. The wrapped socket must be able to send to the address.
    pub fn register_with_data(&mut self, addr: A, sync_numbers: Vec<SyncNumber>)
        requires
            old(self).ready(),
            sync_numbers@.len() > 0,
            old(self).wrapped().accepts(addr),
        ensures
            final(self).ready(),
            final(self).states() == old(self).states().insert(
                addr,
                HandshakeStateModel {
                    unsent: sync_numbers@,
                    awaiting: Seq::empty(),
                    recv_count: 0,
                    remote_header_id: None,
                },
            ),
            final(self).own_header_id() == old(self).own_header_id(),
            final(self).wrapped() == old(self).wrapped(),
            final(self).sent_log() == old(self).sent_log(),
            final(self).received_log() == old(self).received_log(),
            all_live(final(self).states()),
    {
        self.table.register(addr, sync_numbers);
        proof {
            use_type_invariant(&self.table);
            self.table.lemma_all_live();
        }
    }

    /// Prepares a handshake with a remote address, using five random sync numbers. Nothing is
    /// sent or received. The wrapped socket must be able to send to the address.
    pub fn register(&mut self, addr: A)
        requires
            old(self).ready(),
            old(self).wrapped().accepts(addr),
        ensures
            final(self).ready(),
            final(self).states().dom() == old(self).states().dom().insert(addr),
            final(self).states()[addr].unsent.len() == 5,
            final(self).states()[addr].awaiting.len() == 0,
            final(self).states()[addr].recv_count == 0,
            final(self).states()[addr].remote_header_id is None,
            forall|a: A| a != addr && old(self).states().contains_key(a)
                ==> final(self).states()[a] == old(self).states()[a],
            final(self).own_header_id() == old(self).own_header_id(),
            final(self).wrapped() == old(self).wrapped(),
            final(self).sent_log() == old(self).sent_log(),
            final(self).received_log() == old(self).received_log(),
            all_live(final(self).states()),
    {
        let mut sync_numbers: Vec<SyncNumber> = Vec::new();
        let mut i: usize = 0;
        while i < 5
            invariant
                i <= 5,
                sync_numbers@.len() == i,
            decreases 5 - i,
        {
            sync_numbers.push(random_sync_number());
            i = i + 1;
        }
        self.register_with_data(addr, sync_numbers);
    }

    /// Advances the handshakes with all registered addresses: each is asked for a message
    /// with an empty payload (so incomplete handshakes send their next sync request), in some
    /// order of the addresses, one send per address; then everything the wrapped socket
    /// received is handled once, as [`NonBlockingSocket::receive_all_messages`] does. Data
    /// payloads received here are dropped.
    pub fn poll(&mut self)
        requires
            old(self).ready(),
        ensures
            final(self).ready(),
            exists|order: Seq<A>, incoming: Seq<(A, Seq<u8>)>|
                #![trigger poll_requests(old(self).states(), order), spec_process(spec_polled(old(self).states()), old(self).own_header_id(), incoming)]
                {
                    &&& order.no_duplicates()
                    &&& order.to_set() == old(self).states().dom()
                    &&& final(self).wrapped_received() == old(self).wrapped_received() + incoming
                    &&& final(self).states() == spec_process(
                        spec_polled(old(self).states()),
                        old(self).own_header_id(),
                        incoming,
                    ).0
                    &&& final(self).sent() == old(self).sent() + poll_requests(old(self).states(), order)
                        + spec_process(
                        spec_polled(old(self).states()),
                        old(self).own_header_id(),
                        incoming,
                    ).2
                },
            final(self).own_header_id() == old(self).own_header_id(),
            final(self).sent_log() == old(self).sent_log(),
            final(self).received_log() == old(self).received_log(),
            forall|a: A| #[trigger] final(self).wrapped().accepts(a) == old(self).wrapped().accepts(a),
            status_kept(old(self).states(), final(self).states()),
            all_live(final(self).states()),
    {
        let addrs = self.table.addresses();
        let ghost s0 = self.states();
        let ghost sent0 = self.sent();
        let ghost rec0 = self.wrapped_received();
        let empty: Vec<u8> = Vec::new();
        let mut i: usize = 0;
        while i < addrs.len()
            invariant
                self.ready(),
                i <= addrs.len(),
                addrs@.to_set() == s0.dom(),
                addrs@.no_duplicates(),
                self.own_header_id() == old(self).own_header_id(),
                empty@ == Seq::<u8>::empty(),
                s0 == old(self).states(),
                sent0 == old(self).sent(),
                rec0 == old(self).wrapped_received(),
                self.wrapped_received() == rec0,
                self.sent_log() == old(self).sent_log(),
                self.received_log() == old(self).received_log(),
                forall|a: A| #[trigger] self.wrapped().accepts(a) == old(self).wrapped().accepts(a),
                self.states().dom() == s0.dom(),
                forall|a: A| #[trigger] self.states().contains_key(a) ==> self.states()[a] == if addrs@.take(i as int).contains(a) {
                    s0[a].spec_outgoing(Seq::empty()).0
                } else {
                    s0[a]
                },
                self.sent() == sent0 + poll_requests(s0, addrs@.take(i as int)),
            decreases addrs.len() - i,
        {
            let addr = addrs[i];
            proof {
                assert(s0.dom().contains(addr)) by {
                    assert(addrs@.contains(addr));
                }
                assert(!addrs@.take(i as int).contains(addr));
            }
            self.send_inner(empty.as_slice(), &addr);
            proof {
                assert forall|a: A| #[trigger] self.states().contains_key(a) implies self.states()[a] == if addrs@.take(i as int + 1).contains(a) {
                    s0[a].spec_outgoing(Seq::empty()).0
                } else {
                    s0[a]
                } by {
                    if a == addr {
                        assert(addrs@.take(i as int + 1).contains(a)) by {
                            assert(addrs@.take(i as int + 1)[i as int] == a);
                        }
                    } else {
                        assert(addrs@.take(i as int + 1).contains(a) == addrs@.take(i as int).contains(a)) by {
                            if addrs@.take(i as int + 1).contains(a) {
                                let k = choose|k: int| 0 <= k < i + 1 && #[trigger] addrs@.take(i as int + 1)[k] == a;
                                assert(addrs@.take(i as int)[k] == a);
                            }
                        }
                    }
                }
                assert(addrs@.take(i as int + 1) == addrs@.take(i as int).push(addr));
                assert(poll_requests(s0, addrs@.take(i as int + 1)) =~= poll_requests(s0, addrs@.take(i as int)).push(
                    (addr, spec_encode(s0[addr].spec_outgoing(Seq::empty()).1)),
                ));
            }
            i = i + 1;
        }
        proof {
            assert(self.states() =~= spec_polled(s0)) by {
                assert(addrs@.take(addrs@.len() as int) == addrs@);
                assert forall|a: A| #[trigger] self.states().contains_key(a) implies addrs@.contains(a) by {
                    assert(addrs@.to_set().contains(a));
                }
            }
            assert(addrs@.take(addrs@.len() as int) == addrs@);
        }
        let ghost sent1 = self.sent();
        proof {
            use_type_invariant(&self.table);
            self.table.lemma_all_live();
            law_socket_totals_conserved(s0, self.own_header_id(), Seq::empty());
        }
        let _ = self.receive_inner();
        proof {
            let incoming = choose|incoming: Seq<(A, Seq<u8>)>| #[trigger] spec_process(spec_polled(s0), old(self).own_header_id(), incoming).0 == self.states()
                && self.sent() == sent1 + spec_process(spec_polled(s0), old(self).own_header_id(), incoming).2
                && self.wrapped_received() == rec0 + incoming;
            assert(self.sent() == old(self).sent() + poll_requests(s0, addrs@) + spec_process(spec_polled(s0), old(self).own_header_id(), incoming).2);
        }
    }

    /// Hands the wrapped socket what the handshake with a registered address asks to send
    /// for `buf`: the payload wrapped with the remote header id once the handshake is
    /// complete, else the next sync request.
    fn send_inner(&mut self, buf: &[u8], addr: &A)
        requires
            old(self).ready(),
            old(self).states().contains_key(*addr),
        ensures
            final(self).ready(),
            ({
                let (st, m) = old(self).states()[*addr].spec_outgoing(buf@);
                &&& final(self).states() == old(self).states().insert(*addr, st)
                &&& final(self).sent() == old(self).sent().push((*addr, spec_encode(m)))
            }),
            final(self).wrapped_received() == old(self).wrapped_received(),
            final(self).own_header_id() == old(self).own_header_id(),
            final(self).sent_log() == old(self).sent_log(),
            final(self).received_log() == old(self).received_log(),
            forall|a: A| #[trigger] final(self).wrapped().accepts(a) == old(self).wrapped().accepts(a),
            status_kept(old(self).states(), final(self).states()),
            all_live(final(self).states()),
    {
        proof {
            use_type_invariant(&self.table);
            self.table.lemma_all_live();
            law_progress_conserved(self.states()[*addr], self.own_header_id(), MessageModel::SyncRequest(0), buf@);
        }
        let out = self.table.outgoing(buf, addr);
        if let Some(bytes) = out {
            self.wrapped.send_to(bytes.as_slice(), addr);
        }
        proof {
            use_type_invariant(&self.table);
            self.table.lemma_all_live();
            assert(self.states().dom() =~= old(self).states().dom());
            assert forall|a: A| #[trigger] old(self).states().contains_key(a) implies self.states()[a].recv_count
                + self.states()[a].remaining() == old(self).states()[a].recv_count + old(self).states()[a].remaining() by {
                if a == *addr {
                    assert(self.states()[a] == old(self).states()[a].spec_outgoing(buf@).0);
                }
            }
        }
    }

    /// Receives everything the wrapped socket received, answers and advances handshakes,
    /// hands the replies (sync responses and next sync requests) to the wrapped socket in
    /// order, and returns the payloads of data from addresses whose handshake is complete.
    fn receive_inner(&mut self) -> (r: Vec<(A, Vec<u8>)>)
        requires
            old(self).ready(),
        ensures
            final(self).ready(),
            exists|incoming: Seq<(A, Seq<u8>)>|
                #![trigger spec_process(old(self).states(), old(self).own_header_id(), incoming)]
                {
                    &&& final(self).wrapped_received() == old(self).wrapped_received() + incoming
                    &&& final(self).states() == spec_process(
                        old(self).states(),
                        old(self).own_header_id(),
                        incoming,
                    ).0
                    &&& datagrams(r@) == spec_process(
                        old(self).states(),
                        old(self).own_header_id(),
                        incoming,
                    ).1
                    &&& final(self).sent() == old(self).sent() + spec_process(
                        old(self).states(),
                        old(self).own_header_id(),
                        incoming,
                    ).2
                },
            final(self).states().dom() == old(self).states().dom(),
            final(self).own_header_id() == old(self).own_header_id(),
            final(self).sent_log() == old(self).sent_log(),
            final(self).received_log() == old(self).received_log(),
            forall|a: A| #[trigger] final(self).wrapped().accepts(a) == old(self).wrapped().accepts(a),
            status_kept(old(self).states(), final(self).states()),
            all_live(final(self).states()),
    {
        proof {
            use_type_invariant(&self.table);
            self.table.lemma_all_live();
        }
        let incoming = self.wrapped.receive_all_messages();
        let ghost dg = datagrams(incoming@);
        let ghost s0 = self.states();
        proof {
            law_process_delivers_only_completed(s0, self.own_header_id(), dg);
            law_socket_totals_conserved(s0, self.own_header_id(), dg);
        }
        let (delivered, replies) = self.table.handle_datagrams(incoming);
        let ghost s1 = self.states();
        let ghost sent1 = self.sent();
        let ghost rec1 = self.wrapped_received();
        let mut i: usize = 0;
        while i < replies.len()
            invariant
                i <= replies.len(),
                self.wrapped.ready(),
                forall|a: A| #[trigger] s1.contains_key(a) ==> self.wrapped.accepts(a),
                self.states() == s1,
                s1.dom() == s0.dom(),
                datagrams(replies@) == spec_process(s0, old(self).own_header_id(), dg).2,
                forall|k: int| 0 <= k < datagrams(replies@).len() ==> s0.contains_key(#[trigger] datagrams(replies@)[k].0),
                self.own_header_id() == old(self).own_header_id(),
                self.sent() == sent1 + datagrams(replies@).take(i as int),
                self.wrapped_received() == rec1,
                self.sent_log() == old(self).sent_log(),
                self.received_log() == old(self).received_log(),
                forall|a: A| #[trigger] self.wrapped().accepts(a) == old(self).wrapped().accepts(a),
            decreases replies.len() - i,
        {
            let addr: A = replies[i].0;
            proof {
                assert(datagrams(replies@)[i as int].0 == addr);
                assert(s0.contains_key(addr));
                assert(datagrams(replies@).take(i as int + 1) =~= datagrams(replies@).take(i as int).push((addr, replies@[i as int].1@)));
            }
            self.wrapped.send_to(replies[i].1.as_slice(), &addr);
            i = i + 1;
        }
        proof {
            assert(datagrams(replies@).take(replies@.len() as int) =~= datagrams(replies@));
        }
        assert(spec_process(old(self).states(), old(self).own_header_id(), dg).0 == self.states());
        proof {
            use_type_invariant(&self.table);
            self.table.lemma_all_live();
        }
        delivered
    }

    /// Returns the status of handshakes with all registered addresses; a status says
    /// completed exactly when the handshake with that address is complete.
    pub fn handshake_status(&self) -> (r: HashMap<A, HandshakeStatus>)
        ensures
            r@.dom() == self.states().dom(),
            forall|a: A| #[trigger] r@.contains_key(a) ==> r@[a]@ == status_of(self.states()[a]),
            forall|a: A| #[trigger] r@.contains_key(a) ==> (r@[a]@.1 == 0 <==> self.states()[a].is_complete()),
            all_live(self.states()),
    {
        proof {
            use_type_invariant(&self.table);
            self.table.lemma_all_live();
        }
        let r = self.table.status();
        proof {
            assert forall|a: A| #[trigger] r@.contains_key(a) implies (r@[a]@.1 == 0 <==> self.states()[a].is_complete()) by {
                law_complete_iff_nothing_remains(self.states()[a]);
            }
        }
        r
    }
}

impl<A: Address, S: NonBlockingSocket<A>> NonBlockingSocket<A> for HandshakingSocket<A, S> {
    /// Every payload this socket was asked to send.
    closed spec fn sent_log(&self) -> Seq<(A, Seq<u8>)> {
        self.asked@
    }

    /// Every payload this socket handed back as received.
    closed spec fn received_log(&self) -> Seq<(A, Seq<u8>)> {
        self.delivered@
    }

    /// A handshaking socket sends only to registered addresses.
    open spec fn accepts(&self, addr: A) -> bool {
        self.states().contains_key(addr)
    }

    /// The wrapped socket is ready and can send to every registered address.
    closed spec fn ready(&self) -> bool {
        &&& self.wrapped.ready()
        &&& forall|a: A| #[trigger] self.table.states().contains_key(a) ==> self.wrapped.accepts(a)
    }

    /// Sends `buf` to a registered address: the wrapped socket is handed the payload wrapped
    /// with the remote header id once the handshake with it is complete; before that the
    /// payload is dropped and the next sync request goes out in its place.
    fn send_to(&mut self, buf: &[u8], addr: &A)
        ensures
            ({
                let (st, m) = old(self).states()[*addr].spec_outgoing(buf@);
                &&& final(self).states() == old(self).states().insert(*addr, st)
                &&& final(self).sent() == old(self).sent().push((*addr, spec_encode(m)))
            }),
            final(self).wrapped_received() == old(self).wrapped_received(),
            final(self).own_header_id() == old(self).own_header_id(),
            forall|a: A| #[trigger] final(self).wrapped().accepts(a) == old(self).wrapped().accepts(a),
            status_kept(old(self).states(), final(self).states()),
            all_live(final(self).states()),
    {
        proof {
            self.asked@ = self.asked@.push((*addr, buf@));
        }
        self.send_inner(buf, addr);
    }

    /// Receives everything the wrapped socket received, answers and advances handshakes, and
    /// returns the payloads of data from addresses whose handshake is complete. The replies
    /// (sync responses and next sync requests) are handed to the wrapped socket in order.
    fn receive_all_messages(&mut self) -> (r: Vec<(A, Vec<u8>)>)
        ensures
            exists|incoming: Seq<(A, Seq<u8>)>|
                #![trigger spec_process(old(self).states(), old(self).own_header_id(), incoming)]
                {
                    &&& final(self).wrapped_received() == old(self).wrapped_received() + incoming
                    &&& final(self).states() == spec_process(
                        old(self).states(),
                        old(self).own_header_id(),
                        incoming,
                    ).0
                    &&& datagrams(r@) == spec_process(
                        old(self).states(),
                        old(self).own_header_id(),
                        incoming,
                    ).1
                    &&& final(self).sent() == old(self).sent() + spec_process(
                        old(self).states(),
                        old(self).own_header_id(),
                        incoming,
                    ).2
                },
            final(self).own_header_id() == old(self).own_header_id(),
            forall|a: A| #[trigger] final(self).wrapped().accepts(a) == old(self).wrapped().accepts(a),
            status_kept(old(self).states(), final(self).states()),
            all_live(final(self).states()),
    {
        let r = self.receive_inner();
        proof {
            self.delivered@ = self.delivered@ + datagrams(r@);
        }
        r
    }
}

/// Returns a random header id.
///
/// Calls `rand::random::<u16>()`; nothing is promised of the value.
#[verifier::external_body]
fn random_header_id() -> (r: HeaderId) {
    rand::random::<HeaderId>()
}

/// Returns a random sync number.
///
/// Calls `rand::random::<u32>()`; nothing is promised of the value.
#[verifier::external_body]
fn random_sync_number() -> (r: SyncNumber) {
    rand::random::<SyncNumber>()
}

} // verus!
