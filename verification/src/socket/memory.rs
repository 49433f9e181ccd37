//! An in-memory transport: every socket of a network shares one queue of messages.

use std::sync::Arc;
use vstd::prelude::*;

use crate::{datagrams, NonBlockingSocket};

verus! {

/// The address of a socket in a memory network.
pub type MemoryAddress = usize;

/// A message waiting in the shared queue.
#[derive(Debug, Clone)]
pub struct MemoryMsg {
    pub from: MemoryAddress,
    pub to: MemoryAddress,
    pub data: Vec<u8>,
}

#[verifier::external_type_specification]
#[verifier::external_body]
#[verifier::reject_recursive_types(R)]
#[verifier::reject_recursive_types(T)]
pub struct ExLockApiMutex<R, T: ?Sized>(parking_lot::lock_api::Mutex<R, T>);

#[verifier::external_type_specification]
#[verifier::external_body]
pub struct ExRawMutex(parking_lot::RawMutex);

/// A message as (from, to, data).
pub open spec fn msg_model(m: MemoryMsg) -> (MemoryAddress, MemoryAddress, Seq<u8>) {
    (m.from, m.to, m.data@)
}

/// The messages addressed to `addr`, as (sender, data), in queue order.
pub open spec fn addressed_to(q: Seq<MemoryMsg>, addr: MemoryAddress) -> Seq<(MemoryAddress, Seq<u8>)>
    decreases q.len(),
{
    if q.len() == 0 {
        Seq::empty()
    } else {
        let rest = addressed_to(q.drop_last(), addr);
        if q.last().to == addr {
            rest.push((q.last().from, q.last().data@))
        } else {
            rest
        }
    }
}

/// The messages not addressed to `addr`, in queue order.
pub open spec fn not_addressed_to(q: Seq<MemoryMsg>, addr: MemoryAddress) -> Seq<(MemoryAddress, MemoryAddress, Seq<u8>)>
    decreases q.len(),
{
    if q.len() == 0 {
        Seq::empty()
    } else {
        let rest = not_addressed_to(q.drop_last(), addr);
        if q.last().to == addr {
            rest
        } else {
            rest.push(msg_model(q.last()))
        }
    }
}

/// Taking the messages addressed to an address loses and duplicates none: each queued
/// message is either taken or kept, and none of the kept ones is addressed to that address.
pub proof fn law_take_partitions_queue(q: Seq<MemoryMsg>, addr: MemoryAddress)
    ensures
        addressed_to(q, addr).len() + not_addressed_to(q, addr).len() == q.len(),
        forall|i: int| 0 <= i < not_addressed_to(q, addr).len() ==> (#[trigger] not_addressed_to(q, addr)[i]).1 != addr,
    decreases q.len(),
{
    if q.len() > 0 {
        law_take_partitions_queue(q.drop_last(), addr);
    }
}

/// Received messages as (sender, data) pairs of mathematical values.
pub open spec fn received_model(v: Seq<(MemoryAddress, Vec<u8>)>) -> Seq<(MemoryAddress, Seq<u8>)> {
    v.map_values(|p: (MemoryAddress, Vec<u8>)| (p.0, p.1@))
}

/// An operation on the shared queue, done while holding its lock.
pub enum QueueOp {
    /// Appends a message.
    Push(MemoryMsg),
    /// Removes the messages addressed to an address and returns them.
    TakeFor(MemoryAddress),
    /// Counts the queued messages.
    Count,
}

/// The outcome of a [`QueueOp`].
pub enum QueueResult {
    Pushed,
    Taken(Vec<(MemoryAddress, Vec<u8>)>),
    Count(usize),
}

/// Applies an operation to the queue: a push appends the message; taking for an address
/// removes the messages addressed to it, keeping the others in order, and returns them as
/// (sender, data) in queue order; counting changes nothing.
pub fn apply_queue_op(queue: &mut Vec<MemoryMsg>, op: QueueOp) -> (r: QueueResult)
    ensures
        match op {
            QueueOp::Push(m) => final(queue)@ == old(queue)@.push(m) && r is Pushed,
            QueueOp::TakeFor(addr) => {
                &&& final(queue)@.map_values(|m: MemoryMsg| msg_model(m)) == not_addressed_to(old(queue)@, addr)
                &&& r matches QueueResult::Taken(v) && received_model(v@) == addressed_to(old(queue)@, addr)
            },
            QueueOp::Count => final(queue)@ == old(queue)@ && r == QueueResult::Count(old(queue)@.len() as usize),
        },
{
    match op {
        QueueOp::Push(m) => {
            queue.push(m);
            QueueResult::Pushed
        },
        QueueOp::TakeFor(addr) => {
            let ghost q0 = queue@;
            let mut kept: Vec<MemoryMsg> = Vec::new();
            let mut received: Vec<(MemoryAddress, Vec<u8>)> = Vec::new();
            let mut i: usize = 0;
            while i < queue.len()
                invariant
                    i <= queue.len(),
                    queue@ == q0,
                    kept@.map_values(|m: MemoryMsg| msg_model(m)) == not_addressed_to(q0.take(i as int), addr),
                    received_model(received@) == addressed_to(q0.take(i as int), addr),
                decreases queue.len() - i,
            {
                proof {
                    assert(q0.take(i as int + 1).drop_last() == q0.take(i as int));
                }
                let m = &queue[i];
                if m.to == addr {
                    received.push((m.from, m.data.clone()));
                    assert(received_model(received@) =~= addressed_to(q0.take(i as int + 1), addr));
                } else {
                    kept.push(MemoryMsg { from: m.from, to: m.to, data: m.data.clone() });
                    assert(kept@.map_values(|m: MemoryMsg| msg_model(m)) =~= not_addressed_to(q0.take(i as int + 1), addr));
                }
                i = i + 1;
            }
            proof {
                assert(q0.take(q0.len() as int) == q0);
            }
            *queue = kept;
            QueueResult::Taken(received)
        },
        QueueOp::Count => QueueResult::Count(queue.len()),
    }
}

/// A queue shared by all sockets of a network.
#[derive(Debug, Clone)]
pub struct MemoryTransport {
    all_messages: Arc<parking_lot::Mutex<Vec<MemoryMsg>>>,
}

/// What an operation on the queue can give back, for some content of the queue: a push
/// gives `Pushed`; taking for an address gives messages as they are addressed to it in some
/// queue; counting gives a count.
pub open spec fn possible_outcome(op: QueueOp, r: QueueResult) -> bool {
    match op {
        QueueOp::Push(_) => r is Pushed,
        QueueOp::TakeFor(addr) => r matches QueueResult::Taken(v) && exists|q: Seq<MemoryMsg>|
            received_model(v@) == addressed_to(q, addr),
        QueueOp::Count => r is Count,
    }
}

impl MemoryTransport {
    /// An empty queue.
    pub fn new() -> (r: Self) {
        Self { all_messages: Arc::new(new_locked_queue()) }
    }

    /// Another handle to the same queue.
    pub fn share(&self) -> (r: Self)
        ensures
            r == *self,
    {
        Self { all_messages: share_queue(&self.all_messages) }
    }

    /// Applies an operation to the shared queue while holding its lock.
    pub fn apply(&self, op: QueueOp) -> (r: QueueResult)
        ensures
            possible_outcome(op, r),
    {
        with_locked_queue(&self.all_messages, op).unwrap()
    }
}

/// A network of in-memory sockets.
#[derive(Debug, Clone)]
pub struct MemoryNetwork {
    transport: MemoryTransport,
    next_socket_address: MemoryAddress,
}

impl MemoryNetwork {
    /// The number of sockets added so far.
    pub closed spec fn socket_count(self) -> nat {
        self.next_socket_address as nat
    }

    /// The queue the sockets of this network share.
    pub closed spec fn transport(self) -> MemoryTransport {
        self.transport
    }

    /// A network without sockets.
    pub fn new() -> (r: Self)
        ensures
            r.socket_count() == 0,
    {
        Self { transport: MemoryTransport::new(), next_socket_address: 0 }
    }

    /// The number of sockets added so far.
    pub fn num_sockets(&self) -> (r: usize)
        ensures
            r == self.socket_count(),
    {
        self.next_socket_address
    }

    /// Adds a socket, sharing the network's queue; its address is the number of sockets
    /// added before it, and it has sent and received nothing yet.
    pub fn add_socket(&mut self) -> (r: MemorySocket)
        requires
            old(self).socket_count() < usize::MAX,
        ensures
            final(self).socket_count() == old(self).socket_count() + 1,
            final(self).transport() == old(self).transport(),
            r.addr() == old(self).socket_count(),
            r.transport() == old(self).transport(),
            r.sent_log() == Seq::<(MemoryAddress, Seq<u8>)>::empty(),
            r.received_log() == Seq::<(MemoryAddress, Seq<u8>)>::empty(),
    {
        let address = self.next_socket_address;
        self.next_socket_address = self.next_socket_address + 1;
        MemorySocket {
            address,
            transport: self.transport.share(),
            sent: Ghost(Seq::empty()),
            received: Ghost(Seq::empty()),
        }
    }
}

/// A socket of a memory network.
pub struct MemorySocket {
    address: MemoryAddress,
    transport: MemoryTransport,
    sent: Ghost<Seq<(MemoryAddress, Seq<u8>)>>,
    received: Ghost<Seq<(MemoryAddress, Seq<u8>)>>,
}

/// The message from `from` to `to` carrying `buf`.
pub fn memory_msg(from: MemoryAddress, to: MemoryAddress, buf: &[u8]) -> (m: MemoryMsg)
    ensures
        m.from == from,
        m.to == to,
        m.data@ == buf@,
{
    MemoryMsg { from, to, data: vstd::slice::slice_to_vec(buf) }
}

impl MemorySocket {
    /// The address of this socket.
    pub closed spec fn addr(self) -> MemoryAddress {
        self.address
    }

    /// The queue this socket shares with the other sockets of its network.
    pub closed spec fn transport(self) -> MemoryTransport {
        self.transport
    }

    /// The address of this socket.
    pub fn address(&self) -> (r: MemoryAddress)
        ensures
            r == self.addr(),
    {
        self.address
    }

    /// The number of messages waiting in the network's queue, for any socket.
    pub fn num_queued_messages(&self) -> (r: usize) {
        match self.transport.apply(QueueOp::Count) {
            QueueResult::Count(n) => n,
            _ => 0,
        }
    }
}

impl NonBlockingSocket<MemoryAddress> for MemorySocket {
    closed spec fn sent_log(&self) -> Seq<(MemoryAddress, Seq<u8>)> {
        self.sent@
    }

    closed spec fn received_log(&self) -> Seq<(MemoryAddress, Seq<u8>)> {
        self.received@
    }

    /// A memory socket can send to any address.
    open spec fn accepts(&self, addr: MemoryAddress) -> bool {
        true
    }

    /// A memory socket is always ready.
    open spec fn ready(&self) -> bool {
        true
    }

    /// Appends the message from this socket to `addr` carrying `buf` to the shared queue.
    fn send_to(&mut self, buf: &[u8], addr: &MemoryAddress)
        ensures
            final(self).addr() == old(self).addr(),
            final(self).transport() == old(self).transport(),
    {
        let msg = memory_msg(self.address, *addr, buf);
        proof {
            self.sent@ = self.sent@.push((*addr, buf@));
        }
        let _ = self.transport.apply(QueueOp::Push(msg));
    }

    /// Removes the messages addressed to this socket from the shared queue and returns them
    /// as (sender, data), in the order they were sent.
    fn receive_all_messages(&mut self) -> (r: Vec<(MemoryAddress, Vec<u8>)>)
        ensures
            final(self).addr() == old(self).addr(),
            final(self).transport() == old(self).transport(),
            exists|q: Seq<MemoryMsg>| datagrams(r@) == addressed_to(q, old(self).addr()),
    {
        let outcome = self.transport.apply(QueueOp::TakeFor(self.address));
        let r = match outcome {
            QueueResult::Taken(v) => v,
            _ => Vec::new(),
        };
        proof {
            assert(outcome matches QueueResult::Taken(v) && r@ == v@);
            let q = choose|q: Seq<MemoryMsg>| received_model(r@) == addressed_to(q, self.address);
            assert(datagrams(r@) =~= received_model(r@));
            assert(datagrams(r@) == addressed_to(q, old(self).addr()));
            self.received@ = self.received@ + datagrams(r@);
        }
        r
    }
}

/// A new lock around an empty queue.
///
/// Calls `parking_lot::Mutex::new`; the lock's contents are not visible to the caller.
#[verifier::external_body]
fn new_locked_queue() -> (r: parking_lot::Mutex<Vec<MemoryMsg>>) {
    parking_lot::Mutex::new(Vec::new())
}

/// Takes the queue's lock and hands the locked queue to [`apply_queue_op`].
///
/// Calls `parking_lot::Mutex::lock`, which blocks until the lock is free, and
/// `MutexGuard::try_map_or_err` with a closure that applies `op` and returns its outcome as
/// the error, so the call always gives the outcome back and releases the lock. The queue is
/// shared with other handles, so what it holds is not known here: only that an outcome comes
/// back, and that it is what [`apply_queue_op`] gives for some content of the queue.
#[verifier::external_body]
fn with_locked_queue(q: &parking_lot::Mutex<Vec<MemoryMsg>>, op: QueueOp) -> (r: Option<QueueResult>)
    ensures
        r is Some,
        possible_outcome(op, r->0),
{
    parking_lot::MutexGuard::try_map_or_err(q.lock(), |queue| Err::<&mut Vec<MemoryMsg>, QueueResult>(apply_queue_op(queue, op)))
        .err()
        .map(|(_guard, outcome)| outcome)
}

/// Another handle to the same locked queue.
///
/// Calls `Arc::clone`, which gives a pointer to the same allocation: the clone is the same
/// queue.
#[verifier::external_body]
fn share_queue(q: &Arc<parking_lot::Mutex<Vec<MemoryMsg>>>) -> (r: Arc<parking_lot::Mutex<Vec<MemoryMsg>>>)
    ensures
        r == *q,
{
    Arc::clone(q)
}

} // verus!
