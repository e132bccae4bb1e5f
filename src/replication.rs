//! Replication bookkeeping: per-origin sequence numbers, the outbound queue
//! of a node, the server's ordered log, duplicate detection on receipt, and
//! the readiness signal of a connection.
use vstd::prelude::*;
use std::collections::HashMap;
use crate::node::{Delta, DeltaV};

verus! {

broadcast use vstd::std_specs::hash::group_hash_axioms;

/// A delta tagged with the node it originated on and that node's sequence number.
#[derive(Debug)]
pub struct Envelope {
    pub origin: u64,
    pub seq: u64,
    pub delta: Delta,
}

/// The mathematical content of an [`Envelope`].
pub struct EnvelopeV {
    pub origin: u64,
    pub seq: u64,
    pub delta: DeltaV,
}

impl View for Envelope {
    type V = EnvelopeV;

    open spec fn view(&self) -> EnvelopeV {
        EnvelopeV { origin: self.origin, seq: self.seq, delta: self.delta@ }
    }
}

impl Clone for Envelope {
    fn clone(&self) -> (r: Envelope)
        ensures
            r@ == self@,
    {
        Envelope { origin: self.origin, seq: self.seq, delta: self.delta.clone() }
    }
}

/// The views of a sequence of envelopes.
pub open spec fn env_views(s: Seq<Envelope>) -> Seq<EnvelopeV> {
    s.map_values(|e: Envelope| e@)
}

/// The deltas a node committed and the server has not yet acknowledged, in
/// commit order, each with the next sequence number of this origin.
pub struct Outbox {
    origin: u64,
    next_seq: u64,
    pending: Vec<Envelope>,
}

impl Outbox {
    pub closed spec fn spec_origin(&self) -> u64 {
        self.origin
    }

    pub closed spec fn spec_next_seq(&self) -> u64 {
        self.next_seq
    }

    pub closed spec fn spec_pending(&self) -> Seq<EnvelopeV> {
        env_views(self.pending@)
    }

    /// Pending entries carry this origin and strictly increasing sequence
    /// numbers below the next one.
    pub open spec fn wf(&self) -> bool {
        &&& self.spec_next_seq() >= 1
        &&& forall|i: int|
            0 <= i < self.spec_pending().len() ==> (#[trigger] self.spec_pending()[i]).origin
                == self.spec_origin() && self.spec_pending()[i].seq < self.spec_next_seq()
        &&& forall|i: int, j: int|
            0 <= i < j < self.spec_pending().len() ==> (#[trigger] self.spec_pending()[i]).seq
                < (#[trigger] self.spec_pending()[j]).seq
    }

    /// An empty queue for `origin`; its first sequence number is 1.
    pub fn new(origin: u64) -> (r: Outbox)
        ensures
            r.wf(),
            r.spec_origin() == origin,
            r.spec_next_seq() == 1,
            r.spec_pending() == Seq::<EnvelopeV>::empty(),
    {
        let r = Outbox { origin, next_seq: 1, pending: Vec::new() };
        assert(r.spec_pending() =~= Seq::<EnvelopeV>::empty());
        r
    }

    /// Queues `d` under the next sequence number. Returns false, and queues
    /// nothing, once the sequence numbers are spent.
    pub fn enqueue(&mut self, d: Delta) -> (r: bool)
        requires
            old(self).wf(),
        ensures
            final(self).wf(),
            final(self).spec_origin() == old(self).spec_origin(),
            r == (old(self).spec_next_seq() < u64::MAX),
            r ==> final(self).spec_pending() == old(self).spec_pending().push(
                EnvelopeV { origin: old(self).spec_origin(), seq: old(self).spec_next_seq(), delta: d@ },
            ) && final(self).spec_next_seq() == old(self).spec_next_seq() + 1,
            !r ==> final(self).spec_pending() == old(self).spec_pending() && final(self).spec_next_seq()
                == old(self).spec_next_seq(),
    {
        if self.next_seq == u64::MAX {
            return false;
        }
        let e = Envelope { origin: self.origin, seq: self.next_seq, delta: d };
        let ghost queued = self.spec_pending();
        self.pending.push(e);
        self.next_seq = self.next_seq + 1;
        assert(self.spec_pending() =~= queued.push(e@));
        true
    }

    /// Drops the entries the server acknowledged: those numbered `upto` or lower.
    pub fn ack(&mut self, upto: u64)
        requires
            old(self).wf(),
        ensures
            final(self).wf(),
            final(self).spec_origin() == old(self).spec_origin(),
            final(self).spec_next_seq() == old(self).spec_next_seq(),
            exists|k: int|
                0 <= k <= old(self).spec_pending().len() && final(self).spec_pending() == old(self).spec_pending().subrange(k, old(self).spec_pending().len() as int) && (forall|j: int|
                    0 <= j < k ==> (#[trigger] old(self).spec_pending()[j]).seq <= upto),
            forall|i: int|
                0 <= i < final(self).spec_pending().len() ==> (#[trigger] final(self).spec_pending()[i]).seq > upto,
    {
        let ghost queued = self.spec_pending();
        let ghost mut k: int = 0;
        while self.pending.len() > 0 && self.pending[0].seq <= upto
            invariant
                self.wf(),
                self.spec_origin() == old(self).spec_origin(),
                self.spec_next_seq() == old(self).spec_next_seq(),
                queued == old(self).spec_pending(),
                0 <= k <= queued.len(),
                self.spec_pending() == queued.subrange(k, queued.len() as int),
                forall|j: int| 0 <= j < k ==> (#[trigger] queued[j]).seq <= upto,
            decreases self.pending.len(),
        {
            let ghost before = self.spec_pending();
            assert(before[0] == queued[k]);
            self.pending.remove(0);
            proof {
                assert(self.spec_pending() =~= before.subrange(1, before.len() as int));
                k = k + 1;
                assert(self.spec_pending() =~= queued.subrange(k, queued.len() as int));
            }
        }
        proof {
            let p = self.spec_pending();
            if p.len() > 0 {
                assert(p[0].seq > upto);
                assert forall|i: int| 0 <= i < p.len() implies (#[trigger] p[i]).seq > upto by {
                    if i > 0 {
                        assert(p[0].seq < p[i].seq);
                    }
                }
            }
        }
    }

    /// The entries still waiting for acknowledgement, oldest first.
    pub fn pending(&self) -> (r: &Vec<Envelope>)
        ensures
            env_views(r@) == self.spec_pending(),
    {
        &self.pending
    }
}

/// The server's log of deltas in the order it received or created them. A
/// checkpoint is the number of entries a peer has already applied.
pub struct Log {
    entries: Vec<Envelope>,
}

impl Log {
    pub closed spec fn spec_entries(&self) -> Seq<EnvelopeV> {
        env_views(self.entries@)
    }

    /// An empty log.
    pub fn new() -> (r: Log)
        ensures
            r.spec_entries() == Seq::<EnvelopeV>::empty(),
    {
        let r = Log { entries: Vec::new() };
        assert(r.spec_entries() =~= Seq::<EnvelopeV>::empty());
        r
    }

    /// Appends an entry.
    pub fn append(&mut self, e: Envelope)
        ensures
            final(self).spec_entries() == old(self).spec_entries().push(e@),
    {
        let ghost s0 = self.spec_entries();
        self.entries.push(e);
        assert(self.spec_entries() =~= s0.push(e@));
    }

    /// The number of entries: the checkpoint of a peer that has them all.
    pub fn len(&self) -> (r: usize)
        ensures
            r == self.spec_entries().len(),
    {
        self.entries.len()
    }

    /// The entries strictly after `checkpoint`, in log order.
    pub fn after(&self, checkpoint: usize) -> (r: Vec<Envelope>)
        ensures
            checkpoint <= self.spec_entries().len() ==> env_views(r@) == self.spec_entries().subrange(
                checkpoint as int,
                self.spec_entries().len() as int,
            ),
            checkpoint > self.spec_entries().len() ==> r@.len() == 0,
    {
        let mut r: Vec<Envelope> = Vec::new();
        let n = self.entries.len();
        let mut i: usize = checkpoint;
        while i < n
            invariant
                n == self.entries@.len(),
                checkpoint <= i || n <= checkpoint,
                i >= checkpoint,
                i < n ==> env_views(r@) == self.spec_entries().subrange(checkpoint as int, i as int),
                i >= n && checkpoint <= n ==> env_views(r@) == self.spec_entries().subrange(
                    checkpoint as int,
                    n as int,
                ),
                checkpoint >= n ==> r@.len() == 0,
            decreases n - i,
        {
            let ghost r0 = env_views(r@);
            r.push(self.entries[i].clone());
            assert(env_views(r@) =~= r0.push(self.entries@[i as int]@));
            assert(self.spec_entries()[i as int] == self.entries@[i as int]@);
            assert(env_views(r@) =~= self.spec_entries().subrange(checkpoint as int, i + 1));
            i += 1;
        }
        proof {
            if checkpoint == n {
                assert(env_views(r@) =~= self.spec_entries().subrange(checkpoint as int, n as int));
            }
        }
        r
    }
}

/// How a receiver classifies an incoming envelope.
#[derive(Clone, Copy, Debug, PartialEq, Eq, Structural)]
pub enum Verdict {
    /// The next envelope of its origin: apply it.
    Fresh,
    /// Already received: discard it.
    Duplicate,
    /// Envelopes of its origin are missing before it: ask for a resend.
    Gap,
}

/// The highest sequence number received in order from `origin`.
pub open spec fn mark(m: Map<u64, u64>, origin: u64) -> u64 {
    if m.contains_key(origin) {
        m[origin]
    } else {
        0
    }
}

pub open spec fn verdict_of(m: Map<u64, u64>, origin: u64, seq: u64) -> Verdict {
    if seq <= mark(m, origin) {
        Verdict::Duplicate
    } else if seq == mark(m, origin) + 1 {
        Verdict::Fresh
    } else {
        Verdict::Gap
    }
}

pub open spec fn after_receive(m: Map<u64, u64>, origin: u64, seq: u64) -> Map<u64, u64> {
    if verdict_of(m, origin, seq) == Verdict::Fresh {
        m.insert(origin, seq)
    } else {
        m
    }
}

/// Delivering the same envelope twice is taken at most once: the second
/// delivery is never fresh and changes nothing.
pub proof fn lemma_duplicate_delivery(m: Map<u64, u64>, origin: u64, seq: u64)
    ensures
        verdict_of(after_receive(m, origin, seq), origin, seq) != Verdict::Fresh,
        after_receive(after_receive(m, origin, seq), origin, seq) == after_receive(m, origin, seq),
        verdict_of(m, origin, seq) == Verdict::Fresh ==> verdict_of(
            after_receive(m, origin, seq),
            origin,
            seq,
        ) == Verdict::Duplicate,
{
}

/// Per-origin high-water marks of the envelopes a node has received.
pub struct Inbox {
    marks: HashMap<u64, u64>,
}

impl Inbox {
    pub closed spec fn spec_marks(&self) -> Map<u64, u64> {
        self.marks@
    }

    /// An inbox that has received nothing.
    pub fn new() -> (r: Inbox)
        ensures
            r.spec_marks() == Map::<u64, u64>::empty(),
    {
        Inbox { marks: HashMap::new() }
    }

    /// The highest sequence number received in order from `origin`; 0 for none.
    pub fn checkpoint(&self, origin: u64) -> (r: u64)
        ensures
            r == mark(self.spec_marks(), origin),
    {
        match self.marks.get(&origin) {
            Some(s) => *s,
            None => 0,
        }
    }

    /// Classifies an envelope from `origin` numbered `seq`, and records it
    /// when it is the next one expected.
    pub fn receive(&mut self, origin: u64, seq: u64) -> (r: Verdict)
        ensures
            r == verdict_of(old(self).spec_marks(), origin, seq),
            final(self).spec_marks() == after_receive(old(self).spec_marks(), origin, seq),
    {
        let m = self.checkpoint(origin);
        if seq <= m {
            Verdict::Duplicate
        } else if seq - 1 == m {
            self.marks.insert(origin, seq);
            Verdict::Fresh
        } else {
            Verdict::Gap
        }
    }
}

/// Where a connection stands with respect to readiness.
#[derive(Clone, Copy, Debug, PartialEq, Eq, Structural)]
pub enum Phase {
    Offline,
    CatchingUp,
    Ready,
}

/// What the transport reports.
#[derive(Clone, Copy, Debug, PartialEq, Eq, Structural)]
pub enum Signal {
    Connected,
    CaughtUp,
    Disconnected,
}

/// What the caller must do after a step.
#[derive(Clone, Copy, Debug, PartialEq, Eq, Structural)]
pub enum Action {
    Nothing,
    /// Wake everything waiting for readiness.
    NotifyReady,
}

/// The readiness state machine: a connection first catches up on the
/// backlog after its checkpoint, and waiters are woken exactly once, when
/// that catch-up completes; a disconnection starts over.
pub open spec fn spec_step(p: Phase, s: Signal) -> (Phase, Action) {
    match (p, s) {
        (_, Signal::Disconnected) => (Phase::Offline, Action::Nothing),
        (Phase::Offline, Signal::Connected) => (Phase::CatchingUp, Action::Nothing),
        (Phase::CatchingUp, Signal::CaughtUp) => (Phase::Ready, Action::NotifyReady),
        (p, _) => (p, Action::Nothing),
    }
}

/// Advances the readiness state machine by one signal.
pub fn step(p: Phase, s: Signal) -> (r: (Phase, Action))
    ensures
        r == spec_step(p, s),
{
    match (p, s) {
        (_, Signal::Disconnected) => (Phase::Offline, Action::Nothing),
        (Phase::Offline, Signal::Connected) => (Phase::CatchingUp, Action::Nothing),
        (Phase::CatchingUp, Signal::CaughtUp) => (Phase::Ready, Action::NotifyReady),
        (p, _) => (p, Action::Nothing),
    }
}

/// The number of wake-ups a run of signals produces from phase `p`.
pub open spec fn notifications(p: Phase, ss: Seq<Signal>) -> nat
    decreases ss.len(),
{
    if ss.len() == 0 {
        0
    } else {
        let (q, a) = spec_step(p, ss[0]);
        (if a == Action::NotifyReady { 1nat } else { 0nat }) + notifications(q, ss.subrange(1, ss.len() as int))
    }
}

/// Between two connections waiters are woken at most once: a run of signals
/// without a disconnection, starting offline, produces at most one wake-up.
pub proof fn lemma_notify_once_per_connection(p: Phase, ss: Seq<Signal>)
    requires
        forall|i: int| 0 <= i < ss.len() ==> ss[i] != Signal::Disconnected,
    ensures
        p != Phase::Ready ==> notifications(p, ss) <= 1,
        p == Phase::Ready ==> notifications(p, ss) == 0,
    decreases ss.len(),
{
    if ss.len() > 0 {
        let rest = ss.subrange(1, ss.len() as int);
        assert forall|i: int| 0 <= i < rest.len() implies rest[i] != Signal::Disconnected by {
            assert(rest[i] == ss[i + 1]);
        }
        lemma_notify_once_per_connection(spec_step(p, ss[0]).0, rest);
    }
}

} // verus!
