//! Logical timestamps and last-writer-wins registers.
use vstd::prelude::*;

verus! {

/// A logical timestamp paired with the identity of the node that wrote it.
/// Stamps are ordered by time first and by writer second, a total order.
#[derive(Clone, Copy, Debug, PartialEq, Eq, Structural)]
pub struct Stamp {
    pub time: u64,
    pub writer: u64,
}

/// `a` is strictly older than `b` in the (time, writer) order.
pub open spec fn stamp_lt(a: Stamp, b: Stamp) -> bool {
    a.time < b.time || (a.time == b.time && a.writer < b.writer)
}

impl Stamp {
    /// Whether `self` strictly supersedes `other`.
    pub fn newer_than(&self, other: &Stamp) -> (r: bool)
        ensures
            r == stamp_lt(*other, *self),
    {
        self.time > other.time || (self.time == other.time && self.writer > other.writer)
    }
}

/// The (time, writer) order is total: of two distinct stamps exactly one is older.
pub proof fn lemma_stamp_total(a: Stamp, b: Stamp)
    ensures
        a != b ==> (stamp_lt(a, b) != stamp_lt(b, a)),
        a == b ==> !stamp_lt(a, b),
{
}

/// The (time, writer) order is transitive.
pub proof fn lemma_stamp_transitive(a: Stamp, b: Stamp, c: Stamp)
    requires
        stamp_lt(a, b),
        stamp_lt(b, c),
    ensures
        stamp_lt(a, c),
{
}

/// The merge rule on one field: an incoming write replaces the held one only
/// when its stamp is strictly newer; otherwise it is discarded.
pub open spec fn merge<V>(held: Option<(V, Stamp)>, incoming: (V, Stamp)) -> Option<(V, Stamp)> {
    match held {
        None => Some(incoming),
        Some(h) => if stamp_lt(h.1, incoming.1) {
            Some(incoming)
        } else {
            held
        },
    }
}

/// The state of a field after a sequence of writes was merged into it, in order.
pub open spec fn merge_all<V>(held: Option<(V, Stamp)>, writes: Seq<(V, Stamp)>) -> Option<(V, Stamp)>
    decreases writes.len(),
{
    if writes.len() == 0 {
        held
    } else {
        merge(merge_all(held, writes.drop_last()), writes.last())
    }
}

/// A stamp names one write: writes that share a stamp are the same write.
pub open spec fn stamps_identify<V>(writes: Set<(V, Stamp)>) -> bool {
    forall|a: (V, Stamp), b: (V, Stamp)|
        writes.contains(a) && writes.contains(b) && a.1 == b.1 ==> a == b
}

/// Merging a write twice leaves the field as merging it once.
pub proof fn lemma_merge_idempotent<V>(held: Option<(V, Stamp)>, w: (V, Stamp))
    ensures
        merge(merge(held, w), w) == merge(held, w),
{
}

/// Two writes merge to the same state in either order, provided they do not
/// carry one stamp with two different values.
pub proof fn lemma_merge_commutes<V>(held: Option<(V, Stamp)>, a: (V, Stamp), b: (V, Stamp))
    requires
        a.1 == b.1 ==> a == b,
    ensures
        merge(merge(held, a), b) == merge(merge(held, b), a),
{
}

/// Between two writes with equal times and different writers, the one of the
/// greater writer wins, whichever arrives first.
pub proof fn lemma_tie_break<V>(held: Option<(V, Stamp)>, a: (V, Stamp), b: (V, Stamp))
    requires
        a.1.time == b.1.time,
        a.1.writer < b.1.writer,
        held is Some ==> (stamp_lt(held.unwrap().1, b.1) || held.unwrap() == b),
    ensures
        merge(merge(held, a), b) == Some(b),
        merge(merge(held, b), a) == Some(b),
{
}

/// The result of merging writes into an empty field is the newest of them.
proof fn lemma_merge_all_newest<V>(writes: Seq<(V, Stamp)>)
    requires
        writes.len() > 0,
    ensures
        merge_all(None, writes) is Some,
        writes.contains(merge_all(None, writes).unwrap()),
        forall|i: int|
            0 <= i < writes.len() ==> !stamp_lt(merge_all(None, writes).unwrap().1, #[trigger] writes[i].1),
    decreases writes.len(),
{
    let init = writes.drop_last();
    let w = writes.last();
    if init.len() == 0 {
        assert(writes.contains(w));
    } else {
        lemma_merge_all_newest(init);
        let prev = merge_all(None, init).unwrap();
        let j = choose|j: int| 0 <= j < init.len() && init[j] == prev;
        assert(writes[j] == prev);
        assert(writes[writes.len() - 1] == w);
        assert forall|i: int| 0 <= i < writes.len() implies !stamp_lt(
            merge_all(None, writes).unwrap().1,
            #[trigger] writes[i].1,
        ) by {
            if i < init.len() {
                assert(init[i] == writes[i]);
            }
        }
    }
}

/// Convergence: two nodes that merged the same set of writes into a field,
/// in any order and with any repetition, hold the same value and stamp.
pub proof fn lemma_convergence<V>(a: Seq<(V, Stamp)>, b: Seq<(V, Stamp)>)
    requires
        a.to_set() == b.to_set(),
        stamps_identify(a.to_set()),
    ensures
        merge_all(None, a) == merge_all(None, b),
{
    if a.len() == 0 {
        if b.len() > 0 {
            assert(b.to_set().contains(b[0]));
        }
    } else {
        assert(a.to_set().contains(a[0]));
        if b.len() == 0 {
            assert(b.to_set().contains(a[0]));
        }
        lemma_merge_all_newest(a);
        lemma_merge_all_newest(b);
        let ra = merge_all(None, a).unwrap();
        let rb = merge_all(None, b).unwrap();
        assert(a.to_set().contains(ra));
        assert(b.to_set().contains(rb));
        let ia = choose|i: int| 0 <= i < a.len() && a[i] == rb;
        let ib = choose|i: int| 0 <= i < b.len() && b[i] == ra;
        assert(!stamp_lt(ra.1, a[ia].1));
        assert(!stamp_lt(rb.1, b[ib].1));
    }
}

} // verus!
