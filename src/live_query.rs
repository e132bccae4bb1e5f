//! Live queries: a predicate's result set, kept current one entity at a time.
use vstd::prelude::*;
use crate::node::{DeltaV, Node, NodeV, Predicate, PredicateV, apply_seq, apply_spec, spec_matches};
use crate::schema::EntityId;

verus! {

/// An update a subscription emits for one entity.
#[derive(Clone, Copy, Debug, PartialEq, Eq, Structural)]
pub enum Event {
    Added(EntityId),
    Removed(EntityId),
    Changed(EntityId),
}

/// The entities of node state `v` that satisfy `p`.
pub open spec fn matching(v: NodeV, p: PredicateV) -> Set<EntityId> {
    Set::new(|e: EntityId| spec_matches(v, p, e))
}

/// Applying a delta can change whether an entity satisfies a predicate only
/// for the entity the delta writes to.
pub proof fn lemma_apply_touches_one_entity(v: NodeV, d: DeltaV, p: PredicateV, e: EntityId)
    requires
        e != d.entity,
    ensures
        spec_matches(apply_spec(v, d), p, e) == spec_matches(v, p, e),
{
}

/// The result set a subscription holds after each delta of `ds` was applied
/// to `v` and the one entity it wrote was re-examined.
pub open spec fn maintained(v: NodeV, ds: Seq<DeltaV>, p: PredicateV) -> Set<EntityId>
    decreases ds.len(),
{
    if ds.len() == 0 {
        matching(v, p)
    } else {
        let prev = maintained(v, ds.drop_last(), p);
        let e = ds.last().entity;
        if spec_matches(apply_seq(v, ds), p, e) {
            prev.insert(e)
        } else {
            prev.remove(e)
        }
    }
}

/// A result set kept by re-examining only the written entity after each
/// delta equals the set computed from scratch over the current state.
pub proof fn lemma_live_query_correct(v: NodeV, ds: Seq<DeltaV>, p: PredicateV)
    ensures
        maintained(v, ds, p) == matching(apply_seq(v, ds), p),
    decreases ds.len(),
{
    if ds.len() > 0 {
        lemma_live_query_correct(v, ds.drop_last(), p);
        let prev = apply_seq(v, ds.drop_last());
        assert forall|e: EntityId| e != ds.last().entity implies spec_matches(apply_seq(v, ds), p, e)
            == spec_matches(prev, p, e) by {
            lemma_apply_touches_one_entity(prev, ds.last(), p, e);
        }
        assert(maintained(v, ds, p) =~= matching(apply_seq(v, ds), p));
    }
}

/// A standing subscription on a predicate.
pub struct LiveQuery {
    pred: Predicate,
    members: Vec<EntityId>,
}

impl LiveQuery {
    /// The predicate subscribed to.
    pub closed spec fn spec_pred(&self) -> PredicateV {
        self.pred@
    }

    /// The current result set, in the order entities entered it.
    pub closed spec fn spec_members(&self) -> Seq<EntityId> {
        self.members@
    }

    /// Whether the result set is exactly the entities of `v` satisfying the predicate.
    pub open spec fn tracks(&self, v: NodeV) -> bool {
        &&& self.spec_members().no_duplicates()
        &&& self.spec_members().to_set() == matching(v, self.spec_pred())
    }

    /// Subscribes to `pred` on `node`; the snapshot is the current result set.
    pub fn subscribe(node: &Node, pred: Predicate) -> (r: LiveQuery)
        requires
            node.wf(),
        ensures
            r.spec_pred() == pred@,
            r.tracks(node@),
    {
        let members = node.fetch(&pred);
        let r = LiveQuery { pred, members };
        assert(r.spec_members().to_set() =~= matching(node@, r.spec_pred()));
        r
    }

    /// The current result set.
    pub fn snapshot(&self) -> (r: Vec<EntityId>)
        ensures
            r@ == self.spec_members(),
    {
        self.members.clone()
    }

    /// Re-examines entity `e` after a change to it, given that the result set
    /// is right for every other entity. Emits one event when `e` entered, left,
    /// or stayed in the result set.
    #[verifier::loop_isolation(false)]
    pub fn refresh(&mut self, node: &Node, e: EntityId) -> (r: Option<Event>)
        requires
            node.wf(),
            old(self).spec_members().no_duplicates(),
            forall|x: EntityId|
                x != e ==> (old(self).spec_members().contains(x) <==> spec_matches(
                    node@,
                    old(self).spec_pred(),
                    x,
                )),
        ensures
            final(self).spec_pred() == old(self).spec_pred(),
            final(self).tracks(node@),
            r == if old(self).spec_members().contains(e) {
                if spec_matches(node@, old(self).spec_pred(), e) {
                    Some(Event::Changed(e))
                } else {
                    Some(Event::Removed(e))
                }
            } else if spec_matches(node@, old(self).spec_pred(), e) {
                Some(Event::Added(e))
            } else {
                None
            },
    {
        let now = self.matches_now(node, e);
        let n = self.members.len();
        let mut i: usize = 0;
        while i < n
            invariant
                n == self.members@.len(),
                i <= n,
                forall|j: int| 0 <= j < i ==> self.members@[j] != e,
                self.members@ == old(self).spec_members(),
                self.pred@ == old(self).spec_pred(),
            decreases n - i,
        {
            if self.members[i] == e {
                if now {
                    proof {
                        assert(self.members@[i as int] == e);
                        assert(self.members@.to_set() =~= matching(node@, self.spec_pred()));
                    }
                    return Some(Event::Changed(e));
                } else {
                    let ghost m0 = self.members@;
                    self.members.remove(i);
                    proof {
                        assert(self.members@ =~= m0.remove(i as int));
                        assert forall|x: EntityId| self.members@.contains(x) <==> (m0.contains(x) && x != e) by {
                            if m0.contains(x) && x != e {
                                let k = choose|k: int| 0 <= k < m0.len() && m0[k] == x;
                                if k < i {
                                    assert(self.members@[k] == x);
                                } else {
                                    assert(self.members@[k - 1] == x);
                                }
                            }
                            if self.members@.contains(x) {
                                let k = choose|k: int| 0 <= k < self.members@.len() && self.members@[k] == x;
                                if k < i {
                                    assert(m0[k] == x);
                                } else {
                                    assert(m0[k + 1] == x);
                                }
                            }
                        }
                        assert forall|x: EntityId| self.members@.to_set().contains(x) <==> matching(
                            node@,
                            self.spec_pred(),
                        ).contains(x) by {
                    assert(self.spec_pred() == old(self).spec_pred());
                    if x != e {
                        assert(old(self).spec_members().contains(x) <==> spec_matches(
                            node@,
                            old(self).spec_pred(),
                            x,
                        ));
                    }
                }
                        assert(self.members@.to_set() =~= matching(node@, self.spec_pred()));
                        assert(self.members@.no_duplicates());
                    }
                    return Some(Event::Removed(e));
                }
            }
            i += 1;
        }
        if now {
            let ghost m0 = self.members@;
            self.members.push(e);
            proof {
                assert(self.members@ =~= m0.push(e));
                assert(self.members@[m0.len() as int] == e);
                assert(!m0.contains(e));
                assert forall|x: EntityId| self.members@.contains(x) <==> (m0.contains(x) || x == e) by {
                    if m0.contains(x) {
                        let k = choose|k: int| 0 <= k < m0.len() && m0[k] == x;
                        assert(self.members@[k] == x);
                    }
                }
                assert forall|x: EntityId| self.members@.to_set().contains(x) <==> matching(
                    node@,
                    self.spec_pred(),
                ).contains(x) by {
                    assert(self.spec_pred() == old(self).spec_pred());
                    if x != e {
                        assert(old(self).spec_members().contains(x) <==> spec_matches(
                            node@,
                            old(self).spec_pred(),
                            x,
                        ));
                    }
                }
                assert(self.members@.to_set() =~= matching(node@, self.spec_pred()));
            }
            Some(Event::Added(e))
        } else {
            proof {
                assert(!self.members@.contains(e));
                assert(self.members@.to_set() =~= matching(node@, self.spec_pred()));
            }
            None
        }
    }

    fn matches_now(&self, node: &Node, e: EntityId) -> (r: bool)
        requires
            node.wf(),
        ensures
            r == spec_matches(node@, self.spec_pred(), e),
    {
        match node.kind_of(e) {
            None => false,
            Some(k) => {
                if k != self.pred.kind {
                    return false;
                }
                match node.get(e, self.pred.field) {
                    None => false,
                    Some(v) => v.same(&self.pred.value),
                }
            },
        }
    }
}

} // verus!
