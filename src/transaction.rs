//! Transactions: staged creates and edits, validated and applied as a whole.
use vstd::prelude::*;
use crate::lww::Stamp;
use crate::node::{Delta, DeltaV, Node, NodeV, PredicateV, accepts, apply_seq, apply_spec, key_of, spec_matches};
use crate::schema::{EntityId, Kind, Value, ValueV, field_count, spec_field_count, spec_valid_write, valid_write};

verus! {

/// One staged field write.
#[derive(Debug)]
pub struct Staged {
    pub entity: EntityId,
    pub kind: Kind,
    pub field: u64,
    pub value: Value,
    /// Whether the write belongs to the creation of the entity.
    pub create: bool,
}

/// The mathematical content of a [`Staged`] write.
pub struct StagedV {
    pub entity: EntityId,
    pub kind: Kind,
    pub field: u64,
    pub value: ValueV,
    pub create: bool,
}

impl View for Staged {
    type V = StagedV;

    open spec fn view(&self) -> StagedV {
        StagedV {
            entity: self.entity,
            kind: self.kind,
            field: self.field,
            value: self.value@,
            create: self.create,
        }
    }
}

/// Why a commit took no effect.
#[derive(Clone, Copy, Debug, PartialEq, Eq, Structural)]
pub enum CommitError {
    /// The staged data violates the schema: a missing field, a value of the
    /// wrong type or reference kind, an edit of an unknown entity, or the
    /// creation of an identifier already in use.
    Validation,
    /// The node's clock cannot advance far enough to stamp every write.
    ClockExhausted,
    /// The node has handed out every entity identifier it can.
    IdsExhausted,
}

/// Whether a reference agrees with what the node knows of its target. A
/// reference to an entity not yet known locally is left to resolve later.
pub open spec fn ref_ok(v: NodeV, value: ValueV) -> bool {
    value matches ValueV::Ref(r) ==> (v.kinds.contains_key(r.id) ==> v.kinds[r.id] == r.kind)
}

/// Whether staged write `i` is acceptable against node state `v`.
pub open spec fn write_ok(v: NodeV, ws: Seq<StagedV>, i: int) -> bool {
    let w = ws[i];
    &&& spec_valid_write(w.kind, w.field, w.value)
    &&& ref_ok(v, w.value)
    &&& v.kinds.contains_key(w.entity) ==> v.kinds[w.entity] == w.kind && !w.create
    &&& !v.kinds.contains_key(w.entity) ==> exists|j: int|
        0 <= j < ws.len() && (#[trigger] ws[j]).entity == w.entity && ws[j].create
    &&& forall|j: int| 0 <= j < ws.len() && (#[trigger] ws[j]).entity == w.entity ==> ws[j].kind == w.kind
}

/// Whether a whole transaction is acceptable against node state `v`.
pub open spec fn tx_valid(v: NodeV, malformed: bool, ws: Seq<StagedV>) -> bool {
    !malformed && forall|i: int| 0 <= i < ws.len() ==> #[trigger] write_ok(v, ws, i)
}

/// The delta that a staged write becomes under a stamp.
pub open spec fn stamped(w: StagedV, s: Stamp) -> DeltaV {
    DeltaV { entity: w.entity, kind: w.kind, field: w.field, value: w.value, stamp: s }
}

/// The views of a sequence of deltas.
pub open spec fn views(ds: Seq<Delta>) -> Seq<DeltaV> {
    ds.map_values(|d: Delta| d@)
}

/// Whether no later staged write targets the same field as write `i`.
pub open spec fn last_for_key(ws: Seq<StagedV>, i: int) -> bool {
    forall|j: int|
        i < j < ws.len() ==> (#[trigger] ws[j]).entity != ws[i].entity || ws[j].field != ws[i].field
}

/// Whether node state `v` shows staged write `w`.
pub open spec fn visible(v: NodeV, w: StagedV) -> bool {
    &&& v.kinds.contains_key(w.entity)
    &&& v.kinds[w.entity] == w.kind
    &&& v.fields.contains_key((w.entity, w.field))
    &&& v.fields[(w.entity, w.field)].0 == w.value
}

/// A write a commit made visible is found by a fetch for its own value.
pub proof fn lemma_visible_write_is_fetched(v: NodeV, w: StagedV)
    requires
        visible(v, w),
    ensures
        spec_matches(v, PredicateV { kind: w.kind, field: w.field, value: w.value }, w.entity),
{
}

/// The stamp a commit gives its write `i`.
pub open spec fn commit_stamp(clock: u64, writer: u64, i: int) -> Stamp {
    Stamp { time: (clock + 1 + i) as u64, writer }
}

/// What a commit has established after applying its first `i` writes to `v0`,
/// reaching `cur`.
#[verifier::opaque]
pub open spec fn commit_inv(v0: NodeV, ws: Seq<StagedV>, c0: u64, writer: u64, i: int, cur: NodeV) -> bool {
    &&& forall|e: EntityId|
        v0.kinds.contains_key(e) ==> cur.kinds.contains_key(e) && cur.kinds[e] == v0.kinds[e]
    &&& forall|e: EntityId|
        cur.kinds.contains_key(e) ==> v0.kinds.contains_key(e) || exists|j: int|
            0 <= j < i && (#[trigger] ws[j]).entity == e
    &&& forall|j: int|
        0 <= j < i ==> cur.kinds.contains_key((#[trigger] ws[j]).entity) && cur.kinds[ws[j].entity]
            == ws[j].kind
    &&& forall|j: int|
        0 <= j < i && #[trigger] no_later(ws, j, i) ==> cur.fields.contains_key(
            (ws[j].entity, ws[j].field),
        ) && cur.fields[(ws[j].entity, ws[j].field)] == (ws[j].value, commit_stamp(c0, writer, j))
}

/// Whether no write in positions `j + 1 .. i` targets the field of write `j`.
pub open spec fn no_later(ws: Seq<StagedV>, j: int, i: int) -> bool {
    forall|m: int|
        j < m < i ==> (#[trigger] ws[m]).entity != ws[j].entity || ws[m].field != ws[j].field
}

proof fn lemma_commit_start(v0: NodeV, ws: Seq<StagedV>, c0: u64, writer: u64)
    ensures
        commit_inv(v0, ws, c0, writer, 0, v0),
{
    reveal(commit_inv);
}

proof fn lemma_commit_accepts(
    v0: NodeV,
    ws: Seq<StagedV>,
    c0: u64,
    writer: u64,
    i: int,
    cur: NodeV,
    d: DeltaV,
)
    requires
        write_ok(v0, ws, i),
        0 <= i < ws.len(),
        commit_inv(v0, ws, c0, writer, i, cur),
        d == stamped(ws[i], commit_stamp(c0, writer, i)),
    ensures
        accepts(cur, d),
{
    reveal(commit_inv);
    if cur.kinds.contains_key(d.entity) && !v0.kinds.contains_key(d.entity) {
        let j = choose|j: int| 0 <= j < i && (#[trigger] ws[j]).entity == d.entity;
        assert(ws[j].kind == ws[i].kind);
    }
}

proof fn lemma_commit_advance(
    v0: NodeV,
    ws: Seq<StagedV>,
    c0: u64,
    writer: u64,
    i: int,
    cur: NodeV,
    d: DeltaV,
)
    requires
        write_ok(v0, ws, i),
        0 <= i < ws.len(),
        commit_inv(v0, ws, c0, writer, i, cur),
        d == stamped(ws[i], commit_stamp(c0, writer, i)),
    ensures
        commit_inv(
            v0,
            ws,
            c0,
            writer,
            i + 1,
            NodeV {
                kinds: cur.kinds.insert(d.entity, d.kind),
                fields: cur.fields.insert(key_of(d), (d.value, d.stamp)),
            },
        ),
{
    reveal(commit_inv);
    let next = NodeV {
        kinds: cur.kinds.insert(d.entity, d.kind),
        fields: cur.fields.insert(key_of(d), (d.value, d.stamp)),
    };
    assert forall|e: EntityId| next.kinds.contains_key(e) implies v0.kinds.contains_key(e) || exists|j: int|
        0 <= j < i + 1 && (#[trigger] ws[j]).entity == e by {
        if e == d.entity {
            assert(ws[i].entity == e);
        } else {
            assert(cur.kinds.contains_key(e));
        }
    }
    assert forall|j: int| 0 <= j < i + 1 && #[trigger] no_later(ws, j, i + 1) implies next.fields.contains_key(
        (ws[j].entity, ws[j].field),
    ) && next.fields[(ws[j].entity, ws[j].field)] == (ws[j].value, commit_stamp(c0, writer, j)) by {
        if j < i {
            assert(ws[i].entity != ws[j].entity || ws[i].field != ws[j].field);
            assert(no_later(ws, j, i));
        }
    }
    assert forall|j: int| 0 <= j < i + 1 implies next.kinds.contains_key((#[trigger] ws[j]).entity)
        && next.kinds[ws[j].entity] == ws[j].kind by {
        if j < i && ws[j].entity == d.entity {
            assert(ws[j].kind == ws[i].kind);
        }
    }
    assert forall|e: EntityId| #[trigger] v0.kinds.contains_key(e) implies next.kinds.contains_key(e)
        && next.kinds[e] == v0.kinds[e] by {
        assert(cur.kinds.contains_key(e));
        if e == d.entity {
            assert(v0.kinds[e] == ws[i].kind);
        }
    }
    assert(commit_inv(v0, ws, c0, writer, i + 1, next));
}

proof fn lemma_commit_step(
    v0: NodeV,
    ws: Seq<StagedV>,
    c0: u64,
    writer: u64,
    i: int,
    cur: NodeV,
    d: DeltaV,
)
    requires
        tx_valid(v0, false, ws),
        0 <= i < ws.len(),
        c0 + ws.len() < u64::MAX,
        commit_inv(v0, ws, c0, writer, i, cur),
        d == stamped(ws[i], commit_stamp(c0, writer, i)),
        cur.fields.contains_key(key_of(d)) ==> cur.fields[key_of(d)].1.time <= c0 + i,
    ensures
        accepts(cur, d),
        apply_spec(cur, d) == (NodeV {
            kinds: cur.kinds.insert(d.entity, d.kind),
            fields: cur.fields.insert(key_of(d), (d.value, d.stamp)),
        }),
        commit_inv(v0, ws, c0, writer, i + 1, apply_spec(cur, d)),
{
    assert(write_ok(v0, ws, i));
    lemma_commit_accepts(v0, ws, c0, writer, i, cur, d);
    lemma_commit_advance(v0, ws, c0, writer, i, cur, d);
}

proof fn lemma_commit_end(v0: NodeV, ws: Seq<StagedV>, c0: u64, writer: u64, cur: NodeV)
    requires
        commit_inv(v0, ws, c0, writer, ws.len() as int, cur),
    ensures
        forall|i: int| 0 <= i < ws.len() && last_for_key(ws, i) ==> visible(cur, #[trigger] ws[i]),
{
    reveal(commit_inv);
    assert forall|i: int| 0 <= i < ws.len() && last_for_key(ws, i) implies visible(cur, #[trigger] ws[i]) by {
        assert(no_later(ws, i, ws.len() as int));
    }
}

/// A set of staged mutations against one node.
pub struct Transaction {
    writes: Vec<Staged>,
    malformed: bool,
}

impl Transaction {
    /// The staged writes, in order.
    pub closed spec fn staged(&self) -> Seq<StagedV> {
        self.writes@.map_values(|w: Staged| w@)
    }

    /// Whether a create was staged without exactly the fields its kind declares.
    pub closed spec fn spec_malformed(&self) -> bool {
        self.malformed
    }

    /// Opens an empty transaction.
    pub fn begin() -> (r: Transaction)
        ensures
            r.staged() == Seq::<StagedV>::empty(),
            !r.spec_malformed(),
    {
        let r = Transaction { writes: Vec::new(), malformed: false };
        assert(r.staged() =~= Seq::<StagedV>::empty());
        r
    }

    /// The number of staged writes.
    pub fn len(&self) -> (r: usize)
        ensures
            r == self.staged().len(),
    {
        self.writes.len()
    }

    /// Stages the creation of entity `id` of `kind`, whose fields take
    /// `values` in declaration order. A create whose values do not cover
    /// exactly the declared fields makes the commit fail validation.
    pub fn create(&mut self, id: EntityId, kind: Kind, values: Vec<Value>)
        ensures
            final(self).spec_malformed() == (old(self).spec_malformed() || values@.len()
                != spec_field_count(kind)),
            final(self).staged().len() == old(self).staged().len() + values@.len(),
            forall|i: int|
                0 <= i < old(self).staged().len() ==> final(self).staged()[i] == old(
                    self,
                ).staged()[i],
            forall|i: int|
                0 <= i < values@.len() ==> final(self).staged()[old(self).staged().len() + i]
                    == (StagedV { entity: id, kind, field: i as u64, value: values@[i]@, create: true }),
    {
        if values.len() as u64 != field_count(kind) {
            self.malformed = true;
        }
        let ghost base = self.staged();
        let n = values.len();
        let mut i: usize = 0;
        while i < n
            invariant
                n == values@.len(),
                i <= n,
                self.malformed == (old(self).malformed || values@.len() != spec_field_count(kind)),
                self.staged().len() == base.len() + i,
                base == old(self).staged(),
                forall|j: int| 0 <= j < base.len() ==> self.staged()[j] == base[j],
                forall|j: int|
                    0 <= j < i ==> self.staged()[base.len() + j] == (StagedV {
                        entity: id,
                        kind,
                        field: j as u64,
                        value: values@[j]@,
                        create: true,
                    }),
            decreases n - i,
        {
            let w = Staged { entity: id, kind, field: i as u64, value: values[i].clone(), create: true };
            let ghost before = self.staged();
            self.writes.push(w);
            assert(self.staged() =~= before.push(w@));
            i += 1;
        }
    }

    /// Stages a write of `value` to field `field` of entity `entity`, which
    /// is of `kind`.
    pub fn edit(&mut self, entity: EntityId, kind: Kind, field: u64, value: Value)
        ensures
            final(self).spec_malformed() == old(self).spec_malformed(),
            final(self).staged() == old(self).staged().push(
                StagedV { entity, kind, field, value: value@, create: false },
            ),
    {
        let w = Staged { entity, kind, field, value, create: false };
        let ghost before = self.staged();
        self.writes.push(w);
        assert(self.staged() =~= before.push(w@));
    }

    /// Whether the transaction is acceptable against `node`.
    pub fn validate(&self, node: &Node) -> (r: bool)
        requires
            node.wf(),
        ensures
            r == tx_valid(node@, self.spec_malformed(), self.staged()),
    {
        if self.malformed {
            return false;
        }
        let ghost ws = self.staged();
        let n = self.writes.len();
        let mut i: usize = 0;
        while i < n
            invariant
                n == ws.len(),
                ws == self.staged(),
                i <= n,
                node.wf(),
                forall|k: int| 0 <= k < i ==> #[trigger] write_ok(node@, ws, k),
            decreases n - i,
        {
            let w = &self.writes[i];
            assert(ws[i as int] == w@);
            if !valid_write(w.kind, w.field, &w.value) {
                assert(!write_ok(node@, ws, i as int));
                assert(!tx_valid(node@, self.spec_malformed(), ws));
                return false;
            }
            match &w.value {
                Value::Ref(target) => {
                    match node.kind_of(target.id) {
                        Some(k) => {
                            if k != target.kind {
                                assert(!write_ok(node@, ws, i as int));
                                assert(!tx_valid(node@, self.spec_malformed(), ws));
                                return false;
                            }
                        },
                        None => {},
                    }
                },
                _ => {},
            }
            let known = node.kind_of(w.entity);
            match known {
                Some(k) => {
                    if k != w.kind || w.create {
                        assert(!write_ok(node@, ws, i as int));
                        assert(!tx_valid(node@, self.spec_malformed(), ws));
                        return false;
                    }
                },
                None => {},
            }
            let mut created = false;
            let mut j: usize = 0;
            while j < n
                invariant
                    n == ws.len(),
                    ws == self.staged(),
                    i < n,
                    j <= n,
                    w@ == ws[i as int],
                    created == exists|m: int|
                        0 <= m < j && (#[trigger] ws[m]).entity == w.entity && ws[m].create,
                    forall|m: int| 0 <= m < j && (#[trigger] ws[m]).entity == w.entity ==> ws[m].kind == w.kind,
                decreases n - j,
            {
                let o = &self.writes[j];
                assert(ws[j as int] == o@);
                if o.entity == w.entity {
                    if o.kind != w.kind {
                        assert(!write_ok(node@, ws, i as int));
                        assert(!tx_valid(node@, self.spec_malformed(), ws));
                        return false;
                    }
                    if o.create {
                        created = true;
                    }
                }
                j += 1;
            }
            if known.is_none() && !created {
                assert(!write_ok(node@, ws, i as int));
                assert(!tx_valid(node@, self.spec_malformed(), ws));
                return false;
            }
            assert(write_ok(node@, ws, i as int));
            i += 1;
        }
        true
    }
    /// Validates the staged writes against `node` and returns the deltas a
    /// commit would apply, without changing the node: write `i` stamped with
    /// time `clock + 1 + i` and the node's identity. A caller that must make
    /// the deltas durable first persists them, then applies them in order.
    pub fn prepare(&self, node: &Node) -> (r: Result<Vec<Delta>, CommitError>)
        requires
            node.wf(),
        ensures
            match r {
                Err(CommitError::Validation) => !tx_valid(node@, self.spec_malformed(), self.staged()),
                Err(CommitError::IdsExhausted) => false,
                Err(CommitError::ClockExhausted) => {
                    &&& tx_valid(node@, self.spec_malformed(), self.staged())
                    &&& node.spec_clock() + self.staged().len() >= u64::MAX
                },
                Ok(ds) => {
                    &&& tx_valid(node@, self.spec_malformed(), self.staged())
                    &&& node.spec_clock() + self.staged().len() < u64::MAX
                    &&& ds@.len() == self.staged().len()
                    &&& forall|i: int|
                        0 <= i < ds@.len() ==> (#[trigger] ds@[i])@ == stamped(
                            self.staged()[i],
                            commit_stamp(node.spec_clock(), node.spec_writer(), i),
                        )
                },
            },
    {
        if !self.validate(node) {
            return Err(CommitError::Validation);
        }
        let n = self.writes.len();
        let c0 = node.clock();
        if c0 >= u64::MAX - n as u64 {
            return Err(CommitError::ClockExhausted);
        }
        let writer = node.writer();
        let ghost ws = self.staged();
        let mut ds: Vec<Delta> = Vec::new();
        let mut i: usize = 0;
        while i < n
            invariant
                n == ws.len(),
                ws == self.staged(),
                i <= n,
                c0 + n < u64::MAX,
                c0 == node.spec_clock(),
                writer == node.spec_writer(),
                ds@.len() == i,
                forall|j: int|
                    0 <= j < i ==> (#[trigger] ds@[j])@ == stamped(ws[j], commit_stamp(c0, writer, j)),
            decreases n - i,
        {
            let w = &self.writes[i];
            assert(ws[i as int] == w@);
            let stamp = Stamp { time: c0 + 1 + i as u64, writer };
            ds.push(Delta { entity: w.entity, kind: w.kind, field: w.field, value: w.value.clone(), stamp });
            i += 1;
        }
        Ok(ds)
    }

    /// Validates the staged writes against `node` and, when they pass, stamps
    /// write `i` with time `clock + 1 + i` and the node's identity and applies
    /// them all, in order. On error the node is left as it was. Returns the
    /// deltas to persist and to replicate.
    /// Validates the staged writes against `node` and, when they pass, stamps
    /// write `i` with time `clock + 1 + i` and the node's identity and applies
    /// them all, in order. On error the node is left as it was. Returns the
    /// deltas to persist and to replicate.
    pub fn commit(self, node: &mut Node) -> (r: Result<Vec<Delta>, CommitError>)
        requires
            old(node).wf(),
        ensures
            final(node).wf(),
            final(node).spec_writer() == old(node).spec_writer(),
            final(node).spec_serial() == old(node).spec_serial(),
            match r {
                Err(CommitError::Validation) => {
                    &&& !tx_valid(old(node)@, self.spec_malformed(), self.staged())
                    &&& final(node)@ == old(node)@
                },
                Err(CommitError::IdsExhausted) => false,
                Err(CommitError::ClockExhausted) => {
                    &&& tx_valid(old(node)@, self.spec_malformed(), self.staged())
                    &&& old(node).spec_clock() + self.staged().len() >= u64::MAX
                    &&& final(node)@ == old(node)@
                },
                Ok(ds) => {
                    &&& tx_valid(old(node)@, self.spec_malformed(), self.staged())
                    &&& old(node).spec_clock() + self.staged().len() < u64::MAX
                    &&& ds@.len() == self.staged().len()
                    &&& forall|i: int|
                        0 <= i < ds@.len() ==> (#[trigger] ds@[i])@ == stamped(
                            self.staged()[i],
                            commit_stamp(old(node).spec_clock(), old(node).spec_writer(), i),
                        )
                    &&& final(node)@ == apply_seq(old(node)@, views(ds@))
                    &&& forall|i: int|
                        0 <= i < ds@.len() && last_for_key(self.staged(), i) ==> visible(
                            final(node)@,
                            #[trigger] self.staged()[i],
                        )
                },
            },
    {
        if !self.validate(node) {
            return Err(CommitError::Validation);
        }
        let n = self.writes.len();
        let c0 = node.clock();
        if c0 >= u64::MAX - n as u64 {
            return Err(CommitError::ClockExhausted);
        }
        let writer = node.writer();
        let ghost ws = self.staged();
        let ghost v0 = node@;
        let mut ds: Vec<Delta> = Vec::new();
        proof {
            lemma_commit_start(v0, ws, c0, writer);
        }
        let mut i: usize = 0;
        while i < n
            invariant
                n == ws.len(),
                ws == self.staged(),
                i <= n,
                tx_valid(v0, false, ws),
                c0 + n < u64::MAX,
                node.wf(),
                node.spec_writer() == writer,
                writer == old(node).spec_writer(),
                node.spec_serial() == old(node).spec_serial(),
                node.spec_clock() == c0 + i,
                c0 == old(node).spec_clock(),
                v0 == old(node)@,
                ds@.len() == i,
                forall|j: int|
                    0 <= j < i ==> (#[trigger] ds@[j])@ == stamped(ws[j], commit_stamp(c0, writer, j)),
                node@ == apply_seq(v0, views(ds@)),
                commit_inv(v0, ws, c0, writer, i as int, node@),
            decreases n - i,
        {
            let w = &self.writes[i];
            assert(ws[i as int] == w@);
            let stamp = Stamp { time: c0 + 1 + i as u64, writer };
            let d = Delta { entity: w.entity, kind: w.kind, field: w.field, value: w.value.clone(), stamp };
            let ghost dv = d@;
            let ghost before = node@;
            let ghost ds0 = ds@;
            proof {
                if before.fields.contains_key(key_of(dv)) {
                    node.lemma_clock_bounds(key_of(dv));
                }
                lemma_commit_step(v0, ws, c0, writer, i as int, before, dv);
            }
            ds.push(d.clone());
            node.apply(d);
            proof {
                assert(views(ds@) =~= views(ds0).push(dv));
                assert(views(ds0).push(dv).drop_last() =~= views(ds0));
            }
            i += 1;
        }
        proof {
            lemma_commit_end(v0, ws, c0, writer, node@);
        }
        Ok(ds)
    }
}

} // verus!
