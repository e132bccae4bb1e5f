//! A node: the locally known entities and the resolved value of each field.
use vstd::prelude::*;
use crate::lww::{Stamp, merge, merge_all};
use crate::schema::{EntityId, Kind, Value, ValueV, spec_valid_write, valid_write};

verus! {

/// One field-level change to one entity, the unit of replication.
#[derive(Debug)]
pub struct Delta {
    pub entity: EntityId,
    pub kind: Kind,
    pub field: u64,
    pub value: Value,
    pub stamp: Stamp,
}

/// The mathematical content of a [`Delta`].
pub struct DeltaV {
    pub entity: EntityId,
    pub kind: Kind,
    pub field: u64,
    pub value: ValueV,
    pub stamp: Stamp,
}

impl View for Delta {
    type V = DeltaV;

    open spec fn view(&self) -> DeltaV {
        DeltaV {
            entity: self.entity,
            kind: self.kind,
            field: self.field,
            value: self.value@,
            stamp: self.stamp,
        }
    }
}

impl Clone for Delta {
    fn clone(&self) -> (r: Delta)
        ensures
            r@ == self@,
    {
        Delta {
            entity: self.entity,
            kind: self.kind,
            field: self.field,
            value: self.value.clone(),
            stamp: self.stamp,
        }
    }
}

/// Identifies one field of one entity.
pub type FieldKey = (EntityId, u64);

/// The resolved state of a node: the kind of each known entity and the held
/// (value, stamp) pair of each known field.
pub struct NodeV {
    pub kinds: Map<EntityId, Kind>,
    pub fields: Map<FieldKey, (ValueV, Stamp)>,
}

pub open spec fn key_of(d: DeltaV) -> FieldKey {
    (d.entity, d.field)
}

pub open spec fn held(v: NodeV, k: FieldKey) -> Option<(ValueV, Stamp)> {
    if v.fields.contains_key(k) {
        Some(v.fields[k])
    } else {
        None
    }
}

/// Whether a node takes a delta into account at all: the value fits the
/// declared field, and the entity's kind agrees with what the node knows.
pub open spec fn accepts(v: NodeV, d: DeltaV) -> bool {
    &&& spec_valid_write(d.kind, d.field, d.value)
    &&& v.kinds.contains_key(d.entity) ==> v.kinds[d.entity] == d.kind
}

/// The state of a node after it applied a delta.
pub open spec fn apply_spec(v: NodeV, d: DeltaV) -> NodeV {
    if accepts(v, d) {
        NodeV {
            kinds: v.kinds.insert(d.entity, d.kind),
            fields: v.fields.insert(
                key_of(d),
                merge(held(v, key_of(d)), (d.value, d.stamp)).unwrap(),
            ),
        }
    } else {
        v
    }
}

/// The state of a node after it applied a sequence of deltas, in order.
pub open spec fn apply_seq(v: NodeV, ds: Seq<DeltaV>) -> NodeV
    decreases ds.len(),
{
    if ds.len() == 0 {
        v
    } else {
        apply_spec(apply_seq(v, ds.drop_last()), ds.last())
    }
}

/// Applying one delta twice leaves a node as applying it once.
pub proof fn lemma_apply_idempotent(v: NodeV, d: DeltaV)
    ensures
        apply_spec(apply_spec(v, d), d) == apply_spec(v, d),
{
    let once = apply_spec(v, d);
    if accepts(v, d) {
        crate::lww::lemma_merge_idempotent(held(v, key_of(d)), (d.value, d.stamp));
        assert(held(once, key_of(d)) == merge(held(v, key_of(d)), (d.value, d.stamp)));
        assert(once.kinds.insert(d.entity, d.kind) =~= once.kinds);
        assert(once.fields.insert(key_of(d), merge(held(once, key_of(d)), (d.value, d.stamp)).unwrap())
            =~= once.fields);
    }
}

/// The (value, stamp) write a delta carries.
pub open spec fn write_of(d: DeltaV) -> (ValueV, Stamp) {
    (d.value, d.stamp)
}

/// Whether every delta of `ds` is a well-typed write to field `k` of an
/// entity of `kind`.
pub open spec fn one_field(ds: Seq<DeltaV>, k: FieldKey, kind: Kind) -> bool {
    forall|i: int|
        0 <= i < ds.len() ==> key_of(#[trigger] ds[i]) == k && ds[i].kind == kind && spec_valid_write(
            kind,
            k.1,
            ds[i].value,
        )
}

/// A node that knows nothing.
pub open spec fn empty_node() -> NodeV {
    NodeV { kinds: Map::empty(), fields: Map::empty() }
}

proof fn lemma_apply_seq_one_field(v: NodeV, ds: Seq<DeltaV>, k: FieldKey, kind: Kind)
    requires
        one_field(ds, k, kind),
        v.kinds.contains_key(k.0) ==> v.kinds[k.0] == kind,
    ensures
        held(apply_seq(v, ds), k) == merge_all(held(v, k), ds.map_values(|d: DeltaV| write_of(d))),
        apply_seq(v, ds).kinds.contains_key(k.0) ==> apply_seq(v, ds).kinds[k.0] == kind,
    decreases ds.len(),
{
    if ds.len() > 0 {
        let init = ds.drop_last();
        assert forall|i: int| 0 <= i < init.len() implies key_of(#[trigger] init[i]) == k && init[i].kind
            == kind && spec_valid_write(kind, k.1, init[i].value) by {
            assert(init[i] == ds[i]);
        }
        lemma_apply_seq_one_field(v, init, k, kind);
        assert(ds.map_values(|d: DeltaV| write_of(d)).drop_last() =~= init.map_values(
            |d: DeltaV| write_of(d),
        ));
        assert(key_of(ds[ds.len() - 1]) == k);
    }
}

/// Convergence: two nodes that started empty and applied the same set of
/// deltas to one field, in any order and with any repetition, hold the same
/// value and stamp in that field, provided a stamp names a single write.
pub proof fn lemma_node_convergence(a: Seq<DeltaV>, b: Seq<DeltaV>, k: FieldKey, kind: Kind)
    requires
        one_field(a, k, kind),
        one_field(b, k, kind),
        a.to_set() == b.to_set(),
        forall|x: DeltaV, y: DeltaV|
            a.to_set().contains(x) && a.to_set().contains(y) && x.stamp == y.stamp ==> x == y,
    ensures
        held(apply_seq(empty_node(), a), k) == held(apply_seq(empty_node(), b), k),
{
    let wa = a.map_values(|d: DeltaV| write_of(d));
    let wb = b.map_values(|d: DeltaV| write_of(d));
    lemma_apply_seq_one_field(empty_node(), a, k, kind);
    lemma_apply_seq_one_field(empty_node(), b, k, kind);
    assert(held(empty_node(), k) == None::<(ValueV, Stamp)>);
    assert forall|w: (ValueV, Stamp)| wa.to_set().contains(w) <==> wb.to_set().contains(w) by {
        if wa.to_set().contains(w) {
            let i = choose|i: int| 0 <= i < wa.len() && wa[i] == w;
            assert(a.to_set().contains(a[i]));
            assert(b.to_set().contains(a[i]));
            let j = choose|j: int| 0 <= j < b.len() && b[j] == a[i];
            assert(wb[j] == w);
            assert(wb.contains(w));
        }
        if wb.to_set().contains(w) {
            let i = choose|i: int| 0 <= i < wb.len() && wb[i] == w;
            assert(b.to_set().contains(b[i]));
            assert(a.to_set().contains(b[i]));
            let j = choose|j: int| 0 <= j < a.len() && a[j] == b[i];
            assert(wa[j] == w);
            assert(wa.contains(w));
        }
    }
    assert(wa.to_set() =~= wb.to_set());
    assert forall|x: (ValueV, Stamp), y: (ValueV, Stamp)|
        wa.to_set().contains(x) && wa.to_set().contains(y) && x.1 == y.1 implies x == y by {
        let i = choose|i: int| 0 <= i < wa.len() && wa[i] == x;
        let j = choose|j: int| 0 <= j < wa.len() && wa[j] == y;
        assert(a.to_set().contains(a[i]));
        assert(a.to_set().contains(a[j]));
    }
    crate::lww::lemma_convergence(wa, wb);
}

pub open spec fn cell_key(c: Delta) -> FieldKey {
    (c.entity, c.field)
}

pub open spec fn has_key(s: Seq<Delta>, k: FieldKey) -> bool {
    exists|i: int| 0 <= i < s.len() && cell_key(#[trigger] s[i]) == k
}

pub open spec fn has_entity(s: Seq<Delta>, e: EntityId) -> bool {
    exists|i: int| 0 <= i < s.len() && (#[trigger] s[i]).entity == e
}

/// The field map held by a table of cells.
pub open spec fn fields_of(s: Seq<Delta>) -> Map<FieldKey, (ValueV, Stamp)> {
    Map::new(
        |k: FieldKey| has_key(s, k),
        |k: FieldKey|
            {
                let i = choose|i: int| 0 <= i < s.len() && cell_key(#[trigger] s[i]) == k;
                (s[i].value@, s[i].stamp)
            },
    )
}

/// The entity kinds held by a table of cells.
pub open spec fn kinds_of(s: Seq<Delta>) -> Map<EntityId, Kind> {
    Map::new(
        |e: EntityId| has_entity(s, e),
        |e: EntityId| s[choose|i: int| 0 <= i < s.len() && (#[trigger] s[i]).entity == e].kind,
    )
}

/// Well-formedness of a table of cells under a clock.
pub open spec fn cells_wf(s: Seq<Delta>, clock: u64) -> bool {
    &&& forall|i: int, j: int|
        0 <= i < s.len() && 0 <= j < s.len() && i != j ==> cell_key(#[trigger] s[i]) != cell_key(
            #[trigger] s[j],
        )
    &&& forall|i: int, j: int|
        0 <= i < s.len() && 0 <= j < s.len() && (#[trigger] s[i]).entity == (#[trigger] s[j]).entity
            ==> s[i].kind == s[j].kind
    &&& forall|i: int|
        0 <= i < s.len() ==> spec_valid_write(
            (#[trigger] s[i]).kind,
            s[i].field,
            s[i].value@,
        ) && s[i].stamp.time <= clock
}

proof fn lemma_lookup(s: Seq<Delta>, clock: u64, i: int)
    requires
        cells_wf(s, clock),
        0 <= i < s.len(),
    ensures
        fields_of(s).contains_key(cell_key(s[i])),
        fields_of(s)[cell_key(s[i])] == (s[i].value@, s[i].stamp),
        kinds_of(s).contains_key(s[i].entity),
        kinds_of(s)[s[i].entity] == s[i].kind,
{
    assert(has_key(s, cell_key(s[i])));
    assert(has_entity(s, s[i].entity));
}

proof fn lemma_set_cell(s: Seq<Delta>, clock: u64, i: int, d: Delta)
    requires
        cells_wf(s, clock),
        0 <= i < s.len(),
        cell_key(s[i]) == cell_key(d),
        s[i].kind == d.kind,
    ensures
        fields_of(s.update(i, d)) == fields_of(s).insert(cell_key(d), (d.value@, d.stamp)),
        kinds_of(s.update(i, d)) == kinds_of(s),
{
    let t = s.update(i, d);
    assert forall|k: FieldKey| has_key(t, k) == has_key(s, k) by {
        if has_key(s, k) {
            let j = choose|j: int| 0 <= j < s.len() && cell_key(#[trigger] s[j]) == k;
            assert(cell_key(t[j]) == k);
        }
        if has_key(t, k) {
            let j = choose|j: int| 0 <= j < t.len() && cell_key(#[trigger] t[j]) == k;
            assert(cell_key(s[j]) == k);
        }
    }
    assert forall|e: EntityId| has_entity(t, e) == has_entity(s, e) by {
        if has_entity(s, e) {
            let j = choose|j: int| 0 <= j < s.len() && (#[trigger] s[j]).entity == e;
            assert(t[j].entity == e);
        }
        if has_entity(t, e) {
            let j = choose|j: int| 0 <= j < t.len() && (#[trigger] t[j]).entity == e;
            assert(s[j].entity == e);
        }
    }
    assert(fields_of(t) =~= fields_of(s).insert(cell_key(d), (d.value@, d.stamp)));
    assert(kinds_of(t) =~= kinds_of(s));
}

proof fn lemma_push_cell(s: Seq<Delta>, clock: u64, d: Delta)
    requires
        cells_wf(s, clock),
        !has_key(s, cell_key(d)),
        has_entity(s, d.entity) ==> kinds_of(s)[d.entity] == d.kind,
    ensures
        fields_of(s.push(d)) == fields_of(s).insert(cell_key(d), (d.value@, d.stamp)),
        kinds_of(s.push(d)) == kinds_of(s).insert(d.entity, d.kind),
{
    let t = s.push(d);
    assert(t[s.len() as int] == d);
    assert forall|k: FieldKey| has_key(t, k) == (has_key(s, k) || k == cell_key(d)) by {
        if has_key(s, k) {
            let j = choose|j: int| 0 <= j < s.len() && cell_key(#[trigger] s[j]) == k;
            assert(t[j] == s[j]);
        }
        if has_key(t, k) {
            let j = choose|j: int| 0 <= j < t.len() && cell_key(#[trigger] t[j]) == k;
            if j < s.len() {
                assert(t[j] == s[j]);
            }
        }
    }
    assert forall|e: EntityId| has_entity(t, e) == (has_entity(s, e) || e == d.entity) by {
        if has_entity(s, e) {
            let j = choose|j: int| 0 <= j < s.len() && (#[trigger] s[j]).entity == e;
            assert(t[j] == s[j]);
        }
        if has_entity(t, e) {
            let j = choose|j: int| 0 <= j < t.len() && (#[trigger] t[j]).entity == e;
            if j < s.len() {
                assert(t[j] == s[j]);
            }
        }
    }
    assert forall|k: FieldKey| has_key(s, k) implies fields_of(t)[k] == fields_of(s)[k] by {
        let j = choose|j: int| 0 <= j < t.len() && cell_key(#[trigger] t[j]) == k;
        let j2 = choose|j: int| 0 <= j < s.len() && cell_key(#[trigger] s[j]) == k;
        assert(t[j2] == s[j2]);
        assert(j == j2);
    }
    assert forall|e: EntityId| has_entity(t, e) implies kinds_of(t)[e] == kinds_of(
        s,
    ).insert(d.entity, d.kind)[e] by {
        let j = choose|j: int| 0 <= j < t.len() && (#[trigger] t[j]).entity == e;
        if has_entity(s, e) {
            let j2 = choose|j: int| 0 <= j < s.len() && (#[trigger] s[j]).entity == e;
            assert(t[j2] == s[j2]);
            if j < s.len() {
                assert(t[j] == s[j]);
            }
        } else {
            assert(j == s.len());
        }
    }
    assert(fields_of(t) =~= fields_of(s).insert(cell_key(d), (d.value@, d.stamp)));
    assert(kinds_of(t) =~= kinds_of(s).insert(d.entity, d.kind));
}

/// A query predicate: entities of `kind` whose field `field` equals `value`.
#[derive(Debug)]
pub struct Predicate {
    pub kind: Kind,
    pub field: u64,
    pub value: Value,
}

/// The mathematical content of a [`Predicate`].
pub struct PredicateV {
    pub kind: Kind,
    pub field: u64,
    pub value: ValueV,
}

impl View for Predicate {
    type V = PredicateV;

    open spec fn view(&self) -> PredicateV {
        PredicateV { kind: self.kind, field: self.field, value: self.value@ }
    }
}

/// Whether entity `e` of node state `v` satisfies predicate `p`.
pub open spec fn spec_matches(v: NodeV, p: PredicateV, e: EntityId) -> bool {
    &&& v.kinds.contains_key(e)
    &&& v.kinds[e] == p.kind
    &&& v.fields.contains_key((e, p.field))
    &&& v.fields[(e, p.field)].0 == p.value
}

/// A node: a writer identity, a Lamport clock and the table of resolved fields.
pub struct Node {
    writer: u64,
    clock: u64,
    serial: u64,
    cells: Vec<Delta>,
}

impl View for Node {
    type V = NodeV;

    closed spec fn view(&self) -> NodeV {
        NodeV { kinds: kinds_of(self.cells@), fields: fields_of(self.cells@) }
    }
}

impl Node {
    pub closed spec fn wf(&self) -> bool {
        cells_wf(self.cells@, self.clock)
    }

    pub closed spec fn spec_writer(&self) -> u64 {
        self.writer
    }

    pub closed spec fn spec_clock(&self) -> u64 {
        self.clock
    }

    /// A node that knows no entity yet, writing as `writer`.
    pub fn new(writer: u64) -> (r: Node)
        ensures
            r.wf(),
            r.spec_writer() == writer,
            r.spec_clock() == 0,
            r.spec_serial() == 0,
            r@.kinds == Map::<EntityId, Kind>::empty(),
            r@.fields == Map::<FieldKey, (ValueV, Stamp)>::empty(),
    {
        let r = Node { writer, clock: 0, serial: 0, cells: Vec::new() };
        assert(r@.kinds =~= Map::<EntityId, Kind>::empty());
        assert(r@.fields =~= Map::<FieldKey, (ValueV, Stamp)>::empty());
        r
    }

    /// The identity this node stamps its own writes with.
    pub fn writer(&self) -> (r: u64)
        ensures
            r == self.spec_writer(),
    {
        self.writer
    }

    pub closed spec fn spec_serial(&self) -> u64 {
        self.serial
    }

    /// A fresh identifier for an entity this node creates: the node's own
    /// identity and a serial number it has not handed out before. `None` once
    /// the serial numbers are spent.
    pub fn allocate_id(&mut self) -> (r: Option<EntityId>)
        ensures
            final(self)@ == old(self)@,
            final(self).wf() == old(self).wf(),
            final(self).spec_writer() == old(self).spec_writer(),
            final(self).spec_clock() == old(self).spec_clock(),
            old(self).spec_serial() < u64::MAX ==> r == Some(
                EntityId { origin: old(self).spec_writer(), serial: old(self).spec_serial() },
            ) && final(self).spec_serial() == old(self).spec_serial() + 1,
            old(self).spec_serial() == u64::MAX ==> r is None,
    {
        if self.serial == u64::MAX {
            return None;
        }
        let id = EntityId { origin: self.writer, serial: self.serial };
        self.serial = self.serial + 1;
        Some(id)
    }

    /// The newest time this node has seen or issued.
    pub fn clock(&self) -> (r: u64)
        ensures
            r == self.spec_clock(),
    {
        self.clock
    }

    /// Every held stamp is no newer than the clock.
    pub proof fn lemma_clock_bounds(&self, k: FieldKey)
        requires
            self.wf(),
            self@.fields.contains_key(k),
        ensures
            self@.fields[k].1.time <= self.spec_clock(),
    {
        let i = choose|i: int| 0 <= i < self.cells@.len() && cell_key(#[trigger] self.cells@[i]) == k;
        lemma_lookup(self.cells@, self.clock, i);
    }

    /// The entities that satisfy `p`, read from local state alone.
    pub fn fetch(&self, p: &Predicate) -> (r: Vec<EntityId>)
        requires
            self.wf(),
        ensures
            r@.no_duplicates(),
            forall|e: EntityId| r@.contains(e) <==> spec_matches(self@, p@, e),
    {
        let mut r: Vec<EntityId> = Vec::new();
        let n = self.cells.len();
        let mut i: usize = 0;
        while i < n
            invariant
                n == self.cells@.len(),
                i <= n,
                cells_wf(self.cells@, self.clock),
                r@.no_duplicates(),
                forall|e: EntityId|
                    r@.contains(e) <==> exists|j: int|
                        0 <= j < i && (#[trigger] self.cells@[j]).entity == e && self.cells@[j].kind
                            == p.kind && self.cells@[j].field == p.field && self.cells@[j].value@
                            == p.value@,
            decreases n - i,
        {
            let c = &self.cells[i];
            if c.kind == p.kind && c.field == p.field && c.value.same(&p.value) {
                let ghost s = self.cells@;
                proof {
                    if r@.contains(c.entity) {
                        let j = choose|j: int|
                            0 <= j < i && (#[trigger] s[j]).entity == c.entity && s[j].kind
                                == p.kind && s[j].field == p.field && s[j].value@ == p.value@;
                        assert(cell_key(s[j]) == cell_key(s[i as int]));
                    }
                }
                let ghost r0 = r@;
                r.push(c.entity);
                proof {
                    assert forall|e: EntityId|
                        r@.contains(e) <==> exists|j: int|
                            0 <= j < i + 1 && (#[trigger] s[j]).entity == e && s[j].kind == p.kind
                                && s[j].field == p.field && s[j].value@ == p.value@ by {
                        assert(r@ == r0.push(c.entity));
                        if e == c.entity {
                            assert(r@[r@.len() - 1] == e);
                            assert(s[i as int].entity == e);
                        } else {
                            if r@.contains(e) {
                                let k = choose|k: int| 0 <= k < r@.len() && r@[k] == e;
                                assert(r0[k] == e);
                            }
                            if r0.contains(e) {
                                let k = choose|k: int| 0 <= k < r0.len() && r0[k] == e;
                                assert(r@[k] == e);
                            }
                        }
                    }
                }
            }
            i += 1;
        }
        proof {
            let s = self.cells@;
            assert forall|e: EntityId| r@.contains(e) <==> spec_matches(self@, p@, e) by {
                if r@.contains(e) {
                    let j = choose|j: int|
                        0 <= j < n && (#[trigger] s[j]).entity == e && s[j].kind == p.kind
                            && s[j].field == p.field && s[j].value@ == p.value@;
                    lemma_lookup(s, self.clock, j);
                }
                if spec_matches(self@, p@, e) {
                    let j = choose|j: int| 0 <= j < s.len() && cell_key(#[trigger] s[j]) == (e, p.field);
                    lemma_lookup(s, self.clock, j);
                }
            }
        }
        r
    }

    /// The value held by field `f` of entity `e`, if the node knows it.
    pub fn get(&self, e: EntityId, f: u64) -> (r: Option<Value>)
        requires
            self.wf(),
        ensures
            r is Some <==> self@.fields.contains_key((e, f)),
            r is Some ==> r.unwrap()@ == self@.fields[(e, f)].0,
    {
        let n = self.cells.len();
        let mut i: usize = 0;
        while i < n
            invariant
                n == self.cells@.len(),
                i <= n,
                cells_wf(self.cells@, self.clock),
                forall|j: int| 0 <= j < i ==> cell_key(#[trigger] self.cells@[j]) != (e, f),
            decreases n - i,
        {
            if self.cells[i].entity == e && self.cells[i].field == f {
                proof {
                    lemma_lookup(self.cells@, self.clock, i as int);
                }
                return Some(self.cells[i].value.clone());
            }
            i += 1;
        }
        None
    }

    /// The kind of entity `e`, if the node knows it.
    pub fn kind_of(&self, e: EntityId) -> (r: Option<Kind>)
        requires
            self.wf(),
        ensures
            r is Some <==> self@.kinds.contains_key(e),
            r is Some ==> r.unwrap() == self@.kinds[e],
    {
        let n = self.cells.len();
        let mut i: usize = 0;
        while i < n
            invariant
                n == self.cells@.len(),
                i <= n,
                cells_wf(self.cells@, self.clock),
                forall|j: int| 0 <= j < i ==> (#[trigger] self.cells@[j]).entity != e,
            decreases n - i,
        {
            if self.cells[i].entity == e {
                proof {
                    lemma_lookup(self.cells@, self.clock, i as int);
                }
                return Some(self.cells[i].kind);
            }
            i += 1;
        }
        None
    }

    /// Merges one delta into the node. A stale delta, or one that does not
    /// fit the schema, is discarded. Returns whether the node's state changed.
    pub fn apply(&mut self, d: Delta) -> (changed: bool)
        requires
            old(self).wf(),
        ensures
            final(self).wf(),
            final(self)@ == apply_spec(old(self)@, d@),
            changed == (final(self)@ != old(self)@),
            final(self).spec_writer() == old(self).spec_writer(),
            final(self).spec_serial() == old(self).spec_serial(),
            final(self).spec_clock() == if accepts(old(self)@, d@) && d.stamp.time
                > old(self).spec_clock() {
                d.stamp.time
            } else {
                old(self).spec_clock()
            },
    {
        if !valid_write(d.kind, d.field, &d.value) {
            return false;
        }
        let n = self.cells.len();
        let mut found: Option<usize> = None;
        let mut conflict = false;
        let mut i: usize = 0;
        while i < n
            invariant
                n == self.cells@.len(),
                i <= n,
                cells_wf(self.cells@, self.clock),
                match found {
                    Some(j) => j < i && cell_key(self.cells@[j as int]) == cell_key(d),
                    None => forall|j: int| 0 <= j < i ==> cell_key(#[trigger] self.cells@[j]) != cell_key(d),
                },
                conflict == exists|j: int|
                    0 <= j < i && (#[trigger] self.cells@[j]).entity == d.entity && self.cells@[j].kind
                        != d.kind,
            decreases n - i,
        {
            let c = &self.cells[i];
            if c.entity == d.entity && c.field == d.field {
                found = Some(i);
            }
            if c.entity == d.entity && c.kind != d.kind {
                conflict = true;
            }
            i += 1;
        }
        let ghost s = self.cells@;
        if conflict {
            proof {
                let j = choose|j: int|
                    0 <= j < n && (#[trigger] s[j]).entity == d.entity && s[j].kind != d.kind;
                lemma_lookup(s, self.clock, j);
            }
            return false;
        }
        proof {
            if has_entity(s, d.entity) {
                let j = choose|j: int| 0 <= j < s.len() && (#[trigger] s[j]).entity == d.entity;
                lemma_lookup(s, self.clock, j);
            }
        }
        if d.stamp.time > self.clock {
            self.clock = d.stamp.time;
        }
        match found {
            Some(j) => {
                proof {
                    lemma_lookup(s, old(self).clock, j as int);
                }
                if d.stamp.newer_than(&self.cells[j].stamp) {
                    let ghost dv = d;
                    self.cells.set(j, d);
                    proof {
                        lemma_set_cell(s, old(self).clock, j as int, dv);
                        assert(cells_wf(self.cells@, self.clock));
                        assert(self@.fields[key_of(dv@)] != old(self)@.fields[key_of(dv@)]);
                        assert(self@.kinds =~= old(self)@.kinds.insert(dv.entity, dv.kind));
                        assert(merge(held(old(self)@, key_of(dv@)), (dv@.value, dv@.stamp)).unwrap()
                            == (dv@.value, dv@.stamp));
                    }
                    true
                } else {
                    proof {
                        assert(self@.kinds =~= old(self)@.kinds.insert(d.entity, d.kind));
                        assert(self@.fields =~= old(self)@.fields.insert(
                            key_of(d@),
                            merge(held(old(self)@, key_of(d@)), (d@.value, d@.stamp)).unwrap(),
                        ));
                    }
                    false
                }
            },
            None => {
                let ghost dv = d;
                proof {
                    assert(!has_key(s, cell_key(d)));
                    lemma_push_cell(s, old(self).clock, dv);
                }
                self.cells.push(d);
                proof {
                    let t = self.cells@;
                    assert(t[n as int] == dv);
                    assert forall|a: int, b: int|
                        0 <= a < t.len() && 0 <= b < t.len() && (#[trigger] t[a]).entity == (
                        #[trigger] t[b]).entity implies t[a].kind == t[b].kind by {
                        if a < n && b == n {
                            lemma_lookup(s, old(self).clock, a);
                        }
                        if b < n && a == n {
                            lemma_lookup(s, old(self).clock, b);
                        }
                    }
                    assert(cells_wf(t, self.clock));
                    assert(!old(self)@.fields.contains_key(key_of(dv@)));
                    assert(self@.fields.contains_key(key_of(dv@)));
                }
                true
            },
        }
    }
}

} // verus!
