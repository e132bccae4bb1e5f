//! Entity kinds, identifiers, field values and the declared shape of each kind.
use vstd::prelude::*;

verus! {

/// The kinds of entity the model declares.
#[derive(Clone, Copy, Debug, PartialEq, Eq, Structural)]
pub enum Kind {
    User,
    Room,
    Message,
}

/// A globally unique entity identifier: the node that created the entity and
/// a serial number that node never reuses.
#[derive(Clone, Copy, Debug, PartialEq, Eq, Structural)]
pub struct EntityId {
    pub origin: u64,
    pub serial: u64,
}

/// A reference to an entity of a declared kind, resolved lazily by lookup.
#[derive(Clone, Copy, Debug, PartialEq, Eq, Structural)]
pub struct EntityRef {
    pub kind: Kind,
    pub id: EntityId,
}

/// The value held by one field.
#[derive(Debug)]
pub enum Value {
    Text(String),
    Int(i64),
    Bool(bool),
    Ref(EntityRef),
}

/// The mathematical content of a [`Value`].
pub enum ValueV {
    Text(Seq<char>),
    Int(i64),
    Bool(bool),
    Ref(EntityRef),
}

impl View for Value {
    type V = ValueV;

    open spec fn view(&self) -> ValueV {
        match self {
            Value::Text(s) => ValueV::Text(s@),
            Value::Int(i) => ValueV::Int(*i),
            Value::Bool(b) => ValueV::Bool(*b),
            Value::Ref(r) => ValueV::Ref(*r),
        }
    }
}

impl Clone for Value {
    fn clone(&self) -> (r: Value)
        ensures
            r@ == self@,
    {
        match self {
            Value::Text(s) => Value::Text(s.clone()),
            Value::Int(i) => Value::Int(*i),
            Value::Bool(b) => Value::Bool(*b),
            Value::Ref(r) => Value::Ref(*r),
        }
    }
}

impl Value {
    /// Equality of the values' contents.
    pub fn same(&self, other: &Value) -> (r: bool)
        ensures
            r == (self@ == other@),
    {
        match (self, other) {
            (Value::Text(a), Value::Text(b)) => a.eq(b),
            (Value::Int(a), Value::Int(b)) => *a == *b,
            (Value::Bool(a), Value::Bool(b)) => *a == *b,
            (Value::Ref(a), Value::Ref(b)) => *a == *b,
            _ => false,
        }
    }
}

/// The type a field declares.
#[derive(Clone, Copy, Debug, PartialEq, Eq, Structural)]
pub enum FieldType {
    Text,
    Int,
    Bool,
    Ref(Kind),
}

/// How concurrent writes to a field are reconciled.
#[derive(Clone, Copy, Debug, PartialEq, Eq, Structural)]
pub enum Strategy {
    /// Part of the creation payload, written along one commit path.
    Plain,
    /// A last-writer-wins register.
    Lww,
}

/// One declared field of a kind.
#[derive(Clone, Copy, Debug, PartialEq, Eq, Structural)]
pub struct FieldSpec {
    pub ty: FieldType,
    pub strategy: Strategy,
}

pub const USER_DISPLAY_NAME: u64 = 0;

pub const ROOM_NAME: u64 = 0;

pub const MESSAGE_USER: u64 = 0;

pub const MESSAGE_ROOM: u64 = 1;

pub const MESSAGE_TEXT: u64 = 2;

pub const MESSAGE_TIMESTAMP: u64 = 3;

pub const MESSAGE_DELETED: u64 = 4;

/// The number of fields a kind declares.
pub open spec fn spec_field_count(kind: Kind) -> nat {
    match kind {
        Kind::User => 1,
        Kind::Room => 1,
        Kind::Message => 5,
    }
}

/// The declared fields of each kind, in order.
pub open spec fn spec_field(kind: Kind, field: u64) -> Option<FieldSpec> {
    match kind {
        Kind::User => if field == 0 {
            Some(FieldSpec { ty: FieldType::Text, strategy: Strategy::Plain })
        } else {
            None
        },
        Kind::Room => if field == 0 {
            Some(FieldSpec { ty: FieldType::Text, strategy: Strategy::Plain })
        } else {
            None
        },
        Kind::Message => if field == 0 {
            Some(FieldSpec { ty: FieldType::Ref(Kind::User), strategy: Strategy::Lww })
        } else if field == 1 {
            Some(FieldSpec { ty: FieldType::Ref(Kind::Room), strategy: Strategy::Lww })
        } else if field == 2 {
            Some(FieldSpec { ty: FieldType::Text, strategy: Strategy::Plain })
        } else if field == 3 {
            Some(FieldSpec { ty: FieldType::Int, strategy: Strategy::Plain })
        } else if field == 4 {
            Some(FieldSpec { ty: FieldType::Bool, strategy: Strategy::Lww })
        } else {
            None
        },
    }
}

/// Whether a value has the declared type; a reference must name the target kind.
pub open spec fn spec_fits(v: ValueV, ty: FieldType) -> bool {
    match (v, ty) {
        (ValueV::Text(_), FieldType::Text) => true,
        (ValueV::Int(_), FieldType::Int) => true,
        (ValueV::Bool(_), FieldType::Bool) => true,
        (ValueV::Ref(r), FieldType::Ref(k)) => r.kind == k,
        _ => false,
    }
}

/// Whether `v` may be written to field `field` of an entity of `kind`.
pub open spec fn spec_valid_write(kind: Kind, field: u64, v: ValueV) -> bool {
    spec_field(kind, field) is Some && spec_fits(v, spec_field(kind, field).unwrap().ty)
}

/// The fields of a kind are exactly the indices below its count.
pub proof fn lemma_field_count(kind: Kind, field: u64)
    ensures
        spec_field(kind, field) is Some <==> field < spec_field_count(kind),
{
}

/// The number of fields `kind` declares.
pub fn field_count(kind: Kind) -> (r: u64)
    ensures
        r == spec_field_count(kind),
{
    match kind {
        Kind::User => 1,
        Kind::Room => 1,
        Kind::Message => 5,
    }
}

/// The declaration of field `field` of `kind`, if it has one.
pub fn field(kind: Kind, f: u64) -> (r: Option<FieldSpec>)
    ensures
        r == spec_field(kind, f),
{
    let field = f;
    match kind {
        Kind::User | Kind::Room => if field == 0 {
            Some(FieldSpec { ty: FieldType::Text, strategy: Strategy::Plain })
        } else {
            None
        },
        Kind::Message => if field == 0 {
            Some(FieldSpec { ty: FieldType::Ref(Kind::User), strategy: Strategy::Lww })
        } else if field == 1 {
            Some(FieldSpec { ty: FieldType::Ref(Kind::Room), strategy: Strategy::Lww })
        } else if field == 2 {
            Some(FieldSpec { ty: FieldType::Text, strategy: Strategy::Plain })
        } else if field == 3 {
            Some(FieldSpec { ty: FieldType::Int, strategy: Strategy::Plain })
        } else if field == 4 {
            Some(FieldSpec { ty: FieldType::Bool, strategy: Strategy::Lww })
        } else {
            None
        },
    }
}

/// Whether `v` may be written to field `field` of an entity of `kind`.
pub fn valid_write(kind: Kind, f: u64, v: &Value) -> (r: bool)
    ensures
        r == spec_valid_write(kind, f, v@),
{
    match field(kind, f) {
        None => false,
        Some(spec) => match (v, spec.ty) {
            (Value::Text(_), FieldType::Text) => true,
            (Value::Int(_), FieldType::Int) => true,
            (Value::Bool(_), FieldType::Bool) => true,
            (Value::Ref(r), FieldType::Ref(k)) => r.kind == k,
            _ => false,
        },
    }
}

} // verus!
