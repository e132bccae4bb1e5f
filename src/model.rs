//! The application's entity shapes and their field values.
use vstd::prelude::*;
use crate::schema::{
    EntityId, EntityRef, Kind, Value, ValueV, spec_field_count, spec_valid_write,
};

verus! {

/// Whether `vals` are a complete, well-typed creation payload for `kind`.
pub open spec fn payload_ok(kind: Kind, vals: Seq<Value>) -> bool {
    &&& vals.len() == spec_field_count(kind)
    &&& forall|i: int| 0 <= i < vals.len() ==> spec_valid_write(kind, i as u64, (#[trigger] vals[i])@)
}

/// A chat participant.
#[derive(Debug)]
pub struct User {
    pub display_name: String,
}

impl User {
    /// The field values of this user, in declaration order.
    pub fn values(&self) -> (r: Vec<Value>)
        ensures
            payload_ok(Kind::User, r@),
            r@[0]@ == ValueV::Text(self.display_name@),
    {
        let r = vec![Value::Text(self.display_name.clone())];
        r
    }
}

/// A chat room.
#[derive(Debug)]
pub struct Room {
    pub name: String,
}

impl Room {
    /// The field values of this room, in declaration order.
    pub fn values(&self) -> (r: Vec<Value>)
        ensures
            payload_ok(Kind::Room, r@),
            r@[0]@ == ValueV::Text(self.name@),
    {
        let r = vec![Value::Text(self.name.clone())];
        r
    }
}

/// A message posted by a user in a room. Its author, room and deletion flag
/// are last-writer-wins registers; deleting a message sets `deleted`.
#[derive(Debug)]
pub struct Message {
    pub user: EntityId,
    pub room: EntityId,
    pub text: String,
    pub timestamp: i64,
    pub deleted: bool,
}

impl Message {
    /// The field values of this message, in declaration order.
    pub fn values(&self) -> (r: Vec<Value>)
        ensures
            payload_ok(Kind::Message, r@),
            r@[0]@ == ValueV::Ref(EntityRef { kind: Kind::User, id: self.user }),
            r@[1]@ == ValueV::Ref(EntityRef { kind: Kind::Room, id: self.room }),
            r@[2]@ == ValueV::Text(self.text@),
            r@[3]@ == ValueV::Int(self.timestamp),
            r@[4]@ == ValueV::Bool(self.deleted),
    {
        let r = vec![
            Value::Ref(EntityRef { kind: Kind::User, id: self.user }),
            Value::Ref(EntityRef { kind: Kind::Room, id: self.room }),
            Value::Text(self.text.clone()),
            Value::Int(self.timestamp),
            Value::Bool(self.deleted),
        ];
        r
    }
}

/// A new value for one field.
#[derive(Debug)]
pub struct FieldChange {
    pub field: u64,
    pub value: Value,
}

/// The changes that turn the field values `before` into `after`: one per
/// field whose value differs, in field order, and none for the others.
pub fn diff(before: &Vec<Value>, after: &Vec<Value>) -> (r: Vec<FieldChange>)
    requires
        before@.len() == after@.len(),
    ensures
        forall|k: int|
            0 <= k < r@.len() ==> (#[trigger] r@[k]).field < after@.len() && before@[r@[k].field as int]@
                != after@[r@[k].field as int]@ && r@[k].value@ == after@[r@[k].field as int]@,
        forall|k: int, l: int| 0 <= k < l < r@.len() ==> (#[trigger] r@[k]).field < (#[trigger] r@[l]).field,
        forall|i: int|
            0 <= i < after@.len() && before@[i]@ != after@[i]@ ==> exists|k: int|
                0 <= k < r@.len() && (#[trigger] r@[k]).field == i,
{
    let mut r: Vec<FieldChange> = Vec::new();
    let n = after.len();
    let mut i: usize = 0;
    while i < n
        invariant
            n == after@.len(),
            before@.len() == after@.len(),
            i <= n,
            forall|k: int|
                0 <= k < r@.len() ==> (#[trigger] r@[k]).field < i && before@[r@[k].field as int]@
                    != after@[r@[k].field as int]@ && r@[k].value@ == after@[r@[k].field as int]@,
            forall|k: int, l: int| 0 <= k < l < r@.len() ==> (#[trigger] r@[k]).field < (#[trigger] r@[l]).field,
            forall|j: int|
                0 <= j < i && before@[j]@ != after@[j]@ ==> exists|k: int|
                    0 <= k < r@.len() && (#[trigger] r@[k]).field == j,
        decreases n - i,
    {
        if !before[i].same(&after[i]) {
            let ghost r0 = r@;
            r.push(FieldChange { field: i as u64, value: after[i].clone() });
            proof {
                assert forall|j: int|
                    0 <= j < i + 1 && before@[j]@ != after@[j]@ implies exists|k: int|
                        0 <= k < r@.len() && (#[trigger] r@[k]).field == j by {
                    if j < i {
                        let k = choose|k: int| 0 <= k < r0.len() && (#[trigger] r0[k]).field == j;
                        assert(r@[k] == r0[k]);
                    } else {
                        assert(r@[r0.len() as int].field == j);
                    }
                }
            }
        }
        i += 1;
    }
    r
}

} // verus!
