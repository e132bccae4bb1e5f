//! One-time seeding of the data every deployment starts with.
use vstd::prelude::*;
use vstd::string::StringExecFns;
use crate::node::{Node, Predicate, PredicateV, spec_matches};
use crate::schema::{EntityId, Kind, ROOM_NAME, Value, ValueV};
use crate::transaction::{CommitError, Transaction, last_for_key, visible, write_ok};

verus! {

/// Rooms named "General".
pub open spec fn general_rooms() -> PredicateV {
    PredicateV { kind: Kind::Room, field: ROOM_NAME, value: ValueV::Text("General"@) }
}

/// The predicate selecting rooms named "General".
pub fn general_room_predicate() -> (r: Predicate)
    ensures
        r@ == general_rooms(),
{
    Predicate { kind: Kind::Room, field: ROOM_NAME, value: Value::Text(String::from_str("General")) }
}

/// Makes sure a room named "General" exists, creating it when none does.
/// Returns whether it was created.
pub fn ensure_general_room(node: &mut Node) -> (r: Result<bool, CommitError>)
    requires
        old(node).wf(),
    ensures
        final(node).wf(),
        final(node).spec_writer() == old(node).spec_writer(),
        match r {
            Ok(false) => {
                &&& final(node)@ == old(node)@
                &&& exists|e| spec_matches(old(node)@, general_rooms(), e)
            },
            Ok(true) => {
                &&& forall|e| !spec_matches(old(node)@, general_rooms(), e)
                &&& exists|e| spec_matches(final(node)@, general_rooms(), e)
            },
            Err(e) => {
                &&& final(node)@ == old(node)@
                &&& forall|x| !spec_matches(old(node)@, general_rooms(), x)
                &&& e == CommitError::IdsExhausted ==> old(node).spec_serial() == u64::MAX
                &&& e == CommitError::Validation ==> old(node)@.kinds.contains_key(
                    EntityId { origin: old(node).spec_writer(), serial: old(node).spec_serial() },
                )
                &&& e == CommitError::ClockExhausted ==> old(node).spec_clock() + 1 >= u64::MAX
            },
        },
{
    let pred = general_room_predicate();
    let rooms = node.fetch(&pred);
    if rooms.len() > 0 {
        proof {
            assert(rooms@.contains(rooms@[0]));
        }
        return Ok(false);
    }
    proof {
        assert forall|e| !spec_matches(old(node)@, general_rooms(), e) by {
            if spec_matches(old(node)@, general_rooms(), e) {
                assert(rooms@.contains(e));
            }
        }
    }
    let id = match node.allocate_id() {
        Some(id) => id,
        None => return Err(CommitError::IdsExhausted),
    };
    let mut tx = Transaction::begin();
    let vals = vec![Value::Text(String::from_str("General"))];
    assert(vals@.len() == 1);
    tx.create(id, Kind::Room, vals);
    let ghost ws = tx.staged();
    assert(ws.len() == 1);
    let ghost before = node@;
    let ghost clock = node.spec_clock();
    proof {
        assert(ws[0].entity == id && ws[0].create && ws[0].kind == Kind::Room);
        if !before.kinds.contains_key(id) {
            assert(write_ok(before, ws, 0));
        }
    }
    match tx.commit(node) {
        Ok(ds) => {
            proof {
                assert(last_for_key(ws, 0));
                assert(visible(node@, ws[0]));
                assert(spec_matches(node@, general_rooms(), id));
            }
            Ok(true)
        },
        Err(e) => Err(e),
    }
}

} // verus!
