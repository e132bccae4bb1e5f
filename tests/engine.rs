use ankurah_template::bootstrap::{ensure_general_room, general_room_predicate};
use ankurah_template::live_query::{Event, LiveQuery};
use ankurah_template::lww::Stamp;
use ankurah_template::model::{diff, Message, Room, User};
use ankurah_template::node::{Delta, Node, Predicate};
use ankurah_template::replication::{step, Action, Envelope, Inbox, Log, Outbox, Phase, Signal, Verdict};
use ankurah_template::schema::{
    field, field_count, valid_write, EntityId, EntityRef, FieldType, Kind, Strategy, Value, MESSAGE_DELETED,
    MESSAGE_TEXT, ROOM_NAME,
};
use ankurah_template::transaction::{CommitError, Transaction};

fn text_of(v: Option<Value>) -> String {
    match v {
        Some(Value::Text(s)) => s,
        other => panic!("expected text, got {:?}", other),
    }
}

fn room_named(name: &str) -> Predicate {
    Predicate { kind: Kind::Room, field: ROOM_NAME, value: Value::Text(name.to_string()) }
}

fn create_room(node: &mut Node, name: &str) -> (EntityId, Vec<Delta>) {
    let id = node.allocate_id().unwrap();
    let mut tx = Transaction::begin();
    tx.create(id, Kind::Room, Room { name: name.to_string() }.values());
    let ds = tx.commit(node).unwrap();
    (id, ds)
}

fn text_delta(entity: EntityId, text: &str, time: u64, writer: u64) -> Delta {
    Delta {
        entity,
        kind: Kind::Message,
        field: MESSAGE_TEXT,
        value: Value::Text(text.to_string()),
        stamp: Stamp { time, writer },
    }
}

#[test]
fn stamp_order_is_time_then_writer() {
    let a = Stamp { time: 5, writer: 1 };
    let b = Stamp { time: 5, writer: 2 };
    let c = Stamp { time: 6, writer: 0 };
    assert!(b.newer_than(&a));
    assert!(!a.newer_than(&b));
    assert!(c.newer_than(&b));
    assert!(!a.newer_than(&a));
}

#[test]
fn schema_declares_message_fields() {
    assert_eq!(field_count(Kind::User), 1);
    assert_eq!(field_count(Kind::Message), 5);
    let deleted = field(Kind::Message, MESSAGE_DELETED).unwrap();
    assert_eq!(deleted.ty, FieldType::Bool);
    assert_eq!(deleted.strategy, Strategy::Lww);
    assert_eq!(field(Kind::Message, MESSAGE_TEXT).unwrap().strategy, Strategy::Plain);
    assert!(field(Kind::Room, 1).is_none());
    let room_ref = Value::Ref(EntityRef { kind: Kind::Room, id: EntityId { origin: 1, serial: 0 } });
    assert!(valid_write(Kind::Message, 1, &room_ref));
    assert!(!valid_write(Kind::Message, 0, &room_ref));
    assert!(!valid_write(Kind::Room, 0, &Value::Int(3)));
}

#[test]
fn create_is_visible_to_fetch() {
    let mut node = Node::new(1);
    let (id, ds) = create_room(&mut node, "General");
    assert_eq!(ds.len(), 1);
    assert_eq!(ds[0].stamp, Stamp { time: 1, writer: 1 });
    assert_eq!(node.fetch(&room_named("General")), vec![id]);
    assert!(node.fetch(&room_named("Random")).is_empty());
    assert_eq!(text_of(node.get(id, ROOM_NAME)), "General");
    assert_eq!(node.kind_of(id), Some(Kind::Room));
}

#[test]
fn validation_error_leaves_node_unchanged() {
    let mut node = Node::new(1);
    let (room, _) = create_room(&mut node, "General");
    let clock = node.clock();
    let user = node.allocate_id().unwrap();
    let msg = node.allocate_id().unwrap();
    let mut tx = Transaction::begin();
    tx.create(user, Kind::User, User { display_name: "ann".to_string() }.values());
    // the message's user field names a room: the wrong reference kind
    let bad = Message { user: room, room, text: "hi".to_string(), timestamp: 7, deleted: false };
    tx.create(msg, Kind::Message, bad.values());
    assert!(matches!(tx.commit(&mut node), Err(CommitError::Validation)));
    assert_eq!(node.clock(), clock);
    assert_eq!(node.kind_of(user), None);
    assert_eq!(node.kind_of(msg), None);
}

#[test]
fn missing_field_is_a_validation_error() {
    let mut node = Node::new(1);
    let id = node.allocate_id().unwrap();
    let mut tx = Transaction::begin();
    tx.create(id, Kind::Message, vec![Value::Text("only text".to_string())]);
    assert!(matches!(tx.commit(&mut node), Err(CommitError::Validation)));
    assert_eq!(node.kind_of(id), None);
}

#[test]
fn edit_of_unknown_entity_is_a_validation_error() {
    let mut node = Node::new(1);
    let mut tx = Transaction::begin();
    tx.edit(EntityId { origin: 9, serial: 9 }, Kind::Room, ROOM_NAME, Value::Text("x".to_string()));
    assert!(matches!(tx.commit(&mut node), Err(CommitError::Validation)));
}

#[test]
fn exhausted_clock_refuses_commit() {
    let mut node = Node::new(1);
    let (id, _) = create_room(&mut node, "General");
    let far = Delta {
        entity: id,
        kind: Kind::Room,
        field: ROOM_NAME,
        value: Value::Text("Late".to_string()),
        stamp: Stamp { time: u64::MAX - 1, writer: 2 },
    };
    assert!(node.apply(far));
    let mut tx = Transaction::begin();
    tx.edit(id, Kind::Room, ROOM_NAME, Value::Text("Again".to_string()));
    assert!(matches!(tx.commit(&mut node), Err(CommitError::ClockExhausted)));
    assert_eq!(text_of(node.get(id, ROOM_NAME)), "Late");
}

#[test]
fn later_edit_in_one_transaction_wins() {
    let mut node = Node::new(1);
    let (id, _) = create_room(&mut node, "General");
    let mut tx = Transaction::begin();
    tx.edit(id, Kind::Room, ROOM_NAME, Value::Text("One".to_string()));
    tx.edit(id, Kind::Room, ROOM_NAME, Value::Text("Two".to_string()));
    let ds = tx.commit(&mut node).unwrap();
    assert_eq!(ds[0].stamp.time, 2);
    assert_eq!(ds[1].stamp.time, 3);
    assert_eq!(text_of(node.get(id, ROOM_NAME)), "Two");
}

#[test]
fn applying_a_delta_twice_changes_state_once() {
    let mut node = Node::new(1);
    let e = EntityId { origin: 2, serial: 0 };
    let d = text_delta(e, "hello", 4, 2);
    assert!(node.apply(d.clone()));
    assert!(!node.apply(d));
    assert_eq!(text_of(node.get(e, MESSAGE_TEXT)), "hello");
    assert_eq!(node.clock(), 4);
}

#[test]
fn stale_and_ill_typed_deltas_are_discarded() {
    let mut node = Node::new(1);
    let e = EntityId { origin: 2, serial: 0 };
    assert!(node.apply(text_delta(e, "new", 9, 2)));
    assert!(!node.apply(text_delta(e, "old", 3, 2)));
    let wrong_type = Delta {
        entity: e,
        kind: Kind::Message,
        field: MESSAGE_TEXT,
        value: Value::Int(1),
        stamp: Stamp { time: 20, writer: 2 },
    };
    assert!(!node.apply(wrong_type));
    let wrong_kind = Delta {
        entity: e,
        kind: Kind::Room,
        field: ROOM_NAME,
        value: Value::Text("r".to_string()),
        stamp: Stamp { time: 20, writer: 2 },
    };
    assert!(!node.apply(wrong_kind));
    assert_eq!(text_of(node.get(e, MESSAGE_TEXT)), "new");
}

#[test]
fn nodes_converge_whatever_the_delivery_order() {
    let e = EntityId { origin: 3, serial: 1 };
    let ds = vec![text_delta(e, "a", 1, 1), text_delta(e, "c", 3, 1), text_delta(e, "b", 2, 2)];
    let mut a = Node::new(10);
    let mut b = Node::new(11);
    for d in ds.iter() {
        a.apply(d.clone());
    }
    for d in ds.iter().rev() {
        b.apply(d.clone());
        b.apply(d.clone());
    }
    assert_eq!(text_of(a.get(e, MESSAGE_TEXT)), "c");
    assert_eq!(text_of(b.get(e, MESSAGE_TEXT)), "c");
}

#[test]
fn equal_times_resolve_by_writer() {
    let e = EntityId { origin: 3, serial: 1 };
    let low = text_delta(e, "from one", 5, 1);
    let high = text_delta(e, "from two", 5, 2);
    let mut a = Node::new(10);
    let mut b = Node::new(11);
    a.apply(low.clone());
    a.apply(high.clone());
    b.apply(high);
    b.apply(low);
    assert_eq!(text_of(a.get(e, MESSAGE_TEXT)), "from two");
    assert_eq!(text_of(b.get(e, MESSAGE_TEXT)), "from two");
}

#[test]
fn concurrent_message_edits_converge_to_the_later() {
    let mut a = Node::new(1);
    let mut b = Node::new(2);
    let (room, room_ds) = create_room(&mut a, "General");
    let user = a.allocate_id().unwrap();
    let msg = a.allocate_id().unwrap();
    let mut tx = Transaction::begin();
    tx.create(user, Kind::User, User { display_name: "ann".to_string() }.values());
    tx.create(msg, Kind::Message, Message { user, room, text: "draft".to_string(), timestamp: 1, deleted: false }.values());
    let msg_ds = tx.commit(&mut a).unwrap();
    for d in room_ds.into_iter().chain(msg_ds.into_iter()) {
        b.apply(d);
    }
    // b has seen more, so its edit carries the later time
    b.apply(Delta {
        entity: room,
        kind: Kind::Room,
        field: ROOM_NAME,
        value: Value::Text("General".to_string()),
        stamp: Stamp { time: 20, writer: 9 },
    });
    let mut ta = Transaction::begin();
    ta.edit(msg, Kind::Message, MESSAGE_TEXT, Value::Text("t1 text".to_string()));
    let from_a = ta.commit(&mut a).unwrap();
    let mut tb = Transaction::begin();
    tb.edit(msg, Kind::Message, MESSAGE_TEXT, Value::Text("t2 text".to_string()));
    let from_b = tb.commit(&mut b).unwrap();
    assert!(from_a[0].stamp.time < from_b[0].stamp.time);
    for d in from_b.iter() {
        a.apply(d.clone());
    }
    for d in from_a.iter() {
        b.apply(d.clone());
    }
    assert_eq!(text_of(a.get(msg, MESSAGE_TEXT)), "t2 text");
    assert_eq!(text_of(b.get(msg, MESSAGE_TEXT)), "t2 text");
    assert_eq!(a.fetch(&room_named("General")), vec![room]);
    assert_eq!(b.fetch(&room_named("General")), vec![room]);
}

#[test]
fn live_query_follows_changes() {
    let mut node = Node::new(1);
    let mut q = LiveQuery::subscribe(&node, room_named("General"));
    assert!(q.snapshot().is_empty());
    let (id, _) = create_room(&mut node, "General");
    assert_eq!(q.refresh(&node, id), Some(Event::Added(id)));
    assert_eq!(q.snapshot(), node.fetch(&room_named("General")));
    let mut tx = Transaction::begin();
    tx.edit(id, Kind::Room, ROOM_NAME, Value::Text("Lobby".to_string()));
    tx.commit(&mut node).unwrap();
    assert_eq!(q.refresh(&node, id), Some(Event::Removed(id)));
    assert!(q.snapshot().is_empty());
    let (other, _) = create_room(&mut node, "Random");
    assert_eq!(q.refresh(&node, other), None);
}

#[test]
fn duplicate_delivery_is_one_change() {
    let e = EntityId { origin: 7, serial: 0 };
    let mut node = Node::new(1);
    let mut inbox = Inbox::new();
    let mut q = LiveQuery::subscribe(
        &node,
        Predicate { kind: Kind::Message, field: MESSAGE_TEXT, value: Value::Text("hi".to_string()) },
    );
    let env = Envelope { origin: 7, seq: 1, delta: text_delta(e, "hi", 1, 7) };
    let mut events = Vec::new();
    for _ in 0..2 {
        if inbox.receive(env.origin, env.seq) == Verdict::Fresh {
            if node.apply(env.delta.clone()) {
                events.push(q.refresh(&node, e));
            }
        }
    }
    assert_eq!(events, vec![Some(Event::Added(e))]);
    assert_eq!(inbox.checkpoint(7), 1);
}

#[test]
fn inbox_detects_gaps() {
    let mut inbox = Inbox::new();
    assert_eq!(inbox.receive(4, 2), Verdict::Gap);
    assert_eq!(inbox.checkpoint(4), 0);
    assert_eq!(inbox.receive(4, 1), Verdict::Fresh);
    assert_eq!(inbox.receive(4, 2), Verdict::Fresh);
    assert_eq!(inbox.receive(4, 1), Verdict::Duplicate);
    assert_eq!(inbox.checkpoint(4), 2);
    assert_eq!(inbox.checkpoint(5), 0);
}

#[test]
fn offline_commits_stream_after_checkpoint_in_order() {
    let mut client = Node::new(2);
    let mut outbox = Outbox::new(2);
    let mut server = Node::new(1);
    let mut log = Log::new();
    // one commit already synced before the client went offline
    let (_, first) = create_room(&mut client, "Synced");
    for d in first {
        assert!(outbox.enqueue(d.clone()));
        server.apply(d.clone());
        log.append(Envelope { origin: 2, seq: 1, delta: d });
    }
    outbox.ack(1);
    let checkpoint = log.len();
    // three commits while offline
    for name in ["One", "Two", "Three"] {
        let (_, ds) = create_room(&mut client, name);
        for d in ds {
            assert!(outbox.enqueue(d));
        }
    }
    assert_eq!(outbox.pending().len(), 3);
    // reconnect: flush in original order
    let seqs: Vec<u64> = outbox.pending().iter().map(|e| e.seq).collect();
    assert_eq!(seqs, vec![2, 3, 4]);
    for env in outbox.pending().iter() {
        server.apply(env.delta.clone());
        log.append(env.clone());
    }
    outbox.ack(4);
    assert!(outbox.pending().is_empty());
    let streamed = log.after(checkpoint);
    let names: Vec<String> = streamed
        .iter()
        .map(|e| match &e.delta.value {
            Value::Text(s) => s.clone(),
            _ => String::new(),
        })
        .collect();
    assert_eq!(names, vec!["One", "Two", "Three"]);
    assert!(log.after(log.len()).is_empty());
    assert!(log.after(log.len() + 5).is_empty());
    assert_eq!(server.fetch(&room_named("Three")).len(), 1);
    // the client's wait for readiness ends only once the backlog is applied
    let (phase, action) = step(Phase::Offline, Signal::Connected);
    assert_eq!(action, Action::Nothing);
    let (_, action) = step(phase, Signal::CaughtUp);
    assert_eq!(action, Action::NotifyReady);
}

#[test]
fn ready_fires_once_per_connection() {
    let (p, a) = step(Phase::Offline, Signal::CaughtUp);
    assert_eq!((p, a), (Phase::Offline, Action::Nothing));
    let (p, a) = step(Phase::Offline, Signal::Connected);
    assert_eq!((p, a), (Phase::CatchingUp, Action::Nothing));
    let (p, a) = step(p, Signal::CaughtUp);
    assert_eq!((p, a), (Phase::Ready, Action::NotifyReady));
    let (p, a) = step(p, Signal::CaughtUp);
    assert_eq!((p, a), (Phase::Ready, Action::Nothing));
    let (p, a) = step(p, Signal::Disconnected);
    assert_eq!((p, a), (Phase::Offline, Action::Nothing));
}

#[test]
fn diff_lists_changed_fields_only() {
    let user = EntityId { origin: 1, serial: 0 };
    let room = EntityId { origin: 1, serial: 1 };
    let before = Message { user, room, text: "a".to_string(), timestamp: 1, deleted: false }.values();
    let after = Message { user, room, text: "b".to_string(), timestamp: 1, deleted: true }.values();
    let changes = diff(&before, &after);
    let fields: Vec<u64> = changes.iter().map(|c| c.field).collect();
    assert_eq!(fields, vec![MESSAGE_TEXT, MESSAGE_DELETED]);
    assert!(matches!(changes[1].value, Value::Bool(true)));
    assert!(diff(&before, &before).is_empty());
}

#[test]
fn general_room_is_created_once() {
    let mut node = Node::new(1);
    assert_eq!(ensure_general_room(&mut node), Ok(true));
    assert_eq!(ensure_general_room(&mut node), Ok(false));
    assert_eq!(node.fetch(&general_room_predicate()).len(), 1);
}

#[test]
fn allocated_ids_are_distinct() {
    let mut node = Node::new(5);
    let a = node.allocate_id().unwrap();
    let b = node.allocate_id().unwrap();
    assert_ne!(a, b);
    assert_eq!(a.origin, 5);
}

#[test]
fn prepare_stamps_without_applying() {
    let mut node = Node::new(3);
    let (id, _) = create_room(&mut node, "General");
    let mut tx = Transaction::begin();
    tx.edit(id, Kind::Room, ROOM_NAME, Value::Text("Renamed".to_string()));
    let ds = tx.prepare(&node).unwrap();
    assert_eq!(ds.len(), 1);
    assert_eq!(ds[0].stamp, Stamp { time: 2, writer: 3 });
    assert_eq!(text_of(node.get(id, ROOM_NAME)), "General");
    for d in ds {
        assert!(node.apply(d));
    }
    assert_eq!(text_of(node.get(id, ROOM_NAME)), "Renamed");
    assert_eq!(node.clock(), 2);
}

#[test]
fn prepare_reports_validation_errors() {
    let node = Node::new(3);
    let mut tx = Transaction::begin();
    tx.create(EntityId { origin: 3, serial: 0 }, Kind::User, vec![Value::Bool(true)]);
    assert!(matches!(tx.prepare(&node), Err(CommitError::Validation)));
}
