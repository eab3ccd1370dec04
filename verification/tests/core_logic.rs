use avi_p2p::clock::{ClockOrder, VectorClock};
use avi_p2p::codec::{decode_envelope, encode_envelope, WireEnvelope};
use avi_p2p::command::{Command, CommandQueue};
use avi_p2p::context::ContextStore;
use avi_p2p::json::{
    json_check_wf, json_delete_path, json_eq, json_get_path, json_merge, json_set_path, JsonValue,
};
use avi_p2p::peer::PeerId;
use avi_p2p::stream::{generate_stream_id, StreamId};
use avi_p2p::text::split_path_text;

fn peer(name: &str) -> PeerId {
    PeerId::new(String::from(name))
}

fn obj(fields: Vec<(&str, JsonValue)>) -> JsonValue {
    JsonValue::Obj(fields.into_iter().map(|(k, v)| (String::from(k), v)).collect())
}

fn text(s: &str) -> JsonValue {
    JsonValue::Text(String::from(s))
}

#[test]
fn split_path_segments() {
    let segs = split_path_text("device.name");
    assert_eq!(segs.len(), 2);
    assert_eq!(segs[0], "device");
    assert_eq!(segs[1], "name");
    let one = split_path_text("status");
    assert_eq!(one.len(), 1);
    assert_eq!(one[0], "status");
}

#[test]
fn path_set_then_get() {
    let root = obj(vec![("app", obj(vec![("status", text("idle"))]))]);
    let path = split_path_text("device.name");
    let updated = json_set_path(root, &path, 0, text("Kitchen"));
    let got = json_get_path(&updated, &path, 0).expect("set value must be readable");
    assert!(json_eq(got, &text("Kitchen")));
    let other = split_path_text("app.status");
    let still = json_get_path(&updated, &other, 0).expect("existing value kept");
    assert!(json_eq(still, &text("idle")));
}

#[test]
fn path_set_delete_then_absent() {
    let root = obj(vec![]);
    let path = split_path_text("a.b");
    let set = json_set_path(root, &path, 0, JsonValue::Int(7));
    let deleted = match json_delete_path(set, &path, 0) {
        Ok(d) => d,
        Err(_) => panic!("a set path deletes"),
    };
    assert!(json_get_path(&deleted, &path, 0).is_none());
}

#[test]
fn path_delete_missing_fails() {
    let root = obj(vec![("a", JsonValue::Int(1))]);
    let path = split_path_text("a.b.c");
    match json_delete_path(root, &path, 0) {
        Ok(_) => panic!("deleting an absent path must fail"),
        Err(orig) => {
            assert!(json_eq(&orig, &obj(vec![("a", JsonValue::Int(1))])));
        }
    }
}

#[test]
fn merge_patch_keeps_siblings() {
    let base = obj(vec![
        ("device", obj(vec![("name", text("X")), ("battery_pct", JsonValue::Int(100))])),
        ("app", obj(vec![("status", text("idle"))])),
    ]);
    let patch = obj(vec![("device", obj(vec![("name", text("Kitchen"))]))]);
    let merged = json_merge(base, patch);
    let expected = obj(vec![
        ("device", obj(vec![("name", text("Kitchen")), ("battery_pct", JsonValue::Int(100))])),
        ("app", obj(vec![("status", text("idle"))])),
    ]);
    assert!(json_eq(&merged, &expected));
}

#[test]
fn merge_second_wins_on_scalars() {
    let merged = json_merge(JsonValue::Int(1), text("two"));
    assert!(json_eq(&merged, &text("two")));
}

#[test]
fn wf_rejects_duplicate_keys() {
    let bad = JsonValue::Obj(vec![
        (String::from("k"), JsonValue::Int(1)),
        (String::from("k"), JsonValue::Int(2)),
    ]);
    assert!(!json_check_wf(&bad));
    let good = obj(vec![("k", JsonValue::Int(1)), ("m", JsonValue::Int(2))]);
    assert!(json_check_wf(&good));
}

#[test]
fn clock_compare_orders() {
    let a = peer("a");
    let b = peer("b");
    let mut one = VectorClock::new();
    one.increment(&a);
    let mut two = VectorClock::new();
    two.increment(&a);
    two.increment(&a);
    assert_eq!(two.compare(&one), ClockOrder::Dominates);
    assert_eq!(one.compare(&two), ClockOrder::Dominated);
    let mut other = VectorClock::new();
    other.increment(&b);
    assert_eq!(one.compare(&other), ClockOrder::Concurrent);
    let mut same = VectorClock::new();
    same.increment(&a);
    assert_eq!(one.compare(&same), ClockOrder::Equal);
}

#[test]
fn context_updates_count_own_component() {
    let me = peer("me");
    let mut store = ContextStore::new(me.clone());
    store.update_self(obj(vec![("n", JsonValue::Int(1))]), 10);
    store.update_self(obj(vec![("n", JsonValue::Int(2))]), 11);
    store.update_self(obj(vec![("n", JsonValue::Int(3))]), 12);
    let clock = store.local_clock();
    assert_eq!(clock.get(&me), 3);
}

#[test]
fn context_dominating_announce_replaces() {
    let me = peer("me");
    let remote = peer("far");
    let mut store = ContextStore::new(me);
    let mut c1 = VectorClock::new();
    c1.increment(&remote);
    let first = store.apply_remote(&remote, obj(vec![("v", JsonValue::Int(1))]), c1, 5);
    assert!(first);
    let mut c2 = VectorClock::new();
    c2.increment(&remote);
    c2.increment(&remote);
    let second = store.apply_remote(&remote, obj(vec![("v", JsonValue::Int(2))]), c2, 6);
    assert!(second);
    let got = store.get_data(Some(&remote)).expect("stored context");
    assert!(json_eq(&got, &obj(vec![("v", JsonValue::Int(2))])));
}

#[test]
fn context_stale_announce_discarded() {
    let me = peer("me");
    let remote = peer("far");
    let mut store = ContextStore::new(me);
    let mut c2 = VectorClock::new();
    c2.increment(&remote);
    c2.increment(&remote);
    assert!(store.apply_remote(&remote, obj(vec![("v", JsonValue::Int(2))]), c2, 5));
    let mut c1 = VectorClock::new();
    c1.increment(&remote);
    let updated = store.apply_remote(&remote, obj(vec![("v", JsonValue::Int(1))]), c1, 6);
    assert!(!updated);
    let got = store.get_data(Some(&remote)).expect("stored context");
    assert!(json_eq(&got, &obj(vec![("v", JsonValue::Int(2))])));
}

#[test]
fn context_concurrent_announces_merge() {
    let me = peer("me");
    let remote = peer("far");
    let mut store = ContextStore::new(me);
    let mut ca = VectorClock::new();
    ca.increment(&remote);
    assert!(store.apply_remote(&remote, obj(vec![("a", JsonValue::Int(1))]), ca, 5));
    let other = peer("other");
    let mut cb = VectorClock::new();
    cb.increment(&other);
    assert!(store.apply_remote(&remote, obj(vec![("b", JsonValue::Int(2))]), cb, 6));
    let got = store.get_data(Some(&remote)).expect("stored context");
    let expected = obj(vec![("a", JsonValue::Int(1)), ("b", JsonValue::Int(2))]);
    assert!(json_eq(&got, &expected));
}

#[test]
fn command_queue_is_fifo() {
    let mut q = CommandQueue::new();
    assert!(q.enqueue(7, Command::Subscribe { topic: String::from("one") }).is_ok());
    assert!(q.enqueue(7, Command::Subscribe { topic: String::from("two") }).is_ok());
    assert!(q.enqueue(9, Command::DiscoverPeers).is_ok());
    let (h1, c1) = q.dequeue().expect("first");
    assert_eq!(h1, 7);
    match c1 {
        Command::Subscribe { topic } => assert_eq!(topic, "one"),
        _ => panic!("first command out is the first in"),
    }
    let (h2, c2) = q.dequeue().expect("second");
    assert_eq!(h2, 7);
    match c2 {
        Command::Subscribe { topic } => assert_eq!(topic, "two"),
        _ => panic!("second command out is the second in"),
    }
    let (h3, _) = q.dequeue().expect("third");
    assert_eq!(h3, 9);
    assert!(q.dequeue().is_none());
}

fn sid(p: &str, counter: u64, nonce: u64) -> StreamId {
    generate_stream_id(&peer(p), counter, nonce)
}

#[test]
fn envelope_round_trip_stream_kinds() {
    let cases = vec![
        WireEnvelope::StreamOpen { id: sid("alpha", 1, 77), reason: String::from("file") },
        WireEnvelope::StreamAccept { id: sid("alpha", 2, 78) },
        WireEnvelope::StreamReject { id: sid("beta", 3, 79), reason: String::from("busy") },
        WireEnvelope::StreamData { id: sid("beta", 4, 80), data: vec![1, 2, 3] },
        WireEnvelope::StreamClose { id: sid("gamma", 5, 81), reason: String::from("done") },
    ];
    for env in cases {
        let bytes = encode_envelope(&env);
        let back = decode_envelope(&bytes).expect("an encoded envelope decodes");
        match (&env, &back) {
            (
                WireEnvelope::StreamOpen { id: a, reason: ra },
                WireEnvelope::StreamOpen { id: b, reason: rb },
            ) => {
                assert!(a.same_stream(b));
                assert_eq!(ra, rb);
            }
            (WireEnvelope::StreamAccept { id: a }, WireEnvelope::StreamAccept { id: b }) => {
                assert!(a.same_stream(b));
            }
            (
                WireEnvelope::StreamReject { id: a, reason: ra },
                WireEnvelope::StreamReject { id: b, reason: rb },
            ) => {
                assert!(a.same_stream(b));
                assert_eq!(ra, rb);
            }
            (
                WireEnvelope::StreamData { id: a, data: da },
                WireEnvelope::StreamData { id: b, data: db },
            ) => {
                assert!(a.same_stream(b));
                assert_eq!(da, db);
            }
            (
                WireEnvelope::StreamClose { id: a, reason: ra },
                WireEnvelope::StreamClose { id: b, reason: rb },
            ) => {
                assert!(a.same_stream(b));
                assert_eq!(ra, rb);
            }
            _ => panic!("decode must keep the envelope kind"),
        }
    }
}

#[test]
fn envelope_round_trip_announce() {
    let doc = obj(vec![
        ("device", obj(vec![("name", text("X")), ("battery_pct", JsonValue::Int(100))])),
        ("flags", JsonValue::Arr(vec![JsonValue::Bool(true), JsonValue::Null])),
        ("delta", JsonValue::Int(-42)),
    ]);
    let env = WireEnvelope::ContextAnnounce {
        peer: peer("announcer"),
        data: doc,
        clock: vec![(String::from("announcer"), 3), (String::from("other"), 1)],
    };
    let bytes = encode_envelope(&env);
    let back = decode_envelope(&bytes).expect("announce decodes");
    match back {
        WireEnvelope::ContextAnnounce { peer: p, data, clock } => {
            assert!(p.same_peer(&peer("announcer")));
            let expected = obj(vec![
                ("device", obj(vec![("name", text("X")), ("battery_pct", JsonValue::Int(100))])),
                ("flags", JsonValue::Arr(vec![JsonValue::Bool(true), JsonValue::Null])),
                ("delta", JsonValue::Int(-42)),
            ]);
            assert!(json_eq(&data, &expected));
            assert_eq!(clock.len(), 2);
            assert_eq!(clock[0].0, "announcer");
            assert_eq!(clock[0].1, 3);
            assert_eq!(clock[1].0, "other");
            assert_eq!(clock[1].1, 1);
        }
        _ => panic!("decode must keep the envelope kind"),
    }
}

#[test]
fn envelope_decode_rejects_garbage() {
    assert!(decode_envelope(&vec![]).is_none());
    assert!(decode_envelope(&vec![9, 9, 9]).is_none());
    let mut truncated = encode_envelope(&WireEnvelope::StreamAccept { id: sid("a", 1, 2) });
    truncated.pop();
    assert!(decode_envelope(&truncated).is_none());
}
