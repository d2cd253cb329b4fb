//! Scenario tests for the synchronization engine: seeding, frame dispatch,
//! tombstone merges, path creation, termination and malformed-frame recovery.

use firerust::frame::SyncFault;
use firerust::tree::clone_tree;
use firerust::tree::TreeValue;
use firerust::worker::StepAction;
use firerust::worker::SyncSession;

fn key(k: &str) -> Vec<u8> {
    k.as_bytes().to_vec()
}

fn num(n: &str) -> TreeValue {
    TreeValue::Num(n.as_bytes().to_vec())
}

fn text(s: &str) -> TreeValue {
    TreeValue::Str(s.as_bytes().to_vec())
}

fn obj(pairs: Vec<(&str, TreeValue)>) -> TreeValue {
    TreeValue::Obj(pairs.into_iter().map(|(k, v)| (key(k), v)).collect())
}

fn block(kind: &str, json: &str) -> Vec<u8> {
    format!("event: {}\ndata: {}\n", kind, json).into_bytes()
}

fn seeded(json: &str) -> SyncSession {
    let payload = format!("{{\"path\": \"/\", \"data\": {}}}", json).into_bytes();
    SyncSession::seed(&payload).expect("seed")
}

#[test]
fn seed_takes_data_member() {
    let sess = seeded("{\"a\": 1}");
    assert_eq!(sess.snapshot, obj(vec![("a", num("1"))]));
    assert!(!sess.terminated);
}

#[test]
fn seed_represents_every_value_kind() {
    // serde_json's default map iterates keys in sorted order.
    let sess = seeded("{\"n\": 1.5, \"b\": true, \"s\": \"hi\", \"l\": [1, null], \"o\": {}}");
    let expected = obj(vec![
        ("b", TreeValue::Bool(true)),
        ("l", TreeValue::Arr(vec![num("1"), TreeValue::Null])),
        ("n", num("1.5")),
        ("o", obj(vec![])),
        ("s", text("hi")),
    ]);
    assert_eq!(sess.snapshot, expected);
}

#[test]
fn seed_rejects_invalid_json() {
    let payload = b"{\"path\": \"/\", \"data\": {".to_vec();
    assert_eq!(SyncSession::seed(&payload), Err(SyncFault::MalformedFrame));
}

#[test]
fn seed_rejects_missing_data() {
    let payload = b"{\"path\": \"/\"}".to_vec();
    assert_eq!(SyncSession::seed(&payload), Err(SyncFault::MalformedFrame));
}

#[test]
fn patch_at_root_removes_null_keys_and_merges() {
    // Seed {"a": 1, "b": {"x": 1}}; Patch at root with
    // {"b": {"x": null, "y": 2}}; expect {"a": 1, "b": {"y": 2}}.
    let mut sess = seeded("{\"a\": 1, \"b\": {\"x\": 1}}");
    let a = sess.handle_block(&block(
        "Patch",
        "{\"path\": \"/\", \"data\": {\"b\": {\"x\": null, \"y\": 2}}}",
    ));
    let expected = obj(vec![("a", num("1")), ("b", obj(vec![("y", num("2"))]))]);
    assert_eq!(a, StepAction::Deliver(clone_tree(&expected)));
    assert_eq!(sess.snapshot, expected);
}

#[test]
fn put_creates_missing_intermediate_mappings() {
    // Seed {}; Put at /posts/k1 with {"msg": "hi"};
    // expect {"posts": {"k1": {"msg": "hi"}}}.
    let mut sess = seeded("{}");
    let a = sess.handle_block(&block(
        "Put",
        "{\"path\": \"/posts/k1\", \"data\": {\"msg\": \"hi\"}}",
    ));
    let expected = obj(vec![("posts", obj(vec![("k1", obj(vec![("msg", text("hi"))]))]))]);
    assert!(matches!(a, StepAction::Deliver(_)));
    assert_eq!(sess.snapshot, expected);
}

#[test]
fn put_replaces_whole_subtree() {
    let mut sess = seeded("{\"a\": {\"x\": 1, \"y\": 2}}");
    sess.handle_block(&block("Put", "{\"path\": \"/a\", \"data\": {\"z\": 3}}"));
    assert_eq!(sess.snapshot, obj(vec![("a", obj(vec![("z", num("3"))]))]));
}

#[test]
fn patch_of_non_mapping_degenerates_to_replace() {
    let mut sess = seeded("{\"a\": 1}");
    sess.handle_block(&block("Patch", "{\"path\": \"/a\", \"data\": {\"z\": 3}}"));
    assert_eq!(sess.snapshot, obj(vec![("a", obj(vec![("z", num("3"))]))]));
}

#[test]
fn keep_alive_never_mutates_and_never_delivers() {
    let mut sess = seeded("{\"a\": 1}");
    let before = clone_tree(&sess.snapshot);
    let a = sess.handle_block(&block("keep-alive", "null"));
    assert_eq!(a, StepAction::Ignored);
    assert_eq!(sess.snapshot, before);
    assert!(!sess.terminated);
}

#[test]
fn cancel_after_two_puts_delivers_exactly_twice() {
    // Two successful Puts, then Cancel: exactly two deliveries, and the
    // session is terminated so the driver attempts no further read.
    let mut sess = seeded("{}");
    let blocks = vec![
        block("Put", "{\"path\": \"/a\", \"data\": 1}"),
        block("Put", "{\"path\": \"/b\", \"data\": 2}"),
        block("cancel", "null"),
    ];
    let mut deliveries: usize = 0;
    for b in &blocks {
        assert!(!sess.terminated);
        match sess.handle_block(b) {
            StepAction::Deliver(_) => deliveries += 1,
            StepAction::Terminated => break,
            _ => {}
        }
    }
    assert_eq!(deliveries, 2);
    assert!(sess.terminated);
}

#[test]
fn auth_revoked_terminates() {
    let mut sess = seeded("{}");
    let a = sess.handle_block(&block("auth_revoked", "null"));
    assert_eq!(a, StepAction::Terminated);
    assert!(sess.terminated);
}

#[test]
fn malformed_frame_is_skipped_and_stream_continues() {
    // An invalid JSON payload between two valid Puts: the bad frame delivers
    // nothing and the later frame is still processed normally.
    let mut sess = seeded("{}");
    let a1 = sess.handle_block(&block("Put", "{\"path\": \"/a\", \"data\": 1}"));
    assert!(matches!(a1, StepAction::Deliver(_)));
    let a2 = sess.handle_block(&block("Put", "{\"path\": \"/b\", \"data\""));
    assert_eq!(a2, StepAction::Skipped(SyncFault::MalformedFrame));
    let a3 = sess.handle_block(&block("Put", "{\"path\": \"/b\", \"data\": 2}"));
    assert!(matches!(a3, StepAction::Deliver(_)));
    assert_eq!(sess.snapshot, obj(vec![("a", num("1")), ("b", num("2"))]));
}

#[test]
fn unresolvable_path_is_skipped() {
    // /a is a number: descending below it cannot resolve.
    let mut sess = seeded("{\"a\": 1}");
    let before = clone_tree(&sess.snapshot);
    let a = sess.handle_block(&block("Put", "{\"path\": \"/a/b\", \"data\": 2}"));
    assert_eq!(a, StepAction::Skipped(SyncFault::PathNotFound));
    assert_eq!(sess.snapshot, before);
}

#[test]
fn replay_is_deterministic() {
    // The same frames in the same order from the same seed always give the
    // same final snapshot.
    let blocks = vec![
        block("Put", "{\"path\": \"/a\", \"data\": {\"x\": 1}}"),
        block("Patch", "{\"path\": \"/a\", \"data\": {\"x\": null, \"y\": 2}}"),
        block("Put", "{\"path\": \"/b/c\", \"data\": \"v\"}"),
    ];
    let mut s1 = seeded("{\"a\": 1}");
    let mut s2 = seeded("{\"a\": 1}");
    for b in &blocks {
        s1.handle_block(b);
    }
    for b in &blocks {
        s2.handle_block(b);
    }
    assert_eq!(s1.snapshot, s2.snapshot);
}
