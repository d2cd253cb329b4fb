//! Tests of the tree mutations directly: recursive merge with tombstones,
//! whole-subtree replacement, idempotence, and pointer parsing.

use firerust::client::RealtimeReference;
use firerust::frame::parse_pointer;
use firerust::tree::clone_tree;
use firerust::tree::patch_value;
use firerust::tree::replace_value;
use firerust::tree::TreeValue;

fn key(k: &str) -> Vec<u8> {
    k.as_bytes().to_vec()
}

fn num(n: &str) -> TreeValue {
    TreeValue::Num(n.as_bytes().to_vec())
}

fn obj(pairs: Vec<(&str, TreeValue)>) -> TreeValue {
    TreeValue::Obj(pairs.into_iter().map(|(k, v)| (key(k), v)).collect())
}

fn path(p: &str) -> Vec<Vec<u8>> {
    parse_pointer(&p.as_bytes().to_vec()).expect("pointer")
}

#[test]
fn merge_removes_null_keys_merges_others_keeps_rest() {
    // The keys of the patch bound to null go away; other keys of the patch
    // are merged key-wise; keys the patch does not mention stay.
    let mut a = obj(vec![
        ("kept", num("1")),
        ("gone", num("2")),
        ("deep", obj(vec![("x", num("3"))])),
    ]);
    let b = obj(vec![
        ("gone", TreeValue::Null),
        ("deep", obj(vec![("y", num("4"))])),
        ("new", num("5")),
    ]);
    RealtimeReference::merge_value(&mut a, &b);
    let expected = obj(vec![
        ("kept", num("1")),
        ("deep", obj(vec![("x", num("3")), ("y", num("4"))])),
        ("new", num("5")),
    ]);
    assert_eq!(a, expected);
}

#[test]
fn merge_with_non_mapping_side_is_the_patch() {
    let mut a = num("1");
    RealtimeReference::merge_value(&mut a, &obj(vec![("z", num("3"))]));
    assert_eq!(a, obj(vec![("z", num("3"))]));

    let mut c = obj(vec![("z", num("3"))]);
    RealtimeReference::merge_value(&mut c, &num("7"));
    assert_eq!(c, num("7"));
}

#[test]
fn merge_null_into_missing_key_leaves_it_absent() {
    let mut a = obj(vec![("x", num("1"))]);
    RealtimeReference::merge_value(&mut a, &obj(vec![("y", TreeValue::Null)]));
    assert_eq!(a, obj(vec![("x", num("1"))]));
}

#[test]
fn replace_twice_is_idempotent() {
    let mut t = obj(vec![("a", obj(vec![("b", num("1"))]))]);
    let v = obj(vec![("c", num("9"))]);
    let p = path("/a/b");
    assert!(replace_value(&mut t, &p, &v));
    let once = clone_tree(&t);
    assert!(replace_value(&mut t, &p, &v));
    assert_eq!(t, once);
}

#[test]
fn replace_at_root_replaces_everything() {
    let mut t = obj(vec![("a", num("1"))]);
    assert!(replace_value(&mut t, &path(""), &num("7")));
    assert_eq!(t, num("7"));
}

#[test]
fn replace_fails_through_non_mapping() {
    let mut t = obj(vec![("a", num("1"))]);
    let before = clone_tree(&t);
    assert!(!replace_value(&mut t, &path("/a/b"), &num("7")));
    assert_eq!(t, before);
}

#[test]
fn patch_value_merges_at_pointer() {
    let mut t = obj(vec![("a", obj(vec![("x", num("1"))]))]);
    let v = obj(vec![("x", TreeValue::Null), ("y", num("2"))]);
    assert!(patch_value(&mut t, &path("/a"), &v));
    assert_eq!(t, obj(vec![("a", obj(vec![("y", num("2"))]))]));
}

#[test]
fn pointer_parsing_normalizes_root_and_splits_segments() {
    assert_eq!(path(""), Vec::<Vec<u8>>::new());
    assert_eq!(path("/"), Vec::<Vec<u8>>::new());
    assert_eq!(path("/a"), vec![key("a")]);
    assert_eq!(path("/posts/k1"), vec![key("posts"), key("k1")]);
    assert_eq!(path("/a/"), vec![key("a")]);
    assert_eq!(parse_pointer(&b"a/b".to_vec()), None);
}
