//! Tests of the client facade: URL validation, key attachment, request
//! plans, status checks, and frame parsing at the wire level.

use firerust::client::check_get_status;
use firerust::client::check_write_status;
use firerust::client::FirebaseClient;
use firerust::client::FirebaseError;
use firerust::client::Method;
use firerust::frame::parse_frame;
use firerust::frame::ChangeFrame;
use firerust::frame::FrameKind;
use firerust::frame::SyncFault;
use firerust::tree::TreeValue;

#[test]
fn new_accepts_firebaseio_host() {
    let c = FirebaseClient::new("https://docs-examples.firebaseio.com/").expect("client");
    assert_eq!(c.host, b"docs-examples.firebaseio.com".to_vec());
    assert_eq!(c.port, 443);
    assert!(c.api_key.is_none());
}

#[test]
fn new_accepts_firebasedatabase_host_and_explicit_port() {
    let c = FirebaseClient::new("https://demo.europe-west1.firebasedatabase.app:8443/")
        .expect("client");
    assert_eq!(c.host, b"demo.europe-west1.firebasedatabase.app".to_vec());
    assert_eq!(c.port, 8443);
}

#[test]
fn new_defaults_port_for_scheme_without_one() {
    let c = FirebaseClient::new("foo://db.firebaseio.com/").expect("client");
    assert_eq!(c.port, 443);
}

#[test]
fn new_rejects_unparseable_url() {
    let e = FirebaseClient::new("not a url").unwrap_err();
    assert_eq!(e.message(), "Invalid url");
}

#[test]
fn new_rejects_foreign_domain() {
    let e = FirebaseClient::new("https://example.com/").unwrap_err();
    assert_eq!(e.message(), "Invalid domain");
}

#[test]
fn new_rejects_host_that_is_no_domain() {
    let e = FirebaseClient::new("https://192.168.0.1/").unwrap_err();
    assert_eq!(e.message(), "Invalid domain");
}

#[test]
fn get_plan_carries_auth_query_once_authenticated() {
    let mut c = FirebaseClient::new("https://db.firebaseio.com/").expect("client");
    let r = c.reference("/users");
    let plan = r.get();
    assert_eq!(plan.method, Method::Get);
    assert_eq!(plan.path, "/users");
    assert_eq!(plan.query, None);
    assert_eq!(plan.body, None);

    c.auth("KEY");
    let plan2 = c.reference("/users").get();
    assert_eq!(plan2.query.as_deref(), Some("?auth=KEY"));
}

#[test]
fn write_plans_use_silent_print_and_methods() {
    let mut c = FirebaseClient::new("https://db.firebaseio.com/").expect("client");
    c.auth("K");
    let r = c.reference("/x");
    let set = r.set("{\"v\":1}".to_string());
    assert_eq!(set.method, Method::Put);
    assert_eq!(set.query.as_deref(), Some("?print=silent&auth=K"));
    assert_eq!(set.body.as_deref(), Some("{\"v\":1}"));
    let post = r.set_unique("{}".to_string());
    assert_eq!(post.method, Method::Post);
    let up = r.update("{}".to_string());
    assert_eq!(up.method, Method::Patch);
    let del = r.delete();
    assert_eq!(del.method, Method::Delete);
    assert_eq!(del.body, None);
    assert_eq!(del.query.as_deref(), Some("?print=silent&auth=K"));
}

#[test]
fn write_plan_without_key_has_silent_print_only() {
    let c = FirebaseClient::new("https://db.firebaseio.com/").expect("client");
    let del = c.reference("/x").delete();
    assert_eq!(del.query.as_deref(), Some("?print=silent"));
}

#[test]
fn child_extends_the_path() {
    let c = FirebaseClient::new("https://db.firebaseio.com/").expect("client");
    let r = c.reference("/a").child("b").child("c");
    assert_eq!(r.path, "/a/b/c");
}

#[test]
fn status_checks_accept_exactly_the_success_codes() {
    assert!(check_write_status(204, "No Content").is_ok());
    let e = check_write_status(401, "Unauthorized").unwrap_err();
    assert_eq!(e.message(), "Unauthorized");
    assert!(check_get_status(200, "OK").is_ok());
    assert!(check_get_status(204, "No Content").is_err());
}

#[test]
fn error_keeps_its_message() {
    let e = FirebaseError::new("boom");
    assert_eq!(e.message(), "boom");
}

#[test]
fn parse_frame_decodes_each_kind() {
    let f = parse_frame(&b"event: Put\ndata: {\"path\": \"/a\", \"data\": 1}\n".to_vec());
    match f {
        Ok(ChangeFrame::Update { kind, path, value }) => {
            assert_eq!(kind, FrameKind::Put);
            assert_eq!(path, vec![b"a".to_vec()]);
            assert_eq!(value, TreeValue::Num(b"1".to_vec()));
        }
        other => panic!("unexpected: {:?}", other),
    }
    let p = parse_frame(&b"event: Patch\ndata: {\"path\": \"/\", \"data\": {}}\n".to_vec());
    match p {
        Ok(ChangeFrame::Update { kind, path, value }) => {
            assert_eq!(kind, FrameKind::Patch);
            assert_eq!(path, Vec::<Vec<u8>>::new());
            assert_eq!(value, TreeValue::Obj(vec![]));
        }
        other => panic!("unexpected: {:?}", other),
    }
    assert_eq!(
        parse_frame(&b"event: keep-alive\ndata: null\n".to_vec()),
        Ok(ChangeFrame::Control(FrameKind::KeepAlive))
    );
    assert_eq!(
        parse_frame(&b"event: cancel\ndata: null\n".to_vec()),
        Ok(ChangeFrame::Control(FrameKind::Cancel))
    );
    assert_eq!(
        parse_frame(&b"event: auth_revoked\ndata: null\n".to_vec()),
        Ok(ChangeFrame::Control(FrameKind::AuthRevoked))
    );
}

#[test]
fn parse_frame_rejects_malformed_blocks() {
    let cases: Vec<&[u8]> = vec![
        b"",
        b"event: Put",
        b"data: {}\n",
        b"event: shout\ndata: {}\n",
        b"event: Put\n{\"path\": \"/\", \"data\": 1}\n",
        b"event: Put\ndata: {\"path\": \"/\"}\n",
        b"event: Put\ndata: {\"data\": 1}\n",
        b"event: Put\ndata: {\"path\": 3, \"data\": 1}\n",
        b"event: Put\ndata: {\"path\": \"a/b\", \"data\": 1}\n",
        b"event: Put\ndata: [1, 2]\n",
        b"event: Put\ndata: {\"path\": \"/\", \"data\": \n",
    ];
    for c in cases {
        assert_eq!(
            parse_frame(&c.to_vec()),
            Err(SyncFault::MalformedFrame),
            "case: {:?}",
            String::from_utf8_lossy(c)
        );
    }
}
