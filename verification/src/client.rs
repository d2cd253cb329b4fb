//! The client and reference facade: URL validation at construction, the API
//! key, and the request plans (method, path, query, body) that the one-shot
//! CRUD operations hand to the transport.

use vstd::prelude::*;
use vstd::string::StringExecFns;
use crate::tree::lemma_smerge_wf;
use crate::tree::merge_trees;
use crate::tree::smerge;
use crate::tree::swf;
use crate::tree::TreeValue;

verus! {

/// A client error carrying a human-readable message.
#[derive(Debug)]
pub struct FirebaseError {
    message: String,
}

impl View for FirebaseError {
    type V = Seq<char>;

    closed spec fn view(&self) -> Seq<char> {
        self.message@
    }
}

impl FirebaseError {
    pub fn new(message: &str) -> (e: FirebaseError)
        ensures
            e@ == message@,
    {
        FirebaseError { message: message.to_owned() }
    }

    pub fn message(&self) -> (m: &str)
        ensures
            m@ == self@,
    {
        self.message.as_str()
    }
}

/// The HTTP method of a request plan.
#[derive(PartialEq, Eq, Structural, Clone, Copy, Debug)]
pub enum Method {
    Get,
    Put,
    Post,
    Patch,
    Delete,
}

/// One request for the transport collaborator to perform: everything but the
/// byte-level exchange.
pub struct RequestPlan {
    pub method: Method,
    pub path: String,
    pub query: Option<String>,
    pub body: Option<String>,
}

/// Whether `s` parses as an absolute URL: what `url::Url::parse` decides,
/// a function of the text alone.
pub uninterp spec fn url_parsed(s: Seq<char>) -> bool;

/// The registered domain name of the URL named by `s`, as bytes: what
/// `url::Url::domain` yields on the parsed URL; `None` when `s` does not
/// parse or the URL's host is not a domain name. A function of the text
/// alone.
pub uninterp spec fn url_host_of(s: Seq<char>) -> Option<Seq<u8>>;

/// The port of the URL named by `s`: explicit in the text, or the scheme's
/// known default, as `url::Url::port_or_known_default` yields it on the
/// parsed URL. A function of the text alone.
pub uninterp spec fn url_port_of(s: Seq<char>) -> Option<u16>;

/// What the url collaborator finds in a subscription target: no URL at all,
/// a URL whose host is not a domain name, or a domain with the URL's port.
enum UrlHost {
    Invalid,
    NoDomain,
    Domain(Vec<u8>, Option<u16>),
}

/// Relies on url::Url::parse, url::Url::domain and
/// url::Url::port_or_known_default, each a function of the URL text alone:
/// telling their outcomes apart, one arm each, with the domain converted to
/// owned bytes.
#[verifier::external_body]
fn url_host_port(s: &str) -> (r: UrlHost)
    ensures
        (r is Invalid) == !url_parsed(s@),
        (r is Domain) == (url_host_of(s@) is Some),
        r matches UrlHost::Domain(h, p) ==> url_host_of(s@) == Some(h@) && url_port_of(s@) == p,
{
    let u = match url::Url::parse(s) {
        Ok(u) => u,
        Err(_) => return UrlHost::Invalid,
    };
    match u.domain() {
        Some(d) => UrlHost::Domain(d.as_bytes().to_vec(), u.port_or_known_default()),
        None => UrlHost::NoDomain,
    }
}

/// Whether `n` occurs in `h` as a contiguous run.
pub open spec fn contains_sub(h: Seq<u8>, n: Seq<u8>) -> bool {
    exists|i: int| 0 <= i <= h.len() - n.len() && #[trigger] h.subrange(i, i + n.len()) == n
}

/// ".firebaseio.com"
pub open spec fn dom_firebaseio() -> Seq<u8> {
    seq![46u8, 102u8, 105u8, 114u8, 101u8, 98u8, 97u8, 115u8, 101u8, 105u8, 111u8, 46u8, 99u8, 111u8, 109u8]
}

/// ".firebasedatabase.app"
pub open spec fn dom_firebasedatabase() -> Seq<u8> {
    seq![46u8, 102u8, 105u8, 114u8, 101u8, 98u8, 97u8, 115u8, 101u8, 100u8, 97u8, 116u8, 97u8, 98u8, 97u8, 115u8, 101u8, 46u8, 97u8, 112u8, 112u8]
}

/// A host this client accepts: one naming either realtime-database domain.
pub open spec fn valid_host(h: Seq<u8>) -> bool {
    contains_sub(h, dom_firebaseio()) || contains_sub(h, dom_firebasedatabase())
}

/// A subscription target the client accepts: URL text whose host is a domain
/// name naming one of the accepted database domains.
pub open spec fn accepted_target(s: Seq<char>) -> bool {
    match url_host_of(s) {
        Some(h) => valid_host(h),
        None => false,
    }
}

/// The port a client uses: the URL's, or 443 when the URL yields none.
pub open spec fn port_or_default(p: Option<u16>) -> u16 {
    match p {
        Some(p) => p,
        None => 443u16,
    }
}

fn dom_firebaseio_vec() -> (r: Vec<u8>)
    ensures
        r@ == dom_firebaseio(),
{
    let mut v: Vec<u8> = Vec::new();
    v.push(46);
    v.push(102);
    v.push(105);
    v.push(114);
    v.push(101);
    v.push(98);
    v.push(97);
    v.push(115);
    v.push(101);
    v.push(105);
    v.push(111);
    v.push(46);
    v.push(99);
    v.push(111);
    v.push(109);
    proof {
        assert(v@ =~= dom_firebaseio());
    }
    v
}

fn dom_firebasedatabase_vec() -> (r: Vec<u8>)
    ensures
        r@ == dom_firebasedatabase(),
{
    let mut v: Vec<u8> = Vec::new();
    v.push(46);
    v.push(102);
    v.push(105);
    v.push(114);
    v.push(101);
    v.push(98);
    v.push(97);
    v.push(115);
    v.push(101);
    v.push(100);
    v.push(97);
    v.push(116);
    v.push(97);
    v.push(98);
    v.push(97);
    v.push(115);
    v.push(101);
    v.push(46);
    v.push(97);
    v.push(112);
    v.push(112);
    proof {
        assert(v@ =~= dom_firebasedatabase());
    }
    v
}

/// Whether `n` occurs in `h` as a contiguous run.
#[verifier::loop_isolation(false)]
pub fn contains_seq(h: &Vec<u8>, n: &Vec<u8>) -> (r: bool)
    ensures
        r == contains_sub(h@, n@),
{
    if n.len() > h.len() {
        return false;
    }
    if n.len() == 0 {
        proof {
            assert(h@.subrange(0, 0 + n@.len() as int) =~= n@);
        }
        return true;
    }
    let mut i: usize = 0;
    while i <= h.len() - n.len()
        invariant
            1 <= n@.len() <= h@.len(),
            i <= h@.len() - n@.len() + 1,
            forall|l: int| 0 <= l < i ==> #[trigger] h@.subrange(l, l + n@.len()) != n@,
        decreases h@.len() - n@.len() + 1 - i,
    {
        if crate::frame::has_prefix_at(h, i, n) {
            return true;
        }
        i += 1;
    }
    false
}

/// Whether the host is one this client accepts.
pub fn valid_firebase_host(h: &Vec<u8>) -> (r: bool)
    ensures
        r == valid_host(h@),
{
    let a = dom_firebaseio_vec();
    let b = dom_firebasedatabase_vec();
    contains_seq(h, &a) || contains_seq(h, &b)
}

pub open spec fn key_view(o: Option<String>) -> Option<Seq<char>> {
    match o {
        Some(k) => Some(k@),
        None => None,
    }
}

pub open spec fn opt_str_view(o: Option<String>) -> Option<Seq<char>> {
    match o {
        Some(s) => Some(s@),
        None => None,
    }
}

/// The query attached to a read or streaming request: the auth token alone.
pub open spec fn auth_query_view(key: Option<String>) -> Option<Seq<char>> {
    match key {
        Some(k) => Some("?auth="@ + k@),
        None => None,
    }
}

/// The query attached to a write request: silent writes, plus the auth token.
pub open spec fn write_query_view(key: Option<String>) -> Seq<char> {
    match key {
        Some(k) => "?print=silent&auth="@ + k@,
        None => "?print=silent"@,
    }
}

/// Connects and authenticates a client to one database host.
#[derive(Debug)]
pub struct FirebaseClient {
    pub host: Vec<u8>,
    pub port: u16,
    pub api_key: Option<String>,
}

fn clone_client(c: &FirebaseClient) -> (r: FirebaseClient)
    ensures
        r.host@ == c.host@,
        r.port == c.port,
        r.api_key == c.api_key,
{
    let api_key = match &c.api_key {
        Some(k) => Some(k.clone()),
        None => None,
    };
    FirebaseClient { host: crate::tree::clone_bytes(&c.host), port: c.port, api_key }
}

impl FirebaseClient {
    /// Validate the subscription target and build a client for its host.
    /// Succeeds exactly when the URL's host is a domain naming one of the
    /// accepted database domains; the client then carries that domain and the
    /// URL's port (443 when the URL yields none), with no key attached yet.
    /// Text that is no URL fails with "Invalid url"; a URL whose host is no
    /// domain, or a domain this client does not accept, with "Invalid domain".
    pub fn new(url: &str) -> (r: Result<FirebaseClient, FirebaseError>)
        ensures
            (r is Ok) == accepted_target(url@),
            r matches Ok(c) ==> Some(c.host@) == url_host_of(url@) && c.port == port_or_default(
                url_port_of(url@),
            ) && c.api_key is None,
            r matches Err(e) ==> e@ == (if url_parsed(url@) {
                "Invalid domain"@
            } else {
                "Invalid url"@
            }),
    {
        match url_host_port(url) {
            UrlHost::Invalid => Err(FirebaseError::new("Invalid url")),
            UrlHost::NoDomain => Err(FirebaseError::new("Invalid domain")),
            UrlHost::Domain(host, port_opt) => {
                if valid_firebase_host(&host) {
                    let port = match port_opt {
                        Some(p) => p,
                        None => 443,
                    };
                    Ok(FirebaseClient { host, port, api_key: None })
                } else {
                    Err(FirebaseError::new("Invalid domain"))
                }
            },
        }
    }

    /// Attach the API key that later requests authenticate with.
    pub fn auth(&mut self, api_key: &str)
        ensures
            key_view(final(self).api_key) == Some(api_key@),
            final(self).host@ == old(self).host@,
            final(self).port == old(self).port,
    {
        self.api_key = Some(api_key.to_owned());
    }

    /// A reference to the node of the database at `path`.
    pub fn reference(&self, path: &str) -> (r: RealtimeReference)
        ensures
            r.client.host@ == self.host@,
            r.client.port == self.port,
            r.client.api_key == self.api_key,
            r.path@ == path@,
    {
        RealtimeReference::new(self, path)
    }

    fn auth_query(&self) -> (q: Option<String>)
        ensures
            opt_str_view(q) == auth_query_view(self.api_key),
    {
        match &self.api_key {
            Some(k) => Some("?auth=".to_owned().concat(k.as_str())),
            None => None,
        }
    }

    fn write_query(&self) -> (q: String)
        ensures
            q@ == write_query_view(self.api_key),
    {
        match &self.api_key {
            Some(k) => "?print=silent&auth=".to_owned().concat(k.as_str()),
            None => "?print=silent".to_owned(),
        }
    }
}

/// A reference to one node of a realtime database.
pub struct RealtimeReference {
    pub client: FirebaseClient,
    pub path: String,
}

impl RealtimeReference {
    /// A reference for the given client at the given path.
    pub fn new(client: &FirebaseClient, path: &str) -> (r: RealtimeReference)
        ensures
            r.client.host@ == client.host@,
            r.client.port == client.port,
            r.client.api_key == client.api_key,
            r.path@ == path@,
    {
        RealtimeReference { client: clone_client(client), path: path.to_owned() }
    }

    /// The reference one level below this one, under `path`.
    pub fn child(&self, path: &str) -> (r: RealtimeReference)
        ensures
            r.client.host@ == self.client.host@,
            r.client.port == self.client.port,
            r.client.api_key == self.client.api_key,
            r.path@ == self.path@ + "/"@ + path@,
    {
        let p = self.path.clone().concat("/").concat(path);
        RealtimeReference::new(&self.client, p.as_str())
    }

    /// The plan of the read request for this node's value.
    pub fn get(&self) -> (plan: RequestPlan)
        ensures
            plan.method == Method::Get,
            plan.path@ == self.path@,
            opt_str_view(plan.query) == auth_query_view(self.client.api_key),
            plan.body is None,
    {
        RequestPlan {
            method: Method::Get,
            path: self.path.clone(),
            query: self.client.auth_query(),
            body: None,
        }
    }

    /// The plan of the write request that sets this node to the serialized
    /// value `data`.
    pub fn set(&self, data: String) -> (plan: RequestPlan)
        ensures
            plan.method == Method::Put,
            plan.path@ == self.path@,
            plan.query matches Some(q) && q@ == write_query_view(self.client.api_key),
            plan.body == Some(data),
    {
        RequestPlan {
            method: Method::Put,
            path: self.path.clone(),
            query: Some(self.client.write_query()),
            body: Some(data),
        }
    }

    /// The plan of the write request that stores `data` under a fresh unique
    /// child of this node.
    pub fn set_unique(&self, data: String) -> (plan: RequestPlan)
        ensures
            plan.method == Method::Post,
            plan.path@ == self.path@,
            plan.query matches Some(q) && q@ == write_query_view(self.client.api_key),
            plan.body == Some(data),
    {
        RequestPlan {
            method: Method::Post,
            path: self.path.clone(),
            query: Some(self.client.write_query()),
            body: Some(data),
        }
    }

    /// The plan of the write request that merges the serialized mapping
    /// `data` into this node.
    pub fn update(&self, data: String) -> (plan: RequestPlan)
        ensures
            plan.method == Method::Patch,
            plan.path@ == self.path@,
            plan.query matches Some(q) && q@ == write_query_view(self.client.api_key),
            plan.body == Some(data),
    {
        RequestPlan {
            method: Method::Patch,
            path: self.path.clone(),
            query: Some(self.client.write_query()),
            body: Some(data),
        }
    }

    /// The plan of the request that deletes this node.
    pub fn delete(&self) -> (plan: RequestPlan)
        ensures
            plan.method == Method::Delete,
            plan.path@ == self.path@,
            plan.query matches Some(q) && q@ == write_query_view(self.client.api_key),
            plan.body is None,
    {
        RequestPlan {
            method: Method::Delete,
            path: self.path.clone(),
            query: Some(self.client.write_query()),
            body: None,
        }
    }

    /// Recursive-merge of `b` into the value at `a` (the Patch semantics
    /// applied at a node). Preserves well-formedness.
    pub fn merge_value(a: &mut TreeValue, b: &TreeValue)
        ensures
            final(a)@ == smerge(old(a)@, b@),
            swf(old(a)@) && swf(b@) ==> swf(final(a)@),
    {
        let merged = merge_trees(a, b);
        proof {
            if swf(a@) && swf(b@) {
                lemma_smerge_wf(a@, b@);
            }
        }
        *a = merged;
    }
}

/// Whether a write request succeeded: the transport's status code must be 204.
pub fn check_write_status(code: u16, message: &str) -> (r: Result<(), FirebaseError>)
    ensures
        (r is Ok) == (code == 204),
        r matches Err(e) ==> e@ == message@,
{
    if code == 204 {
        Ok(())
    } else {
        Err(FirebaseError::new(message))
    }
}

/// Whether a read or streaming request succeeded: the status code must be 200.
pub fn check_get_status(code: u16, message: &str) -> (r: Result<(), FirebaseError>)
    ensures
        (r is Ok) == (code == 200),
        r matches Err(e) ==> e@ == message@,
{
    if code == 200 {
        Ok(())
    } else {
        Err(FirebaseError::new(message))
    }
}

} // verus!
