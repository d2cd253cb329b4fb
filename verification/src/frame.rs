//! The frame parser: decodes one raw text block from the push stream into a
//! discrete change frame (an event-kind line followed by a data line whose
//! JSON payload carries a pointer and a value).

use vstd::prelude::*;
use crate::json::decode_json;
use crate::json::json_decoded;
use crate::tree::clone_tree;
use crate::tree::obj_lookup;
use crate::tree::olookup;
use crate::tree::lemma_olookup_some;
use crate::tree::model_entries;
use crate::tree::pview;
use crate::tree::swf;
use crate::tree::STree;
use crate::tree::TreeValue;

verus! {

/// The kind of one change frame.
#[derive(PartialEq, Eq, Structural, Clone, Copy, Debug)]
pub enum FrameKind {
    Put,
    Patch,
    KeepAlive,
    Cancel,
    AuthRevoked,
}

/// A recoverable fault while applying the stream: an undecodable block, or a
/// frame whose pointer does not resolve in the snapshot.
#[derive(PartialEq, Eq, Structural, Clone, Copy, Debug)]
pub enum SyncFault {
    MalformedFrame,
    PathNotFound,
}

/// One parsed unit from the stream: a mutation (Put replaces, Patch merges) at
/// a pointer, or a control signal without a payload.
#[derive(Debug, PartialEq, Eq)]
pub enum ChangeFrame {
    Update { kind: FrameKind, path: Vec<Vec<u8>>, value: TreeValue },
    Control(FrameKind),
}

/// Model of a change frame.
pub ghost enum SFrame {
    Update { kind: FrameKind, path: Seq<Seq<u8>>, value: STree },
    Control(FrameKind),
}

impl View for ChangeFrame {
    type V = SFrame;

    open spec fn view(&self) -> SFrame {
        match self {
            ChangeFrame::Update { kind, path, value } => SFrame::Update {
                kind: *kind,
                path: pview(path@),
                value: value@,
            },
            ChangeFrame::Control(k) => SFrame::Control(*k),
        }
    }
}

/// A frame's payload tree is well-formed.
pub open spec fn frame_wf(f: SFrame) -> bool {
    match f {
        SFrame::Update { kind, path, value } => swf(value) && (kind is Put || kind is Patch),
        SFrame::Control(k) => !(k is Put) && !(k is Patch),
    }
}

/// "event: "
pub open spec fn tok_event() -> Seq<u8> {
    seq![101u8, 118u8, 101u8, 110u8, 116u8, 58u8, 32u8]
}

/// "data: "
pub open spec fn tok_data() -> Seq<u8> {
    seq![100u8, 97u8, 116u8, 97u8, 58u8, 32u8]
}

/// "Put"
pub open spec fn tok_put() -> Seq<u8> {
    seq![80u8, 117u8, 116u8]
}

/// "Patch"
pub open spec fn tok_patch() -> Seq<u8> {
    seq![80u8, 97u8, 116u8, 99u8, 104u8]
}

/// "keep-alive"
pub open spec fn tok_keep_alive() -> Seq<u8> {
    seq![107u8, 101u8, 101u8, 112u8, 45u8, 97u8, 108u8, 105u8, 118u8, 101u8]
}

/// "cancel"
pub open spec fn tok_cancel() -> Seq<u8> {
    seq![99u8, 97u8, 110u8, 99u8, 101u8, 108u8]
}

/// "auth_revoked"
pub open spec fn tok_auth_revoked() -> Seq<u8> {
    seq![97u8, 117u8, 116u8, 104u8, 95u8, 114u8, 101u8, 118u8, 111u8, 107u8, 101u8, 100u8]
}

/// "path"
pub open spec fn key_path() -> Seq<u8> {
    seq![112u8, 97u8, 116u8, 104u8]
}

/// "data"
pub open spec fn key_data() -> Seq<u8> {
    seq![100u8, 97u8, 116u8, 97u8]
}

/// Index of the first occurrence of `b` in `s`, or `s.len()` when absent.
pub open spec fn find_byte(s: Seq<u8>, b: u8) -> int
    decreases s.len(),
{
    if s.len() == 0 {
        0
    } else if s[0] == b {
        0
    } else {
        1 + find_byte(s.drop_first(), b)
    }
}

pub proof fn lemma_find_byte(s: Seq<u8>, b: u8)
    ensures
        0 <= find_byte(s, b) <= s.len(),
        find_byte(s, b) < s.len() ==> s[find_byte(s, b)] == b,
        forall|j: int| 0 <= j < find_byte(s, b) ==> s[j] != b,
    decreases s.len(),
{
    if s.len() > 0 && s[0] != b {
        lemma_find_byte(s.drop_first(), b);
        assert(forall|j: int| 1 <= j < s.len() ==> s[j] == s.drop_first()[j - 1]);
    }
}

pub proof fn lemma_find_byte_at(s: Seq<u8>, b: u8, i: int)
    requires
        0 <= i <= s.len(),
        forall|j: int| 0 <= j < i ==> s[j] != b,
        i < s.len() ==> s[i] == b,
    ensures
        find_byte(s, b) == i,
    decreases s.len(),
{
    if s.len() > 0 && i > 0 {
        assert(forall|j: int| 0 <= j < i - 1 ==> s.drop_first()[j] == s[j + 1]);
        assert(i - 1 < s.drop_first().len() ==> s.drop_first()[i - 1] == s[i]);
        lemma_find_byte_at(s.drop_first(), b, i - 1);
    }
}

/// The path segments between `/` separators.
pub open spec fn split_segs(s: Seq<u8>) -> Seq<Seq<u8>>
    decreases s.len(),
    via split_segs_decreases_proof
{
    if s.len() == 0 {
        Seq::empty()
    } else {
        let i = find_byte(s, 47u8);
        if i < s.len() {
            seq![s.take(i)] + split_segs(s.skip(i + 1))
        } else {
            seq![s]
        }
    }
}

#[via_fn]
proof fn split_segs_decreases_proof(s: Seq<u8>) {
    lemma_find_byte(s, 47u8);
}

/// A pointer is empty (the root) or starts with `/`; the segments follow.
pub open spec fn parse_pointer_spec(p: Seq<u8>) -> Option<Seq<Seq<u8>>> {
    if p.len() == 0 {
        Some(Seq::empty())
    } else if p[0] == 47u8 {
        Some(split_segs(p.drop_first()))
    } else {
        None
    }
}

pub open spec fn parse_kind_spec(s: Seq<u8>) -> Option<FrameKind> {
    if s == tok_put() {
        Some(FrameKind::Put)
    } else if s == tok_patch() {
        Some(FrameKind::Patch)
    } else if s == tok_keep_alive() {
        Some(FrameKind::KeepAlive)
    } else if s == tok_cancel() {
        Some(FrameKind::Cancel)
    } else if s == tok_auth_revoked() {
        Some(FrameKind::AuthRevoked)
    } else {
        None
    }
}

/// The payload of a Put/Patch frame: a JSON object with a string pointer
/// under "path" and the carried tree under "data".
pub open spec fn parse_payload_spec(json: Seq<u8>) -> Option<(Seq<Seq<u8>>, STree)> {
    match json_decoded(json) {
        Some(m) => match obj_lookup(m, key_path()) {
            Some(STree::Str(p)) => match parse_pointer_spec(p) {
                Some(segs) => match obj_lookup(m, key_data()) {
                    Some(d) => Some((segs, d)),
                    None => None,
                },
                None => None,
            },
            _ => None,
        },
        None => None,
    }
}

/// What a raw block parses to: an event-kind line `event: <kind>`, then for
/// Put/Patch a data line `data: <json>`; anything else is malformed.
pub open spec fn parse_frame_spec(block: Seq<u8>) -> Option<SFrame> {
    let i = find_byte(block, 10u8);
    if i >= block.len() {
        None
    } else {
        let line1 = block.take(i);
        let rest = block.skip(i + 1);
        if !(line1.len() >= 7 && line1.take(7) == tok_event()) {
            None
        } else {
            match parse_kind_spec(line1.skip(7)) {
                None => None,
                Some(k) => if k is Put || k is Patch {
                    if rest.len() >= 6 && rest.take(6) == tok_data() {
                        match parse_payload_spec(rest.skip(6)) {
                            Some(pd) => Some(
                                SFrame::Update { kind: k, path: pd.0, value: pd.1 },
                            ),
                            None => None,
                        }
                    } else {
                        None
                    }
                } else {
                    Some(SFrame::Control(k))
                },
            }
        }
    }
}

fn tok_event_vec() -> (r: Vec<u8>)
    ensures
        r@ == tok_event(),
{
    let mut v: Vec<u8> = Vec::new();
    v.push(101);
    v.push(118);
    v.push(101);
    v.push(110);
    v.push(116);
    v.push(58);
    v.push(32);
    proof {
        assert(v@ =~= tok_event());
    }
    v
}

fn tok_data_vec() -> (r: Vec<u8>)
    ensures
        r@ == tok_data(),
{
    let mut v: Vec<u8> = Vec::new();
    v.push(100);
    v.push(97);
    v.push(116);
    v.push(97);
    v.push(58);
    v.push(32);
    proof {
        assert(v@ =~= tok_data());
    }
    v
}

fn tok_put_vec() -> (r: Vec<u8>)
    ensures
        r@ == tok_put(),
{
    let mut v: Vec<u8> = Vec::new();
    v.push(80);
    v.push(117);
    v.push(116);
    proof {
        assert(v@ =~= tok_put());
    }
    v
}

fn tok_patch_vec() -> (r: Vec<u8>)
    ensures
        r@ == tok_patch(),
{
    let mut v: Vec<u8> = Vec::new();
    v.push(80);
    v.push(97);
    v.push(116);
    v.push(99);
    v.push(104);
    proof {
        assert(v@ =~= tok_patch());
    }
    v
}

fn tok_keep_alive_vec() -> (r: Vec<u8>)
    ensures
        r@ == tok_keep_alive(),
{
    let mut v: Vec<u8> = Vec::new();
    v.push(107);
    v.push(101);
    v.push(101);
    v.push(112);
    v.push(45);
    v.push(97);
    v.push(108);
    v.push(105);
    v.push(118);
    v.push(101);
    proof {
        assert(v@ =~= tok_keep_alive());
    }
    v
}

fn tok_cancel_vec() -> (r: Vec<u8>)
    ensures
        r@ == tok_cancel(),
{
    let mut v: Vec<u8> = Vec::new();
    v.push(99);
    v.push(97);
    v.push(110);
    v.push(99);
    v.push(101);
    v.push(108);
    proof {
        assert(v@ =~= tok_cancel());
    }
    v
}

fn tok_auth_revoked_vec() -> (r: Vec<u8>)
    ensures
        r@ == tok_auth_revoked(),
{
    let mut v: Vec<u8> = Vec::new();
    v.push(97);
    v.push(117);
    v.push(116);
    v.push(104);
    v.push(95);
    v.push(114);
    v.push(101);
    v.push(118);
    v.push(111);
    v.push(107);
    v.push(101);
    v.push(100);
    proof {
        assert(v@ =~= tok_auth_revoked());
    }
    v
}

fn key_path_vec() -> (r: Vec<u8>)
    ensures
        r@ == key_path(),
{
    let mut v: Vec<u8> = Vec::new();
    v.push(112);
    v.push(97);
    v.push(116);
    v.push(104);
    proof {
        assert(v@ =~= key_path());
    }
    v
}

pub(crate) fn key_data_vec() -> (r: Vec<u8>)
    ensures
        r@ == key_data(),
{
    let mut v: Vec<u8> = Vec::new();
    v.push(100);
    v.push(97);
    v.push(116);
    v.push(97);
    proof {
        assert(v@ =~= key_data());
    }
    v
}

/// The bytes of `s` between `from` and `to`, as a fresh vector.
#[verifier::loop_isolation(false)]
fn copy_range(s: &Vec<u8>, from: usize, to: usize) -> (r: Vec<u8>)
    requires
        from <= to <= s@.len(),
    ensures
        r@ == s@.subrange(from as int, to as int),
{
    let mut r: Vec<u8> = Vec::new();
    let mut i: usize = from;
    while i < to
        invariant
            from <= i <= to,
            r@ == s@.subrange(from as int, i as int),
        decreases to - i,
    {
        r.push(s[i]);
        proof {
            assert(s@.subrange(from as int, i + 1) =~= s@.subrange(from as int, i as int).push(
                s@[i as int],
            ));
        }
        i += 1;
    }
    r
}

/// Whether `p` occurs in `s` at offset `off`.
#[verifier::loop_isolation(false)]
pub(crate) fn has_prefix_at(s: &Vec<u8>, off: usize, p: &Vec<u8>) -> (r: bool)
    requires
        off <= s@.len(),
    ensures
        r == (off + p@.len() <= s@.len() && s@.subrange(off as int, off + p@.len()) == p@),
{
    if p.len() > s.len() - off {
        return false;
    }
    let mut j: usize = 0;
    while j < p.len()
        invariant
            j <= p@.len(),
            off + p@.len() <= s@.len(),
            forall|l: int| 0 <= l < j ==> s@[off + l] == p@[l],
        decreases p@.len() - j,
    {
        if s[off + j] != p[j] {
            proof {
                assert(s@.subrange(off as int, off + p@.len())[j as int] == s@[off + j]);
            }
            return false;
        }
        j += 1;
    }
    proof {
        assert(s@.subrange(off as int, off + p@.len()) =~= p@);
    }
    true
}

/// Index of the first newline in the block, or its length.
#[verifier::loop_isolation(false)]
fn find_nl(s: &Vec<u8>) -> (j: usize)
    ensures
        j == find_byte(s@, 10u8),
        j <= s@.len(),
{
    let mut j: usize = 0;
    while j < s.len() && s[j] != 10u8
        invariant
            j <= s@.len(),
            forall|l: int| 0 <= l < j ==> s@[l] != 10u8,
        decreases s@.len() - j,
    {
        j += 1;
    }
    proof {
        lemma_find_byte_at(s@, 10u8, j as int);
    }
    j
}

/// Index of the first `/` at or after `start`, or the length.
#[verifier::loop_isolation(false)]
fn next_slash(p: &Vec<u8>, start: usize) -> (j: usize)
    requires
        start <= p@.len(),
    ensures
        start <= j <= p@.len(),
        j - start == find_byte(p@.skip(start as int), 47u8),
{
    let mut j: usize = start;
    while j < p.len() && p[j] != 47u8
        invariant
            start <= j <= p@.len(),
            forall|l: int| start <= l < j ==> p@[l] != 47u8,
        decreases p@.len() - j,
    {
        j += 1;
    }
    proof {
        let sub = p@.skip(start as int);
        assert(forall|l: int| 0 <= l < sub.len() ==> sub[l] == p@[l + start]);
        lemma_find_byte_at(sub, 47u8, j - start);
    }
    j
}

#[verifier::loop_isolation(false)]
fn split_segs_exec(p: &Vec<u8>, start: usize) -> (r: Vec<Vec<u8>>)
    requires
        start <= p@.len(),
    ensures
        pview(r@) == split_segs(p@.skip(start as int)),
    decreases p@.len() - start,
{
    let ghost s = p@.skip(start as int);
    if start == p.len() {
        let r: Vec<Vec<u8>> = Vec::new();
        proof {
            assert(s =~= Seq::<u8>::empty());
            assert(pview(r@) =~= Seq::<Seq<u8>>::empty());
        }
        r
    } else {
        let j = next_slash(p, start);
        let seg = copy_range(p, start, j);
        let ghost i = j - start;
        proof {
            assert(s.take(i) =~= p@.subrange(start as int, j as int));
        }
        if j < p.len() {
            let mut rest = split_segs_exec(p, j + 1);
            let ghost rest0 = rest@;
            proof {
                assert(s.skip(i + 1) =~= p@.skip(j + 1));
            }
            rest.insert(0, seg);
            proof {
                assert(rest@ == rest0.insert(0, seg));
                let lhs = pview(rest@);
                let rhs = seq![s.take(i)] + split_segs(s.skip(i + 1));
                assert(rest@.len() == rest0.len() + 1);
                assert forall|l: int| 0 <= l < lhs.len() implies lhs[l] == rhs[l] by {
                    if l == 0 {
                        assert(rest@[0] == seg);
                    } else {
                        assert(rest@[l] == rest0[l - 1]);
                        assert(pview(rest0)[l - 1] == rest0[l - 1]@);
                    }
                }
                assert(lhs =~= rhs);
            }
            rest
        } else {
            let mut r: Vec<Vec<u8>> = Vec::new();
            r.push(seg);
            proof {
                assert(seg@ =~= s);
                assert(pview(r@) =~= seq![s]);
            }
            r
        }
    }
}

/// Parse a pointer: empty text is the root; otherwise a leading `/` followed
/// by slash-delimited segments; anything else does not name a node.
pub fn parse_pointer(p: &Vec<u8>) -> (r: Option<Vec<Vec<u8>>>)
    ensures
        r matches Some(segs) ==> parse_pointer_spec(p@) == Some(pview(segs@)),
        (r is None) == (parse_pointer_spec(p@) is None),
{
    if p.len() == 0 {
        let segs: Vec<Vec<u8>> = Vec::new();
        proof {
            assert(pview(segs@) =~= Seq::<Seq<u8>>::empty());
        }
        Some(segs)
    } else if p[0] == 47u8 {
        let segs = split_segs_exec(p, 1);
        proof {
            assert(p@.skip(1) =~= p@.drop_first());
        }
        Some(segs)
    } else {
        None
    }
}

fn parse_kind(kb: &Vec<u8>) -> (r: Option<FrameKind>)
    ensures
        r == parse_kind_spec(kb@),
{
    if crate::tree::bytes_eq(kb, &tok_put_vec()) {
        Some(FrameKind::Put)
    } else if crate::tree::bytes_eq(kb, &tok_patch_vec()) {
        Some(FrameKind::Patch)
    } else if crate::tree::bytes_eq(kb, &tok_keep_alive_vec()) {
        Some(FrameKind::KeepAlive)
    } else if crate::tree::bytes_eq(kb, &tok_cancel_vec()) {
        Some(FrameKind::Cancel)
    } else if crate::tree::bytes_eq(kb, &tok_auth_revoked_vec()) {
        Some(FrameKind::AuthRevoked)
    } else {
        None
    }
}

/// Decode one raw block into a change frame, or fail with `MalformedFrame`
/// exactly when the block does not parse.
pub fn parse_frame(block: &Vec<u8>) -> (r: Result<ChangeFrame, SyncFault>)
    ensures
        r matches Ok(f) ==> parse_frame_spec(block@) == Some(f@) && frame_wf(f@),
        (r is Err) == (parse_frame_spec(block@) is None),
        r matches Err(e) ==> e == SyncFault::MalformedFrame,
{
    let i = find_nl(block);
    if i >= block.len() {
        return Err(SyncFault::MalformedFrame);
    }
    let ghost line1 = block@.take(i as int);
    let ghost rest = block@.skip(i as int + 1);
    let ev = tok_event_vec();
    if i < 7 || !has_prefix_at(block, 0, &ev) {
        proof {
            if i >= 7 {
                assert(line1.take(7) =~= block@.subrange(0, 7));
            }
        }
        return Err(SyncFault::MalformedFrame);
    }
    proof {
        assert(line1.take(7) =~= block@.subrange(0, 7));
    }
    let kb = copy_range(block, 7, i);
    proof {
        assert(kb@ =~= line1.skip(7));
    }
    match parse_kind(&kb) {
        None => Err(SyncFault::MalformedFrame),
        Some(k) => match k {
            FrameKind::Put | FrameKind::Patch => {
                let dv = tok_data_vec();
                if block.len() - i - 1 < 6 || !has_prefix_at(block, i + 1, &dv) {
                    proof {
                        if rest.len() >= 6 {
                            assert(rest.take(6) =~= block@.subrange(i as int + 1, i as int + 7));
                        }
                    }
                    return Err(SyncFault::MalformedFrame);
                }
                proof {
                    assert(rest.take(6) =~= block@.subrange(i as int + 1, i as int + 7));
                }
                let json = copy_range(block, i + 7, block.len());
                proof {
                    assert(json@ =~= rest.skip(6));
                }
                match decode_json(json.as_slice()) {
                    None => Err(SyncFault::MalformedFrame),
                    Some(tv) => match &tv {
                        TreeValue::Obj(es) => {
                            let ghost m = model_entries(es@);
                            let kp = key_path_vec();
                            match crate::tree::obj_get(es, &kp) {
                                None => Err(SyncFault::MalformedFrame),
                                Some(pv_val) => match pv_val {
                                    TreeValue::Str(pb) => match parse_pointer(pb) {
                                        None => Err(SyncFault::MalformedFrame),
                                        Some(segs) => {
                                            let kd = key_data_vec();
                                            match crate::tree::obj_get(es, &kd) {
                                                None => Err(SyncFault::MalformedFrame),
                                                Some(dv_val) => {
                                                    let value = clone_tree(dv_val);
                                                    proof {
                                                        lemma_olookup_some(m, key_data());
                                                        let wit = choose|w: int|
                                                            0 <= w < m.len() && (#[trigger] m[w]).0
                                                                == key_data() && m[w].1 == olookup(
                                                                m,
                                                                key_data(),
                                                            )->Some_0;
                                                        assert(swf(m[wit].1));
                                                    }
                                                    Ok(
                                                        ChangeFrame::Update {
                                                            kind: k,
                                                            path: segs,
                                                            value,
                                                        },
                                                    )
                                                },
                                            }
                                        },
                                    },
                                    _ => Err(SyncFault::MalformedFrame),
                                },
                            }
                        },
                        _ => Err(SyncFault::MalformedFrame),
                    },
                }
            },
            _ => Ok(ChangeFrame::Control(k)),
        },
    }
}

} // verus!
