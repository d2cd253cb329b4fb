//! The tree value: a recursive, dynamically typed document value, together
//! with its mathematical model and the two snapshot mutations, whole-subtree
//! replacement and recursive merge with null-tombstone deletes.

use vstd::prelude::*;

verus! {

/// Mathematical model of a tree value. Object entries are modelled as an
/// association sequence of key/value pairs; a well-formed object holds each
/// key at most once, and the order of entries carries no meaning.
#[verifier::ext_equal]
pub ghost enum STree {
    Null,
    Bool(bool),
    Num(Seq<u8>),
    Str(Seq<u8>),
    Arr(Seq<STree>),
    Obj(Seq<(Seq<u8>, STree)>),
}

/// A document value: null, boolean, number (decimal text), string (UTF-8
/// bytes), ordered sequence, or mapping from string key to value.
#[derive(Debug, PartialEq, Eq)]
pub enum TreeValue {
    Null,
    Bool(bool),
    Num(Vec<u8>),
    Str(Vec<u8>),
    Arr(Vec<TreeValue>),
    Obj(Vec<(Vec<u8>, TreeValue)>),
}

pub open spec fn model_seq(s: Seq<TreeValue>) -> Seq<STree>
    decreases s,
{
    if s.len() == 0 {
        Seq::empty()
    } else {
        seq![s[0].model()] + model_seq(s.drop_first())
    }
}

pub open spec fn model_entries(s: Seq<(Vec<u8>, TreeValue)>) -> Seq<(Seq<u8>, STree)>
    decreases s,
{
    if s.len() == 0 {
        Seq::empty()
    } else {
        seq![(s[0].0@, s[0].1.model())] + model_entries(s.drop_first())
    }
}

impl TreeValue {
    pub open spec fn model(self) -> STree
        decreases self,
        via Self::model_decreases_proof
    {
        match self {
            TreeValue::Null => STree::Null,
            TreeValue::Bool(b) => STree::Bool(b),
            TreeValue::Num(n) => STree::Num(n@),
            TreeValue::Str(s) => STree::Str(s@),
            TreeValue::Arr(v) => STree::Arr(model_seq(v@)),
            TreeValue::Obj(es) => STree::Obj(model_entries(es@)),
        }
    }

    #[via_fn]
    proof fn model_decreases_proof(self) {
        match self {
            TreeValue::Arr(v) => {
                assert(decreases_to!(self => v));
                assert(decreases_to!(v => v@));
            },
            TreeValue::Obj(es) => {
                assert(decreases_to!(self => es));
                assert(decreases_to!(es => es@));
            },
            _ => {},
        }
    }
}

impl View for TreeValue {
    type V = STree;

    open spec fn view(&self) -> STree {
        self.model()
    }
}

pub proof fn lemma_model_seq_index(s: Seq<TreeValue>)
    ensures
        model_seq(s).len() == s.len(),
        forall|i: int| 0 <= i < s.len() ==> model_seq(s)[i] == #[trigger] s[i]@,
    decreases s,
{
    if s.len() > 0 {
        lemma_model_seq_index(s.drop_first());
        assert forall|i: int| 0 <= i < s.len() implies model_seq(s)[i] == #[trigger] s[i]@ by {
            if i > 0 {
                assert(model_seq(s)[i] == model_seq(s.drop_first())[i - 1]);
                assert(s.drop_first()[i - 1] == s[i]);
            }
        }
    }
}

pub proof fn lemma_model_entries_index(s: Seq<(Vec<u8>, TreeValue)>)
    ensures
        model_entries(s).len() == s.len(),
        forall|i: int|
            0 <= i < s.len() ==> model_entries(s)[i] == (#[trigger] s[i].0@, s[i].1@),
    decreases s,
{
    if s.len() > 0 {
        lemma_model_entries_index(s.drop_first());
        assert forall|i: int|
            0 <= i < s.len() implies model_entries(s)[i] == (#[trigger] s[i].0@, s[i].1@) by {
            if i > 0 {
                assert(model_entries(s)[i] == model_entries(s.drop_first())[i - 1]);
                assert(s.drop_first()[i - 1] == s[i]);
            }
        }
    }
}

/// The entries of an object hold each key at most once.
pub open spec fn kwf(es: Seq<(Seq<u8>, STree)>) -> bool {
    forall|i: int, j: int| 0 <= i < j < es.len() ==> es[i].0 != es[j].0
}

/// Well-formedness: every object in the tree holds each key at most once.
pub open spec fn swf(t: STree) -> bool
    decreases t,
{
    match t {
        STree::Arr(s) => forall|i: int| 0 <= i < s.len() ==> swf(#[trigger] s[i]),
        STree::Obj(es) => kwf(es) && forall|i: int|
            0 <= i < es.len() ==> swf(#[trigger] es[i].1),
        _ => true,
    }
}

/// First value bound to key `k`, if any.
pub open spec fn olookup(es: Seq<(Seq<u8>, STree)>, k: Seq<u8>) -> Option<STree>
    decreases es.len(),
{
    if es.len() == 0 {
        None
    } else if es[0].0 == k {
        Some(es[0].1)
    } else {
        olookup(es.drop_first(), k)
    }
}

/// Entries with every binding of key `k` removed.
pub open spec fn oremove(es: Seq<(Seq<u8>, STree)>, k: Seq<u8>) -> Seq<(Seq<u8>, STree)>
    decreases es.len(),
{
    if es.len() == 0 {
        es
    } else if es[0].0 == k {
        oremove(es.drop_first(), k)
    } else {
        seq![es[0]] + oremove(es.drop_first(), k)
    }
}

/// Entries with the first binding of key `k` replaced by `v` (unchanged when
/// the key is absent).
pub open spec fn oset(es: Seq<(Seq<u8>, STree)>, k: Seq<u8>, v: STree) -> Seq<(Seq<u8>, STree)>
    decreases es.len(),
{
    if es.len() == 0 {
        es
    } else if es[0].0 == k {
        seq![(es[0].0, v)] + es.drop_first()
    } else {
        seq![es[0]] + oset(es.drop_first(), k, v)
    }
}

pub open spec fn or_null(o: Option<STree>) -> STree {
    match o {
        Some(t) => t,
        None => STree::Null,
    }
}

/// One merge step: apply one entry of the patch object to the accumulated
/// entries. A null value deletes the key (tombstone); otherwise the value is
/// merged into the existing binding, or inserted fresh when the key is absent.
pub open spec fn ostep(acc: Seq<(Seq<u8>, STree)>, e: (Seq<u8>, STree)) -> Seq<(Seq<u8>, STree)>
    decreases e,
{
    if e.1 is Null {
        oremove(acc, e.0)
    } else {
        match olookup(acc, e.0) {
            Some(prev) => oset(acc, e.0, smerge(prev, e.1)),
            None => acc.push(e),
        }
    }
}

pub open spec fn smerge_entries(
    acc: Seq<(Seq<u8>, STree)>,
    be: Seq<(Seq<u8>, STree)>,
) -> Seq<(Seq<u8>, STree)>
    decreases be,
{
    if be.len() == 0 {
        acc
    } else {
        smerge_entries(ostep(acc, be[0]), be.drop_first())
    }
}

/// Recursive merge: when both sides are mappings, merge key-wise with null
/// tombstone deletes; otherwise the result is the right-hand side.
pub open spec fn smerge(a: STree, b: STree) -> STree
    decreases b,
{
    match b {
        STree::Obj(be) => match a {
            STree::Obj(ae) => STree::Obj(smerge_entries(ae, be)),
            _ => b,
        },
        _ => b,
    }
}

/// Lookup inside a mapping tree; `None` on any other kind of tree.
pub open spec fn obj_lookup(t: STree, k: Seq<u8>) -> Option<STree> {
    match t {
        STree::Obj(es) => olookup(es, k),
        _ => None,
    }
}

pub proof fn lemma_olookup_none(es: Seq<(Seq<u8>, STree)>, k: Seq<u8>)
    ensures
        (olookup(es, k) is None) <==> (forall|i: int| 0 <= i < es.len() ==> (#[trigger] es[i]).0
            != k),
    decreases es.len(),
{
    if es.len() > 0 {
        lemma_olookup_none(es.drop_first(), k);
        assert(forall|i: int|
            1 <= i < es.len() ==> #[trigger] es[i] == es.drop_first()[i - 1]);
    }
}

pub proof fn lemma_olookup_some(es: Seq<(Seq<u8>, STree)>, k: Seq<u8>)
    requires
        olookup(es, k) is Some,
    ensures
        exists|i: int|
            0 <= i < es.len() && (#[trigger] es[i]).0 == k && es[i].1 == olookup(es, k)->Some_0,
    decreases es.len(),
{
    if es.len() > 0 && es[0].0 != k {
        lemma_olookup_some(es.drop_first(), k);
        let i = choose|i: int|
            0 <= i < es.drop_first().len() && (#[trigger] es.drop_first()[i]).0 == k
                && es.drop_first()[i].1 == olookup(es.drop_first(), k)->Some_0;
        assert(es[i + 1] == es.drop_first()[i]);
    }
}

pub proof fn lemma_olookup_first(es: Seq<(Seq<u8>, STree)>, k: Seq<u8>, j: int)
    requires
        0 <= j < es.len(),
        es[j].0 == k,
        forall|l: int| 0 <= l < j ==> (#[trigger] es[l]).0 != k,
    ensures
        olookup(es, k) == Some(es[j].1),
    decreases j,
{
    if j > 0 {
        lemma_olookup_first(es.drop_first(), k, j - 1);
        assert(forall|l: int|
            0 <= l < j - 1 ==> es.drop_first()[l] == #[trigger] es[l + 1]);
        assert(es.drop_first()[j - 1] == es[j]);
    }
}

pub proof fn lemma_olookup_push(es: Seq<(Seq<u8>, STree)>, e: (Seq<u8>, STree), k: Seq<u8>)
    ensures
        olookup(es.push(e), k) == (if olookup(es, k) is Some {
            olookup(es, k)
        } else if e.0 == k {
            Some(e.1)
        } else {
            None
        }),
    decreases es.len(),
{
    let p = es.push(e);
    if es.len() == 0 {
        assert(p[0] == e);
        assert(p.drop_first() =~= Seq::<(Seq<u8>, STree)>::empty());
        if e.0 == k {
            assert(olookup(p, k) == Some(e.1));
        } else {
            assert(olookup(p, k) == olookup(p.drop_first(), k));
        }
    } else {
        lemma_olookup_push(es.drop_first(), e, k);
        assert(p[0] == es[0]);
        assert(p.drop_first() =~= es.drop_first().push(e));
        if es[0].0 == k {
            assert(olookup(p, k) == Some(es[0].1));
            assert(olookup(es, k) == Some(es[0].1));
        } else {
            assert(olookup(p, k) == olookup(es.drop_first().push(e), k));
            assert(olookup(es, k) == olookup(es.drop_first(), k));
        }
    }
}

pub proof fn lemma_oremove(es: Seq<(Seq<u8>, STree)>, k: Seq<u8>)
    ensures
        olookup(oremove(es, k), k) is None,
        forall|k2: Seq<u8>| k2 != k ==> #[trigger] olookup(oremove(es, k), k2) == olookup(es, k2),
        forall|i: int|
            0 <= i < oremove(es, k).len() ==> es.contains(#[trigger] oremove(es, k)[i]),
        kwf(es) ==> kwf(oremove(es, k)),
        (forall|i: int| 0 <= i < es.len() ==> swf((#[trigger] es[i]).1)) ==> (forall|i: int|
            0 <= i < oremove(es, k).len() ==> swf((#[trigger] oremove(es, k)[i]).1)),
    decreases es.len(),
{
    if es.len() > 0 {
        let rest = es.drop_first();
        lemma_oremove(rest, k);
        assert(forall|i: int| 0 <= i < rest.len() ==> #[trigger] rest[i] == es[i + 1]);
        assert(kwf(es) ==> kwf(rest));
        if es[0].0 == k {
            assert(forall|i: int|
                0 <= i < oremove(es, k).len() ==> es.contains(#[trigger] oremove(es, k)[i]))
                by {
                assert forall|i: int|
                    0 <= i < oremove(es, k).len() implies es.contains(
                    #[trigger] oremove(es, k)[i],
                ) by {
                    assert(rest.contains(oremove(rest, k)[i]));
                    let j = choose|j: int| 0 <= j < rest.len() && rest[j] == oremove(rest, k)[i];
                    assert(es[j + 1] == oremove(es, k)[i]);
                }
            }
        } else {
            let r = oremove(es, k);
            assert(r == seq![es[0]] + oremove(rest, k));
            assert(r[0] == es[0]);
            assert(forall|i: int| 1 <= i < r.len() ==> #[trigger] r[i] == oremove(rest, k)[i - 1]);
            assert forall|i: int| 0 <= i < r.len() implies es.contains(#[trigger] r[i]) by {
                if i == 0 {
                    assert(es[0] == r[0]);
                } else {
                    assert(rest.contains(oremove(rest, k)[i - 1]));
                    let j = choose|j: int|
                        0 <= j < rest.len() && rest[j] == oremove(rest, k)[i - 1];
                    assert(es[j + 1] == r[i]);
                }
            }
            assert(r.drop_first() =~= oremove(rest, k));
            if kwf(es) {
                assert forall|i: int, j: int| 0 <= i < j < r.len() implies r[i].0 != r[j].0 by {
                    if i == 0 {
                        assert(rest.contains(oremove(rest, k)[j - 1]));
                        let l = choose|l: int|
                            0 <= l < rest.len() && rest[l] == oremove(rest, k)[j - 1];
                        assert(es[0].0 != es[l + 1].0);
                    }
                }
            }
        }
    }
}

pub proof fn lemma_oset(es: Seq<(Seq<u8>, STree)>, k: Seq<u8>, v: STree)
    ensures
        oset(es, k, v).len() == es.len(),
        forall|i: int| 0 <= i < es.len() ==> (#[trigger] oset(es, k, v)[i]).0 == es[i].0,
        forall|i: int|
            0 <= i < es.len() ==> ((#[trigger] oset(es, k, v)[i]).1 == es[i].1 || oset(
                es,
                k,
                v,
            )[i].1 == v),
        olookup(es, k) is Some ==> olookup(oset(es, k, v), k) == Some(v),
        olookup(es, k) is None ==> oset(es, k, v) == es,
        forall|k2: Seq<u8>| k2 != k ==> #[trigger] olookup(oset(es, k, v), k2) == olookup(es, k2),
    decreases es.len(),
{
    if es.len() > 0 {
        let rest = es.drop_first();
        lemma_oset(rest, k, v);
        let r = oset(es, k, v);
        if es[0].0 == k {
            assert(r == seq![(es[0].0, v)] + rest);
            assert(r[0] == (es[0].0, v));
            assert(forall|i: int| 1 <= i < r.len() ==> #[trigger] r[i] == rest[i - 1]);
            assert(r.drop_first() =~= rest);
            assert forall|k2: Seq<u8>| k2 != k implies #[trigger] olookup(r, k2) == olookup(
                es,
                k2,
            ) by {
                assert(olookup(r, k2) == olookup(rest, k2));
                assert(olookup(es, k2) == olookup(rest, k2));
            }
        } else {
            assert(r == seq![es[0]] + oset(rest, k, v));
            assert(r[0] == es[0]);
            assert(forall|i: int| 1 <= i < r.len() ==> #[trigger] r[i] == oset(rest, k, v)[i - 1]);
            assert(r.drop_first() =~= oset(rest, k, v));
            if olookup(es, k) is None {
                assert(r =~= es);
            }
            assert forall|k2: Seq<u8>| k2 != k implies #[trigger] olookup(r, k2) == olookup(
                es,
                k2,
            ) by {
                if es[0].0 != k2 {
                    assert(olookup(r, k2) == olookup(oset(rest, k, v), k2));
                    assert(olookup(es, k2) == olookup(rest, k2));
                }
            }
        }
    }
}

pub proof fn lemma_smerge_entries_snoc(
    acc: Seq<(Seq<u8>, STree)>,
    s: Seq<(Seq<u8>, STree)>,
    e: (Seq<u8>, STree),
)
    ensures
        smerge_entries(acc, s.push(e)) == ostep(smerge_entries(acc, s), e),
    decreases s.len(),
{
    if s.len() == 0 {
        assert(s.push(e)[0] == e);
        assert(s.push(e).drop_first() =~= Seq::<(Seq<u8>, STree)>::empty());
        assert(smerge_entries(acc, s.push(e)) == smerge_entries(ostep(acc, e), s.push(
            e,
        ).drop_first()));
        assert(smerge_entries(acc, s) == acc);
    } else {
        assert(s.push(e)[0] == s[0]);
        assert(s.push(e).drop_first() =~= s.drop_first().push(e));
        lemma_smerge_entries_snoc(ostep(acc, s[0]), s.drop_first(), e);
        assert(smerge_entries(acc, s.push(e)) == smerge_entries(ostep(acc, s[0]), s.drop_first().push(
            e,
        )));
        assert(smerge_entries(acc, s) == smerge_entries(ostep(acc, s[0]), s.drop_first()));
    }
}

/// Well-formed object entries: unique keys, well-formed values.
pub open spec fn owf(es: Seq<(Seq<u8>, STree)>) -> bool {
    kwf(es) && forall|i: int| 0 <= i < es.len() ==> swf((#[trigger] es[i]).1)
}

pub proof fn lemma_ostep_wf(acc: Seq<(Seq<u8>, STree)>, e: (Seq<u8>, STree))
    requires
        owf(acc),
        swf(e.1),
    ensures
        owf(ostep(acc, e)),
    decreases e,
{
    if e.1 is Null {
        lemma_oremove(acc, e.0);
    } else {
        match olookup(acc, e.0) {
            Some(prev) => {
                lemma_olookup_some(acc, e.0);
                assert(swf(prev));
                lemma_smerge_wf(prev, e.1);
                lemma_oset(acc, e.0, smerge(prev, e.1));
                let r = ostep(acc, e);
                assert forall|i: int, j: int| 0 <= i < j < r.len() implies r[i].0 != r[j].0 by {
                    assert(r[i].0 == acc[i].0 && r[j].0 == acc[j].0);
                }
            },
            None => {
                lemma_olookup_none(acc, e.0);
                let r = acc.push(e);
                assert forall|i: int, j: int| 0 <= i < j < r.len() implies r[i].0 != r[j].0 by {
                    if j == acc.len() {
                        assert(acc[i].0 != e.0);
                    }
                }
                assert forall|i: int| 0 <= i < r.len() implies swf((#[trigger] r[i]).1) by {
                    if i < acc.len() {
                        assert(swf(acc[i].1));
                    }
                }
            },
        }
    }
}

pub proof fn lemma_smerge_entries_wf(acc: Seq<(Seq<u8>, STree)>, be: Seq<(Seq<u8>, STree)>)
    requires
        owf(acc),
        forall|i: int| 0 <= i < be.len() ==> swf((#[trigger] be[i]).1),
    ensures
        owf(smerge_entries(acc, be)),
    decreases be,
{
    if be.len() > 0 {
        let rest = be.drop_first();
        assert(forall|i: int| 0 <= i < rest.len() ==> #[trigger] rest[i] == be[i + 1]);
        lemma_ostep_wf(acc, be[0]);
        lemma_smerge_entries_wf(ostep(acc, be[0]), rest);
    }
}

/// Merging two well-formed trees yields a well-formed tree.
pub proof fn lemma_smerge_wf(a: STree, b: STree)
    requires
        swf(a),
        swf(b),
    ensures
        swf(smerge(a, b)),
    decreases b,
{
    match b {
        STree::Obj(be) => match a {
            STree::Obj(ae) => {
                lemma_smerge_entries_wf(ae, be);
                assert(swf(STree::Obj(smerge_entries(ae, be))));
            },
            _ => {},
        },
        _ => {},
    }
}

/// What a key resolves to after a key-wise object merge: null patch values
/// delete the key, other patch values merge into the existing binding, keys
/// untouched by the patch keep their old binding.
pub open spec fn merged_lookup(
    acc: Seq<(Seq<u8>, STree)>,
    be: Seq<(Seq<u8>, STree)>,
    k: Seq<u8>,
) -> Option<STree> {
    match olookup(be, k) {
        Some(v) => if v is Null {
            None
        } else {
            Some(smerge(or_null(olookup(acc, k)), v))
        },
        None => olookup(acc, k),
    }
}

pub proof fn lemma_smerge_entries_lookup(acc: Seq<(Seq<u8>, STree)>, be: Seq<(Seq<u8>, STree)>)
    requires
        kwf(be),
    ensures
        forall|k: Seq<u8>| #[trigger] olookup(smerge_entries(acc, be), k) == merged_lookup(
            acc,
            be,
            k,
        ),
    decreases be,
{
    if be.len() > 0 {
        let e = be[0];
        let rest = be.drop_first();
        assert(forall|i: int| 0 <= i < rest.len() ==> #[trigger] rest[i] == be[i + 1]);
        assert(kwf(rest));
        lemma_smerge_entries_lookup(ostep(acc, e), rest);
        assert(forall|i: int| 0 <= i < rest.len() ==> (#[trigger] rest[i]).0 != e.0);
        lemma_olookup_none(rest, e.0);
        assert(olookup(rest, e.0) is None);
        assert forall|k: Seq<u8>| #[trigger] olookup(smerge_entries(acc, be), k) == merged_lookup(
            acc,
            be,
            k,
        ) by {
            assert(smerge_entries(acc, be) == smerge_entries(ostep(acc, e), rest));
            assert(olookup(smerge_entries(ostep(acc, e), rest), k) == merged_lookup(
                ostep(acc, e),
                rest,
                k,
            ));
            if k == e.0 {
                assert(olookup(be, k) == Some(e.1));
                assert(merged_lookup(ostep(acc, e), rest, k) == olookup(ostep(acc, e), k));
                if e.1 is Null {
                    lemma_oremove(acc, e.0);
                    assert(olookup(ostep(acc, e), k) is None);
                } else {
                    match olookup(acc, k) {
                        Some(prev) => {
                            lemma_oset(acc, k, smerge(prev, e.1));
                            assert(olookup(ostep(acc, e), k) == Some(smerge(prev, e.1)));
                        },
                        None => {
                            lemma_olookup_push(acc, e, k);
                            assert(olookup(ostep(acc, e), k) == Some(e.1));
                            assert(smerge(STree::Null, e.1) == e.1);
                        },
                    }
                }
            } else {
                assert(olookup(be, k) == olookup(rest, k));
                if e.1 is Null {
                    lemma_oremove(acc, e.0);
                } else {
                    match olookup(acc, e.0) {
                        Some(prev) => {
                            lemma_oset(acc, e.0, smerge(prev, e.1));
                        },
                        None => {
                            lemma_olookup_push(acc, e, k);
                        },
                    }
                }
                assert(olookup(ostep(acc, e), k) == olookup(acc, k));
            }
        }
    }
}

/// Law: merging two mappings removes exactly the keys of the patch whose
/// value is null; every other key of the patch ends bound to the merge of the
/// base's binding (or null when absent) with the patch's binding; keys the
/// patch does not mention keep their old binding.
pub proof fn lemma_merge_mappings(a: STree, b: STree)
    requires
        a is Obj,
        b is Obj,
        swf(b),
    ensures
        smerge(a, b) is Obj,
        forall|k: Seq<u8>| #[trigger] obj_lookup(b, k) == Some(STree::Null) ==> obj_lookup(
            smerge(a, b),
            k,
        ) is None,
        forall|k: Seq<u8>| (#[trigger] obj_lookup(b, k)) matches Some(v) ==> !(v is Null)
            ==> obj_lookup(smerge(a, b), k) == Some(smerge(or_null(obj_lookup(a, k)), v)),
        forall|k: Seq<u8>| #[trigger] obj_lookup(b, k) is None ==> obj_lookup(smerge(a, b), k)
            == obj_lookup(a, k),
{
    let ae = a->Obj_0;
    let be = b->Obj_0;
    assert(kwf(be));
    lemma_smerge_entries_lookup(ae, be);
    assert(smerge(a, b) == STree::Obj(smerge_entries(ae, be)));
    assert forall|k: Seq<u8>| #[trigger] obj_lookup(smerge(a, b), k) == merged_lookup(
        ae,
        be,
        k,
    ) by {
        assert(olookup(smerge_entries(ae, be), k) == merged_lookup(ae, be, k));
    }
}

/// Law: when either side is not a mapping, the merge is the right-hand side.
pub proof fn lemma_merge_non_mapping(a: STree, b: STree)
    requires
        !(a is Obj) || !(b is Obj),
    ensures
        smerge(a, b) == b,
{
}

pub proof fn lemma_oremove_snoc(s: Seq<(Seq<u8>, STree)>, e: (Seq<u8>, STree), k: Seq<u8>)
    ensures
        oremove(s.push(e), k) == (if e.0 == k {
            oremove(s, k)
        } else {
            oremove(s, k).push(e)
        }),
    decreases s.len(),
{
    let p = s.push(e);
    if s.len() == 0 {
        assert(p[0] == e);
        assert(p.drop_first() =~= Seq::<(Seq<u8>, STree)>::empty());
        assert(s =~= Seq::<(Seq<u8>, STree)>::empty());
        if e.0 != k {
            let l = oremove(p, k);
            assert(l == seq![e] + oremove(p.drop_first(), k));
            assert(oremove(p.drop_first(), k) == p.drop_first());
            assert(l.len() == 1 && l[0] == e);
            let rr = oremove(s, k).push(e);
            assert(oremove(s, k) == s);
            assert(rr.len() == 1 && rr[0] == e);
            assert(l =~= rr);
        }
    } else {
        assert(p[0] == s[0]);
        assert(p.drop_first() =~= s.drop_first().push(e));
        lemma_oremove_snoc(s.drop_first(), e, k);
        if s[0].0 == k {
            assert(oremove(p, k) == oremove(s.drop_first().push(e), k));
            assert(oremove(s, k) == oremove(s.drop_first(), k));
        } else {
            assert(oremove(p, k) == seq![s[0]] + oremove(s.drop_first().push(e), k));
            assert(oremove(s, k) == seq![s[0]] + oremove(s.drop_first(), k));
            if e.0 != k {
                assert(seq![s[0]] + oremove(s.drop_first(), k).push(e) =~= (seq![s[0]] + oremove(
                    s.drop_first(),
                    k,
                )).push(e));
            }
        }
    }
}

pub proof fn lemma_oset_first(es: Seq<(Seq<u8>, STree)>, k: Seq<u8>, v: STree, j: int)
    requires
        0 <= j < es.len(),
        es[j].0 == k,
        forall|l: int| 0 <= l < j ==> (#[trigger] es[l]).0 != k,
    ensures
        oset(es, k, v) == es.update(j, (es[j].0, v)),
    decreases j,
{
    if j == 0 {
        assert(oset(es, k, v) =~= es.update(0, (es[0].0, v)));
    } else {
        let rest = es.drop_first();
        assert(forall|l: int| 0 <= l < rest.len() ==> #[trigger] rest[l] == es[l + 1]);
        lemma_oset_first(rest, k, v, j - 1);
        assert(oset(es, k, v) == seq![es[0]] + oset(rest, k, v));
        assert(seq![es[0]] + rest.update(j - 1, (rest[j - 1].0, v)) =~= es.update(
            j,
            (es[j].0, v),
        ));
    }
}

pub proof fn lemma_model_entries_snoc(s: Seq<(Vec<u8>, TreeValue)>, p: (Vec<u8>, TreeValue))
    ensures
        model_entries(s.push(p)) == model_entries(s).push((p.0@, p.1@)),
{
    lemma_model_entries_index(s.push(p));
    lemma_model_entries_index(s);
    let l = model_entries(s.push(p));
    let rr = model_entries(s).push((p.0@, p.1@));
    assert forall|i: int| 0 <= i < l.len() implies l[i] == rr[i] by {
        if i < s.len() {
            assert(s.push(p)[i] == s[i]);
            assert(l[i] == (s[i].0@, s[i].1@));
        } else {
            assert(s.push(p)[i] == p);
            assert(l[i] == (p.0@, p.1@));
        }
    }
    assert(l =~= rr);
}

pub proof fn lemma_model_entries_update(s: Seq<(Vec<u8>, TreeValue)>, j: int, p: (
    Vec<u8>,
    TreeValue,
))
    requires
        0 <= j < s.len(),
    ensures
        model_entries(s.update(j, p)) == model_entries(s).update(j, (p.0@, p.1@)),
{
    lemma_model_entries_index(s.update(j, p));
    lemma_model_entries_index(s);
    let l = model_entries(s.update(j, p));
    let rr = model_entries(s).update(j, (p.0@, p.1@));
    assert forall|i: int| 0 <= i < l.len() implies l[i] == rr[i] by {
        if i == j {
            assert(s.update(j, p)[i] == p);
            assert(l[i] == (p.0@, p.1@));
        } else {
            assert(s.update(j, p)[i] == s[i]);
            assert(l[i] == (s[i].0@, s[i].1@));
        }
    }
    assert(l =~= rr);
}

pub fn clone_bytes(b: &Vec<u8>) -> (r: Vec<u8>)
    ensures
        r@ == b@,
{
    let mut r: Vec<u8> = Vec::new();
    let mut i: usize = 0;
    while i < b.len()
        invariant
            i <= b.len(),
            r@ == b@.take(i as int),
        decreases b.len() - i,
    {
        r.push(b[i]);
        proof {
            assert(b@.take(i + 1) =~= b@.take(i as int).push(b@[i as int]));
        }
        i += 1;
    }
    proof {
        assert(r@ =~= b@);
    }
    r
}

/// Structural deep copy of a tree value.
#[verifier::loop_isolation(false)]
pub fn clone_tree(t: &TreeValue) -> (r: TreeValue)
    ensures
        r@ == t@,
    decreases t,
{
    match t {
        TreeValue::Null => TreeValue::Null,
        TreeValue::Bool(b) => TreeValue::Bool(*b),
        TreeValue::Num(n) => TreeValue::Num(clone_bytes(n)),
        TreeValue::Str(s) => TreeValue::Str(clone_bytes(s)),
        TreeValue::Arr(v) => {
            let mut out: Vec<TreeValue> = Vec::new();
            let mut i: usize = 0;
            while i < v.len()
                invariant
                    i <= v.len(),
                    out@.len() == i,
                    forall|j: int| 0 <= j < i ==> out@[j]@ == v@[j]@,
                decreases v.len() - i,
            {
                proof {
                    assert(decreases_to!(*t => *v));
                    assert(decreases_to!(*v => v@));
                    assert(decreases_to!(v@ => v@[i as int]));
                }
                out.push(clone_tree(&v[i]));
                i += 1;
            }
            let r = TreeValue::Arr(out);
            proof {
                lemma_model_seq_index(out@);
                lemma_model_seq_index(v@);
                assert forall|j: int| 0 <= j < v@.len() implies model_seq(out@)[j] == model_seq(
                    v@,
                )[j] by {
                    assert(out@[j]@ == v@[j]@);
                }
                assert(model_seq(out@) =~= model_seq(v@));
            }
            r
        },
        TreeValue::Obj(es) => {
            let mut out: Vec<(Vec<u8>, TreeValue)> = Vec::new();
            let mut i: usize = 0;
            while i < es.len()
                invariant
                    i <= es.len(),
                    out@.len() == i,
                    forall|j: int|
                        0 <= j < i ==> out@[j].0@ == es@[j].0@ && out@[j].1@ == es@[j].1@,
                decreases es.len() - i,
            {
                proof {
                    assert(decreases_to!(*t => *es));
                    assert(decreases_to!(*es => es@));
                    assert(decreases_to!(es@ => es@[i as int]));
                    assert(decreases_to!(es@[i as int] => es@[i as int].1));
                }
                let k = clone_bytes(&es[i].0);
                let v = clone_tree(&es[i].1);
                out.push((k, v));
                i += 1;
            }
            let r = TreeValue::Obj(out);
            proof {
                lemma_model_entries_index(out@);
                lemma_model_entries_index(es@);
                assert forall|j: int|
                    0 <= j < es@.len() implies model_entries(out@)[j] == model_entries(
                    es@,
                )[j] by {
                    assert(out@[j].0@ == es@[j].0@ && out@[j].1@ == es@[j].1@);
                }
                assert(model_entries(out@) =~= model_entries(es@));
            }
            r
        },
    }
}

pub fn bytes_eq(x: &Vec<u8>, y: &Vec<u8>) -> (r: bool)
    ensures
        r == (x@ == y@),
{
    if x.len() != y.len() {
        return false;
    }
    let mut i: usize = 0;
    while i < x.len()
        invariant
            i <= x.len(),
            x@.len() == y@.len(),
            forall|j: int| 0 <= j < i ==> x@[j] == y@[j],
        decreases x.len() - i,
    {
        if x[i] != y[i] {
            return false;
        }
        i += 1;
    }
    proof {
        assert(x@ =~= y@);
    }
    true
}

/// Index of the first entry bound to key `k`, if any.
#[verifier::loop_isolation(false)]
fn find_key(es: &Vec<(Vec<u8>, TreeValue)>, k: &Vec<u8>) -> (r: Option<usize>)
    ensures
        r matches Some(j) ==> j < es@.len() && es@[j as int].0@ == k@ && (forall|l: int|
            0 <= l < j ==> (#[trigger] es@[l]).0@ != k@),
        r is None ==> forall|l: int| 0 <= l < es@.len() ==> (#[trigger] es@[l]).0@ != k@,
{
    let mut i: usize = 0;
    while i < es.len()
        invariant
            i <= es@.len(),
            forall|l: int| 0 <= l < i ==> (#[trigger] es@[l]).0@ != k@,
        decreases es@.len() - i,
    {
        if bytes_eq(&es[i].0, k) {
            return Some(i);
        }
        i += 1;
    }
    None
}

fn clone_entries(es: &Vec<(Vec<u8>, TreeValue)>) -> (r: Vec<(Vec<u8>, TreeValue)>)
    ensures
        model_entries(r@) == model_entries(es@),
{
    let mut out: Vec<(Vec<u8>, TreeValue)> = Vec::new();
    let mut i: usize = 0;
    while i < es.len()
        invariant
            i <= es@.len(),
            out@.len() == i,
            forall|j: int| 0 <= j < i ==> out@[j].0@ == es@[j].0@ && out@[j].1@ == es@[j].1@,
        decreases es@.len() - i,
    {
        let k = clone_bytes(&es[i].0);
        let v = clone_tree(&es[i].1);
        out.push((k, v));
        i += 1;
    }
    proof {
        lemma_model_entries_index(out@);
        lemma_model_entries_index(es@);
        assert forall|j: int|
            0 <= j < es@.len() implies model_entries(out@)[j] == model_entries(es@)[j] by {
            assert(out@[j].0@ == es@[j].0@ && out@[j].1@ == es@[j].1@);
        }
        assert(model_entries(out@) =~= model_entries(es@));
    }
    out
}

/// The value bound to key `k` among object entries, if any.
pub fn obj_get<'a>(es: &'a Vec<(Vec<u8>, TreeValue)>, k: &Vec<u8>) -> (r: Option<&'a TreeValue>)
    ensures
        r matches Some(v) ==> olookup(model_entries(es@), k@) == Some(v@),
        (r is None) == (olookup(model_entries(es@), k@) is None),
{
    proof {
        lemma_model_entries_index(es@);
    }
    let ghost m = model_entries(es@);
    match find_key(es, k) {
        Some(j) => {
            proof {
                assert(m[j as int].0 == k@);
                assert forall|l: int| 0 <= l < j implies (#[trigger] m[l]).0 != k@ by {
                    assert(es@[l].0@ != k@);
                }
                lemma_olookup_first(m, k@, j as int);
            }
            Some(&es[j].1)
        },
        None => {
            proof {
                assert forall|l: int| 0 <= l < m.len() implies (#[trigger] m[l]).0 != k@ by {
                    assert(es@[l].0@ != k@);
                }
                lemma_olookup_none(m, k@);
            }
            None
        },
    }
}

/// Entries with every binding of `k` removed, as fresh copies.
#[verifier::loop_isolation(false)]
fn remove_key(es: &Vec<(Vec<u8>, TreeValue)>, k: &Vec<u8>) -> (r: Vec<(Vec<u8>, TreeValue)>)
    ensures
        model_entries(r@) == oremove(model_entries(es@), k@),
{
    let mut out: Vec<(Vec<u8>, TreeValue)> = Vec::new();
    let mut i: usize = 0;
    while i < es.len()
        invariant
            i <= es@.len(),
            model_entries(out@) == oremove(model_entries(es@).take(i as int), k@),
        decreases es@.len() - i,
    {
        let ghost m = model_entries(es@);
        proof {
            lemma_model_entries_index(es@);
            assert(m.take(i as int + 1) =~= m.take(i as int).push(m[i as int]));
            lemma_oremove_snoc(m.take(i as int), m[i as int], k@);
        }
        if !bytes_eq(&es[i].0, k) {
            let ghost out_before = out@;
            let k2 = clone_bytes(&es[i].0);
            let v2 = clone_tree(&es[i].1);
            let ghost p = (k2, v2);
            out.push((k2, v2));
            proof {
                assert(out@ == out_before.push(p));
                lemma_model_entries_snoc(out_before, p);
            }
        }
        i += 1;
    }
    proof {
        lemma_model_entries_index(es@);
        assert(model_entries(es@).take(es@.len() as int) =~= model_entries(es@));
    }
    out
}

/// Recursive merge of the patch `b` into the base `a`, building a fresh tree:
/// when both are mappings, a null value in `b` deletes that key, any other
/// key of `b` is merged key-wise; otherwise the result is a copy of `b`.
#[verifier::loop_isolation(false)]
pub fn merge_trees(a: &TreeValue, b: &TreeValue) -> (r: TreeValue)
    ensures
        r@ == smerge(a@, b@),
    decreases b,
{
    match (a, b) {
        (TreeValue::Obj(ae), TreeValue::Obj(be)) => {
            let mut out = clone_entries(ae);
            let mut i: usize = 0;
            proof {
                assert(model_entries(be@).take(0) =~= Seq::<(Seq<u8>, STree)>::empty());
            }
            while i < be.len()
                invariant
                    i <= be@.len(),
                    model_entries(out@) == smerge_entries(
                        model_entries(ae@),
                        model_entries(be@).take(i as int),
                    ),
                decreases be@.len() - i,
            {
                let ghost acc0 = model_entries(out@);
                let ghost bm = model_entries(be@);
                let ghost e = bm[i as int];
                proof {
                    lemma_model_entries_index(be@);
                    assert(e == (be@[i as int].0@, be@[i as int].1@));
                    lemma_model_entries_index(out@);
                }
                let k = &be[i].0;
                if matches!(&be[i].1, TreeValue::Null) {
                    let out2 = remove_key(&out, k);
                    out = out2;
                    proof {
                        assert(e.1 is Null);
                        assert(model_entries(out@) == ostep(acc0, e));
                    }
                } else {
                    proof {
                        assert(!(e.1 is Null));
                    }
                    match find_key(&out, k) {
                        Some(j) => {
                            proof {
                                assert(acc0[j as int].0 == k@);
                                assert forall|l: int| 0 <= l < j implies (#[trigger] acc0[l]).0
                                    != k@ by {
                                    assert(out@[l].0@ != k@);
                                }
                                lemma_olookup_first(acc0, k@, j as int);
                            }
                            proof {
                                assert(decreases_to!(*b => *be));
                                assert(decreases_to!(*be => be@));
                                assert(decreases_to!(be@ => be@[i as int]));
                                assert(decreases_to!(be@[i as int] => be@[i as int].1));
                            }
                            let merged = merge_trees(&out[j].1, &be[i].1);
                            let k2 = clone_bytes(k);
                            let ghost out_before = out@;
                            let ghost p = (k2, merged);
                            out.set(j, (k2, merged));
                            proof {
                                assert(out@ == out_before.update(j as int, p));
                                lemma_model_entries_update(out_before, j as int, p);
                                lemma_oset_first(acc0, k@, merged@, j as int);
                                assert(merged@ == smerge(acc0[j as int].1, e.1));
                                assert(model_entries(out@) == ostep(acc0, e));
                            }
                        },
                        None => {
                            proof {
                                assert forall|l: int|
                                    0 <= l < acc0.len() implies (#[trigger] acc0[l]).0 != k@ by {
                                    assert(out@[l].0@ != k@);
                                }
                                lemma_olookup_none(acc0, k@);
                            }
                            let k2 = clone_bytes(k);
                            let v2 = clone_tree(&be[i].1);
                            let ghost out_before = out@;
                            let ghost p = (k2, v2);
                            out.push((k2, v2));
                            proof {
                                assert(out@ == out_before.push(p));
                                lemma_model_entries_snoc(out_before, p);
                                assert((p.0@, p.1@) == e);
                                assert(model_entries(out@) == ostep(acc0, e));
                            }
                        },
                    }
                }
                proof {
                    assert(bm.take(i as int + 1) =~= bm.take(i as int).push(e));
                    lemma_smerge_entries_snoc(model_entries(ae@), bm.take(i as int), e);
                }
                i += 1;
            }
            proof {
                lemma_model_entries_index(be@);
                assert(model_entries(be@).take(be@.len() as int) =~= model_entries(be@));
            }
            TreeValue::Obj(out)
        },
        _ => {
            let r = clone_tree(b);
            proof {
                assert(smerge(a@, b@) == b@);
            }
            r
        },
    }
}

/// View of a pointer (a vector of path segments) as a sequence of byte keys.
pub open spec fn pview(p: Seq<Vec<u8>>) -> Seq<Seq<u8>> {
    Seq::new(p.len(), |i: int| p[i]@)
}

/// Nested single-key mappings holding `v` at the end of `path`.
pub open spec fn sbuild(path: Seq<Seq<u8>>, v: STree) -> STree
    decreases path.len(),
{
    if path.len() == 0 {
        v
    } else {
        STree::Obj(seq![(path[0], sbuild(path.drop_first(), v))])
    }
}

/// Replace the subtree at `path` with `v`. A missing key inside a mapping is
/// created (together with the missing intermediate mappings); a traversed
/// node that is not a mapping makes the path unresolvable: `None`.
pub open spec fn sreplace(t: STree, path: Seq<Seq<u8>>, v: STree) -> Option<STree>
    decreases path.len(),
{
    if path.len() == 0 {
        Some(v)
    } else {
        match t {
            STree::Obj(es) => match olookup(es, path[0]) {
                Some(child) => match sreplace(child, path.drop_first(), v) {
                    Some(nc) => Some(STree::Obj(oset(es, path[0], nc))),
                    None => None,
                },
                None => Some(STree::Obj(es.push((path[0], sbuild(path.drop_first(), v))))),
            },
            _ => None,
        }
    }
}

/// The store-level Put: the new snapshot and whether the path resolved; an
/// unresolvable path leaves the snapshot unchanged.
pub open spec fn sput(t: STree, path: Seq<Seq<u8>>, v: STree) -> (STree, bool) {
    match sreplace(t, path, v) {
        Some(t2) => (t2, true),
        None => (t, false),
    }
}

pub proof fn lemma_oset_same(es: Seq<(Seq<u8>, STree)>, k: Seq<u8>, v0: STree)
    requires
        olookup(es, k) == Some(v0),
    ensures
        oset(es, k, v0) == es,
    decreases es.len(),
{
    if es.len() > 0 {
        if es[0].0 == k {
            assert(v0 == es[0].1);
            assert(es[0] == (es[0].0, es[0].1));
            assert(oset(es, k, v0) =~= es);
        } else {
            lemma_oset_same(es.drop_first(), k, v0);
            assert(oset(es, k, v0) == seq![es[0]] + oset(es.drop_first(), k, v0));
            assert(seq![es[0]] + es.drop_first() =~= es);
        }
    }
}

pub proof fn lemma_sbuild_replace(path: Seq<Seq<u8>>, v: STree)
    ensures
        sreplace(sbuild(path, v), path, v) == Some(sbuild(path, v)),
    decreases path.len(),
{
    if path.len() > 0 {
        let b = sbuild(path, v);
        let es = seq![(path[0], sbuild(path.drop_first(), v))];
        assert(b == STree::Obj(es));
        assert(es[0].0 == path[0]);
        assert(olookup(es, path[0]) == Some(sbuild(path.drop_first(), v)));
        lemma_sbuild_replace(path.drop_first(), v);
        lemma_oset_same(es, path[0], sbuild(path.drop_first(), v));
    }
}

/// Law: replacing the same subtree twice with the same value is idempotent;
/// the second application changes nothing (also when the path is
/// unresolvable, where both applications are no-ops).
pub proof fn lemma_replace_idempotent(t: STree, path: Seq<Seq<u8>>, v: STree)
    ensures
        sput(sput(t, path, v).0, path, v).0 == sput(t, path, v).0,
        sput(sput(t, path, v).0, path, v).1 == sput(t, path, v).1,
    decreases path.len(),
{
    if sreplace(t, path, v) is Some && path.len() > 0 {
        let es = t->Obj_0;
        let k = path[0];
        let rest = path.drop_first();
        match olookup(es, k) {
            Some(child) => {
                let nc = sreplace(child, rest, v)->Some_0;
                let t2 = STree::Obj(oset(es, k, nc));
                lemma_oset(es, k, nc);
                assert(olookup(oset(es, k, nc), k) == Some(nc));
                lemma_replace_idempotent(child, rest, v);
                assert(sreplace(nc, rest, v) == Some(nc));
                lemma_oset_same(oset(es, k, nc), k, nc);
                assert(sreplace(t2, path, v) == Some(t2));
            },
            None => {
                let b = sbuild(rest, v);
                let p2 = es.push((k, b));
                let t2 = STree::Obj(p2);
                lemma_olookup_push(es, (k, b), k);
                assert(olookup(p2, k) == Some(b));
                lemma_sbuild_replace(rest, v);
                assert(sreplace(b, rest, v) == Some(b));
                lemma_oset_same(p2, k, b);
                assert(sreplace(t2, path, v) == Some(t2));
            },
        }
    }
}

pub proof fn lemma_sbuild_wf(path: Seq<Seq<u8>>, v: STree)
    requires
        swf(v),
    ensures
        swf(sbuild(path, v)),
    decreases path.len(),
{
    if path.len() > 0 {
        lemma_sbuild_wf(path.drop_first(), v);
        let es = seq![(path[0], sbuild(path.drop_first(), v))];
        assert(kwf(es));
        assert(swf(STree::Obj(es)));
    }
}

/// Replacing a subtree in a well-formed tree with a well-formed value keeps
/// the tree well-formed.
pub proof fn lemma_sreplace_wf(t: STree, path: Seq<Seq<u8>>, v: STree)
    requires
        swf(t),
        swf(v),
    ensures
        sreplace(t, path, v) matches Some(t2) ==> swf(t2),
        swf(sput(t, path, v).0),
    decreases path.len(),
{
    if path.len() > 0 && t is Obj {
        let es = t->Obj_0;
        let k = path[0];
        match olookup(es, k) {
            Some(child) => {
                lemma_olookup_some(es, k);
                assert(swf(child));
                lemma_sreplace_wf(child, path.drop_first(), v);
                match sreplace(child, path.drop_first(), v) {
                    Some(nc) => {
                        lemma_oset(es, k, nc);
                        let r = oset(es, k, nc);
                        assert forall|i: int, j: int| 0 <= i < j < r.len() implies r[i].0
                            != r[j].0 by {
                            assert(r[i].0 == es[i].0 && r[j].0 == es[j].0);
                        }
                        assert forall|i: int| 0 <= i < r.len() implies swf(
                            (#[trigger] r[i]).1,
                        ) by {
                            assert(swf(es[i].1));
                            assert(r[i].1 == es[i].1 || r[i].1 == nc);
                        }
                        assert(swf(STree::Obj(r)));
                    },
                    None => {},
                }
            },
            None => {
                lemma_olookup_none(es, k);
                lemma_sbuild_wf(path.drop_first(), v);
                let b = sbuild(path.drop_first(), v);
                let r = es.push((k, b));
                assert forall|i: int, j: int| 0 <= i < j < r.len() implies r[i].0 != r[j].0 by {
                    if j == es.len() {
                        assert(es[i].0 != k);
                    }
                }
                assert forall|i: int| 0 <= i < r.len() implies swf((#[trigger] r[i]).1) by {
                    if i < es.len() {
                        assert(swf(es[i].1));
                    }
                }
                assert(swf(STree::Obj(r)));
            },
        }
    }
}

fn build_path(path: &Vec<Vec<u8>>, i: usize, v: &TreeValue) -> (r: TreeValue)
    requires
        i <= path@.len(),
    ensures
        r@ == sbuild(pview(path@).skip(i as int), v@),
    decreases path@.len() - i,
{
    let ghost pv = pview(path@);
    if i == path.len() {
        proof {
            assert(pv.skip(i as int) =~= Seq::<Seq<u8>>::empty());
        }
        clone_tree(v)
    } else {
        let inner = build_path(path, i + 1, v);
        let k2 = clone_bytes(&path[i]);
        let mut out: Vec<(Vec<u8>, TreeValue)> = Vec::new();
        let ghost p = (k2, inner);
        out.push((k2, inner));
        let r = TreeValue::Obj(out);
        proof {
            assert(pv.skip(i as int).len() > 0);
            assert(pv.skip(i as int)[0] == pv[i as int]);
            assert(pv.skip(i as int).drop_first() =~= pv.skip(i as int + 1));
            assert(out@ == Seq::<(Vec<u8>, TreeValue)>::empty().push(p));
            lemma_model_entries_snoc(Seq::<(Vec<u8>, TreeValue)>::empty(), p);
            assert(model_entries(out@) =~= seq![(path@[i as int]@, inner@)]);
        }
        r
    }
}

/// Replace the subtree of `t` at the path segments `path[i..]` with a copy of
/// `v`; `None` when the path does not resolve.
fn replace_at(t: &TreeValue, path: &Vec<Vec<u8>>, i: usize, v: &TreeValue) -> (r: Option<
    TreeValue,
>)
    requires
        i <= path@.len(),
    ensures
        r is Some <==> sreplace(t@, pview(path@).skip(i as int), v@) is Some,
        r matches Some(t2) ==> Some(t2@) == sreplace(t@, pview(path@).skip(i as int), v@),
    decreases path@.len() - i,
{
    let ghost pv = pview(path@);
    if i == path.len() {
        proof {
            assert(pv.skip(i as int) =~= Seq::<Seq<u8>>::empty());
        }
        Some(clone_tree(v))
    } else {
        proof {
            assert(pv.skip(i as int).len() > 0);
            assert(pv.skip(i as int)[0] == pv[i as int]);
            assert(pv.skip(i as int).drop_first() =~= pv.skip(i as int + 1));
        }
        match t {
            TreeValue::Obj(es) => {
                let ghost m = model_entries(es@);
                proof {
                    lemma_model_entries_index(es@);
                }
                match find_key(es, &path[i]) {
                    Some(j) => {
                        proof {
                            assert(m[j as int].0 == path@[i as int]@);
                            assert forall|l: int| 0 <= l < j implies (#[trigger] m[l]).0
                                != path@[i as int]@ by {
                                assert(es@[l].0@ != path@[i as int]@);
                            }
                            lemma_olookup_first(m, path@[i as int]@, j as int);
                        }
                        match replace_at(&es[j].1, path, i + 1, v) {
                            Some(nc) => {
                                let mut out = clone_entries(es);
                                let k2 = clone_bytes(&path[i]);
                                let ghost out_before = out@;
                                let ghost p = (k2, nc);
                                proof {
                                    lemma_model_entries_index(out_before);
                                }
                                out.set(j, (k2, nc));
                                proof {
                                    assert(out@ == out_before.update(j as int, p));
                                    lemma_model_entries_update(out_before, j as int, p);
                                    lemma_oset_first(m, path@[i as int]@, p.1@, j as int);
                                    assert(model_entries(out@) =~= oset(
                                        m,
                                        path@[i as int]@,
                                        p.1@,
                                    ));
                                }
                                Some(TreeValue::Obj(out))
                            },
                            None => None,
                        }
                    },
                    None => {
                        proof {
                            assert forall|l: int| 0 <= l < m.len() implies (#[trigger] m[l]).0
                                != path@[i as int]@ by {
                                assert(es@[l].0@ != path@[i as int]@);
                            }
                            lemma_olookup_none(m, path@[i as int]@);
                        }
                        let built = build_path(path, i + 1, v);
                        let mut out = clone_entries(es);
                        let k2 = clone_bytes(&path[i]);
                        let ghost out_before = out@;
                        let ghost p = (k2, built);
                        out.push((k2, built));
                        proof {
                            assert(out@ == out_before.push(p));
                            lemma_model_entries_snoc(out_before, p);
                        }
                        Some(TreeValue::Obj(out))
                    },
                }
            },
            _ => {
                proof {
                    assert(sreplace(t@, pv.skip(i as int), v@) is None);
                }
                None
            },
        }
    }
}

/// Whole-subtree replacement at a pointer (the Put mutation): replaces the
/// node at `path` with a copy of `v` and reports whether the path resolved;
/// an unresolvable path leaves the value unchanged. Preserves
/// well-formedness.
pub fn replace_value(a: &mut TreeValue, path: &Vec<Vec<u8>>, v: &TreeValue) -> (ok: bool)
    ensures
        (final(a)@, ok) == sput(old(a)@, pview(path@), v@),
        swf(old(a)@) && swf(v@) ==> swf(final(a)@),
{
    proof {
        assert(pview(path@).skip(0) =~= pview(path@));
        if swf(a@) && swf(v@) {
            lemma_sreplace_wf(a@, pview(path@), v@);
        }
    }
    match replace_at(a, path, 0, v) {
        Some(t2) => {
            *a = t2;
            true
        },
        None => false,
    }
}

/// The node at `path`, a missing key inside a mapping reading as null (the
/// point where a mutation would create it); `None` when a traversed node is
/// not a mapping.
pub open spec fn sget(t: STree, path: Seq<Seq<u8>>) -> Option<STree>
    decreases path.len(),
{
    if path.len() == 0 {
        Some(t)
    } else {
        match t {
            STree::Obj(es) => match olookup(es, path[0]) {
                Some(c) => sget(c, path.drop_first()),
                None => Some(STree::Null),
            },
            _ => None,
        }
    }
}

/// The store-level Patch: recursive-merge of `v` into the node at `path`;
/// an unresolvable path leaves the snapshot unchanged.
pub open spec fn spatch(t: STree, path: Seq<Seq<u8>>, v: STree) -> (STree, bool) {
    match sget(t, path) {
        Some(node) => (sput(t, path, smerge(node, v)).0, true),
        None => (t, false),
    }
}

/// A pointer resolves for reading exactly when it resolves for replacing.
pub proof fn lemma_sget_sput(t: STree, path: Seq<Seq<u8>>, v: STree)
    ensures
        (sget(t, path) is Some) == (sreplace(t, path, v) is Some),
    decreases path.len(),
{
    if path.len() > 0 && t is Obj {
        match olookup(t->Obj_0, path[0]) {
            Some(c) => lemma_sget_sput(c, path.drop_first(), v),
            None => {},
        }
    }
}

pub proof fn lemma_sget_wf(t: STree, path: Seq<Seq<u8>>)
    requires
        swf(t),
    ensures
        sget(t, path) matches Some(n) ==> swf(n),
    decreases path.len(),
{
    if path.len() > 0 && t is Obj {
        let es = t->Obj_0;
        match olookup(es, path[0]) {
            Some(c) => {
                lemma_olookup_some(es, path[0]);
                let w = choose|w: int|
                    0 <= w < es.len() && (#[trigger] es[w]).0 == path[0] && es[w].1 == c;
                assert(swf(es[w].1));
                lemma_sget_wf(c, path.drop_first());
            },
            None => {},
        }
    }
}

/// A copy of the node of `t` at the path segments `path[i..]`, a missing key
/// inside a mapping reading as null; `None` when the path does not resolve.
fn get_at(t: &TreeValue, path: &Vec<Vec<u8>>, i: usize) -> (r: Option<TreeValue>)
    requires
        i <= path@.len(),
    ensures
        r matches Some(n) ==> sget(t@, pview(path@).skip(i as int)) == Some(n@),
        (r is None) == (sget(t@, pview(path@).skip(i as int)) is None),
    decreases path@.len() - i,
{
    let ghost pv = pview(path@);
    if i == path.len() {
        proof {
            assert(pv.skip(i as int) =~= Seq::<Seq<u8>>::empty());
        }
        Some(clone_tree(t))
    } else {
        proof {
            assert(pv.skip(i as int).len() > 0);
            assert(pv.skip(i as int)[0] == pv[i as int]);
            assert(pv.skip(i as int).drop_first() =~= pv.skip(i as int + 1));
        }
        match t {
            TreeValue::Obj(es) => match obj_get(es, &path[i]) {
                Some(c) => get_at(c, path, i + 1),
                None => Some(TreeValue::Null),
            },
            _ => None,
        }
    }
}

/// Recursive-merge of `v` into the node at `path` (the Patch mutation):
/// reports whether the path resolved; an unresolvable path leaves the value
/// unchanged. Preserves well-formedness.
pub fn patch_value(a: &mut TreeValue, path: &Vec<Vec<u8>>, v: &TreeValue) -> (ok: bool)
    ensures
        (final(a)@, ok) == spatch(old(a)@, pview(path@), v@),
        swf(old(a)@) && swf(v@) ==> swf(final(a)@),
{
    proof {
        assert(pview(path@).skip(0) =~= pview(path@));
    }
    match get_at(a, path, 0) {
        Some(node) => {
            let merged = merge_trees(&node, v);
            proof {
                lemma_sget_sput(a@, pview(path@), merged@);
                if swf(a@) && swf(v@) {
                    lemma_sget_wf(a@, pview(path@));
                    lemma_smerge_wf(node@, v@);
                }
            }
            replace_value(a, path, &merged)
        },
        None => false,
    }
}

} // verus!
