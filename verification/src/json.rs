//! The freeform JSON documents that peer contexts hold, with the
//! deterministic merge and the dotted-path operations.

use vstd::prelude::*;
use crate::assoc::{
    assoc_get, assoc_remove, assoc_set, assoc_unique, lemma_assoc_get_first_match,
    lemma_assoc_get_none_iff, lemma_assoc_get_some_at, lemma_assoc_remove_absent,
    lemma_assoc_remove_at_index, lemma_assoc_remove_get, lemma_assoc_set_absent,
    lemma_assoc_set_at_index, lemma_assoc_remove_unique,
    lemma_assoc_remove_values, lemma_assoc_set_get, lemma_assoc_set_unique,
    lemma_assoc_set_values, lemma_assoc_unique_iff_distinct,
};

verus! {

broadcast use vstd::std_specs::vec::group_vec_axioms;

/// Mathematical model of a JSON document. Objects are association
/// sequences: the keys in order, each with its value.
#[verifier::ext_equal]
pub enum Jv {
    Null,
    Bool(bool),
    Int(int),
    Text(Seq<char>),
    Arr(Seq<Jv>),
    Obj(Seq<(Seq<char>, Jv)>),
}

/// A JSON document: the unit of a peer's context and of bridge payloads.
/// Numbers are 64-bit integers; the mesh's device domain needs no more.
pub enum JsonValue {
    Null,
    Bool(bool),
    Int(i64),
    Text(String),
    Arr(Vec<JsonValue>),
    Obj(Vec<(String, JsonValue)>),
}

/// The document a `JsonValue` holds, as its mathematical model.
pub open spec fn view_json(v: JsonValue) -> Jv
    decreases v,
{
    match v {
        JsonValue::Null => Jv::Null,
        JsonValue::Bool(b) => Jv::Bool(b),
        JsonValue::Int(i) => Jv::Int(i as int),
        JsonValue::Text(s) => Jv::Text(s@),
        JsonValue::Arr(xs) => Jv::Arr(
            Seq::new(xs@.len(), |i: int| if 0 <= i < xs@.len() { view_json(xs@[i]) } else { Jv::Null }),
        ),
        JsonValue::Obj(es) => Jv::Obj(
            Seq::new(
                es@.len(),
                |i: int| if 0 <= i < es@.len() { (es@[i].0@, view_json(es@[i].1)) } else { (Seq::empty(), Jv::Null) },
            ),
        ),
    }
}

impl View for JsonValue {
    type V = Jv;

    open spec fn view(&self) -> Jv {
        view_json(*self)
    }
}

/// A well-formed document: every object's keys are unique.
pub open spec fn jv_wf(j: Jv) -> bool
    decreases j,
{
    match j {
        Jv::Arr(xs) => forall|i: int| 0 <= i < xs.len() ==> jv_wf(#[trigger] xs[i]),
        Jv::Obj(es) => assoc_unique(es) && (forall|i: int|
            0 <= i < es.len() ==> jv_wf(#[trigger] es[i].1)),
        _ => true,
    }
}

/// The deterministic merge of two documents. Objects merge key by key;
/// everywhere else the second document wins.
pub open spec fn merge_jv(a: Jv, b: Jv) -> Jv
    decreases a, 0int,
{
    match (a, b) {
        (Jv::Obj(ae), Jv::Obj(be)) => Jv::Obj(merge_entries(ae, be)),
        (_, other) => other,
    }
}

/// Merge object entries: the first object's keys in their order, each
/// merged with the second object's value under the same key where one
/// exists; then the second object's remaining entries in their order.
pub open spec fn merge_entries(ae: Seq<(Seq<char>, Jv)>, be: Seq<(Seq<char>, Jv)>) -> Seq<
    (Seq<char>, Jv),
>
    decreases ae, 1int,
{
    if ae.len() == 0 {
        be
    } else {
        let k = ae[0].0;
        let m = match assoc_get(be, k) {
            Some(bv) => merge_jv(ae[0].1, bv),
            None => ae[0].1,
        };
        seq![(k, m)] + merge_entries(ae.drop_first(), assoc_remove(be, k))
    }
}

/// What the merge of two objects holds under each key: both sides merged
/// where both have the key, else whichever side has it.
pub proof fn lemma_merge_entries_get(
    ae: Seq<(Seq<char>, Jv)>,
    be: Seq<(Seq<char>, Jv)>,
    k: Seq<char>,
)
    requires
        assoc_unique(ae),
        assoc_unique(be),
    ensures
        assoc_get(merge_entries(ae, be), k) == match (assoc_get(ae, k), assoc_get(be, k)) {
            (Some(av), Some(bv)) => Some(merge_jv(av, bv)),
            (Some(av), None) => Some(av),
            (None, other) => other,
        },
    decreases ae.len(),
{
    if ae.len() > 0 {
        let k0 = ae[0].0;
        let r = merge_entries(ae, be);
        let m = match assoc_get(be, k0) {
            Some(bv) => merge_jv(ae[0].1, bv),
            None => ae[0].1,
        };
        assert(r[0] == (k0, m));
        assert(r.drop_first() =~= merge_entries(ae.drop_first(), assoc_remove(be, k0)));
        lemma_assoc_remove_unique(be, k0);
        lemma_merge_entries_get(ae.drop_first(), assoc_remove(be, k0), k);
        lemma_assoc_remove_get(be, k0, k);
    }
}

/// Merged object entries keep their keys unique.
pub proof fn lemma_merge_entries_unique(ae: Seq<(Seq<char>, Jv)>, be: Seq<(Seq<char>, Jv)>)
    requires
        assoc_unique(ae),
        assoc_unique(be),
    ensures
        assoc_unique(merge_entries(ae, be)),
    decreases ae.len(),
{
    if ae.len() > 0 {
        let k0 = ae[0].0;
        let r = merge_entries(ae, be);
        let m = match assoc_get(be, k0) {
            Some(bv) => merge_jv(ae[0].1, bv),
            None => ae[0].1,
        };
        assert(r[0] == (k0, m));
        assert(r.drop_first() =~= merge_entries(ae.drop_first(), assoc_remove(be, k0)));
        lemma_assoc_remove_unique(be, k0);
        lemma_merge_entries_unique(ae.drop_first(), assoc_remove(be, k0));
        lemma_merge_entries_get(ae.drop_first(), assoc_remove(be, k0), k0);
        lemma_assoc_remove_get(be, k0, k0);
        assert(assoc_get(r.drop_first(), k0) is None);
    }
}

/// Merging well-formed documents yields a well-formed document.
pub proof fn lemma_merge_wf(a: Jv, b: Jv)
    requires
        jv_wf(a),
        jv_wf(b),
    ensures
        jv_wf(merge_jv(a, b)),
    decreases a, 0int,
{
    if a is Obj && b is Obj {
        lemma_merge_entries_wf(a->Obj_0, b->Obj_0);
    }
}

/// Merging well-formed object entries yields well-formed entries.
pub proof fn lemma_merge_entries_wf(ae: Seq<(Seq<char>, Jv)>, be: Seq<(Seq<char>, Jv)>)
    requires
        assoc_unique(ae),
        assoc_unique(be),
        forall|i: int| 0 <= i < ae.len() ==> jv_wf(#[trigger] ae[i].1),
        forall|i: int| 0 <= i < be.len() ==> jv_wf(#[trigger] be[i].1),
    ensures
        assoc_unique(merge_entries(ae, be)),
        forall|i: int|
            0 <= i < merge_entries(ae, be).len() ==> jv_wf(
                #[trigger] merge_entries(ae, be)[i].1,
            ),
    decreases ae, 1int,
{
    lemma_merge_entries_unique(ae, be);
    if ae.len() > 0 {
        let k0 = ae[0].0;
        let r = merge_entries(ae, be);
        let m = match assoc_get(be, k0) {
            Some(bv) => merge_jv(ae[0].1, bv),
            None => ae[0].1,
        };
        assert(r[0] == (k0, m));
        if assoc_get(be, k0) is Some {
            lemma_assoc_get_some_at(be, k0);
            let j = choose|j: int|
                0 <= j < be.len() && be[j].0 == k0 && be[j].1 == assoc_get(be, k0)->Some_0;
            lemma_merge_wf(ae[0].1, assoc_get(be, k0)->Some_0);
        }
        assert(jv_wf(m));
        assert forall|i: int| 0 <= i < ae.drop_first().len() implies jv_wf(
            ae.drop_first()[i].1,
        ) by {
            assert(ae.drop_first()[i] == ae[i + 1]);
        }
        lemma_assoc_remove_unique(be, k0);
        lemma_assoc_remove_values(be, k0, |v: Jv| jv_wf(v));
        assert forall|i: int| 0 <= i < assoc_remove(be, k0).len() implies jv_wf(
            assoc_remove(be, k0)[i].1,
        ) by {
            assert((|v: Jv| jv_wf(v))(assoc_remove(be, k0)[i].1));
        }
        lemma_merge_entries_wf(ae.drop_first(), assoc_remove(be, k0));
        assert forall|i: int| 0 <= i < r.len() implies jv_wf(r[i].1) by {
            if i > 0 {
                assert(r[i] == merge_entries(ae.drop_first(), assoc_remove(be, k0))[i - 1]);
            }
        }
    }
}

/// The subtree of `j` under a path of object keys; `None` where a segment
/// is absent or the walk meets something besides an object.
pub open spec fn get_path(j: Jv, path: Seq<Seq<char>>) -> Option<Jv>
    decreases path.len(),
{
    if path.len() == 0 {
        Some(j)
    } else {
        match j {
            Jv::Obj(es) => match assoc_get(es, path[0]) {
                Some(c) => get_path(c, path.drop_first()),
                None => None,
            },
            _ => None,
        }
    }
}

/// Store `v` under the path, creating intermediate objects where a
/// segment is absent and overwriting anything that is not an object on
/// the way down.
pub open spec fn set_path(j: Jv, path: Seq<Seq<char>>, v: Jv) -> Jv
    decreases path.len(),
{
    if path.len() == 0 {
        v
    } else {
        let es = if j is Obj {
            j->Obj_0
        } else {
            Seq::empty()
        };
        let child = match assoc_get(es, path[0]) {
            Some(c) => c,
            None => Jv::Obj(Seq::empty()),
        };
        Jv::Obj(assoc_set(es, path[0], set_path(child, path.drop_first(), v)))
    }
}

/// Remove the entry under the path; `None` where any segment is absent
/// (the path is not found). Emptied parent objects are kept.
pub open spec fn delete_path(j: Jv, path: Seq<Seq<char>>) -> Option<Jv>
    decreases path.len(),
{
    if path.len() == 0 {
        None
    } else {
        match j {
            Jv::Obj(es) => match assoc_get(es, path[0]) {
                Some(c) => if path.len() == 1 {
                    Some(Jv::Obj(assoc_remove(es, path[0])))
                } else {
                    match delete_path(c, path.drop_first()) {
                        Some(c2) => Some(Jv::Obj(assoc_set(es, path[0], c2))),
                        None => None,
                    }
                },
                None => None,
            },
            _ => None,
        }
    }
}

/// Law: a value stored under a path is what a read of that path returns.
pub proof fn law_set_then_get(j: Jv, path: Seq<Seq<char>>, v: Jv)
    ensures
        get_path(set_path(j, path, v), path) == Some(v),
    decreases path.len(),
{
    if path.len() > 0 {
        let es = if j is Obj {
            j->Obj_0
        } else {
            Seq::<(Seq<char>, Jv)>::empty()
        };
        let child = match assoc_get(es, path[0]) {
            Some(c) => c,
            None => Jv::Obj(Seq::empty()),
        };
        lemma_assoc_set_get(es, path[0], set_path(child, path.drop_first(), v), path[0]);
        law_set_then_get(child, path.drop_first(), v);
    }
}

/// Storing a well-formed value in a well-formed document keeps the
/// document well-formed.
pub proof fn lemma_set_path_wf(j: Jv, path: Seq<Seq<char>>, v: Jv)
    requires
        jv_wf(j),
        jv_wf(v),
    ensures
        jv_wf(set_path(j, path, v)),
    decreases path.len(),
{
    if path.len() > 0 {
        let es = if j is Obj {
            j->Obj_0
        } else {
            Seq::<(Seq<char>, Jv)>::empty()
        };
        assert(assoc_unique(es));
        let child = match assoc_get(es, path[0]) {
            Some(c) => c,
            None => Jv::Obj(Seq::empty()),
        };
        if assoc_get(es, path[0]) is Some {
            lemma_assoc_get_some_at(es, path[0]);
        } else {
            assert(assoc_unique(Seq::<(Seq<char>, Jv)>::empty()));
            assert(jv_wf(child));
        }
        lemma_set_path_wf(child, path.drop_first(), v);
        let sub = set_path(child, path.drop_first(), v);
        lemma_assoc_set_unique(es, path[0], sub);
        lemma_assoc_set_values(es, path[0], sub, |x: Jv| jv_wf(x));
        let r = assoc_set(es, path[0], sub);
        assert forall|i: int| 0 <= i < r.len() implies jv_wf(r[i].1) by {
            assert((|x: Jv| jv_wf(x))(r[i].1));
        }
    }
}

/// A delete that succeeds keeps the document well-formed.
pub proof fn lemma_delete_path_wf(j: Jv, path: Seq<Seq<char>>)
    requires
        jv_wf(j),
        delete_path(j, path) is Some,
    ensures
        jv_wf(delete_path(j, path)->Some_0),
    decreases path.len(),
{
    let es = j->Obj_0;
    let c = assoc_get(es, path[0])->Some_0;
    lemma_assoc_get_some_at(es, path[0]);
    if path.len() == 1 {
        lemma_assoc_remove_unique(es, path[0]);
        lemma_assoc_remove_values(es, path[0], |x: Jv| jv_wf(x));
        let r = assoc_remove(es, path[0]);
        assert forall|i: int| 0 <= i < r.len() implies jv_wf(r[i].1) by {
            assert((|x: Jv| jv_wf(x))(r[i].1));
        }
    } else {
        lemma_delete_path_wf(c, path.drop_first());
        let c2 = delete_path(c, path.drop_first())->Some_0;
        lemma_assoc_set_unique(es, path[0], c2);
        lemma_assoc_set_values(es, path[0], c2, |x: Jv| jv_wf(x));
        let r = assoc_set(es, path[0], c2);
        assert forall|i: int| 0 <= i < r.len() implies jv_wf(r[i].1) by {
            assert((|x: Jv| jv_wf(x))(r[i].1));
        }
    }
}

/// A path that a read finds is one a delete removes.
pub proof fn lemma_get_some_delete_some(j: Jv, path: Seq<Seq<char>>)
    requires
        path.len() > 0,
        get_path(j, path) is Some,
    ensures
        delete_path(j, path) is Some,
    decreases path.len(),
{
    if path.len() > 1 {
        let es = j->Obj_0;
        let c = assoc_get(es, path[0])->Some_0;
        lemma_get_some_delete_some(c, path.drop_first());
    }
}

/// Law: after a delete of a path in a well-formed document, a read of
/// that path finds nothing.
pub proof fn law_delete_then_absent(j: Jv, path: Seq<Seq<char>>)
    requires
        jv_wf(j),
        path.len() > 0,
        delete_path(j, path) is Some,
    ensures
        get_path(delete_path(j, path)->Some_0, path) is None,
    decreases path.len(),
{
    let es = j->Obj_0;
    let c = assoc_get(es, path[0])->Some_0;
    lemma_assoc_get_some_at(es, path[0]);
    if path.len() == 1 {
        lemma_assoc_remove_get(es, path[0], path[0]);
    } else {
        law_delete_then_absent(c, path.drop_first());
        let c2 = delete_path(c, path.drop_first())->Some_0;
        lemma_assoc_set_get(es, path[0], c2, path[0]);
    }
}

/// The model of a vector of object entries: each key as characters, each
/// value as its model.
pub open spec fn obj_entries_view(es: Seq<(String, JsonValue)>) -> Seq<(Seq<char>, Jv)> {
    Seq::new(es.len(), |i: int| (es[i].0@, view_json(es[i].1)))
}

/// An object's model is the model of its entries.
pub proof fn lemma_obj_view(es: Vec<(String, JsonValue)>)
    ensures
        view_json(JsonValue::Obj(es)) == Jv::Obj(obj_entries_view(es@)),
{
    assert(view_json(JsonValue::Obj(es))->Obj_0 =~= obj_entries_view(es@));
}

/// Index of the first entry whose key reads `k`, if any.
#[verifier::loop_isolation(false)]
fn obj_find(es: &Vec<(String, JsonValue)>, k: &String) -> (r: Option<usize>)
    ensures
        match r {
            Some(i) => i < es@.len() && es@[i as int].0@ == k@ && (forall|j: int|
                0 <= j < i ==> es@[j].0@ != k@),
            None => forall|j: int| 0 <= j < es@.len() ==> es@[j].0@ != k@,
        },
{
    let mut i: usize = 0;
    while i < es.len()
        invariant
            i <= es@.len(),
            forall|j: int| 0 <= j < i ==> es@[j].0@ != k@,
        decreases es@.len() - i,
    {
        if es[i].0.eq(k) {
            return Some(i);
        }
        i += 1;
    }
    None
}

/// Copy a document.
#[verifier::loop_isolation(false)]
pub fn clone_json(v: &JsonValue) -> (r: JsonValue)
    ensures
        r@ == v@,
    decreases v,
{
    match v {
        JsonValue::Null => JsonValue::Null,
        JsonValue::Bool(b) => JsonValue::Bool(*b),
        JsonValue::Int(i) => JsonValue::Int(*i),
        JsonValue::Text(s) => JsonValue::Text(s.clone()),
        JsonValue::Arr(xs) => {
            let mut out: Vec<JsonValue> = Vec::new();
            let mut i: usize = 0;
            while i < xs.len()
                invariant
                    i <= xs@.len(),
                    out@.len() == i as int,
                    forall|j: int| 0 <= j < i ==> #[trigger] out@[j]@ == xs@[j]@,
                decreases xs@.len() - i,
            {
                out.push(clone_json(&xs[i]));
                i += 1;
            }
            let r = JsonValue::Arr(out);
            proof {
                assert(*v == JsonValue::Arr(*xs));
                assert(out@.len() == xs@.len());
                assert forall|j: int| 0 <= j < xs@.len() implies r@->Arr_0[j] == v@->Arr_0[j] by {
                    assert(r@->Arr_0[j] == out@[j]@);
                    assert(v@->Arr_0[j] == xs@[j]@);
                }
                assert(r@->Arr_0 =~= v@->Arr_0);
            }
            r
        },
        JsonValue::Obj(es) => {
            let mut out: Vec<(String, JsonValue)> = Vec::new();
            let mut i: usize = 0;
            while i < es.len()
                invariant
                    i <= es@.len(),
                    out@.len() == i as int,
                    forall|j: int|
                        0 <= j < i ==> #[trigger] out@[j].0@ == es@[j].0@ && out@[j].1@
                            == es@[j].1@,
                decreases es@.len() - i,
            {
                let key = es[i].0.clone();
                let val = clone_json(&es[i].1);
                out.push((key, val));
                i += 1;
            }
            let r = JsonValue::Obj(out);
            proof {
                assert(*v == JsonValue::Obj(*es));
                assert(out@.len() == es@.len());
                assert forall|j: int| 0 <= j < es@.len() implies r@->Obj_0[j] == v@->Obj_0[j] by {
                    assert(r@->Obj_0[j] == (out@[j].0@, out@[j].1@));
                    assert(v@->Obj_0[j] == (es@[j].0@, es@[j].1@));
                }
                assert(r@->Obj_0 =~= v@->Obj_0);
            }
            r
        },
    }
}

impl Clone for JsonValue {
    /// Copy the document unchanged.
    fn clone(&self) -> (r: Self)
        ensures
            r@ == self@,
    {
        clone_json(self)
    }
}

/// Decide whether a document is well-formed: every object's keys unique.
#[verifier::loop_isolation(false)]
pub fn json_check_wf(v: &JsonValue) -> (r: bool)
    ensures
        r == jv_wf(v@),
    decreases v,
{
    match v {
        JsonValue::Null => true,
        JsonValue::Bool(_) => true,
        JsonValue::Int(_) => true,
        JsonValue::Text(_) => true,
        JsonValue::Arr(xs) => {
            let mut i: usize = 0;
            while i < xs.len()
                invariant
                    i <= xs@.len(),
                    forall|j: int| 0 <= j < i ==> jv_wf(#[trigger] xs@[j]@),
                decreases xs@.len() - i,
            {
                if !json_check_wf(&xs[i]) {
                    assert(v@->Arr_0[i as int] == xs@[i as int]@);
                    return false;
                }
                i += 1;
            }
            assert forall|j: int| 0 <= j < v@->Arr_0.len() implies jv_wf(v@->Arr_0[j]) by {
                assert(v@->Arr_0[j] == xs@[j]@);
            }
            true
        },
        JsonValue::Obj(es) => {
            proof {
                lemma_obj_view(*es);
                lemma_assoc_unique_iff_distinct(obj_entries_view(es@));
            }
            let mut i: usize = 0;
            while i < es.len()
                invariant
                    i <= es@.len(),
                    v@ == Jv::Obj(obj_entries_view(es@)),
                    forall|j: int| 0 <= j < i ==> jv_wf(#[trigger] es@[j].1@),
                    forall|a: int, b: int|
                        0 <= a < b < es@.len() && a < i ==> obj_entries_view(es@)[a].0
                            != obj_entries_view(es@)[b].0,
                decreases es@.len() - i,
            {
                let mut j: usize = i + 1;
                while j < es.len()
                    invariant
                        i + 1 <= j <= es@.len(),
                        forall|b: int|
                            i < b < j ==> obj_entries_view(es@)[i as int].0
                                != obj_entries_view(es@)[b].0,
                    decreases es@.len() - j,
                {
                    if es[j].0.eq(&es[i].0) {
                        proof {
                            assert(obj_entries_view(es@)[i as int].0 == es@[i as int].0@);
                            assert(obj_entries_view(es@)[j as int].0 == es@[j as int].0@);
                            lemma_assoc_unique_iff_distinct(obj_entries_view(es@));
                            assert(!assoc_unique(obj_entries_view(es@)));
                        }
                        return false;
                    }
                    j += 1;
                }
                if !json_check_wf(&es[i].1) {
                    proof {
                        assert(obj_entries_view(es@)[i as int].1 == es@[i as int].1@);
                        assert(!jv_wf(v@));
                    }
                    return false;
                }
                i += 1;
            }
            proof {
                lemma_assoc_unique_iff_distinct(obj_entries_view(es@));
                assert forall|j: int| 0 <= j < obj_entries_view(es@).len() implies jv_wf(
                    obj_entries_view(es@)[j].1,
                ) by {
                    assert(obj_entries_view(es@)[j].1 == es@[j].1@);
                }
            }
            true
        },
    }
}

/// Merge two documents, the second winning outside objects.
#[verifier::loop_isolation(false)]
pub fn json_merge(a: JsonValue, b: JsonValue) -> (r: JsonValue)
    ensures
        r@ == merge_jv(a@, b@),
    decreases a,
{
    let ghost a0 = a;
    let ghost b0 = b;
    match (a, b) {
        (JsonValue::Obj(ae), JsonValue::Obj(be)) => {
            let ghost ae_init = ae;
            let mut ae = ae;
            let mut be = be;
            let ghost target = merge_entries(obj_entries_view(ae@), obj_entries_view(be@));
            proof {
                lemma_obj_view(ae_init);
                lemma_obj_view(be);
            }
            let mut out: Vec<(String, JsonValue)> = Vec::new();
            let ghost mut consumed: int = 0;
            while ae.len() > 0
                invariant
                    target =~= obj_entries_view(out@) + merge_entries(
                        obj_entries_view(ae@),
                        obj_entries_view(be@),
                    ),
                    0 <= consumed,
                    consumed + ae@.len() == ae_init@.len(),
                    forall|j: int| 0 <= j < ae@.len() ==> ae@[j] == ae_init@[consumed + j],
                decreases ae@.len(),
            {
                let ghost pre_ae = obj_entries_view(ae@);
                let ghost pre_be = obj_entries_view(be@);
                let (k, av) = ae.remove(0);
                proof {
                    assert(av == ae_init@[consumed].1);
                    assert(decreases_to!(a0 => ae_init));
                    assert(decreases_to!(ae_init => ae_init@));
                    assert(decreases_to!(ae_init@ => ae_init@[consumed]));
                    assert(decreases_to!(ae_init@[consumed] => ae_init@[consumed].1));
                }
                let m = match obj_find(&be, &k) {
                    Some(j) => {
                        let ghost be_pre = be;
                        let (_, bv) = be.remove(j);
                        proof {
                            assert(decreases_to!(a0 => av));
                            lemma_assoc_get_first_match(pre_be, k@, j as int);
                            lemma_assoc_remove_at_index(pre_be, k@, j as int);
                            assert(obj_entries_view(be@) =~= assoc_remove(pre_be, k@));
                        }
                        json_merge(av, bv)
                    },
                    None => {
                        proof {
                            lemma_assoc_get_none_iff(pre_be, k@);
                            lemma_assoc_remove_absent(pre_be, k@);
                            assert(obj_entries_view(be@) =~= assoc_remove(pre_be, k@));
                        }
                        av
                    },
                };
                out.push((k, m));
                proof {
                    consumed = consumed + 1;
                    assert(obj_entries_view(ae@) =~= pre_ae.drop_first());
                    assert(merge_entries(pre_ae, pre_be) =~= seq![(pre_ae[0].0, m@)]
                        + merge_entries(pre_ae.drop_first(), assoc_remove(pre_be, k@)));
                    assert(obj_entries_view(out@) =~= obj_entries_view(out@.drop_last()).push(
                        (k@, m@),
                    ));
                }
            }
            while be.len() > 0
                invariant
                    target =~= obj_entries_view(out@) + obj_entries_view(be@),
                decreases be@.len(),
            {
                let ghost pre_be = obj_entries_view(be@);
                let e = be.remove(0);
                out.push(e);
                proof {
                    assert(obj_entries_view(be@) =~= pre_be.drop_first());
                    assert(obj_entries_view(out@) =~= obj_entries_view(out@.drop_last()).push(
                        (e.0@, e.1@),
                    ));
                }
            }
            let r = JsonValue::Obj(out);
            proof {
                lemma_obj_view(r->Obj_0);
                assert(obj_entries_view(r->Obj_0@) =~= target);
            }
            r
        },
        (_, b_other) => {
            proof {
                assert(merge_jv(a0@, b0@) == b0@);
            }
            b_other
        },
    }
}

/// Law: a value stored under a non-empty path is then found, and once
/// deleted is absent.
pub proof fn law_set_delete_roundtrip(j: Jv, path: Seq<Seq<char>>, v: Jv)
    requires
        jv_wf(j),
        jv_wf(v),
        path.len() > 0,
    ensures
        get_path(set_path(j, path, v), path) == Some(v),
        delete_path(set_path(j, path, v), path) is Some,
        get_path(delete_path(set_path(j, path, v), path)->Some_0, path) is None,
{
    law_set_then_get(j, path, v);
    lemma_set_path_wf(j, path, v);
    lemma_get_some_delete_some(set_path(j, path, v), path);
    law_delete_then_absent(set_path(j, path, v), path);
}

/// Read the subtree under `path`, starting at segment `idx`.
#[verifier::loop_isolation(false)]
pub fn json_get_path<'a>(j: &'a JsonValue, path: &Vec<String>, idx: usize) -> (r: Option<
    &'a JsonValue,
>)
    requires
        idx <= path@.len(),
    ensures
        match r {
            Some(x) => get_path(j@, path.deep_view().skip(idx as int)) == Some(x@),
            None => get_path(j@, path.deep_view().skip(idx as int)) is None,
        },
    decreases path@.len() - idx,
{
    let ghost rest = path.deep_view().skip(idx as int);
    if idx == path.len() {
        proof {
            assert(rest =~= Seq::<Seq<char>>::empty());
        }
        Some(j)
    } else {
        proof {
            assert(rest[0] == path@[idx as int]@);
            assert(rest.drop_first() =~= path.deep_view().skip(idx as int + 1));
        }
        match j {
            JsonValue::Obj(es) => {
                proof {
                    lemma_obj_view(*es);
                }
                match obj_find(es, &path[idx]) {
                    Some(i) => {
                        proof {
                            assert forall|x: int| 0 <= x < i implies obj_entries_view(es@)[x].0
                                != rest[0] by {
                                assert(obj_entries_view(es@)[x].0 == es@[x].0@);
                            }
                            assert(obj_entries_view(es@)[i as int].0 == es@[i as int].0@);
                            lemma_assoc_get_first_match(obj_entries_view(es@), rest[0], i as int);
                            assert(obj_entries_view(es@)[i as int].1 == es@[i as int].1@);
                        }
                        json_get_path(&es[i].1, path, idx + 1)
                    },
                    None => {
                        proof {
                            assert forall|x: int|
                                0 <= x < obj_entries_view(es@).len() implies obj_entries_view(
                                es@,
                            )[x].0 != rest[0] by {
                                assert(obj_entries_view(es@)[x].0 == es@[x].0@);
                            }
                            lemma_assoc_get_none_iff(obj_entries_view(es@), rest[0]);
                        }
                        None
                    },
                }
            },
            _ => None,
        }
    }
}

/// Store `v` under `path`, starting at segment `idx`; intermediate
/// objects are created as needed.
#[verifier::loop_isolation(false)]
pub fn json_set_path(j: JsonValue, path: &Vec<String>, idx: usize, v: JsonValue) -> (r: JsonValue)
    requires
        idx <= path@.len(),
    ensures
        r@ == set_path(j@, path.deep_view().skip(idx as int), v@),
    decreases path@.len() - idx,
{
    let ghost rest = path.deep_view().skip(idx as int);
    let ghost j0 = j;
    if idx == path.len() {
        proof {
            assert(rest =~= Seq::<Seq<char>>::empty());
        }
        v
    } else {
        proof {
            assert(rest[0] == path@[idx as int]@);
            assert(rest.drop_first() =~= path.deep_view().skip(idx as int + 1));
        }
        let mut es: Vec<(String, JsonValue)> = match j {
            JsonValue::Obj(entries) => entries,
            _ => Vec::new(),
        };
        let ghost es0 = obj_entries_view(es@);
        proof {
            if j0@ is Obj {
                lemma_obj_view(es);
                assert(es0 =~= j0@->Obj_0);
            } else {
                assert(es0 =~= Seq::<(Seq<char>, Jv)>::empty());
            }
        }
        match obj_find(&es, &path[idx]) {
            Some(i) => {
                proof {
                    assert forall|x: int| 0 <= x < i implies es0[x].0 != rest[0] by {
                        assert(es0[x].0 == es@[x].0@);
                    }
                    assert(es0[i as int].0 == es@[i as int].0@);
                    lemma_assoc_get_first_match(es0, rest[0], i as int);
                    assert(es0[i as int].1 == es@[i as int].1@);
                }
                let (k, child) = es.remove(i);
                let sub = json_set_path(child, path, idx + 1, v);
                es.insert(i, (k, sub));
                proof {
                    lemma_assoc_set_at_index(es0, rest[0], sub@, i as int);
                    assert(obj_entries_view(es@) =~= assoc_set(es0, rest[0], sub@));
                }
                let r = JsonValue::Obj(es);
                proof {
                    lemma_obj_view(r->Obj_0);
                }
                r
            },
            None => {
                proof {
                    assert forall|x: int| 0 <= x < es0.len() implies es0[x].0 != rest[0] by {
                        assert(es0[x].0 == es@[x].0@);
                    }
                    lemma_assoc_get_none_iff(es0, rest[0]);
                }
                let key = path[idx].clone();
                let empty_obj = JsonValue::Obj(Vec::new());
                proof {
                    assert(empty_obj@->Obj_0 =~= Seq::<(Seq<char>, Jv)>::empty());
                }
                let sub = json_set_path(empty_obj, path, idx + 1, v);
                es.push((key, sub));
                proof {
                    lemma_assoc_set_absent(es0, rest[0], sub@);
                    assert(obj_entries_view(es@) =~= assoc_set(es0, rest[0], sub@));
                }
                let r = JsonValue::Obj(es);
                proof {
                    lemma_obj_view(r->Obj_0);
                }
                r
            },
        }
    }
}

/// Remove the entry under `path`, starting at segment `idx`. A miss
/// returns the document unchanged as the error.
#[verifier::loop_isolation(false)]
pub fn json_delete_path(j: JsonValue, path: &Vec<String>, idx: usize) -> (r: Result<
    JsonValue,
    JsonValue,
>)
    requires
        idx <= path@.len(),
    ensures
        match r {
            Ok(out) => delete_path(j@, path.deep_view().skip(idx as int)) == Some(out@),
            Err(orig) => orig@ == j@ && delete_path(j@, path.deep_view().skip(idx as int))
                is None,
        },
    decreases path@.len() - idx,
{
    let ghost rest = path.deep_view().skip(idx as int);
    let ghost j0 = j;
    if idx == path.len() {
        proof {
            assert(rest =~= Seq::<Seq<char>>::empty());
        }
        Err(j)
    } else {
        proof {
            assert(rest[0] == path@[idx as int]@);
            assert(rest.drop_first() =~= path.deep_view().skip(idx as int + 1));
        }
        match j {
            JsonValue::Obj(entries) => {
                let mut es = entries;
                let ghost es0 = obj_entries_view(es@);
                proof {
                    lemma_obj_view(es);
                    assert(es0 =~= j0@->Obj_0);
                }
                match obj_find(&es, &path[idx]) {
                    Some(i) => {
                        proof {
                            assert forall|x: int| 0 <= x < i implies es0[x].0 != rest[0] by {
                                assert(es0[x].0 == es@[x].0@);
                            }
                            assert(es0[i as int].0 == es@[i as int].0@);
                            lemma_assoc_get_first_match(es0, rest[0], i as int);
                            assert(es0[i as int].1 == es@[i as int].1@);
                        }
                        if idx + 1 == path.len() {
                            let _ = es.remove(i);
                            proof {
                                lemma_assoc_remove_at_index(es0, rest[0], i as int);
                                assert(obj_entries_view(es@) =~= assoc_remove(es0, rest[0]));
                            }
                            let r = JsonValue::Obj(es);
                            proof {
                                lemma_obj_view(r->Obj_0);
                                assert(rest.len() == 1);
                            }
                            Ok(r)
                        } else {
                            let (k, child) = es.remove(i);
                            match json_delete_path(child, path, idx + 1) {
                                Ok(c2) => {
                                    es.insert(i, (k, c2));
                                    proof {
                                        lemma_assoc_set_at_index(es0, rest[0], c2@, i as int);
                                        assert(obj_entries_view(es@) =~= assoc_set(
                                            es0,
                                            rest[0],
                                            c2@,
                                        ));
                                    }
                                    let r = JsonValue::Obj(es);
                                    proof {
                                        lemma_obj_view(r->Obj_0);
                                    }
                                    Ok(r)
                                },
                                Err(child_back) => {
                                    es.insert(i, (k, child_back));
                                    let r = JsonValue::Obj(es);
                                    proof {
                                        lemma_obj_view(r->Obj_0);
                                        assert(obj_entries_view(es@) =~= es0);
                                    }
                                    Err(r)
                                },
                            }
                        }
                    },
                    None => {
                        proof {
                            assert forall|x: int| 0 <= x < es0.len() implies es0[x].0
                                != rest[0] by {
                                assert(es0[x].0 == es@[x].0@);
                            }
                            lemma_assoc_get_none_iff(es0, rest[0]);
                        }
                        let r = JsonValue::Obj(es);
                        proof {
                            lemma_obj_view(r->Obj_0);
                            assert(obj_entries_view(es@) =~= es0);
                        }
                        Err(r)
                    },
                }
            },
            other => Err(other),
        }
    }
}

/// Decide structural equality of two documents.
#[verifier::loop_isolation(false)]
pub fn json_eq(a: &JsonValue, b: &JsonValue) -> (r: bool)
    ensures
        r == (a@ == b@),
    decreases a,
{
    match (a, b) {
        (JsonValue::Null, JsonValue::Null) => true,
        (JsonValue::Bool(x), JsonValue::Bool(y)) => x == y,
        (JsonValue::Int(x), JsonValue::Int(y)) => x == y,
        (JsonValue::Text(x), JsonValue::Text(y)) => x.eq(y),
        (JsonValue::Arr(xs), JsonValue::Arr(ys)) => {
            proof {
                assert(a@->Arr_0.len() == xs@.len());
                assert(b@->Arr_0.len() == ys@.len());
            }
            if xs.len() != ys.len() {
                return false;
            }
            let mut i: usize = 0;
            while i < xs.len()
                invariant
                    i <= xs@.len(),
                    forall|j: int| 0 <= j < i ==> #[trigger] xs@[j]@ == ys@[j]@,
                decreases xs@.len() - i,
            {
                if !json_eq(&xs[i], &ys[i]) {
                    proof {
                        assert(a@->Arr_0[i as int] == xs@[i as int]@);
                        assert(b@->Arr_0[i as int] == ys@[i as int]@);
                    }
                    return false;
                }
                i += 1;
            }
            proof {
                assert forall|j: int| 0 <= j < xs@.len() implies a@->Arr_0[j] == b@->Arr_0[j] by {
                    assert(a@->Arr_0[j] == xs@[j]@);
                    assert(b@->Arr_0[j] == ys@[j]@);
                }
                assert(a@->Arr_0 =~= b@->Arr_0);
            }
            true
        },
        (JsonValue::Obj(xs), JsonValue::Obj(ys)) => {
            proof {
                assert(a@->Obj_0.len() == xs@.len());
                assert(b@->Obj_0.len() == ys@.len());
            }
            if xs.len() != ys.len() {
                return false;
            }
            let mut i: usize = 0;
            while i < xs.len()
                invariant
                    i <= xs@.len(),
                    forall|j: int| 0 <= j < i ==> #[trigger] xs@[j].0@ == ys@[j].0@,
                    forall|j: int| 0 <= j < i ==> #[trigger] xs@[j].1@ == ys@[j].1@,
                decreases xs@.len() - i,
            {
                if !xs[i].0.eq(&ys[i].0) {
                    proof {
                        assert(a@->Obj_0[i as int].0 == xs@[i as int].0@);
                        assert(b@->Obj_0[i as int].0 == ys@[i as int].0@);
                    }
                    return false;
                }
                if !json_eq(&xs[i].1, &ys[i].1) {
                    proof {
                        assert(a@->Obj_0[i as int].1 == xs@[i as int].1@);
                        assert(b@->Obj_0[i as int].1 == ys@[i as int].1@);
                    }
                    return false;
                }
                proof {
                    assert(xs@[i as int].0@ == ys@[i as int].0@);
                    assert(xs@[i as int].1@ == ys@[i as int].1@);
                }
                i += 1;
            }
            proof {
                assert forall|j: int| 0 <= j < a@->Obj_0.len() implies a@->Obj_0[j] == b@
                    ->Obj_0[j] by {
                    assert(a@->Obj_0[j] == (xs@[j].0@, xs@[j].1@));
                    assert(b@->Obj_0[j] == (ys@[j].0@, ys@[j].1@));
                }
                assert(a@->Obj_0 =~= b@->Obj_0);
            }
            true
        },
        _ => {
            assert(a@ != b@);
            false
        },
    }
}

} // verus!
