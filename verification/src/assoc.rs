//! Association sequences: the mathematical model shared by JSON objects,
//! vector clocks, the stream registry and the bridge's session tables.
//! An association sequence is a sequence of key/value pairs read by first
//! match; the containers built on it keep their keys unique.

use vstd::prelude::*;

verus! {

/// The value under the first entry of `es` whose key is `k`, if any.
pub open spec fn assoc_get<K, V>(es: Seq<(K, V)>, k: K) -> Option<V>
    decreases es.len(),
{
    if es.len() == 0 {
        None
    } else if es[0].0 == k {
        Some(es[0].1)
    } else {
        assoc_get(es.drop_first(), k)
    }
}

/// Whether some entry of `es` carries the key `k`.
pub open spec fn assoc_has<K, V>(es: Seq<(K, V)>, k: K) -> bool {
    assoc_get(es, k) is Some
}

/// No two entries of `es` share a key.
pub open spec fn assoc_unique<K, V>(es: Seq<(K, V)>) -> bool
    decreases es.len(),
{
    es.len() == 0 || (assoc_get(es.drop_first(), es[0].0) is None && assoc_unique(es.drop_first()))
}

/// Replace the value under `k` in place where the key is present, else
/// append the new entry.
pub open spec fn assoc_set<K, V>(es: Seq<(K, V)>, k: K, v: V) -> Seq<(K, V)>
    decreases es.len(),
{
    if es.len() == 0 {
        seq![(k, v)]
    } else if es[0].0 == k {
        seq![(k, v)] + es.drop_first()
    } else {
        seq![es[0]] + assoc_set(es.drop_first(), k, v)
    }
}

/// Drop the first entry whose key is `k`; leave `es` as it is when the key
/// is absent.
pub open spec fn assoc_remove<K, V>(es: Seq<(K, V)>, k: K) -> Seq<(K, V)>
    decreases es.len(),
{
    if es.len() == 0 {
        es
    } else if es[0].0 == k {
        es.drop_first()
    } else {
        seq![es[0]] + assoc_remove(es.drop_first(), k)
    }
}

/// A lookup resolves to the entry at the first matching index.
pub proof fn lemma_assoc_get_first_match<K, V>(es: Seq<(K, V)>, k: K, i: int)
    requires
        0 <= i < es.len(),
        es[i].0 == k,
        forall|j: int| 0 <= j < i ==> es[j].0 != k,
    ensures
        assoc_get(es, k) == Some(es[i].1),
    decreases i,
{
    if i > 0 {
        lemma_assoc_get_first_match(es.drop_first(), k, i - 1);
    }
}

/// A lookup misses exactly when no entry carries the key.
pub proof fn lemma_assoc_get_none_iff<K, V>(es: Seq<(K, V)>, k: K)
    ensures
        (assoc_get(es, k) is None) <==> (forall|j: int| 0 <= j < es.len() ==> es[j].0 != k),
    decreases es.len(),
{
    if es.len() > 0 {
        lemma_assoc_get_none_iff(es.drop_first(), k);
        if es[0].0 != k && assoc_get(es.drop_first(), k) is None {
            assert forall|j: int| 0 <= j < es.len() implies es[j].0 != k by {
                if j > 0 {
                    assert(es.drop_first()[j - 1] == es[j]);
                }
            }
        }
        if forall|j: int| 0 <= j < es.len() ==> es[j].0 != k {
            assert forall|j: int| 0 <= j < es.drop_first().len() implies es.drop_first()[j].0 != k by {
                assert(es.drop_first()[j] == es[j + 1]);
            }
        }
    }
}

/// A hit names an entry that is in the sequence.
pub proof fn lemma_assoc_get_some_at<K, V>(es: Seq<(K, V)>, k: K)
    requires
        assoc_get(es, k) is Some,
    ensures
        exists|i: int|
            0 <= i < es.len() && es[i].0 == k && es[i].1 == assoc_get(es, k)->Some_0,
    decreases es.len(),
{
    if es.len() > 0 && es[0].0 != k {
        lemma_assoc_get_some_at(es.drop_first(), k);
        let i = choose|i: int|
            0 <= i < es.drop_first().len() && es.drop_first()[i].0 == k && es.drop_first()[i].1
                == assoc_get(es.drop_first(), k)->Some_0;
        assert(es[i + 1] == es.drop_first()[i]);
    }
}

/// What a lookup sees after a `set`: the new value under its key, the old
/// ones elsewhere.
pub proof fn lemma_assoc_set_get<K, V>(es: Seq<(K, V)>, k: K, v: V, k2: K)
    ensures
        assoc_get(assoc_set(es, k, v), k2) == if k2 == k {
            Some(v)
        } else {
            assoc_get(es, k2)
        },
    decreases es.len(),
{
    if es.len() == 0 {
        let r = assoc_set(es, k, v);
        assert(r[0] == (k, v));
        assert(r.drop_first() =~= Seq::<(K, V)>::empty());
        assert(assoc_get(r.drop_first(), k2) is None);
        assert(assoc_get(r, k2) == if k2 == k { Some(v) } else { assoc_get(es, k2) });
    } else if es[0].0 == k {
        let r = assoc_set(es, k, v);
        assert(r[0] == (k, v));
        assert(r.drop_first() =~= es.drop_first());
        assert(assoc_get(r, k2) == if k2 == k { Some(v) } else { assoc_get(es, k2) });
    } else {
        let r = assoc_set(es, k, v);
        assert(r[0] == es[0]);
        assert(r.drop_first() =~= assoc_set(es.drop_first(), k, v));
        lemma_assoc_set_get(es.drop_first(), k, v, k2);
        assert(assoc_get(r, k2) == if k2 == k { Some(v) } else { assoc_get(es, k2) });
    }
}

/// `set` keeps keys unique.
pub proof fn lemma_assoc_set_unique<K, V>(es: Seq<(K, V)>, k: K, v: V)
    requires
        assoc_unique(es),
    ensures
        assoc_unique(assoc_set(es, k, v)),
    decreases es.len(),
{
    let r = assoc_set(es, k, v);
    if es.len() == 0 {
        assert(r[0] == (k, v));
        assert(r.drop_first() =~= Seq::<(K, V)>::empty());
        assert(assoc_get(r.drop_first(), r[0].0) is None);
        assert(assoc_unique(r.drop_first()));
        assert(assoc_unique(r));
    } else if es[0].0 == k {
        assert(r[0] == (k, v));
        assert(r.drop_first() =~= es.drop_first());
        assert(assoc_get(r.drop_first(), r[0].0) is None);
        assert(assoc_unique(r));
    } else {
        assert(r[0] == es[0]);
        assert(r.drop_first() =~= assoc_set(es.drop_first(), k, v));
        lemma_assoc_set_unique(es.drop_first(), k, v);
        lemma_assoc_set_get(es.drop_first(), k, v, es[0].0);
        assert(assoc_get(r.drop_first(), r[0].0) is None);
        assert(assoc_unique(r));
    }
}

/// What a lookup sees after a `remove`: nothing under the removed key,
/// the old values elsewhere.
pub proof fn lemma_assoc_remove_get<K, V>(es: Seq<(K, V)>, k: K, k2: K)
    requires
        assoc_unique(es),
    ensures
        assoc_get(assoc_remove(es, k), k2) == if k2 == k {
            None::<V>
        } else {
            assoc_get(es, k2)
        },
    decreases es.len(),
{
    if es.len() > 0 {
        let r = assoc_remove(es, k);
        if es[0].0 == k {
        } else {
            assert(r[0] == es[0]);
            assert(r.drop_first() =~= assoc_remove(es.drop_first(), k));
            lemma_assoc_remove_get(es.drop_first(), k, k2);
        }
    }
}

/// `remove` keeps keys unique.
pub proof fn lemma_assoc_remove_unique<K, V>(es: Seq<(K, V)>, k: K)
    requires
        assoc_unique(es),
    ensures
        assoc_unique(assoc_remove(es, k)),
    decreases es.len(),
{
    if es.len() > 0 {
        let r = assoc_remove(es, k);
        if es[0].0 == k {
        } else {
            assert(r[0] == es[0]);
            assert(r.drop_first() =~= assoc_remove(es.drop_first(), k));
            lemma_assoc_remove_unique(es.drop_first(), k);
            lemma_assoc_remove_get(es.drop_first(), k, es[0].0);
        }
    }
}

/// Removing an absent key changes nothing.
pub proof fn lemma_assoc_remove_absent<K, V>(es: Seq<(K, V)>, k: K)
    requires
        assoc_get(es, k) is None,
    ensures
        assoc_remove(es, k) == es,
    decreases es.len(),
{
    if es.len() == 0 {
        assert(assoc_remove(es, k) =~= es);
    } else {
        lemma_assoc_remove_absent(es.drop_first(), k);
        assert(assoc_remove(es, k) =~= seq![es[0]] + es.drop_first());
        assert(seq![es[0]] + es.drop_first() =~= es);
    }
}

/// With the first match at index `i`, `set` is an update in place.
pub proof fn lemma_assoc_set_at_index<K, V>(es: Seq<(K, V)>, k: K, v: V, i: int)
    requires
        0 <= i < es.len(),
        es[i].0 == k,
        forall|j: int| 0 <= j < i ==> es[j].0 != k,
    ensures
        assoc_set(es, k, v) =~= es.update(i, (k, v)),
    decreases i,
{
    if i == 0 {
        assert(assoc_set(es, k, v) =~= es.update(0, (k, v)));
    } else {
        assert forall|j: int| 0 <= j < i - 1 implies es.drop_first()[j].0 != k by {
            assert(es.drop_first()[j] == es[j + 1]);
        }
        assert(es.drop_first()[i - 1] == es[i]);
        lemma_assoc_set_at_index(es.drop_first(), k, v, i - 1);
        assert(assoc_set(es, k, v) =~= seq![es[0]] + assoc_set(es.drop_first(), k, v));
        assert(assoc_set(es, k, v) =~= es.update(i, (k, v)));
    }
}

/// With the key absent, `set` is an append.
pub proof fn lemma_assoc_set_absent<K, V>(es: Seq<(K, V)>, k: K, v: V)
    requires
        assoc_get(es, k) is None,
    ensures
        assoc_set(es, k, v) =~= es.push((k, v)),
    decreases es.len(),
{
    if es.len() > 0 {
        lemma_assoc_set_absent(es.drop_first(), k, v);
        assert(assoc_set(es, k, v) =~= seq![es[0]] + assoc_set(es.drop_first(), k, v));
        assert(seq![es[0]] + es.drop_first().push((k, v)) =~= es.push((k, v)));
    }
}

/// Unique keys, stated pairwise: no two indices carry the same key.
pub proof fn lemma_assoc_unique_iff_distinct<K, V>(es: Seq<(K, V)>)
    ensures
        assoc_unique(es) <==> (forall|i: int, j: int|
            0 <= i < j < es.len() ==> es[i].0 != es[j].0),
    decreases es.len(),
{
    if es.len() > 0 {
        lemma_assoc_unique_iff_distinct(es.drop_first());
        lemma_assoc_get_none_iff(es.drop_first(), es[0].0);
        if assoc_unique(es) {
            assert forall|i: int, j: int| 0 <= i < j < es.len() implies es[i].0 != es[j].0 by {
                if i == 0 {
                    assert(es.drop_first()[j - 1] == es[j]);
                } else {
                    assert(es.drop_first()[i - 1] == es[i]);
                    assert(es.drop_first()[j - 1] == es[j]);
                }
            }
        }
        if forall|i: int, j: int| 0 <= i < j < es.len() ==> es[i].0 != es[j].0 {
            assert forall|i: int, j: int|
                0 <= i < j < es.drop_first().len() implies es.drop_first()[i].0
                != es.drop_first()[j].0 by {
                assert(es.drop_first()[i] == es[i + 1]);
                assert(es.drop_first()[j] == es[j + 1]);
            }
            assert forall|j: int| 0 <= j < es.drop_first().len() implies es.drop_first()[j].0
                != es[0].0 by {
                assert(es.drop_first()[j] == es[j + 1]);
            }
        }
    }
}

/// A property of every value survives a `remove`.
pub proof fn lemma_assoc_remove_values<K, V>(es: Seq<(K, V)>, k: K, pred: spec_fn(V) -> bool)
    requires
        forall|i: int| 0 <= i < es.len() ==> pred(#[trigger] es[i].1),
    ensures
        forall|i: int|
            0 <= i < assoc_remove(es, k).len() ==> pred(#[trigger] assoc_remove(es, k)[i].1),
    decreases es.len(),
{
    if es.len() > 0 {
        let r = assoc_remove(es, k);
        if es[0].0 == k {
            assert forall|i: int| 0 <= i < r.len() implies pred(r[i].1) by {
                assert(r[i] == es[i + 1]);
            }
        } else {
            assert forall|i: int| 0 <= i < es.drop_first().len() implies pred(
                es.drop_first()[i].1,
            ) by {
                assert(es.drop_first()[i] == es[i + 1]);
            }
            lemma_assoc_remove_values(es.drop_first(), k, pred);
            assert forall|i: int| 0 <= i < r.len() implies pred(r[i].1) by {
                if i == 0 {
                    assert(r[0] == es[0]);
                } else {
                    assert(r[i] == assoc_remove(es.drop_first(), k)[i - 1]);
                }
            }
        }
    }
}

/// A property of every value, holding of the new one too, survives a `set`.
pub proof fn lemma_assoc_set_values<K, V>(es: Seq<(K, V)>, k: K, v: V, pred: spec_fn(V) -> bool)
    requires
        forall|i: int| 0 <= i < es.len() ==> pred(#[trigger] es[i].1),
        pred(v),
    ensures
        forall|i: int|
            0 <= i < assoc_set(es, k, v).len() ==> pred(#[trigger] assoc_set(es, k, v)[i].1),
    decreases es.len(),
{
    let r = assoc_set(es, k, v);
    if es.len() == 0 {
        assert(r[0] == (k, v));
    } else if es[0].0 == k {
        assert forall|i: int| 0 <= i < r.len() implies pred(r[i].1) by {
            if i == 0 {
                assert(r[0] == (k, v));
            } else {
                assert(r[i] == es[i]);
            }
        }
    } else {
        assert forall|i: int| 0 <= i < es.drop_first().len() implies pred(
            es.drop_first()[i].1,
        ) by {
            assert(es.drop_first()[i] == es[i + 1]);
        }
        lemma_assoc_set_values(es.drop_first(), k, v, pred);
        assert forall|i: int| 0 <= i < r.len() implies pred(r[i].1) by {
            if i == 0 {
                assert(r[0] == es[0]);
            } else {
                assert(r[i] == assoc_set(es.drop_first(), k, v)[i - 1]);
            }
        }
    }
}

/// With the first match at index `i`, `remove` takes out that entry.
pub proof fn lemma_assoc_remove_at_index<K, V>(es: Seq<(K, V)>, k: K, i: int)
    requires
        0 <= i < es.len(),
        es[i].0 == k,
        forall|j: int| 0 <= j < i ==> es[j].0 != k,
    ensures
        assoc_remove(es, k) =~= es.subrange(0, i) + es.subrange(i + 1, es.len() as int),
    decreases i,
{
    if i == 0 {
        assert(assoc_remove(es, k) =~= es.subrange(0, 0) + es.subrange(1, es.len() as int));
    } else {
        assert forall|j: int| 0 <= j < i - 1 implies es.drop_first()[j].0 != k by {
            assert(es.drop_first()[j] == es[j + 1]);
        }
        assert(es.drop_first()[i - 1] == es[i]);
        lemma_assoc_remove_at_index(es.drop_first(), k, i - 1);
        assert(assoc_remove(es, k) =~= seq![es[0]] + assoc_remove(es.drop_first(), k));
        assert(assoc_remove(es, k) =~= es.subrange(0, i) + es.subrange(i + 1, es.len() as int));
    }
}

} // verus!
