//! Vector clocks: per-peer monotone counters that order context updates.

use vstd::prelude::*;
use crate::assoc::{
    assoc_get, assoc_set, assoc_unique, lemma_assoc_get_first_match, lemma_assoc_get_none_iff,
    lemma_assoc_get_some_at, lemma_assoc_set_absent, lemma_assoc_set_at_index,
    lemma_assoc_set_get, lemma_assoc_set_unique,
};
use crate::peer::PeerId;

verus! {

broadcast use vstd::std_specs::vec::group_vec_axioms;

/// A mapping from peer id to a monotone counter. Peers that are absent
/// count as zero.
pub struct VectorClock {
    entries: Vec<(PeerId, u64)>,
}

/// The model of the clock's entries: each peer's text with its counter.
pub open spec fn clock_entries_view(es: Seq<(PeerId, u64)>) -> Seq<(Seq<char>, u64)> {
    Seq::new(es.len(), |i: int| (es[i].0@, es[i].1))
}

/// The component of a clock under peer `p`: its stored counter, or zero.
pub open spec fn clock_at(c: Seq<(Seq<char>, u64)>, p: Seq<char>) -> nat {
    match assoc_get(c, p) {
        Some(n) => n as nat,
        None => 0,
    }
}

/// Every component of `a` is at least the matching component of `b`.
pub open spec fn clock_geq(a: Seq<(Seq<char>, u64)>, b: Seq<(Seq<char>, u64)>) -> bool {
    forall|p: Seq<char>| clock_at(a, p) >= clock_at(b, p)
}

/// The two clocks agree on every component.
pub open spec fn clock_eq(a: Seq<(Seq<char>, u64)>, b: Seq<(Seq<char>, u64)>) -> bool {
    forall|p: Seq<char>| clock_at(a, p) == clock_at(b, p)
}

/// `a` dominates `b`: at least as large everywhere and larger somewhere.
pub open spec fn clock_dominates(a: Seq<(Seq<char>, u64)>, b: Seq<(Seq<char>, u64)>) -> bool {
    clock_geq(a, b) && !clock_eq(a, b)
}

/// How two clocks compare.
#[derive(PartialEq, Eq, Structural, Clone, Copy, Debug)]
pub enum ClockOrder {
    /// Every component agrees.
    Equal,
    /// The first clock dominates the second.
    Dominates,
    /// The second clock dominates the first.
    Dominated,
    /// Neither dominates: the clocks are concurrent.
    Concurrent,
}

/// The canonical comparison of two clocks.
pub open spec fn clock_cmp(a: Seq<(Seq<char>, u64)>, b: Seq<(Seq<char>, u64)>) -> ClockOrder {
    if clock_eq(a, b) {
        ClockOrder::Equal
    } else if clock_geq(a, b) {
        ClockOrder::Dominates
    } else if clock_geq(b, a) {
        ClockOrder::Dominated
    } else {
        ClockOrder::Concurrent
    }
}

impl View for VectorClock {
    type V = Seq<(Seq<char>, u64)>;

    closed spec fn view(&self) -> Seq<(Seq<char>, u64)> {
        clock_entries_view(self.entries@)
    }
}

impl VectorClock {
    /// No two entries name the same peer.
    pub closed spec fn wf(&self) -> bool {
        assoc_unique(self@)
    }

    /// The clock with every component zero.
    pub fn new() -> (r: VectorClock)
        ensures
            r.wf(),
            r@ =~= Seq::<(Seq<char>, u64)>::empty(),
    {
        let r = VectorClock { entries: Vec::new() };
        proof {
            assert(r@ =~= Seq::<(Seq<char>, u64)>::empty());
        }
        r
    }

    /// Index of the entry for peer text `p`, if one exists.
    #[verifier::loop_isolation(false)]
    fn find(&self, p: &PeerId) -> (r: Option<usize>)
        ensures
            match r {
                Some(i) => i < self@.len() && self@[i as int].0 == p@ && (forall|j: int|
                    0 <= j < i ==> self@[j].0 != p@),
                None => forall|j: int| 0 <= j < self@.len() ==> self@[j].0 != p@,
            },
    {
        let mut i: usize = 0;
        while i < self.entries.len()
            invariant
                i <= self.entries@.len(),
                forall|j: int| 0 <= j < i ==> self@[j].0 != p@,
            decreases self.entries@.len() - i,
        {
            if self.entries[i].0.same_peer(p) {
                return Some(i);
            }
            i += 1;
        }
        None
    }

    /// The component under peer `p`.
    pub fn get(&self, p: &PeerId) -> (r: u64)
        ensures
            r as nat == clock_at(self@, p@),
    {
        match self.find(p) {
            Some(i) => {
                proof {
                    lemma_assoc_get_first_match(self@, p@, i as int);
                }
                self.entries[i].1
            },
            None => {
                proof {
                    lemma_assoc_get_none_iff(self@, p@);
                }
                0
            },
        }
    }

    /// Raise the component under `p` by one.
    pub fn increment(&mut self, p: &PeerId)
        requires
            old(self).wf(),
            clock_at(old(self)@, p@) < u64::MAX,
        ensures
            final(self).wf(),
            final(self)@ =~= assoc_set(old(self)@, p@, (clock_at(old(self)@, p@) + 1) as u64),
            clock_at(final(self)@, p@) == clock_at(old(self)@, p@) + 1,
            forall|q: Seq<char>|
                q != p@ ==> clock_at(final(self)@, q) == clock_at(old(self)@, q),
    {
        let ghost pre = self@;
        let ghost newval = (clock_at(old(self)@, p@) + 1) as u64;
        match self.find(p) {
            Some(i) => {
                proof {
                    lemma_assoc_get_first_match(pre, p@, i as int);
                }
                let n = self.entries[i].1;
                let (k, _) = self.entries.remove(i);
                self.entries.insert(i, (k, n + 1));
                proof {
                    lemma_assoc_set_at_index(pre, p@, newval, i as int);
                    assert(self@ =~= assoc_set(pre, p@, newval));
                }
            },
            None => {
                proof {
                    lemma_assoc_get_none_iff(pre, p@);
                }
                let key = p.clone();
                self.entries.push((key, 1));
                proof {
                    lemma_assoc_set_absent(pre, p@, newval);
                    assert(self@ =~= assoc_set(pre, p@, newval));
                }
            },
        }
        proof {
            lemma_assoc_set_unique(pre, p@, newval);
            assert forall|q: Seq<char>| q != p@ implies clock_at(self@, q) == clock_at(
                pre,
                q,
            ) by {
                lemma_assoc_set_get(pre, p@, newval, q);
            }
            lemma_assoc_set_get(pre, p@, newval, p@);
        }
    }

    /// Take the pointwise maximum with `other`.
    #[verifier::loop_isolation(false)]
    pub fn merge_from(&mut self, other: &VectorClock)
        requires
            old(self).wf(),
            other.wf(),
        ensures
            final(self).wf(),
            forall|p: Seq<char>|
                clock_at(final(self)@, p) == if clock_at(old(self)@, p) >= clock_at(other@, p) {
                    clock_at(old(self)@, p)
                } else {
                    clock_at(other@, p)
                },
    {
        let ghost start = self@;
        let mut i: usize = 0;
        while i < other.entries.len()
            invariant
                self.wf(),
                i <= other.entries@.len(),
                forall|p: Seq<char>|
                    clock_at(self@, p) == if exists|j: int|
                        0 <= j < i && other@[j].0 == p && other@[j].1 as nat > clock_at(
                            start,
                            p,
                        ) {
                        clock_at(other@, p)
                    } else {
                        clock_at(start, p)
                    },
            decreases other.entries@.len() - i,
        {
            let ghost pre = self@;
            let p = &other.entries[i].0;
            let v = other.entries[i].1;
            proof {
                assert(other@[i as int] == (other.entries@[i as int].0@, other.entries@[i as int].1));
            }
            let mine = self.get(p);
            if v > mine {
                match self.find(p) {
                    Some(k) => {
                        proof {
                            lemma_assoc_get_first_match(pre, p@, k as int);
                        }
                        let (kk, _) = self.entries.remove(k);
                        self.entries.insert(k, (kk, v));
                        proof {
                            lemma_assoc_set_at_index(pre, p@, v, k as int);
                            assert(self@ =~= assoc_set(pre, p@, v));
                            lemma_assoc_set_unique(pre, p@, v);
                        }
                    },
                    None => {
                        proof {
                            lemma_assoc_get_none_iff(pre, p@);
                        }
                        let key = p.clone();
                        self.entries.push((key, v));
                        proof {
                            lemma_assoc_set_absent(pre, p@, v);
                            assert(self@ =~= assoc_set(pre, p@, v));
                            lemma_assoc_set_unique(pre, p@, v);
                        }
                    },
                }
                proof {
                    assert forall|q: Seq<char>| true implies clock_at(self@, q) == if q == p@ {
                        v as nat
                    } else {
                        clock_at(pre, q)
                    } by {
                        lemma_assoc_set_get(pre, p@, v, q);
                    }
                }
            }
            proof {
                let oi = i as int;
                assert forall|q: Seq<char>| true implies clock_at(self@, q) == if exists|j: int|
                    0 <= j < oi + 1 && other@[j].0 == q && other@[j].1 as nat > clock_at(
                        start,
                        q,
                    ) {
                    clock_at(other@, q)
                } else {
                    clock_at(start, q)
                } by {
                    if q == p@ {
                        if v as nat > clock_at(start, q) {
                            assert(other@[oi].0 == q && other@[oi].1 as nat > clock_at(start, q));
                            lemma_clock_entry_le(other@, oi, q);
                        } else {
                            if exists|j: int|
                                0 <= j < oi + 1 && other@[j].0 == q && other@[j].1 as nat
                                    > clock_at(start, q) {
                                let j = choose|j: int|
                                    0 <= j < oi + 1 && other@[j].0 == q && other@[j].1 as nat
                                        > clock_at(start, q);
                                lemma_clock_entry_le(other@, j, q);
                            }
                        }
                    } else {
                        if exists|j: int|
                            0 <= j < oi + 1 && other@[j].0 == q && other@[j].1 as nat > clock_at(
                                start,
                                q,
                            ) {
                            let j = choose|j: int|
                                0 <= j < oi + 1 && other@[j].0 == q && other@[j].1 as nat
                                    > clock_at(start, q);
                            assert(j < oi);
                        }
                    }
                }
            }
            i += 1;
        }
        proof {
            assert forall|p: Seq<char>| true implies clock_at(self@, p) == if clock_at(start, p)
                >= clock_at(other@, p) {
                clock_at(start, p)
            } else {
                clock_at(other@, p)
            } by {
                if clock_at(other@, p) > clock_at(start, p) {
                    assert(assoc_get(other@, p) is Some);
                    lemma_assoc_get_some_at(other@, p);
                    let j = choose|j: int|
                        0 <= j < other@.len() && other@[j].0 == p && other@[j].1 == assoc_get(
                            other@,
                            p,
                        )->Some_0;
                    assert(other@[j].0 == p && other@[j].1 as nat > clock_at(start, p));
                } else {
                    if exists|j: int|
                        0 <= j < other@.len() && other@[j].0 == p && other@[j].1 as nat
                            > clock_at(start, p) {
                        let j = choose|j: int|
                            0 <= j < other@.len() && other@[j].0 == p && other@[j].1 as nat
                                > clock_at(start, p);
                        lemma_clock_entry_le(other@, j, p);
                    }
                }
            }
        }
    }

    /// Compare with `other`.
    pub fn compare(&self, other: &VectorClock) -> (r: ClockOrder)
        requires
            self.wf(),
            other.wf(),
        ensures
            r == clock_cmp(self@, other@),
    {
        let geq = clock_covers(self, other);
        let leq = clock_covers(other, self);
        if geq && leq {
            proof {
                lemma_geq_both_eq(self@, other@);
            }
            ClockOrder::Equal
        } else if geq {
            ClockOrder::Dominates
        } else if leq {
            ClockOrder::Dominated
        } else {
            ClockOrder::Concurrent
        }
    }

    /// Clone this clock.
    #[verifier::loop_isolation(false)]
    pub fn duplicate(&self) -> (r: VectorClock)
        ensures
            r@ =~= self@,
            self.wf() ==> r.wf(),
    {
        let mut out: Vec<(PeerId, u64)> = Vec::new();
        let mut i: usize = 0;
        while i < self.entries.len()
            invariant
                i <= self.entries@.len(),
                out@.len() == i as int,
                forall|j: int|
                    0 <= j < i ==> #[trigger] out@[j].0@ == self.entries@[j].0@ && out@[j].1
                        == self.entries@[j].1,
            decreases self.entries@.len() - i,
        {
            let key = self.entries[i].0.clone();
            out.push((key, self.entries[i].1));
            i += 1;
        }
        let r = VectorClock { entries: out };
        proof {
            assert forall|j: int| 0 <= j < r@.len() implies r@[j] == self@[j] by {
                assert(r@[j] == (r.entries@[j].0@, r.entries@[j].1));
                assert(self@[j] == (self.entries@[j].0@, self.entries@[j].1));
            }
            assert(r@ =~= self@);
        }
        r
    }

    /// The entries as plain pairs of peer text and counter, for encoding.
    #[verifier::loop_isolation(false)]
    pub fn to_pairs(&self) -> (r: Vec<(String, u64)>)
        ensures
            r@.len() == self@.len(),
            forall|j: int|
                0 <= j < r@.len() ==> #[trigger] r@[j].0@ == self@[j].0 && r@[j].1 == self@[j].1,
    {
        let mut out: Vec<(String, u64)> = Vec::new();
        let mut i: usize = 0;
        while i < self.entries.len()
            invariant
                i <= self.entries@.len(),
                out@.len() == i as int,
                forall|j: int|
                    0 <= j < i ==> #[trigger] out@[j].0@ == self@[j].0 && out@[j].1 == self@[j].1,
            decreases self.entries@.len() - i,
        {
            let key = String::from_str(self.entries[i].0.as_text().as_str());
            proof {
                assert(self@[i as int] == (self.entries@[i as int].0@, self.entries@[i as int].1));
            }
            out.push((key, self.entries[i].1));
            i += 1;
        }
        out
    }

    /// Rebuild a clock from pairs of peer text and counter; later pairs
    /// win over earlier ones with the same peer.
    #[verifier::loop_isolation(false)]
    pub fn from_pairs(pairs: Vec<(String, u64)>) -> (r: VectorClock)
        ensures
            r.wf(),
            r@ == clock_of_pairs(string_pairs_view(pairs@)),
    {
        let mut out = VectorClock::new();
        let mut i: usize = 0;
        proof {
            assert(out@ =~= clock_of_pairs(string_pairs_view(pairs@).take(0)));
        }
        while i < pairs.len()
            invariant
                out.wf(),
                i <= pairs@.len(),
                out@ == clock_of_pairs(string_pairs_view(pairs@).take(i as int)),
            decreases pairs@.len() - i,
        {
            let ghost pre = out@;
            let key = PeerId::new(String::from_str(pairs[i].0.as_str()));
            let v = pairs[i].1;
            match out.find(&key) {
                Some(k) => {
                    proof {
                        lemma_assoc_get_first_match(pre, key@, k as int);
                    }
                    let (kk, _) = out.entries.remove(k);
                    out.entries.insert(k, (kk, v));
                    proof {
                        lemma_assoc_set_at_index(pre, key@, v, k as int);
                        assert(out@ =~= assoc_set(pre, key@, v));
                        lemma_assoc_set_unique(pre, key@, v);
                    }
                },
                None => {
                    proof {
                        lemma_assoc_get_none_iff(pre, key@);
                    }
                    out.entries.push((key, v));
                    proof {
                        lemma_assoc_set_absent(pre, key@, v);
                        assert(out@ =~= assoc_set(pre, key@, v));
                        lemma_assoc_set_unique(pre, key@, v);
                    }
                },
            }
            proof {
                let pv = string_pairs_view(pairs@);
                assert(pv.take(i as int + 1).drop_last() =~= pv.take(i as int));
                assert(pv.take(i as int + 1).last() == pv[i as int]);
                assert(pv[i as int] == (pairs@[i as int].0@, pairs@[i as int].1));
                assert(out@ == assoc_set(pre, pv[i as int].0, pv[i as int].1));
                assert(out@ == clock_of_pairs(pv.take(i as int + 1)));
            }
            i += 1;
        }
        proof {
            assert(string_pairs_view(pairs@).take(pairs@.len() as int) =~= string_pairs_view(
                pairs@,
            ));
        }
        out
    }
}

/// The model of a list of peer-text/counter pairs.
pub open spec fn string_pairs_view(ps: Seq<(String, u64)>) -> Seq<(Seq<char>, u64)> {
    Seq::new(ps.len(), |i: int| (ps[i].0@, ps[i].1))
}

/// The clock a list of pairs denotes: each pair written in order, a later
/// pair overwriting an earlier one with the same peer.
pub open spec fn clock_of_pairs(ps: Seq<(Seq<char>, u64)>) -> Seq<(Seq<char>, u64)>
    decreases ps.len(),
{
    if ps.len() == 0 {
        Seq::empty()
    } else {
        assoc_set(clock_of_pairs(ps.drop_last()), ps.last().0, ps.last().1)
    }
}

/// An entry's counter never exceeds the component the clock reads there.
proof fn lemma_clock_entry_le(c: Seq<(Seq<char>, u64)>, j: int, p: Seq<char>)
    requires
        assoc_unique(c),
        0 <= j < c.len(),
        c[j].0 == p,
    ensures
        c[j].1 as nat == clock_at(c, p),
    decreases c.len(),
{
    crate::assoc::lemma_assoc_unique_iff_distinct(c);
    assert forall|x: int| 0 <= x < j implies c[x].0 != p by {}
    lemma_assoc_get_first_match(c, p, j);
}

/// Whether every component of `a` is at least the matching one of `b`.
#[verifier::loop_isolation(false)]
fn clock_covers(a: &VectorClock, b: &VectorClock) -> (r: bool)
    requires
        a.wf(),
        b.wf(),
    ensures
        r == clock_geq(a@, b@),
{
    let pairs = &b.entries;
    let mut i: usize = 0;
    while i < pairs.len()
        invariant
            i <= pairs@.len(),
            forall|j: int| 0 <= j < i ==> clock_at(a@, #[trigger] b@[j].0) >= b@[j].1 as nat,
        decreases pairs@.len() - i,
    {
        let av = a.get(&pairs[i].0);
        proof {
            assert(b@[i as int] == (pairs@[i as int].0@, pairs@[i as int].1));
        }
        if av < pairs[i].1 {
            proof {
                lemma_clock_entry_le(b@, i as int, b@[i as int].0);
            }
            return false;
        }
        i += 1;
    }
    proof {
        assert forall|p: Seq<char>| true implies clock_at(a@, p) >= clock_at(b@, p) by {
            if assoc_get(b@, p) is Some {
                lemma_assoc_get_some_at(b@, p);
                let j = choose|j: int|
                    0 <= j < b@.len() && b@[j].0 == p && b@[j].1 == assoc_get(b@, p)->Some_0;
            }
        }
    }
    true
}

/// Clocks that cover each other agree everywhere.
pub proof fn lemma_geq_both_eq(a: Seq<(Seq<char>, u64)>, b: Seq<(Seq<char>, u64)>)
    requires
        clock_geq(a, b),
        clock_geq(b, a),
    ensures
        clock_eq(a, b),
{
    assert forall|p: Seq<char>| true implies clock_at(a, p) == clock_at(b, p) by {
        assert(clock_at(a, p) >= clock_at(b, p));
        assert(clock_at(b, p) >= clock_at(a, p));
    }
}

} // verus!
