//! The per-peer context documents and their store: a JSON document per
//! peer, ordered by vector clocks, merged deterministically.

use vstd::prelude::*;
use crate::assoc::{
    assoc_get, assoc_set, assoc_unique, lemma_assoc_get_first_match, lemma_assoc_get_none_iff,
    lemma_assoc_set_absent, lemma_assoc_set_at_index, lemma_assoc_set_get, lemma_assoc_set_unique,
};
use crate::clock::{
    clock_at, clock_cmp, clock_dominates, clock_geq, lemma_geq_both_eq, ClockOrder, VectorClock,
};
use crate::json::{jv_wf, json_merge, lemma_merge_wf, merge_jv, JsonValue, Jv};
use crate::peer::PeerId;

verus! {

broadcast use vstd::std_specs::vec::group_vec_axioms;

/// One peer's context: its document, the clock that versions it, and
/// when it was last heard from.
pub struct AviContext {
    pub peer_id: PeerId,
    pub data: JsonValue,
    pub clock: VectorClock,
    pub last_seen_at: u64,
}

/// The model of one stored context.
#[verifier::ext_equal]
pub struct CtxModel {
    pub data: Jv,
    pub clock: Seq<(Seq<char>, u64)>,
    pub last_seen: nat,
}

/// The store: every peer's context, the local peer's included.
pub struct ContextStore {
    local: PeerId,
    entries: Vec<(PeerId, AviContext)>,
}

/// The model of the store's entries.
pub open spec fn store_view(es: Seq<(PeerId, AviContext)>) -> Seq<(Seq<char>, CtxModel)> {
    Seq::new(
        es.len(),
        |i: int|
            (
                es[i].0@,
                CtxModel {
                    data: es[i].1.data@,
                    clock: es[i].1.clock@,
                    last_seen: es[i].1.last_seen_at as nat,
                },
            ),
    )
}

/// The document stored for `p`, an empty object where none is.
pub open spec fn stored_data(sv: Seq<(Seq<char>, CtxModel)>, p: Seq<char>) -> Jv {
    match assoc_get(sv, p) {
        Some(m) => m.data,
        None => Jv::Obj(Seq::empty()),
    }
}

/// The clock stored for `p`, all zero where none is.
pub open spec fn stored_clock(sv: Seq<(Seq<char>, CtxModel)>, p: Seq<char>) -> Seq<
    (Seq<char>, u64),
> {
    match assoc_get(sv, p) {
        Some(m) => m.clock,
        None => Seq::empty(),
    }
}

/// The document an announce leaves behind: kept when stale, replaced
/// when the incoming clock dominates, merged when concurrent.
pub open spec fn announce_data(ld: Jv, d: Jv, lc: Seq<(Seq<char>, u64)>, c: Seq<(Seq<char>, u64)>) -> Jv {
    match clock_cmp(c, lc) {
        ClockOrder::Equal => ld,
        ClockOrder::Dominated => ld,
        ClockOrder::Dominates => d,
        ClockOrder::Concurrent => merge_jv(ld, d),
    }
}

/// The clock component an announce leaves behind: the larger side wins
/// pointwise.
pub open spec fn announce_clock_at(
    lc: Seq<(Seq<char>, u64)>,
    c: Seq<(Seq<char>, u64)>,
    q: Seq<char>,
) -> nat {
    match clock_cmp(c, lc) {
        ClockOrder::Equal => clock_at(lc, q),
        ClockOrder::Dominated => clock_at(lc, q),
        ClockOrder::Dominates => clock_at(c, q),
        ClockOrder::Concurrent => if clock_at(lc, q) >= clock_at(c, q) {
            clock_at(lc, q)
        } else {
            clock_at(c, q)
        },
    }
}

/// Whether an announce changes the stored state.
pub open spec fn announce_updates(lc: Seq<(Seq<char>, u64)>, c: Seq<(Seq<char>, u64)>) -> bool {
    clock_cmp(c, lc) == ClockOrder::Dominates || clock_cmp(c, lc) == ClockOrder::Concurrent
}

/// Law: of two states of one peer whose clocks are comparable, applying
/// them to each other in either order leaves the state with the larger
/// clock.
pub proof fn law_comparable_merge(
    ad: Jv,
    ac: Seq<(Seq<char>, u64)>,
    bd: Jv,
    bc: Seq<(Seq<char>, u64)>,
)
    requires
        clock_dominates(bc, ac),
    ensures
        announce_data(ad, bd, ac, bc) == bd,
        forall|q: Seq<char>| announce_clock_at(ac, bc, q) == clock_at(bc, q),
        announce_data(bd, ad, bc, ac) == bd,
        forall|q: Seq<char>| announce_clock_at(bc, ac, q) == clock_at(bc, q),
{
    assert(clock_cmp(bc, ac) == ClockOrder::Dominates);
    if clock_geq(ac, bc) {
        lemma_geq_both_eq(ac, bc);
        assert(false);
    }
    assert(clock_cmp(ac, bc) == ClockOrder::Dominated);
}

/// Law: the clock an announce leaves is at least the stored clock and at
/// least the incoming clock, pointwise: accepted states never move back.
pub proof fn law_announce_monotone(
    lc: Seq<(Seq<char>, u64)>,
    c: Seq<(Seq<char>, u64)>,
    q: Seq<char>,
)
    ensures
        announce_clock_at(lc, c, q) >= clock_at(lc, q) || !announce_updates(lc, c),
        announce_updates(lc, c) ==> announce_clock_at(lc, c, q) >= clock_at(c, q),
        !announce_updates(lc, c) ==> clock_at(lc, q) >= clock_at(c, q),
{
}

/// The clock after `n` updates made by the peer itself.
pub open spec fn clock_after_updates(
    lc: Seq<(Seq<char>, u64)>,
    me: Seq<char>,
    n: nat,
) -> Seq<(Seq<char>, u64)>
    decreases n,
{
    if n == 0 {
        lc
    } else {
        let prev = clock_after_updates(lc, me, (n - 1) as nat);
        assoc_set(prev, me, (clock_at(prev, me) + 1) as u64)
    }
}

/// Law: after `n` local updates, the peer's own clock component has
/// grown by exactly `n`.
pub proof fn law_update_count(lc: Seq<(Seq<char>, u64)>, me: Seq<char>, n: nat)
    requires
        clock_at(lc, me) + n <= u64::MAX,
    ensures
        clock_at(clock_after_updates(lc, me, n), me) == clock_at(lc, me) + n,
    decreases n,
{
    if n > 0 {
        law_update_count(lc, me, (n - 1) as nat);
        let prev = clock_after_updates(lc, me, (n - 1) as nat);
        lemma_assoc_set_get(prev, me, (clock_at(prev, me) + 1) as u64, me);
    }
}

impl View for ContextStore {
    type V = Seq<(Seq<char>, CtxModel)>;

    closed spec fn view(&self) -> Seq<(Seq<char>, CtxModel)> {
        store_view(self.entries@)
    }
}

impl ContextStore {
    /// Keys unique, every document well-formed, every clock well-formed.
    pub closed spec fn wf(&self) -> bool {
        &&& assoc_unique(self@)
        &&& forall|i: int| 0 <= i < self.entries@.len() ==> jv_wf(#[trigger] self.entries@[i].1.data@)
        &&& forall|i: int| 0 <= i < self.entries@.len() ==> (#[trigger] self.entries@[i].1.clock).wf()
    }

    /// The local peer's text.
    pub closed spec fn local_peer(&self) -> Seq<char> {
        self.local@
    }

    /// A fresh store: it holds only the local peer, with an empty
    /// document and an all-zero clock.
    pub fn new(local: PeerId) -> (r: ContextStore)
        ensures
            r.wf(),
            r.local_peer() == local@,
            stored_data(r@, local@) == Jv::Obj(Seq::<(Seq<char>, Jv)>::empty()),
            forall|q: Seq<char>| clock_at(stored_clock(r@, local@), q) == 0,
    {
        let me = local.clone();
        let ctx = AviContext {
            peer_id: local.clone(),
            data: JsonValue::Obj(Vec::new()),
            clock: VectorClock::new(),
            last_seen_at: 0,
        };
        let mut entries: Vec<(PeerId, AviContext)> = Vec::new();
        entries.push((me, ctx));
        let r = ContextStore { local, entries };
        proof {
            assert(r@[0].0 == local@);
            assert(r@.len() == 1);
            assert(r@.drop_first() =~= Seq::<(Seq<char>, CtxModel)>::empty());
            assert(assoc_get(r@, local@) == Some(r@[0].1));
            assert(r@[0].1.data->Obj_0 =~= Seq::<(Seq<char>, Jv)>::empty());
            assert(r@[0].1.data == Jv::Obj(Seq::<(Seq<char>, Jv)>::empty()));
            assert(assoc_get(r@.drop_first(), r@[0].0) is None);
            assert(assoc_unique(r@.drop_first()));
        }
        r
    }

    /// Index of the entry for peer text `p`, if one exists.
    #[verifier::loop_isolation(false)]
    fn find(&self, p: &PeerId) -> (r: Option<usize>)
        ensures
            match r {
                Some(i) => i < self@.len() && self@[i as int].0 == p@ && (forall|j: int|
                    0 <= j < i ==> self@[j].0 != p@),
                None => forall|j: int| 0 <= j < self@.len() ==> self@[j].0 != p@,
            },
    {
        let mut i: usize = 0;
        while i < self.entries.len()
            invariant
                i <= self.entries@.len(),
                forall|j: int| 0 <= j < i ==> self@[j].0 != p@,
            decreases self.entries@.len() - i,
        {
            if self.entries[i].0.same_peer(p) {
                return Some(i);
            }
            i += 1;
        }
        None
    }

    /// A copy of the document stored for `peer`, the local one where
    /// `peer` is absent from the call.
    pub fn get_data(&self, peer: Option<&PeerId>) -> (r: Option<JsonValue>)
        ensures
            match r {
                Some(d) => {
                    let p = match peer {
                        Some(q) => q@,
                        None => self.local_peer(),
                    };
                    assoc_get(self@, p) is Some && d@ == stored_data(self@, p)
                },
                None => {
                    let p = match peer {
                        Some(q) => q@,
                        None => self.local_peer(),
                    };
                    assoc_get(self@, p) is None
                },
            },
    {
        let target: &PeerId = match peer {
            Some(q) => q,
            None => &self.local,
        };
        match self.find(target) {
            Some(i) => {
                proof {
                    lemma_assoc_get_first_match(self@, target@, i as int);
                }
                Some(self.entries[i].1.data.clone())
            },
            None => {
                proof {
                    lemma_assoc_get_none_iff(self@, target@);
                }
                None
            },
        }
    }

    /// Make sure an entry for `p` exists, fresh and empty where none is.
    fn ensure_entry(&mut self, p: &PeerId, now: u64)
        requires
            old(self).wf(),
        ensures
            final(self).wf(),
            final(self).local_peer() == old(self).local_peer(),
            assoc_get(final(self)@, p@) is Some,
            stored_data(final(self)@, p@) == stored_data(old(self)@, p@),
            stored_clock(final(self)@, p@) == stored_clock(old(self)@, p@),
            forall|q: Seq<char>|
                q != p@ ==> assoc_get(final(self)@, q) == assoc_get(old(self)@, q),
    {
        let ghost pre = self@;
        match self.find(p) {
            Some(i) => {
                proof {
                    lemma_assoc_get_first_match(pre, p@, i as int);
                }
            },
            None => {
                proof {
                    lemma_assoc_get_none_iff(pre, p@);
                }
                let ctx = AviContext {
                    peer_id: p.clone(),
                    data: JsonValue::Obj(Vec::new()),
                    clock: VectorClock::new(),
                    last_seen_at: now,
                };
                let key = p.clone();
                self.entries.push((key, ctx));
                proof {
                    let m = CtxModel {
                        data: self.entries@.last().1.data@,
                        clock: self.entries@.last().1.clock@,
                        last_seen: now as nat,
                    };
                    lemma_assoc_set_absent(pre, p@, m);
                    assert(self@ =~= assoc_set(pre, p@, m));
                    lemma_assoc_set_unique(pre, p@, m);
                    lemma_assoc_set_get(pre, p@, m, p@);
                    assert(m.data->Obj_0 =~= Seq::<(Seq<char>, Jv)>::empty());
                    assert(m.data == Jv::Obj(Seq::<(Seq<char>, Jv)>::empty()));
                    assert(m.clock =~= Seq::<(Seq<char>, u64)>::empty());
                    assert forall|q: Seq<char>| q != p@ implies assoc_get(self@, q) == assoc_get(
                        pre,
                        q,
                    ) by {
                        lemma_assoc_set_get(pre, p@, m, q);
                    }
                    assert forall|i: int| 0 <= i < self.entries@.len() implies jv_wf(
                        #[trigger] self.entries@[i].1.data@,
                    ) by {
                        if i < pre.len() {
                            assert(self.entries@[i] == old(self).entries@[i]);
                        }
                    }
                    assert forall|i: int|
                        0 <= i < self.entries@.len() implies (
                    #[trigger] self.entries@[i].1.clock).wf() by {
                        if i < pre.len() {
                            assert(self.entries@[i] == old(self).entries@[i]);
                        }
                    }
                }
            },
        }
    }

    /// Apply a context announce from the mesh for peer `from`, as the
    /// merge algorithm directs: discard stale state, take dominating
    /// state whole, merge concurrent state, and say whether anything
    /// changed.
    pub fn apply_remote(
        &mut self,
        from: &PeerId,
        data: JsonValue,
        clock: VectorClock,
        now: u64,
    ) -> (updated: bool)
        requires
            old(self).wf(),
            jv_wf(data@),
            clock.wf(),
        ensures
            final(self).wf(),
            final(self).local_peer() == old(self).local_peer(),
            updated == announce_updates(stored_clock(old(self)@, from@), clock@),
            assoc_get(final(self)@, from@) is Some,
            stored_data(final(self)@, from@) == announce_data(
                stored_data(old(self)@, from@),
                data@,
                stored_clock(old(self)@, from@),
                clock@,
            ),
            forall|q: Seq<char>|
                clock_at(stored_clock(final(self)@, from@), q) == announce_clock_at(
                    stored_clock(old(self)@, from@),
                    clock@,
                    q,
                ),
            forall|q: Seq<char>|
                q != from@ ==> assoc_get(final(self)@, q) == assoc_get(old(self)@, q),
    {
        self.ensure_entry(from, now);
        let ghost pre = self@;
        let ghost lc = stored_clock(old(self)@, from@);
        let ghost ld = stored_data(old(self)@, from@);
        let i = match self.find(from) {
            Some(i) => i,
            None => {
                proof {
                    lemma_assoc_get_none_iff(pre, from@);
                    assert(false);
                }
                0
            },
        };
        proof {
            lemma_assoc_get_first_match(pre, from@, i as int);
        }
        let ghost epre = self.entries@;
        let (key, mut ctx) = self.entries.remove(i);
        let ghost pre_removed = self@;
        let cmp = clock.compare(&ctx.clock);
        let updated: bool = match cmp {
            ClockOrder::Equal => false,
            ClockOrder::Dominated => false,
            ClockOrder::Dominates => {
                ctx.data = data;
                ctx.clock = clock;
                ctx.last_seen_at = now;
                true
            },
            ClockOrder::Concurrent => {
                let mut held = JsonValue::Null;
                core::mem::swap(&mut held, &mut ctx.data);
                let merged = json_merge(held, data);
                proof {
                    lemma_merge_wf(ld, data@);
                }
                ctx.data = merged;
                ctx.clock.merge_from(&clock);
                ctx.last_seen_at = now;
                true
            },
        };
        self.entries.insert(i, (key, ctx));
        proof {
            let m = CtxModel {
                data: self.entries@[i as int].1.data@,
                clock: self.entries@[i as int].1.clock@,
                last_seen: self.entries@[i as int].1.last_seen_at as nat,
            };
            assert(self.entries@ =~= epre.update(i as int, self.entries@[i as int]));
            lemma_assoc_set_at_index(pre, from@, m, i as int);
            assert(self@ =~= assoc_set(pre, from@, m));
            lemma_assoc_set_unique(pre, from@, m);
            lemma_assoc_set_get(pre, from@, m, from@);
            assert forall|q: Seq<char>| q != from@ implies assoc_get(self@, q) == assoc_get(
                pre,
                q,
            ) by {
                lemma_assoc_set_get(pre, from@, m, q);
            }
            assert forall|j: int| 0 <= j < self.entries@.len() implies jv_wf(
                #[trigger] self.entries@[j].1.data@,
            ) && (#[trigger] self.entries@[j].1.clock).wf() by {
                if j != i as int {
                    assert(self.entries@[j] == epre[j]);
                }
            }
        }
        updated
    }

    /// Merge a patch into the local document, the patch winning at the
    /// leaves, and advance the local clock's own component by one.
    pub fn update_self(&mut self, patch: JsonValue, now: u64)
        requires
            old(self).wf(),
            jv_wf(patch@),
            clock_at(stored_clock(old(self)@, old(self).local_peer()), old(self).local_peer())
                < u64::MAX,
        ensures
            final(self).wf(),
            final(self).local_peer() == old(self).local_peer(),
            assoc_get(final(self)@, final(self).local_peer()) is Some,
            stored_data(final(self)@, final(self).local_peer()) == merge_jv(
                stored_data(old(self)@, old(self).local_peer()),
                patch@,
            ),
            stored_clock(final(self)@, final(self).local_peer()) == assoc_set(
                stored_clock(old(self)@, old(self).local_peer()),
                old(self).local_peer(),
                (clock_at(
                    stored_clock(old(self)@, old(self).local_peer()),
                    old(self).local_peer(),
                ) + 1) as u64,
            ),
            forall|q: Seq<char>|
                q != old(self).local_peer() ==> assoc_get(final(self)@, q) == assoc_get(
                    old(self)@,
                    q,
                ),
    {
        let me = self.local.clone();
        self.ensure_entry(&me, now);
        let ghost pre = self@;
        let ghost lc = stored_clock(old(self)@, old(self).local_peer());
        let ghost ld = stored_data(old(self)@, old(self).local_peer());
        let i = match self.find(&me) {
            Some(i) => i,
            None => {
                proof {
                    lemma_assoc_get_none_iff(pre, me@);
                    assert(false);
                }
                0
            },
        };
        proof {
            lemma_assoc_get_first_match(pre, me@, i as int);
        }
        let ghost epre = self.entries@;
        let (key, mut ctx) = self.entries.remove(i);
        let mut held = JsonValue::Null;
        core::mem::swap(&mut held, &mut ctx.data);
        let merged = json_merge(held, patch);
        proof {
            lemma_merge_wf(ld, patch@);
        }
        ctx.data = merged;
        ctx.clock.increment(&me);
        ctx.last_seen_at = now;
        self.entries.insert(i, (key, ctx));
        proof {
            let m = CtxModel {
                data: self.entries@[i as int].1.data@,
                clock: self.entries@[i as int].1.clock@,
                last_seen: self.entries@[i as int].1.last_seen_at as nat,
            };
            lemma_assoc_set_at_index(pre, me@, m, i as int);
            assert(self@ =~= assoc_set(pre, me@, m));
            lemma_assoc_set_unique(pre, me@, m);
            lemma_assoc_set_get(pre, me@, m, me@);
            assert forall|q: Seq<char>| q != me@ implies assoc_get(self@, q) == assoc_get(
                pre,
                q,
            ) by {
                lemma_assoc_set_get(pre, me@, m, q);
            }
            assert forall|j: int| 0 <= j < self.entries@.len() implies jv_wf(
                #[trigger] self.entries@[j].1.data@,
            ) && (#[trigger] self.entries@[j].1.clock).wf() by {
                if j != i as int {
                    assert(self.entries@[j] == epre[j]);
                }
            }
        }
    }

    /// Replace the local document outright and advance the local clock's
    /// own component by one.
    pub fn replace_self(&mut self, data: JsonValue, now: u64)
        requires
            old(self).wf(),
            jv_wf(data@),
            clock_at(stored_clock(old(self)@, old(self).local_peer()), old(self).local_peer())
                < u64::MAX,
        ensures
            final(self).wf(),
            final(self).local_peer() == old(self).local_peer(),
            assoc_get(final(self)@, final(self).local_peer()) is Some,
            stored_data(final(self)@, final(self).local_peer()) == data@,
            stored_clock(final(self)@, final(self).local_peer()) == assoc_set(
                stored_clock(old(self)@, old(self).local_peer()),
                old(self).local_peer(),
                (clock_at(
                    stored_clock(old(self)@, old(self).local_peer()),
                    old(self).local_peer(),
                ) + 1) as u64,
            ),
            forall|q: Seq<char>|
                q != old(self).local_peer() ==> assoc_get(final(self)@, q) == assoc_get(
                    old(self)@,
                    q,
                ),
    {
        let me = self.local.clone();
        self.ensure_entry(&me, now);
        let ghost pre = self@;
        let i = match self.find(&me) {
            Some(i) => i,
            None => {
                proof {
                    lemma_assoc_get_none_iff(pre, me@);
                    assert(false);
                }
                0
            },
        };
        proof {
            lemma_assoc_get_first_match(pre, me@, i as int);
        }
        let ghost epre = self.entries@;
        let (key, mut ctx) = self.entries.remove(i);
        ctx.data = data;
        ctx.clock.increment(&me);
        ctx.last_seen_at = now;
        self.entries.insert(i, (key, ctx));
        proof {
            let m = CtxModel {
                data: self.entries@[i as int].1.data@,
                clock: self.entries@[i as int].1.clock@,
                last_seen: self.entries@[i as int].1.last_seen_at as nat,
            };
            lemma_assoc_set_at_index(pre, me@, m, i as int);
            assert(self@ =~= assoc_set(pre, me@, m));
            lemma_assoc_set_unique(pre, me@, m);
            lemma_assoc_set_get(pre, me@, m, me@);
            assert forall|q: Seq<char>| q != me@ implies assoc_get(self@, q) == assoc_get(
                pre,
                q,
            ) by {
                lemma_assoc_set_get(pre, me@, m, q);
            }
            assert forall|j: int| 0 <= j < self.entries@.len() implies jv_wf(
                #[trigger] self.entries@[j].1.data@,
            ) && (#[trigger] self.entries@[j].1.clock).wf() by {
                if j != i as int {
                    assert(self.entries@[j] == epre[j]);
                }
            }
        }
    }

    /// A copy of the local clock, for gossiping announces.
    pub fn local_clock(&self) -> (r: VectorClock)
        requires
            self.wf(),
        ensures
            r@ =~= stored_clock(self@, self.local_peer()),
            r.wf(),
    {
        match self.find(&self.local) {
            Some(i) => {
                proof {
                    lemma_assoc_get_first_match(self@, self.local@, i as int);
                }
                self.entries[i].1.clock.duplicate()
            },
            None => {
                proof {
                    lemma_assoc_get_none_iff(self@, self.local@);
                }
                VectorClock::new()
            },
        }
    }
}

} // verus!
