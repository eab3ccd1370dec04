//! Logical streams: persistent byte channels layered over the mesh's
//! request/response exchanges, with an explicit open/accept/reject/data/
//! close state machine and bounded buffering before the open completes.

use vstd::prelude::*;
use crate::assoc::{assoc_get, assoc_set, lemma_assoc_get_first_match, lemma_assoc_get_none_iff,
    lemma_assoc_set_absent, lemma_assoc_set_at_index, lemma_assoc_set_get, lemma_assoc_set_unique,
    assoc_unique};
use crate::peer::PeerId;

verus! {

broadcast use vstd::std_specs::vec::group_vec_axioms;

/// How many payloads a stream buffers while it waits to become open.
pub const STREAM_BUFFER_BOUND: usize = 32;

/// Identifier of a logical stream, minted by its initiator: the
/// initiator's peer id, a counter the initiator never reuses, and a
/// random suffix so that restarts cannot collide either.
pub struct StreamId {
    pub initiator: PeerId,
    pub counter: u64,
    pub nonce: u64,
}

impl View for StreamId {
    type V = (Seq<char>, u64, u64);

    open spec fn view(&self) -> (Seq<char>, u64, u64) {
        (self.initiator@, self.counter, self.nonce)
    }
}

impl Clone for StreamId {
    /// Copy the identifier unchanged.
    fn clone(&self) -> (r: Self)
        ensures
            r@ == self@,
    {
        StreamId { initiator: self.initiator.clone(), counter: self.counter, nonce: self.nonce }
    }
}

impl StreamId {
    /// Whether two identifiers name the same stream.
    pub fn same_stream(&self, other: &StreamId) -> (r: bool)
        ensures
            r == (self@ == other@),
    {
        self.initiator.same_peer(&other.initiator) && self.counter == other.counter
            && self.nonce == other.nonce
    }
}

/// Mint a stream id from the initiating peer, its next counter value and
/// fresh entropy.
pub fn generate_stream_id(initiator: &PeerId, counter: u64, entropy: u64) -> (r: StreamId)
    ensures
        r@ == (initiator@, counter, entropy),
{
    StreamId { initiator: initiator.clone(), counter, nonce: entropy }
}

/// Law: stream ids from different initiators, or with different counter
/// values, never collide, whatever entropy each side drew.
pub proof fn law_stream_id_no_collision(
    a: (Seq<char>, u64, u64),
    b: (Seq<char>, u64, u64),
)
    requires
        a.0 != b.0 || a.1 != b.1,
    ensures
        a != b,
{
}

/// Who opened the stream.
#[derive(PartialEq, Eq, Structural, Clone, Copy, Debug)]
pub enum StreamDirection {
    Outbound,
    Inbound,
}

/// The state machine variable of one stream.
#[derive(PartialEq, Eq, Structural, Clone, Copy, Debug)]
pub enum StreamStatus {
    /// We sent the open request and wait for the peer's answer.
    PendingOutbound,
    /// The peer asked to open and we have not yet answered.
    PendingInbound,
    /// Both sides accepted; data flows.
    Open,
    /// The stream ended.
    Closed,
    /// The open request was turned down.
    Rejected,
}

/// The states a stream never leaves.
pub open spec fn terminal(s: StreamStatus) -> bool {
    s == StreamStatus::Closed || s == StreamStatus::Rejected
}

/// What kind of stream envelope arrived.
#[derive(PartialEq, Eq, Structural, Clone, Copy, Debug)]
pub enum EnvelopeKind {
    Open,
    Accept,
    Reject,
    Data,
    Close,
}

/// Where an inbound envelope moves a stream's status. Terminal states
/// absorb everything.
pub open spec fn envelope_step(s: StreamStatus, e: EnvelopeKind) -> StreamStatus {
    if terminal(s) {
        s
    } else {
        match (s, e) {
            (StreamStatus::PendingOutbound, EnvelopeKind::Accept) => StreamStatus::Open,
            (StreamStatus::PendingOutbound, EnvelopeKind::Reject) => StreamStatus::Rejected,
            (StreamStatus::PendingOutbound, EnvelopeKind::Close) => StreamStatus::Closed,
            (StreamStatus::PendingInbound, EnvelopeKind::Close) => StreamStatus::Closed,
            (StreamStatus::Open, EnvelopeKind::Close) => StreamStatus::Closed,
            _ => s,
        }
    }
}

/// Whether an inbound data envelope is handed to the application: only
/// an open stream delivers.
pub open spec fn delivers(s: StreamStatus) -> bool {
    s == StreamStatus::Open
}

/// Law: a stream in a terminal state delivers no later data envelope and
/// never leaves the terminal state, whatever arrives.
pub proof fn law_terminal_absorbs(s: StreamStatus, e: EnvelopeKind)
    requires
        terminal(s),
    ensures
        envelope_step(s, e) == s,
        !delivers(s),
{
}

/// One stream's record.
pub struct StreamState {
    pub stream_id: StreamId,
    pub remote_peer: PeerId,
    pub direction: StreamDirection,
    pub status: StreamStatus,
    pub open_reason: String,
    pub pending_outbound: Vec<Vec<u8>>,
    pub buffered_inbound: Vec<Vec<u8>>,
    pub created_at: u64,
    pub last_activity_at: u64,
}

/// The model of a list of byte payloads.
pub open spec fn bytes_view(xs: Seq<Vec<u8>>) -> Seq<Seq<u8>> {
    Seq::new(xs.len(), |i: int| xs[i]@)
}

/// The model of one stream record.
#[verifier::ext_equal]
pub struct StreamModel {
    pub remote_peer: Seq<char>,
    pub direction: StreamDirection,
    pub status: StreamStatus,
    pub open_reason: Seq<char>,
    pub pending_outbound: Seq<Seq<u8>>,
    pub buffered_inbound: Seq<Seq<u8>>,
    pub last_activity: u64,
}

/// The model of a stream record.
pub open spec fn stream_model(s: StreamState) -> StreamModel {
    StreamModel {
        remote_peer: s.remote_peer@,
        direction: s.direction,
        status: s.status,
        open_reason: s.open_reason@,
        pending_outbound: bytes_view(s.pending_outbound@),
        buffered_inbound: bytes_view(s.buffered_inbound@),
        last_activity: s.last_activity_at,
    }
}

/// The model of a record freshly registered: pending, with empty buffers.
pub open spec fn fresh_model(
    remote: Seq<char>,
    direction: StreamDirection,
    status: StreamStatus,
    reason: Seq<char>,
    now: u64,
) -> StreamModel {
    StreamModel {
        remote_peer: remote,
        direction,
        status,
        open_reason: reason,
        pending_outbound: Seq::empty(),
        buffered_inbound: Seq::empty(),
        last_activity: now,
    }
}

/// Every stream with the given peer closed at `now`; everything else
/// untouched.
pub open spec fn closed_for_peer_transform(
    pre: Seq<((Seq<char>, u64, u64), StreamModel)>,
    post: Seq<((Seq<char>, u64, u64), StreamModel)>,
    peer: Seq<char>,
    now: u64,
) -> bool {
    &&& post.len() == pre.len()
    &&& forall|i: int|
        0 <= i < post.len() ==> #[trigger] post[i].0 == pre[i].0 && post[i].1 == (if pre[i].1.remote_peer
            == peer && !terminal(pre[i].1.status) {
            StreamModel { status: StreamStatus::Closed, last_activity: now, ..pre[i].1 }
        } else {
            pre[i].1
        })
}

/// The ids of the records `close_for_peer` newly closes: those with the
/// given peer that were not yet terminal, in registry order.
pub open spec fn closed_ids(
    pre: Seq<((Seq<char>, u64, u64), StreamModel)>,
    peer: Seq<char>,
) -> Seq<(Seq<char>, u64, u64)>
    decreases pre.len(),
{
    if pre.len() == 0 {
        Seq::empty()
    } else {
        closed_ids(pre.drop_last(), peer) + (if pre.last().1.remote_peer == peer && !terminal(
            pre.last().1.status,
        ) {
            seq![pre.last().0]
        } else {
            Seq::empty()
        })
    }
}

/// The views of a list of stream ids.
pub open spec fn sid_views(xs: Seq<StreamId>) -> Seq<(Seq<char>, u64, u64)> {
    Seq::new(xs.len(), |i: int| xs[i]@)
}

/// The registry of live and recently finished streams.
pub struct StreamRegistry {
    streams: Vec<(StreamId, StreamState)>,
}

/// The model of the registry's entries.
pub open spec fn registry_view(es: Seq<(StreamId, StreamState)>) -> Seq<
    ((Seq<char>, u64, u64), StreamModel),
> {
    Seq::new(es.len(), |i: int| (es[i].0@, stream_model(es[i].1)))
}

/// What an operation on the registry answered.
pub enum StreamOutcome {
    /// The payloads to send now that the stream is open, oldest first.
    Flush(Vec<Vec<u8>>),
    /// Send this payload on the wire now.
    SendNow(Vec<u8>),
    /// The payload was buffered until the stream opens.
    Buffered,
    /// Hand this payload to the application.
    Deliver(Vec<u8>),
    /// Nothing to do; the envelope or call was absorbed.
    Ignored,
}

impl View for StreamRegistry {
    type V = Seq<((Seq<char>, u64, u64), StreamModel)>;

    closed spec fn view(&self) -> Seq<((Seq<char>, u64, u64), StreamModel)> {
        registry_view(self.streams@)
    }
}

/// The status of the stream under `sid`, if it is registered.
pub open spec fn status_of(
    rv: Seq<((Seq<char>, u64, u64), StreamModel)>,
    sid: (Seq<char>, u64, u64),
) -> Option<StreamStatus> {
    match assoc_get(rv, sid) {
        Some(m) => Some(m.status),
        None => None,
    }
}

impl StreamRegistry {
    /// Ids are registered at most once.
    pub closed spec fn wf(&self) -> bool {
        assoc_unique(self@)
    }

    /// The empty registry.
    pub fn new() -> (r: StreamRegistry)
        ensures
            r.wf(),
            r@ =~= Seq::<((Seq<char>, u64, u64), StreamModel)>::empty(),
    {
        let r = StreamRegistry { streams: Vec::new() };
        proof {
            assert(r@ =~= Seq::<((Seq<char>, u64, u64), StreamModel)>::empty());
        }
        r
    }

    /// Index of the record under `sid`, if any.
    #[verifier::loop_isolation(false)]
    fn find(&self, sid: &StreamId) -> (r: Option<usize>)
        ensures
            match r {
                Some(i) => i < self@.len() && self@[i as int].0 == sid@ && (forall|j: int|
                    0 <= j < i ==> self@[j].0 != sid@),
                None => forall|j: int| 0 <= j < self@.len() ==> self@[j].0 != sid@,
            },
    {
        let mut i: usize = 0;
        while i < self.streams.len()
            invariant
                i <= self.streams@.len(),
                forall|j: int| 0 <= j < i ==> self@[j].0 != sid@,
            decreases self.streams@.len() - i,
        {
            if self.streams[i].0.same_stream(sid) {
                return Some(i);
            }
            i += 1;
        }
        None
    }

    /// The status of the stream under `sid`, if it is registered.
    pub fn status(&self, sid: &StreamId) -> (r: Option<StreamStatus>)
        ensures
            r == status_of(self@, sid@),
    {
        match self.find(sid) {
            Some(i) => {
                proof {
                    lemma_assoc_get_first_match(self@, sid@, i as int);
                }
                Some(self.streams[i].1.status)
            },
            None => {
                proof {
                    lemma_assoc_get_none_iff(self@, sid@);
                }
                None
            },
        }
    }

    /// The remote peer of the stream under `sid`, if it is registered.
    pub fn remote_of(&self, sid: &StreamId) -> (r: Option<PeerId>)
        ensures
            (match r {
                Some(p) => assoc_get(self@, sid@) is Some && p@ == assoc_get(self@, sid@)
                    ->Some_0.remote_peer,
                None => assoc_get(self@, sid@) is None,
            }),
    {
        match self.find(sid) {
            Some(i) => {
                proof {
                    lemma_assoc_get_first_match(self@, sid@, i as int);
                }
                Some(self.streams[i].1.remote_peer.clone())
            },
            None => {
                proof {
                    lemma_assoc_get_none_iff(self@, sid@);
                }
                None
            },
        }
    }

    /// Register a stream we are opening towards `remote`.
    pub fn register_outbound(&mut self, sid: StreamId, remote: PeerId, reason: String, now: u64)
        requires
            old(self).wf(),
            status_of(old(self)@, sid@) is None,
        ensures
            final(self).wf(),
            assoc_get(final(self)@, sid@) == Some(
                fresh_model(
                    remote@,
                    StreamDirection::Outbound,
                    StreamStatus::PendingOutbound,
                    reason@,
                    now,
                ),
            ),
            forall|q: (Seq<char>, u64, u64)|
                q != sid@ ==> assoc_get(final(self)@, q) == assoc_get(old(self)@, q),
    {
        let ghost pre = self@;
        let state = StreamState {
            stream_id: sid.clone(),
            remote_peer: remote,
            direction: StreamDirection::Outbound,
            status: StreamStatus::PendingOutbound,
            open_reason: reason,
            pending_outbound: Vec::new(),
            buffered_inbound: Vec::new(),
            created_at: now,
            last_activity_at: now,
        };
        self.streams.push((sid, state));
        proof {
            lemma_assoc_get_none_iff(pre, self.streams@.last().0@);
            let m = stream_model(self.streams@.last().1);
            assert(m.pending_outbound =~= Seq::<Seq<u8>>::empty());
            assert(m.buffered_inbound =~= Seq::<Seq<u8>>::empty());
            lemma_assoc_set_absent(pre, self.streams@.last().0@, m);
            assert(self@ =~= assoc_set(pre, self.streams@.last().0@, m));
            lemma_assoc_set_unique(pre, self.streams@.last().0@, m);
            lemma_assoc_set_get(pre, self.streams@.last().0@, m, self.streams@.last().0@);
            assert forall|q: (Seq<char>, u64, u64)|
                q != self.streams@.last().0@ implies assoc_get(self@, q) == assoc_get(
                pre,
                q,
            ) by {
                lemma_assoc_set_get(pre, self.streams@.last().0@, m, q);
            }
            assert(m =~= fresh_model(
                remote@,
                StreamDirection::Outbound,
                StreamStatus::PendingOutbound,
                reason@,
                now,
            ));
        }
    }

    /// Register a stream a peer asked to open towards us; the answer is
    /// whether the id was new.
    pub fn register_inbound(&mut self, sid: StreamId, remote: PeerId, reason: String, now: u64) -> (fresh: bool)
        requires
            old(self).wf(),
        ensures
            final(self).wf(),
            fresh == (status_of(old(self)@, sid@) is None),
            fresh ==> assoc_get(final(self)@, sid@) == Some(
                fresh_model(
                    remote@,
                    StreamDirection::Inbound,
                    StreamStatus::PendingInbound,
                    reason@,
                    now,
                ),
            ),
            !fresh ==> final(self)@ == old(self)@,
            forall|q: (Seq<char>, u64, u64)|
                q != sid@ ==> assoc_get(final(self)@, q) == assoc_get(old(self)@, q),
    {
        let ghost pre = self@;
        match self.find(&sid) {
            Some(i) => {
                proof {
                    lemma_assoc_get_first_match(pre, sid@, i as int);
                }
                false
            },
            None => {
                proof {
                    lemma_assoc_get_none_iff(pre, sid@);
                }
                let state = StreamState {
                    stream_id: sid.clone(),
                    remote_peer: remote,
                    direction: StreamDirection::Inbound,
                    status: StreamStatus::PendingInbound,
                    open_reason: reason,
                    pending_outbound: Vec::new(),
                    buffered_inbound: Vec::new(),
                    created_at: now,
                    last_activity_at: now,
                };
                self.streams.push((sid, state));
                proof {
                    let m = stream_model(self.streams@.last().1);
                    assert(m.pending_outbound =~= Seq::<Seq<u8>>::empty());
                    assert(m.buffered_inbound =~= Seq::<Seq<u8>>::empty());
                    lemma_assoc_set_absent(pre, self.streams@.last().0@, m);
                    assert(self@ =~= assoc_set(pre, self.streams@.last().0@, m));
                    lemma_assoc_set_unique(pre, self.streams@.last().0@, m);
                    lemma_assoc_set_get(pre, self.streams@.last().0@, m, self.streams@.last().0@);
                    assert forall|q: (Seq<char>, u64, u64)|
                        q != self.streams@.last().0@ implies assoc_get(self@, q) == assoc_get(
                        pre,
                        q,
                    ) by {
                        lemma_assoc_set_get(pre, self.streams@.last().0@, m, q);
                    }
                    assert(m =~= fresh_model(
                        remote@,
                        StreamDirection::Inbound,
                        StreamStatus::PendingInbound,
                        reason@,
                        now,
                    ));
                }
                true
            },
        }
    }

    /// Accept a stream the peer asked to open: the record becomes open,
    /// and the call returns what to send (the buffered outbound
    /// payloads, oldest first) and what to deliver (data that arrived
    /// early, oldest first).
    pub fn local_accept(&mut self, sid: &StreamId, now: u64) -> (r: Result<
        (Vec<Vec<u8>>, Vec<Vec<u8>>),
        crate::error::AviP2pError,
    >)
        requires
            old(self).wf(),
        ensures
            final(self).wf(),
            (match status_of(old(self)@, sid@) {
                Option::None => r is Err && r->Err_0 is StreamNotFound && final(self)@ == old(
                    self,
                )@,
                Option::Some(st) => if st == StreamStatus::PendingInbound {
                    &&& r is Ok
                    &&& bytes_view(r->Ok_0.0@) == assoc_get(old(self)@, sid@)->Some_0.pending_outbound
                    &&& bytes_view(r->Ok_0.1@) == assoc_get(old(self)@, sid@)->Some_0.buffered_inbound
                    &&& assoc_get(final(self)@, sid@) == Some(
                        StreamModel {
                            status: StreamStatus::Open,
                            pending_outbound: Seq::empty(),
                            buffered_inbound: Seq::empty(),
                            last_activity: now,
                            ..assoc_get(old(self)@, sid@)->Some_0
                        },
                    )
                    &&& forall|q: (Seq<char>, u64, u64)|
                        q != sid@ ==> assoc_get(final(self)@, q) == assoc_get(old(self)@, q)
                } else {
                    r is Err && r->Err_0 is InvalidStreamState && final(self)@ == old(self)@
                },
            }),
    {
        let ghost pre = self@;
        match self.find(sid) {
            Some(i) => {
                proof {
                    lemma_assoc_get_first_match(pre, sid@, i as int);
                }
                let ghost epre = self.streams@;
                let (key, mut state) = self.streams.remove(i);
                match state.status {
                    StreamStatus::PendingInbound => {
                        let to_send = state.pending_outbound;
                        let to_deliver = state.buffered_inbound;
                        state.pending_outbound = Vec::new();
                        state.buffered_inbound = Vec::new();
                        state.status = StreamStatus::Open;
                        state.last_activity_at = now;
                        self.streams.insert(i, (key, state));
                        proof {
                            let m = stream_model(self.streams@[i as int].1);
                            lemma_assoc_set_at_index(pre, sid@, m, i as int);
                            assert(self@ =~= assoc_set(pre, sid@, m));
                            lemma_assoc_set_unique(pre, sid@, m);
                            lemma_assoc_set_get(pre, sid@, m, sid@);
                            assert forall|q: (Seq<char>, u64, u64)| q != sid@ implies assoc_get(
                                self@,
                                q,
                            ) == assoc_get(pre, q) by {
                                lemma_assoc_set_get(pre, sid@, m, q);
                            }
                            assert(m.pending_outbound =~= Seq::<Seq<u8>>::empty());
                            assert(m.buffered_inbound =~= Seq::<Seq<u8>>::empty());
                            assert(m =~= StreamModel {
                                status: StreamStatus::Open,
                                pending_outbound: Seq::empty(),
                                buffered_inbound: Seq::empty(),
                                last_activity: now,
                                ..assoc_get(pre, sid@)->Some_0
                            });
                        }
                        Ok((to_send, to_deliver))
                    },
                    other => {
                        state.status = other;
                        self.streams.insert(i, (key, state));
                        proof {
                            assert(self.streams@ =~= epre);
                            assert(self@ =~= pre);
                        }
                        {
                            let mut expected: Vec<StreamStatus> = Vec::new();
                            expected.push(StreamStatus::PendingInbound);
                            Err(crate::error::AviP2pError::InvalidStreamState(sid.clone(), expected))
                        }
                    },
                }
            },
            None => {
                proof {
                    lemma_assoc_get_none_iff(pre, sid@);
                }
                Err(crate::error::AviP2pError::StreamNotFound(sid.clone()))
            },
        }
    }

    /// Turn down a stream the peer asked to open.
    pub fn local_reject(&mut self, sid: &StreamId, now: u64) -> (r: Result<
        (),
        crate::error::AviP2pError,
    >)
        requires
            old(self).wf(),
        ensures
            final(self).wf(),
            (match status_of(old(self)@, sid@) {
                Option::None => r is Err && r->Err_0 is StreamNotFound && final(self)@ == old(
                    self,
                )@,
                Option::Some(st) => if st == StreamStatus::PendingInbound {
                    &&& r is Ok
                    &&& assoc_get(final(self)@, sid@) == Some(
                        StreamModel {
                            status: StreamStatus::Rejected,
                            last_activity: now,
                            ..assoc_get(old(self)@, sid@)->Some_0
                        },
                    )
                    &&& forall|q: (Seq<char>, u64, u64)|
                        q != sid@ ==> assoc_get(final(self)@, q) == assoc_get(old(self)@, q)
                } else {
                    r is Err && r->Err_0 is InvalidStreamState && final(self)@ == old(self)@
                },
            }),
    {
        let ghost pre = self@;
        match self.find(sid) {
            Some(i) => {
                proof {
                    lemma_assoc_get_first_match(pre, sid@, i as int);
                }
                let ghost epre = self.streams@;
                let (key, mut state) = self.streams.remove(i);
                match state.status {
                    StreamStatus::PendingInbound => {
                        state.status = StreamStatus::Rejected;
                        state.last_activity_at = now;
                        self.streams.insert(i, (key, state));
                        proof {
                            let m = stream_model(self.streams@[i as int].1);
                            lemma_assoc_set_at_index(pre, sid@, m, i as int);
                            assert(self@ =~= assoc_set(pre, sid@, m));
                            lemma_assoc_set_unique(pre, sid@, m);
                            lemma_assoc_set_get(pre, sid@, m, sid@);
                            assert forall|q: (Seq<char>, u64, u64)| q != sid@ implies assoc_get(
                                self@,
                                q,
                            ) == assoc_get(pre, q) by {
                                lemma_assoc_set_get(pre, sid@, m, q);
                            }
                        }
                        Ok(())
                    },
                    other => {
                        state.status = other;
                        self.streams.insert(i, (key, state));
                        proof {
                            assert(self.streams@ =~= epre);
                            assert(self@ =~= pre);
                        }
                        {
                            let mut expected: Vec<StreamStatus> = Vec::new();
                            expected.push(StreamStatus::PendingInbound);
                            Err(crate::error::AviP2pError::InvalidStreamState(sid.clone(), expected))
                        }
                    },
                }
            },
            None => {
                proof {
                    lemma_assoc_get_none_iff(pre, sid@);
                }
                Err(crate::error::AviP2pError::StreamNotFound(sid.clone()))
            },
        }
    }

    /// Send bytes on a stream: sent at once when it is open, buffered
    /// while it is pending and the buffer has room, refused otherwise.
    pub fn local_send(&mut self, sid: &StreamId, data: Vec<u8>, now: u64) -> (r: Result<
        StreamOutcome,
        crate::error::AviP2pError,
    >)
        requires
            old(self).wf(),
        ensures
            final(self).wf(),
            (match status_of(old(self)@, sid@) {
                Option::None => r is Err && r->Err_0 is StreamNotFound && final(self)@ == old(
                    self,
                )@,
                Option::Some(st) => if st == StreamStatus::Open {
                    &&& r is Ok
                    &&& r->Ok_0 is SendNow
                    &&& r->Ok_0->SendNow_0@ == data@
                    &&& assoc_get(final(self)@, sid@) == Some(
                        StreamModel { last_activity: now, ..assoc_get(old(self)@, sid@)->Some_0 },
                    )
                    &&& forall|q: (Seq<char>, u64, u64)|
                        q != sid@ ==> assoc_get(final(self)@, q) == assoc_get(old(self)@, q)
                } else if st == StreamStatus::PendingOutbound || st == StreamStatus::PendingInbound {
                    if (assoc_get(old(self)@, sid@)->Some_0.pending_outbound).len()
                        < STREAM_BUFFER_BOUND as int {
                        &&& r is Ok
                        &&& r->Ok_0 is Buffered
                        &&& assoc_get(final(self)@, sid@) == Some(
                            StreamModel {
                                pending_outbound: assoc_get(
                                    old(self)@,
                                    sid@,
                                )->Some_0.pending_outbound.push(data@),
                                last_activity: now,
                                ..assoc_get(old(self)@, sid@)->Some_0
                            },
                        )
                        &&& forall|q: (Seq<char>, u64, u64)|
                            q != sid@ ==> assoc_get(final(self)@, q) == assoc_get(old(self)@, q)
                    } else {
                        r is Err && r->Err_0 is Backpressure && final(self)@ == old(self)@
                    }
                } else {
                    r is Err && r->Err_0 is InvalidStreamState && final(self)@ == old(self)@
                },
            }),
    {
        let ghost pre = self@;
        match self.find(sid) {
            Some(i) => {
                proof {
                    lemma_assoc_get_first_match(pre, sid@, i as int);
                }
                let ghost epre = self.streams@;
                let (key, mut state) = self.streams.remove(i);
                match state.status {
                    StreamStatus::Open => {
                        state.last_activity_at = now;
                        self.streams.insert(i, (key, state));
                        proof {
                            let m = stream_model(self.streams@[i as int].1);
                            lemma_assoc_set_at_index(pre, sid@, m, i as int);
                            assert(self@ =~= assoc_set(pre, sid@, m));
                            lemma_assoc_set_unique(pre, sid@, m);
                            lemma_assoc_set_get(pre, sid@, m, sid@);
                            assert forall|q: (Seq<char>, u64, u64)| q != sid@ implies assoc_get(
                                self@,
                                q,
                            ) == assoc_get(pre, q) by {
                                lemma_assoc_set_get(pre, sid@, m, q);
                            }
                            assert(m =~= StreamModel {
                                last_activity: now,
                                ..assoc_get(pre, sid@)->Some_0
                            });
                        }
                        Ok(StreamOutcome::SendNow(data))
                    },
                    StreamStatus::PendingOutbound | StreamStatus::PendingInbound => {
                        if state.pending_outbound.len() < STREAM_BUFFER_BOUND {
                            let ghost oldbuf = bytes_view(state.pending_outbound@);
                            state.pending_outbound.push(data);
                            state.last_activity_at = now;
                            self.streams.insert(i, (key, state));
                            proof {
                                let m = stream_model(self.streams@[i as int].1);
                                assert(m.pending_outbound =~= oldbuf.push(
                                    self.streams@[i as int].1.pending_outbound@.last()@,
                                ));
                                lemma_assoc_set_at_index(pre, sid@, m, i as int);
                                assert(self@ =~= assoc_set(pre, sid@, m));
                                lemma_assoc_set_unique(pre, sid@, m);
                                lemma_assoc_set_get(pre, sid@, m, sid@);
                                assert forall|q: (Seq<char>, u64, u64)|
                                    q != sid@ implies assoc_get(self@, q) == assoc_get(
                                    pre,
                                    q,
                                ) by {
                                    lemma_assoc_set_get(pre, sid@, m, q);
                                }
                                assert(m =~= StreamModel {
                                    pending_outbound: assoc_get(
                                        pre,
                                        sid@,
                                    )->Some_0.pending_outbound.push(data@),
                                    last_activity: now,
                                    ..assoc_get(pre, sid@)->Some_0
                                });
                            }
                            Ok(StreamOutcome::Buffered)
                        } else {
                            self.streams.insert(i, (key, state));
                            proof {
                                assert(self.streams@ =~= epre);
                                assert(self@ =~= pre);
                            }
                            Err(crate::error::AviP2pError::Backpressure)
                        }
                    },
                    _ => {
                        self.streams.insert(i, (key, state));
                        proof {
                            assert(self.streams@ =~= epre);
                            assert(self@ =~= pre);
                        }
                        {
                            let mut expected: Vec<StreamStatus> = Vec::new();
                            expected.push(StreamStatus::Open);
                            expected.push(StreamStatus::PendingOutbound);
                            expected.push(StreamStatus::PendingInbound);
                            Err(crate::error::AviP2pError::InvalidStreamState(sid.clone(), expected))
                        }
                    },
                }
            },
            None => {
                proof {
                    lemma_assoc_get_none_iff(pre, sid@);
                }
                Err(crate::error::AviP2pError::StreamNotFound(sid.clone()))
            },
        }
    }

    /// Close a stream from this side. The answer says whether a close
    /// envelope should go to the peer; closing a finished stream is
    /// idempotent and sends nothing.
    pub fn local_close(&mut self, sid: &StreamId, now: u64) -> (r: Result<
        bool,
        crate::error::AviP2pError,
    >)
        requires
            old(self).wf(),
        ensures
            final(self).wf(),
            (match status_of(old(self)@, sid@) {
                Option::None => r is Err && r->Err_0 is StreamNotFound && final(self)@ == old(
                    self,
                )@,
                Option::Some(st) => if terminal(st) {
                    r == Result::<bool, crate::error::AviP2pError>::Ok(false) && final(self)@
                        == old(self)@
                } else {
                    &&& r == Result::<bool, crate::error::AviP2pError>::Ok(true)
                    &&& assoc_get(final(self)@, sid@) == Some(
                        StreamModel {
                            status: StreamStatus::Closed,
                            last_activity: now,
                            ..assoc_get(old(self)@, sid@)->Some_0
                        },
                    )
                    &&& forall|q: (Seq<char>, u64, u64)|
                        q != sid@ ==> assoc_get(final(self)@, q) == assoc_get(old(self)@, q)
                },
            }),
    {
        let ghost pre = self@;
        match self.find(sid) {
            Some(i) => {
                proof {
                    lemma_assoc_get_first_match(pre, sid@, i as int);
                }
                let ghost epre = self.streams@;
                let (key, mut state) = self.streams.remove(i);
                match state.status {
                    StreamStatus::Closed | StreamStatus::Rejected => {
                        self.streams.insert(i, (key, state));
                        proof {
                            assert(self.streams@ =~= epre);
                            assert(self@ =~= pre);
                        }
                        Ok(false)
                    },
                    _ => {
                        state.status = StreamStatus::Closed;
                        state.last_activity_at = now;
                        self.streams.insert(i, (key, state));
                        proof {
                            let m = stream_model(self.streams@[i as int].1);
                            lemma_assoc_set_at_index(pre, sid@, m, i as int);
                            assert(self@ =~= assoc_set(pre, sid@, m));
                            lemma_assoc_set_unique(pre, sid@, m);
                            lemma_assoc_set_get(pre, sid@, m, sid@);
                            assert forall|q: (Seq<char>, u64, u64)| q != sid@ implies assoc_get(
                                self@,
                                q,
                            ) == assoc_get(pre, q) by {
                                lemma_assoc_set_get(pre, sid@, m, q);
                            }
                            assert(m =~= StreamModel {
                                status: StreamStatus::Closed,
                                last_activity: now,
                                ..assoc_get(pre, sid@)->Some_0
                            });
                        }
                        Ok(true)
                    },
                }
            },
            None => {
                proof {
                    lemma_assoc_get_none_iff(pre, sid@);
                }
                Err(crate::error::AviP2pError::StreamNotFound(sid.clone()))
            },
        }
    }

    /// The peer accepted a stream we opened: the record becomes open and
    /// the call returns the payloads to send and the early data to
    /// deliver. Any other state absorbs the envelope.
    pub fn on_accept_envelope(&mut self, sid: &StreamId, now: u64) -> (r: (
        bool,
        Vec<Vec<u8>>,
        Vec<Vec<u8>>,
    ))
        requires
            old(self).wf(),
        ensures
            final(self).wf(),
            (match status_of(old(self)@, sid@) {
                Option::None => !r.0 && final(self)@ == old(self)@,
                Option::Some(st) => {
                    &&& status_of(final(self)@, sid@) == Some(
                        envelope_step(st, EnvelopeKind::Accept),
                    )
                    &&& r.0 == (st == StreamStatus::PendingOutbound)
                    &&& r.0 ==> bytes_view(r.1@) == assoc_get(old(self)@, sid@)
                        ->Some_0.pending_outbound && bytes_view(r.2@) == assoc_get(
                        old(self)@,
                        sid@,
                    )->Some_0.buffered_inbound
                    &&& r.0 ==> assoc_get(final(self)@, sid@) == Some(
                        StreamModel {
                            status: StreamStatus::Open,
                            pending_outbound: Seq::empty(),
                            buffered_inbound: Seq::empty(),
                            last_activity: now,
                            ..assoc_get(old(self)@, sid@)->Some_0
                        },
                    )
                    &&& !r.0 ==> final(self)@ == old(self)@
                    &&& forall|q: (Seq<char>, u64, u64)|
                        q != sid@ ==> assoc_get(final(self)@, q) == assoc_get(old(self)@, q)
                },
            }),
    {
        let ghost pre = self@;
        match self.find(sid) {
            Some(i) => {
                proof {
                    lemma_assoc_get_first_match(pre, sid@, i as int);
                }
                let ghost epre = self.streams@;
                let (key, mut state) = self.streams.remove(i);
                match state.status {
                    StreamStatus::PendingOutbound => {
                        let to_send = state.pending_outbound;
                        let to_deliver = state.buffered_inbound;
                        state.pending_outbound = Vec::new();
                        state.buffered_inbound = Vec::new();
                        state.status = StreamStatus::Open;
                        state.last_activity_at = now;
                        self.streams.insert(i, (key, state));
                        proof {
                            let m = stream_model(self.streams@[i as int].1);
                            lemma_assoc_set_at_index(pre, sid@, m, i as int);
                            assert(self@ =~= assoc_set(pre, sid@, m));
                            lemma_assoc_set_unique(pre, sid@, m);
                            lemma_assoc_set_get(pre, sid@, m, sid@);
                            assert forall|q: (Seq<char>, u64, u64)| q != sid@ implies assoc_get(
                                self@,
                                q,
                            ) == assoc_get(pre, q) by {
                                lemma_assoc_set_get(pre, sid@, m, q);
                            }
                            assert(m.pending_outbound =~= Seq::<Seq<u8>>::empty());
                            assert(m.buffered_inbound =~= Seq::<Seq<u8>>::empty());
                            assert(m =~= StreamModel {
                                status: StreamStatus::Open,
                                pending_outbound: Seq::empty(),
                                buffered_inbound: Seq::empty(),
                                last_activity: now,
                                ..assoc_get(pre, sid@)->Some_0
                            });
                        }
                        (true, to_send, to_deliver)
                    },
                    other => {
                        state.status = other;
                        self.streams.insert(i, (key, state));
                        proof {
                            assert(self.streams@ =~= epre);
                            assert(self@ =~= pre);
                        }
                        (false, Vec::new(), Vec::new())
                    },
                }
            },
            None => {
                proof {
                    lemma_assoc_get_none_iff(pre, sid@);
                }
                (false, Vec::new(), Vec::new())
            },
        }
    }

    /// The peer rejected a stream we opened. The answer says whether the
    /// stream ended now (and a closed event is due).
    pub fn on_reject_envelope(&mut self, sid: &StreamId, now: u64) -> (r: bool)
        requires
            old(self).wf(),
        ensures
            final(self).wf(),
            (match status_of(old(self)@, sid@) {
                Option::None => !r && final(self)@ == old(self)@,
                Option::Some(st) => {
                    &&& status_of(final(self)@, sid@) == Some(
                        envelope_step(st, EnvelopeKind::Reject),
                    )
                    &&& r == (st == StreamStatus::PendingOutbound)
                    &&& r ==> assoc_get(final(self)@, sid@) == Some(
                        StreamModel {
                            status: StreamStatus::Rejected,
                            last_activity: now,
                            ..assoc_get(old(self)@, sid@)->Some_0
                        },
                    )
                    &&& !r ==> final(self)@ == old(self)@
                    &&& forall|q: (Seq<char>, u64, u64)|
                        q != sid@ ==> assoc_get(final(self)@, q) == assoc_get(old(self)@, q)
                },
            }),
    {
        let ghost pre = self@;
        match self.find(sid) {
            Some(i) => {
                proof {
                    lemma_assoc_get_first_match(pre, sid@, i as int);
                }
                let ghost epre = self.streams@;
                let (key, mut state) = self.streams.remove(i);
                match state.status {
                    StreamStatus::PendingOutbound => {
                        state.status = StreamStatus::Rejected;
                        state.last_activity_at = now;
                        self.streams.insert(i, (key, state));
                        proof {
                            let m = stream_model(self.streams@[i as int].1);
                            lemma_assoc_set_at_index(pre, sid@, m, i as int);
                            assert(self@ =~= assoc_set(pre, sid@, m));
                            lemma_assoc_set_unique(pre, sid@, m);
                            lemma_assoc_set_get(pre, sid@, m, sid@);
                            assert forall|q: (Seq<char>, u64, u64)| q != sid@ implies assoc_get(
                                self@,
                                q,
                            ) == assoc_get(pre, q) by {
                                lemma_assoc_set_get(pre, sid@, m, q);
                            }
                            assert(m =~= StreamModel {
                                status: StreamStatus::Rejected,
                                last_activity: now,
                                ..assoc_get(pre, sid@)->Some_0
                            });
                        }
                        true
                    },
                    other => {
                        state.status = other;
                        self.streams.insert(i, (key, state));
                        proof {
                            assert(self.streams@ =~= epre);
                            assert(self@ =~= pre);
                        }
                        false
                    },
                }
            },
            None => {
                proof {
                    lemma_assoc_get_none_iff(pre, sid@);
                }
                false
            },
        }
    }

    /// Data arrived for a stream. Only an open stream delivers it; a
    /// pending stream buffers it while there is room; anything else,
    /// terminal states included, absorbs it silently.
    pub fn on_data_envelope(&mut self, sid: &StreamId, data: Vec<u8>, now: u64) -> (r: StreamOutcome)
        requires
            old(self).wf(),
        ensures
            final(self).wf(),
            r is Deliver <==> status_of(old(self)@, sid@) == Some(StreamStatus::Open),
            r is Deliver ==> r->Deliver_0@ == data@,
            (match status_of(old(self)@, sid@) {
                Option::None => final(self)@ == old(self)@,
                Option::Some(st) => {
                    &&& status_of(final(self)@, sid@) == Some(envelope_step(st, EnvelopeKind::Data))
                    &&& terminal(st) ==> final(self)@ == old(self)@
                    &&& st == StreamStatus::Open ==> assoc_get(final(self)@, sid@) == Some(
                        StreamModel { last_activity: now, ..assoc_get(old(self)@, sid@)->Some_0 },
                    )
                    &&& (st == StreamStatus::PendingOutbound || st == StreamStatus::PendingInbound)
                        ==> (if (assoc_get(old(self)@, sid@)->Some_0.buffered_inbound).len()
                        < STREAM_BUFFER_BOUND as int {
                        r is Buffered && assoc_get(final(self)@, sid@) == Some(
                            StreamModel {
                                buffered_inbound: assoc_get(
                                    old(self)@,
                                    sid@,
                                )->Some_0.buffered_inbound.push(data@),
                                last_activity: now,
                                ..assoc_get(old(self)@, sid@)->Some_0
                            },
                        )
                    } else {
                        final(self)@ == old(self)@
                    })
                    &&& forall|q: (Seq<char>, u64, u64)|
                        q != sid@ ==> assoc_get(final(self)@, q) == assoc_get(old(self)@, q)
                },
            }),
    {
        let ghost pre = self@;
        match self.find(sid) {
            Some(i) => {
                proof {
                    lemma_assoc_get_first_match(pre, sid@, i as int);
                }
                let ghost epre = self.streams@;
                let (key, mut state) = self.streams.remove(i);
                match state.status {
                    StreamStatus::Open => {
                        state.last_activity_at = now;
                        self.streams.insert(i, (key, state));
                        proof {
                            let m = stream_model(self.streams@[i as int].1);
                            lemma_assoc_set_at_index(pre, sid@, m, i as int);
                            assert(self@ =~= assoc_set(pre, sid@, m));
                            lemma_assoc_set_unique(pre, sid@, m);
                            lemma_assoc_set_get(pre, sid@, m, sid@);
                            assert forall|q: (Seq<char>, u64, u64)| q != sid@ implies assoc_get(
                                self@,
                                q,
                            ) == assoc_get(pre, q) by {
                                lemma_assoc_set_get(pre, sid@, m, q);
                            }
                            assert(m =~= StreamModel {
                                last_activity: now,
                                ..assoc_get(pre, sid@)->Some_0
                            });
                        }
                        StreamOutcome::Deliver(data)
                    },
                    StreamStatus::PendingOutbound | StreamStatus::PendingInbound => {
                        if state.buffered_inbound.len() < STREAM_BUFFER_BOUND {
                            state.buffered_inbound.push(data);
                            state.last_activity_at = now;
                            self.streams.insert(i, (key, state));
                            proof {
                                let m = stream_model(self.streams@[i as int].1);
                                lemma_assoc_set_at_index(pre, sid@, m, i as int);
                                assert(self@ =~= assoc_set(pre, sid@, m));
                                lemma_assoc_set_unique(pre, sid@, m);
                                lemma_assoc_set_get(pre, sid@, m, sid@);
                                assert forall|q: (Seq<char>, u64, u64)|
                                    q != sid@ implies assoc_get(self@, q) == assoc_get(
                                    pre,
                                    q,
                                ) by {
                                    lemma_assoc_set_get(pre, sid@, m, q);
                                }
                                assert(m.buffered_inbound =~= assoc_get(
                                    pre,
                                    sid@,
                                )->Some_0.buffered_inbound.push(data@));
                                assert(m =~= StreamModel {
                                    buffered_inbound: assoc_get(
                                        pre,
                                        sid@,
                                    )->Some_0.buffered_inbound.push(data@),
                                    last_activity: now,
                                    ..assoc_get(pre, sid@)->Some_0
                                });
                            }
                            StreamOutcome::Buffered
                        } else {
                            self.streams.insert(i, (key, state));
                            proof {
                                assert(self.streams@ =~= epre);
                                assert(self@ =~= pre);
                            }
                            StreamOutcome::Ignored
                        }
                    },
                    _ => {
                        self.streams.insert(i, (key, state));
                        proof {
                            assert(self.streams@ =~= epre);
                            assert(self@ =~= pre);
                        }
                        StreamOutcome::Ignored
                    },
                }
            },
            None => {
                proof {
                    lemma_assoc_get_none_iff(pre, sid@);
                }
                StreamOutcome::Ignored
            },
        }
    }

    /// The peer closed a stream. The answer says whether the stream was
    /// live until now (and a closed event is due).
    pub fn on_close_envelope(&mut self, sid: &StreamId, now: u64) -> (r: bool)
        requires
            old(self).wf(),
        ensures
            final(self).wf(),
            (match status_of(old(self)@, sid@) {
                Option::None => !r && final(self)@ == old(self)@,
                Option::Some(st) => {
                    &&& status_of(final(self)@, sid@) == Some(
                        envelope_step(st, EnvelopeKind::Close),
                    )
                    &&& r == !terminal(st)
                    &&& r ==> assoc_get(final(self)@, sid@) == Some(
                        StreamModel {
                            status: StreamStatus::Closed,
                            last_activity: now,
                            ..assoc_get(old(self)@, sid@)->Some_0
                        },
                    )
                    &&& !r ==> final(self)@ == old(self)@
                    &&& forall|q: (Seq<char>, u64, u64)|
                        q != sid@ ==> assoc_get(final(self)@, q) == assoc_get(old(self)@, q)
                },
            }),
    {
        let ghost pre = self@;
        match self.find(sid) {
            Some(i) => {
                proof {
                    lemma_assoc_get_first_match(pre, sid@, i as int);
                }
                let ghost epre = self.streams@;
                let (key, mut state) = self.streams.remove(i);
                match state.status {
                    StreamStatus::Closed | StreamStatus::Rejected => {
                        self.streams.insert(i, (key, state));
                        proof {
                            assert(self.streams@ =~= epre);
                            assert(self@ =~= pre);
                        }
                        false
                    },
                    _ => {
                        state.status = StreamStatus::Closed;
                        state.last_activity_at = now;
                        self.streams.insert(i, (key, state));
                        proof {
                            let m = stream_model(self.streams@[i as int].1);
                            lemma_assoc_set_at_index(pre, sid@, m, i as int);
                            assert(self@ =~= assoc_set(pre, sid@, m));
                            lemma_assoc_set_unique(pre, sid@, m);
                            lemma_assoc_set_get(pre, sid@, m, sid@);
                            assert forall|q: (Seq<char>, u64, u64)| q != sid@ implies assoc_get(
                                self@,
                                q,
                            ) == assoc_get(pre, q) by {
                                lemma_assoc_set_get(pre, sid@, m, q);
                            }
                            assert(m =~= StreamModel {
                                status: StreamStatus::Closed,
                                last_activity: now,
                                ..assoc_get(pre, sid@)->Some_0
                            });
                        }
                        true
                    },
                }
            },
            None => {
                proof {
                    lemma_assoc_get_none_iff(pre, sid@);
                }
                false
            },
        }
    }


    /// Drop the streams that reached a terminal state and then sat
    /// quiet past the grace deadline: a record leaves exactly when it is
    /// terminal and its last activity is at or before the cutoff. Live
    /// streams, and terminal ones still inside their grace, keep their
    /// records unchanged.
    #[verifier::loop_isolation(false)]
    pub fn sweep_terminal(&mut self, cutoff: u64)
        requires
            old(self).wf(),
        ensures
            final(self).wf(),
            forall|q: (Seq<char>, u64, u64)|
                #[trigger] assoc_get(final(self)@, q) == (match assoc_get(old(self)@, q) {
                    Option::Some(m) => if terminal(m.status) && m.last_activity <= cutoff {
                        Option::<StreamModel>::None
                    } else {
                        Option::Some(m)
                    },
                    Option::None => Option::<StreamModel>::None,
                }),
    {
        let ghost orig = self@;
        let mut i: usize = 0;
        while i < self.streams.len()
            invariant
                self.wf(),
                i <= self.streams@.len(),
                forall|q: (Seq<char>, u64, u64)|
                    #[trigger] assoc_get(self@, q) == assoc_get(orig, q) || (assoc_get(self@, q)
                        is None && (assoc_get(orig, q) matches Some(m) && terminal(m.status)
                        && m.last_activity <= cutoff)),
                forall|j: int| 0 <= j < i ==> !(terminal(#[trigger] self@[j].1.status)
                    && self@[j].1.last_activity <= cutoff),
            decreases self.streams@.len() - i,
        {
            let gone = match self.streams[i].1.status {
                StreamStatus::Closed | StreamStatus::Rejected => {
                    self.streams[i].1.last_activity_at <= cutoff
                },
                _ => false,
            };
            if gone {
                let ghost pre = self@;
                let ghost k = self@[i as int].0;
                proof {
                    crate::assoc::lemma_assoc_unique_iff_distinct(pre);
                    assert forall|j: int| 0 <= j < i implies pre[j].0 != k by {}
                    lemma_assoc_get_first_match(pre, k, i as int);
                    crate::assoc::lemma_assoc_remove_at_index(pre, k, i as int);
                }
                let _ = self.streams.remove(i);
                proof {
                    assert(self@ =~= crate::assoc::assoc_remove(pre, k));
                    crate::assoc::lemma_assoc_remove_unique(pre, k);
                    assert forall|q: (Seq<char>, u64, u64)|
                        #[trigger] assoc_get(self@, q) == assoc_get(orig, q) || (assoc_get(
                            self@,
                            q,
                        ) is None && (assoc_get(orig, q) matches Some(m) && terminal(m.status)
                        && m.last_activity <= cutoff)) by {
                        crate::assoc::lemma_assoc_remove_get(pre, k, q);
                        if q == k {
                            assert(assoc_get(pre, k) == Some(pre[i as int].1));
                            assert(pre[i as int].1.last_activity <= cutoff);
                        }
                    }
                    assert forall|j: int| 0 <= j < i implies !(terminal(
                        #[trigger] self@[j].1.status,
                    ) && self@[j].1.last_activity <= cutoff) by {
                        assert(self@[j].1 == pre[j].1);
                    }
                }
            } else {
                proof {
                    assert(self@[i as int].1 == stream_model(self.streams@[i as int].1));
                }
                i += 1;
            }
        }
        proof {
            assert forall|q: (Seq<char>, u64, u64)|
                #[trigger] assoc_get(self@, q) == (match assoc_get(orig, q) {
                    Option::Some(m) => if terminal(m.status) && m.last_activity <= cutoff {
                        Option::<StreamModel>::None
                    } else {
                        Option::Some(m)
                    },
                    Option::None => Option::<StreamModel>::None,
                }) by {
                if assoc_get(self@, q) is Some {
                    assert(assoc_get(self@, q) == assoc_get(orig, q));
                    crate::assoc::lemma_assoc_get_some_at(self@, q);
                    let j = choose|j: int|
                        0 <= j < self@.len() && self@[j].0 == q && self@[j].1 == assoc_get(
                            self@,
                            q,
                        )->Some_0;
                    assert(!(terminal(self@[j].1.status) && self@[j].1.last_activity <= cutoff));
                }
            }
        }
    }

    /// A peer's connection went away: every live stream with that peer
    /// closes, and exactly those streams' ids come back, in registry
    /// order, so that closed events can go out.
    #[verifier::loop_isolation(false)]
    pub fn close_for_peer(&mut self, peer: &PeerId, now: u64) -> (r: Vec<StreamId>)
        requires
            old(self).wf(),
        ensures
            final(self).wf(),
            closed_for_peer_transform(old(self)@, final(self)@, peer@, now),
            sid_views(r@) == closed_ids(old(self)@, peer@),
    {
        let ghost pre = self@;
        let mut closed: Vec<StreamId> = Vec::new();
        let mut i: usize = 0;
        proof {
            assert(sid_views(closed@) =~= closed_ids(pre.take(0), peer@));
        }
        while i < self.streams.len()
            invariant
                self.streams@.len() == pre.len(),
                i <= pre.len(),
                self.wf(),
                forall|j: int|
                    0 <= j < pre.len() ==> #[trigger] self@[j].0 == pre[j].0 && self@[j].1 == (
                    if j < i && pre[j].1.remote_peer == peer@ && !terminal(pre[j].1.status) {
                        StreamModel { status: StreamStatus::Closed, last_activity: now, ..pre[j].1 }
                    } else {
                        pre[j].1
                    }),
                sid_views(closed@) == closed_ids(pre.take(i as int), peer@),
            decreases pre.len() - i,
        {
            let ghost vpre = self@;
            let ghost epre = self.streams@;
            let is_target = self.streams[i].1.remote_peer.same_peer(peer) && match self.streams[i].1.status {
                StreamStatus::Closed | StreamStatus::Rejected => false,
                _ => true,
            };
            let ghost cpre = closed@;
            if is_target {
                let (key, mut state) = self.streams.remove(i);
                state.status = StreamStatus::Closed;
                state.last_activity_at = now;
                let copy = key.clone();
                self.streams.insert(i, (key, state));
                closed.push(copy);
                proof {
                    assert(vpre[i as int].0 == pre[i as int].0);
                    assert(vpre[i as int].1 == stream_model(epre[i as int].1));
                    assert(vpre[i as int].1 == pre[i as int].1);
                    assert(copy@ == epre[i as int].0@);
                }
            }
            proof {
                assert(pre.take(i as int + 1).drop_last() =~= pre.take(i as int));
                assert(pre.take(i as int + 1).last() == pre[i as int]);
                if is_target {
                    assert(sid_views(closed@) =~= sid_views(cpre).push(pre[i as int].0));
                    assert(sid_views(closed@) =~= closed_ids(pre.take(i as int + 1), peer@));
                } else {
                    assert(vpre[i as int].0 == pre[i as int].0);
                    assert(vpre[i as int].1 == pre[i as int].1);
                    assert(vpre[i as int].1 == stream_model(epre[i as int].1));
                    assert(!(pre[i as int].1.remote_peer == peer@ && !terminal(
                        pre[i as int].1.status,
                    )));
                    assert(sid_views(closed@) =~= closed_ids(pre.take(i as int + 1), peer@));
                }
                assert forall|j: int| 0 <= j < pre.len() implies #[trigger] self@[j].0 == pre[j].0
                    && self@[j].1 == (if j < i + 1 && pre[j].1.remote_peer == peer@ && !terminal(
                    pre[j].1.status,
                ) {
                    StreamModel { status: StreamStatus::Closed, last_activity: now, ..pre[j].1 }
                } else {
                    pre[j].1
                }) by {
                    assert(vpre[j].0 == pre[j].0);
                    if is_target {
                        if j < i as int {
                            assert(self.streams@[j] == epre[j]);
                            assert(self@[j].0 == vpre[j].0);
                            assert(self@[j].1 == vpre[j].1);
                        } else if j > i as int {
                            assert(self.streams@[j] == epre[j]);
                            assert(self@[j].0 == vpre[j].0);
                            assert(self@[j].1 == vpre[j].1);
                        } else {
                            assert(self.streams@[j].0 == epre[j].0);
                            assert(self@[j].0 == vpre[j].0);
                            assert(self@[j].1 == StreamModel {
                                status: StreamStatus::Closed,
                                last_activity: now,
                                ..vpre[j].1
                            });
                        }
                    } else {
                        assert(self@[j] == vpre[j]);
                        if j == i as int {
                            assert(vpre[j].1 == stream_model(self.streams@[j].1));
                            assert(!(pre[j].1.remote_peer == peer@ && !terminal(pre[j].1.status)));
                        }
                    }
                }
                crate::assoc::lemma_assoc_unique_iff_distinct(vpre);
                crate::assoc::lemma_assoc_unique_iff_distinct(self@);
                assert forall|a: int, b: int| 0 <= a < b < self@.len() implies self@[a].0
                    != self@[b].0 by {
                    assert(self@[a].0 == pre[a].0);
                    assert(self@[b].0 == pre[b].0);
                    assert(vpre[a].0 == pre[a].0);
                    assert(vpre[b].0 == pre[b].0);
                }
            }
            i += 1;
        }
        proof {
            assert(i as int == pre.len());
            assert(pre == old(self)@);
            assert forall|x: int| 0 <= x < self@.len() implies #[trigger] self@[x].0 == pre[x].0
                && self@[x].1 == (if pre[x].1.remote_peer == peer@ && !terminal(
                pre[x].1.status,
            ) {
                StreamModel { status: StreamStatus::Closed, last_activity: now, ..pre[x].1 }
            } else {
                pre[x].1
            }) by {
                assert(self@[x].0 == pre[x].0);
            }
            assert(closed_for_peer_transform(pre, self@, peer@, now));
            assert(pre.take(pre.len() as int) =~= pre);
        }
        closed
    }
}

} // verus!
