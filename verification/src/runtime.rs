//! The runtime's decision core: the state the event reactor owns and the
//! pure step functions the reactor's loop calls. The loop itself only
//! performs the actions these functions hand back.

use vstd::prelude::*;
use crate::assoc::{assoc_get, assoc_set};
use crate::clock::{clock_at, clock_of_pairs, string_pairs_view, VectorClock};
use crate::codec::{
    clock_pairs_view, dec_envelope, decode_envelope, enc_envelope, encode_envelope, WireEnvelope,
    WireModel,
};
use crate::command::{Command, CommandReply};
use crate::context::{
    announce_clock_at, announce_data, announce_updates, stored_clock, stored_data, ContextStore,
    CtxModel,
};
use crate::error::{AviP2pError, CloseModel, StreamCloseReason};
use crate::events::{AviEvent, EventModel};
use crate::json::{json_check_wf, jv_wf, merge_jv, Jv, JsonValue};
use crate::peer::PeerId;
use crate::stream::{
    bytes_view, closed_for_peer_transform, closed_ids, fresh_model, generate_stream_id, sid_views,
    status_of, terminal, StreamDirection, StreamId, StreamModel, StreamOutcome, StreamRegistry,
    StreamStatus, STREAM_BUFFER_BOUND,
};

verus! {

broadcast use vstd::std_specs::vec::group_vec_axioms;

/// The reserved gossip topic that carries context announces.
pub fn context_topic() -> (r: String)
    ensures
        r@ == context_topic_text(),
{
    proof {
        reveal_strlit("__avi/sys/context");
    }
    String::from_str("__avi/sys/context")
}

/// The text of the reserved context topic.
pub open spec fn context_topic_text() -> Seq<char> {
    "__avi/sys/context"@
}

/// A side effect the reactor's loop must perform.
pub enum Action {
    /// Subscribe the gossip layer to a topic.
    GossipSubscribe { topic: String },
    /// Unsubscribe the gossip layer from a topic.
    GossipUnsubscribe { topic: String },
    /// Publish bytes on a topic.
    Publish { topic: String, data: Vec<u8> },
    /// Send an encoded envelope to a peer as a request.
    SendEnvelope { peer: PeerId, data: Vec<u8> },
    /// Dial a peer that was discovered but is not yet connected.
    Dial { peer: PeerId },
    /// Start a round of peer discovery.
    StartDiscovery,
    /// Hand an event to the broadcast.
    Emit { event: AviEvent },
}

/// The model of an action.
#[verifier::ext_equal]
pub enum ActionModel {
    GossipSubscribe { topic: Seq<char> },
    GossipUnsubscribe { topic: Seq<char> },
    Publish { topic: Seq<char>, data: Seq<u8> },
    SendEnvelope { peer: Seq<char>, data: Seq<u8> },
    Dial { peer: Seq<char> },
    StartDiscovery,
    Emit { event: EventModel },
}

impl View for Action {
    type V = ActionModel;

    open spec fn view(&self) -> ActionModel {
        match self {
            Action::GossipSubscribe { topic } => ActionModel::GossipSubscribe { topic: topic@ },
            Action::GossipUnsubscribe { topic } => ActionModel::GossipUnsubscribe {
                topic: topic@,
            },
            Action::Publish { topic, data } => ActionModel::Publish {
                topic: topic@,
                data: data@,
            },
            Action::SendEnvelope { peer, data } => ActionModel::SendEnvelope {
                peer: peer@,
                data: data@,
            },
            Action::Dial { peer } => ActionModel::Dial { peer: peer@ },
            Action::StartDiscovery => ActionModel::StartDiscovery,
            Action::Emit { event } => ActionModel::Emit { event: event@ },
        }
    }
}

/// The models of a list of actions, in order.
pub open spec fn acts(s: Seq<Action>) -> Seq<ActionModel> {
    Seq::new(s.len(), |i: int| s[i]@)
}

/// The send actions that flush buffered payloads on a newly open stream,
/// oldest first.
pub open spec fn flush_sends(
    peer: Seq<char>,
    id: (Seq<char>, u64, u64),
    ps: Seq<Seq<u8>>,
) -> Seq<ActionModel> {
    Seq::new(
        ps.len(),
        |k: int|
            ActionModel::SendEnvelope {
                peer,
                data: enc_envelope(WireModel::Data { id, data: ps[k] }),
            },
    )
}

/// The emit actions that deliver early-arrived payloads on a newly open
/// stream, oldest first.
pub open spec fn deliver_emits(id: (Seq<char>, u64, u64), ps: Seq<Seq<u8>>) -> Seq<ActionModel> {
    Seq::new(
        ps.len(),
        |k: int|
            ActionModel::Emit { event: EventModel::StreamData { stream_id: id, data: ps[k] } },
    )
}

/// The closed events for the streams a disconnect ended, in order.
pub open spec fn closed_emits(ids: Seq<(Seq<char>, u64, u64)>) -> Seq<ActionModel> {
    Seq::new(
        ids.len(),
        |k: int|
            ActionModel::Emit {
                event: EventModel::StreamClosed {
                    stream_id: ids[k],
                    reason: CloseModel::PeerDisconnected,
                },
            },
    )
}

/// The announce envelope a node gossips: its own document and clock.
pub open spec fn announce_wire(local: Seq<char>, sv: Seq<(Seq<char>, CtxModel)>) -> WireModel {
    WireModel::Announce {
        peer: local,
        data: stored_data(sv, local),
        clock: stored_clock(sv, local),
    }
}

/// The publish action that gossips the local context on the reserved
/// topic.
pub open spec fn announce_act(local: Seq<char>, sv: Seq<(Seq<char>, CtxModel)>) -> ActionModel {
    ActionModel::Publish {
        topic: context_topic_text(),
        data: enc_envelope(announce_wire(local, sv)),
    }
}

/// The texts of a list of peers, in order.
pub open spec fn peer_texts(ps: Seq<PeerId>) -> Seq<Seq<char>> {
    Seq::new(ps.len(), |i: int| ps[i]@)
}

/// What the swarm handed the reactor.
pub enum SwarmInput {
    PeerDiscovered { peer: PeerId },
    PeerConnected { peer: PeerId },
    PeerDisconnected { peer: PeerId },
    GossipMessage { from: PeerId, topic: String, data: Vec<u8> },
    InboundRequest { from: PeerId, data: Vec<u8> },
}

/// The state the runtime owns.
pub struct Runtime {
    local_peer: PeerId,
    subscriptions: Vec<String>,
    connected: Vec<PeerId>,
    pub streams: StreamRegistry,
    pub contexts: ContextStore,
    next_stream_counter: u64,
}

/// Whether a topic text is in the list.
pub open spec fn has_topic(ts: Seq<String>, t: Seq<char>) -> bool {
    exists|i: int| 0 <= i < ts.len() && ts[i]@ == t
}

/// Whether a peer text is in the list.
pub open spec fn has_peer(ps: Seq<PeerId>, p: Seq<char>) -> bool {
    exists|i: int| 0 <= i < ps.len() && ps[i]@ == p
}

/// What applying one context announce for `peer` does to the store, and
/// the actions it earns: stale state is discarded, dominating state
/// replaces, concurrent state merges, and a change is reported as a
/// context-updated event.
pub open spec fn announce_effect(
    prev: Seq<(Seq<char>, CtxModel)>,
    postv: Seq<(Seq<char>, CtxModel)>,
    peer: Seq<char>,
    d: Jv,
    clock: Seq<(Seq<char>, u64)>,
    out: Seq<ActionModel>,
) -> bool {
    if jv_wf(d) {
        let lc = stored_clock(prev, peer);
        let c = clock_of_pairs(clock);
        let nd = announce_data(stored_data(prev, peer), d, lc, c);
        &&& stored_data(postv, peer) == nd
        &&& (forall|q: Seq<char>|
            #[trigger] clock_at(stored_clock(postv, peer), q) == announce_clock_at(lc, c, q))
        &&& (forall|q: Seq<char>|
            q != peer ==> #[trigger] assoc_get(postv, q) == assoc_get(prev, q))
        &&& out == (if announce_updates(lc, c) {
            seq![ActionModel::Emit { event: EventModel::ContextUpdated { peer_id: peer, context: nd } }]
        } else {
            Seq::<ActionModel>::empty()
        })
    } else {
        &&& postv == prev
        &&& out == Seq::<ActionModel>::empty()
    }
}

/// What one decoded stream envelope from `from` does to the runtime, and
/// the actions it earns, per the stream state machine and the context
/// merge rules.
pub open spec fn envelope_effect(
    pre: Runtime,
    post: Runtime,
    from: Seq<char>,
    env: WireModel,
    now: u64,
    out: Seq<ActionModel>,
) -> bool {
    &&& post.local() == pre.local()
    &&& post.topics() == pre.topics()
    &&& post.peers() == pre.peers()
    &&& post.counter() == pre.counter()
    &&& (match env {
        WireModel::Open { id, reason } => {
            &&& post.ctx_view() == pre.ctx_view()
            &&& if status_of(pre.streams_view(), id) is None {
                &&& assoc_get(post.streams_view(), id) == Some(
                    fresh_model(
                        from,
                        StreamDirection::Inbound,
                        StreamStatus::PendingInbound,
                        reason,
                        now,
                    ),
                )
                &&& (forall|q: (Seq<char>, u64, u64)|
                    q != id ==> #[trigger] assoc_get(post.streams_view(), q) == assoc_get(
                        pre.streams_view(),
                        q,
                    ))
                &&& out == seq![
                    ActionModel::Emit {
                        event: EventModel::StreamRequested { stream_id: id, from, reason },
                    },
                ]
            } else {
                &&& post.streams_view() == pre.streams_view()
                &&& out == Seq::<ActionModel>::empty()
            }
        },
        WireModel::Accept { id } => {
            &&& post.ctx_view() == pre.ctx_view()
            &&& (match status_of(pre.streams_view(), id) {
                Option::Some(StreamStatus::PendingOutbound) => {
                    let m = assoc_get(pre.streams_view(), id)->Some_0;
                    &&& assoc_get(post.streams_view(), id) == Some(
                        StreamModel {
                            status: StreamStatus::Open,
                            pending_outbound: Seq::empty(),
                            buffered_inbound: Seq::empty(),
                            last_activity: now,
                            ..m
                        },
                    )
                    &&& (forall|q: (Seq<char>, u64, u64)|
                        q != id ==> #[trigger] assoc_get(post.streams_view(), q) == assoc_get(
                            pre.streams_view(),
                            q,
                        ))
                    &&& out == flush_sends(from, id, m.pending_outbound) + deliver_emits(
                        id,
                        m.buffered_inbound,
                    ) + seq![
                        ActionModel::Emit { event: EventModel::StreamOpened { stream_id: id } },
                    ]
                },
                _ => {
                    &&& post.streams_view() == pre.streams_view()
                    &&& out == Seq::<ActionModel>::empty()
                },
            })
        },
        WireModel::Reject { id, reason } => {
            &&& post.ctx_view() == pre.ctx_view()
            &&& (match status_of(pre.streams_view(), id) {
                Option::Some(StreamStatus::PendingOutbound) => {
                    let m = assoc_get(pre.streams_view(), id)->Some_0;
                    &&& assoc_get(post.streams_view(), id) == Some(
                        StreamModel {
                            status: StreamStatus::Rejected,
                            last_activity: now,
                            ..m
                        },
                    )
                    &&& (forall|q: (Seq<char>, u64, u64)|
                        q != id ==> #[trigger] assoc_get(post.streams_view(), q) == assoc_get(
                            pre.streams_view(),
                            q,
                        ))
                    &&& out == seq![
                        ActionModel::Emit {
                            event: EventModel::StreamClosed {
                                stream_id: id,
                                reason: CloseModel::RejectedByRemote(reason),
                            },
                        },
                    ]
                },
                _ => {
                    &&& post.streams_view() == pre.streams_view()
                    &&& out == Seq::<ActionModel>::empty()
                },
            })
        },
        WireModel::Data { id, data } => {
            &&& post.ctx_view() == pre.ctx_view()
            &&& (match status_of(pre.streams_view(), id) {
                Option::Some(StreamStatus::Open) => {
                    let m = assoc_get(pre.streams_view(), id)->Some_0;
                    &&& assoc_get(post.streams_view(), id) == Some(
                        StreamModel { last_activity: now, ..m },
                    )
                    &&& (forall|q: (Seq<char>, u64, u64)|
                        q != id ==> #[trigger] assoc_get(post.streams_view(), q) == assoc_get(
                            pre.streams_view(),
                            q,
                        ))
                    &&& out == seq![
                        ActionModel::Emit {
                            event: EventModel::StreamData { stream_id: id, data },
                        },
                    ]
                },
                Option::Some(StreamStatus::PendingOutbound)
                | Option::Some(StreamStatus::PendingInbound) => {
                    let m = assoc_get(pre.streams_view(), id)->Some_0;
                    &&& out == Seq::<ActionModel>::empty()
                    &&& if m.buffered_inbound.len() < STREAM_BUFFER_BOUND as int {
                        &&& assoc_get(post.streams_view(), id) == Some(
                            StreamModel {
                                buffered_inbound: m.buffered_inbound.push(data),
                                last_activity: now,
                                ..m
                            },
                        )
                        &&& (forall|q: (Seq<char>, u64, u64)|
                            q != id ==> #[trigger] assoc_get(post.streams_view(), q) == assoc_get(
                                pre.streams_view(),
                                q,
                            ))
                    } else {
                        post.streams_view() == pre.streams_view()
                    }
                },
                _ => {
                    &&& post.streams_view() == pre.streams_view()
                    &&& out == Seq::<ActionModel>::empty()
                },
            })
        },
        WireModel::Close { id, reason: _ } => {
            &&& post.ctx_view() == pre.ctx_view()
            &&& (match status_of(pre.streams_view(), id) {
                Option::Some(st) => if !terminal(st) {
                    let m = assoc_get(pre.streams_view(), id)->Some_0;
                    &&& assoc_get(post.streams_view(), id) == Some(
                        StreamModel { status: StreamStatus::Closed, last_activity: now, ..m },
                    )
                    &&& (forall|q: (Seq<char>, u64, u64)|
                        q != id ==> #[trigger] assoc_get(post.streams_view(), q) == assoc_get(
                            pre.streams_view(),
                            q,
                        ))
                    &&& out == seq![
                        ActionModel::Emit {
                            event: EventModel::StreamClosed {
                                stream_id: id,
                                reason: CloseModel::Normal,
                            },
                        },
                    ]
                } else {
                    &&& post.streams_view() == pre.streams_view()
                    &&& out == Seq::<ActionModel>::empty()
                },
                Option::None => {
                    &&& post.streams_view() == pre.streams_view()
                    &&& out == Seq::<ActionModel>::empty()
                },
            })
        },
        WireModel::Announce { peer, data, clock } => {
            &&& post.streams_view() == pre.streams_view()
            &&& announce_effect(pre.ctx_view(), post.ctx_view(), peer, data, clock, out)
        },
    })
}

/// What one swarm input does to the runtime, and the actions it earns:
/// the peer set is tracked, fresh discoveries are dialled, announces are
/// folded into the context store, inbound envelopes run the stream
/// machine, and messages on subscribed topics are forwarded.
pub open spec fn swarm_effect(
    pre: Runtime,
    post: Runtime,
    input: SwarmInput,
    now: u64,
    out: Seq<ActionModel>,
) -> bool {
    &&& post.local() == pre.local()
    &&& (match input {
        SwarmInput::PeerDiscovered { peer } => {
            &&& post == pre
            &&& out == seq![
                ActionModel::Emit { event: EventModel::PeerDiscovered { peer_id: peer@ } },
            ] + (if has_peer(pre.peers(), peer@) {
                Seq::<ActionModel>::empty()
            } else {
                seq![ActionModel::Dial { peer: peer@ }]
            })
        },
        SwarmInput::PeerConnected { peer } => {
            &&& post.topics() == pre.topics()
            &&& post.streams_view() == pre.streams_view()
            &&& post.ctx_view() == pre.ctx_view()
            &&& post.counter() == pre.counter()
            &&& has_peer(post.peers(), peer@)
            &&& (forall|t: Seq<char>|
                t != peer@ ==> #[trigger] has_peer(post.peers(), t) == has_peer(pre.peers(), t))
            &&& out == seq![
                ActionModel::Emit { event: EventModel::PeerConnected { peer_id: peer@ } },
                announce_act(pre.local(), pre.ctx_view()),
            ]
        },
        SwarmInput::PeerDisconnected { peer } => {
            &&& post.topics() == pre.topics()
            &&& post.ctx_view() == pre.ctx_view()
            &&& post.counter() == pre.counter()
            &&& !has_peer(post.peers(), peer@)
            &&& (forall|t: Seq<char>|
                t != peer@ ==> #[trigger] has_peer(post.peers(), t) == has_peer(pre.peers(), t))
            &&& closed_for_peer_transform(pre.streams_view(), post.streams_view(), peer@, now)
            &&& out == closed_emits(closed_ids(pre.streams_view(), peer@)) + seq![
                ActionModel::Emit { event: EventModel::PeerDisconnected { peer_id: peer@ } },
            ]
        },
        SwarmInput::GossipMessage { from, topic, data } => {
            if topic@ == context_topic_text() {
                &&& post.topics() == pre.topics()
                &&& post.peers() == pre.peers()
                &&& post.streams_view() == pre.streams_view()
                &&& post.counter() == pre.counter()
                &&& (match dec_envelope(data@) {
                    Option::Some(WireModel::Announce { peer, data: d, clock }) => announce_effect(
                        pre.ctx_view(),
                        post.ctx_view(),
                        peer,
                        d,
                        clock,
                        out,
                    ),
                    _ => post.ctx_view() == pre.ctx_view() && out
                        == Seq::<ActionModel>::empty(),
                })
            } else {
                &&& post == pre
                &&& out == (if has_topic(pre.topics(), topic@) {
                    seq![
                        ActionModel::Emit {
                            event: EventModel::Message { from: from@, topic: topic@, data: data@ },
                        },
                    ]
                } else {
                    Seq::<ActionModel>::empty()
                })
            }
        },
        SwarmInput::InboundRequest { from, data } => {
            match dec_envelope(data@) {
                Option::Some(env) => envelope_effect(pre, post, from@, env, now, out),
                Option::None => post == pre && out == Seq::<ActionModel>::empty(),
            }
        },
    })
}

/// What one command does: the reply it earns, the state it leaves, and
/// the actions the swarm must perform, for every command and every
/// state. Success is owed wherever the state allows it.
pub open spec fn command_effect(
    pre: Runtime,
    post: Runtime,
    cmd: Command,
    now: u64,
    entropy: u64,
    reply: CommandReply,
    out: Seq<ActionModel>,
) -> bool {
    &&& post.local() == pre.local()
    &&& (match cmd {
        Command::Subscribe { topic } => {
            &&& reply is Ack
            &&& has_topic(post.topics(), topic@)
            &&& (forall|t: Seq<char>|
                t != topic@ ==> #[trigger] has_topic(post.topics(), t) == has_topic(
                    pre.topics(),
                    t,
                ))
            &&& post.peers() == pre.peers()
            &&& post.streams_view() == pre.streams_view()
            &&& post.ctx_view() == pre.ctx_view()
            &&& post.counter() == pre.counter()
            &&& out == (if has_topic(pre.topics(), topic@) {
                Seq::<ActionModel>::empty()
            } else {
                seq![ActionModel::GossipSubscribe { topic: topic@ }]
            })
        },
        Command::Unsubscribe { topic } => {
            &&& reply is Ack
            &&& !has_topic(post.topics(), topic@)
            &&& (forall|t: Seq<char>|
                t != topic@ ==> #[trigger] has_topic(post.topics(), t) == has_topic(
                    pre.topics(),
                    t,
                ))
            &&& post.peers() == pre.peers()
            &&& post.streams_view() == pre.streams_view()
            &&& post.ctx_view() == pre.ctx_view()
            &&& post.counter() == pre.counter()
            &&& out == (if has_topic(pre.topics(), topic@) {
                seq![ActionModel::GossipUnsubscribe { topic: topic@ }]
            } else {
                Seq::<ActionModel>::empty()
            })
        },
        Command::Publish { topic, data } => {
            &&& reply is Ack
            &&& post == pre
            &&& out == seq![ActionModel::Publish { topic: topic@, data: data@ }]
        },
        Command::RequestStream { peer_id, reason } => {
            &&& post.topics() == pre.topics()
            &&& post.peers() == pre.peers()
            &&& post.ctx_view() == pre.ctx_view()
            &&& if !has_peer(pre.peers(), peer_id@) {
                &&& (reply matches CommandReply::Failed(e) && e matches
                    AviP2pError::PeerNotConnected(p) && p@ == peer_id@)
                &&& post.streams_view() == pre.streams_view()
                &&& post.counter() == pre.counter()
                &&& out == Seq::<ActionModel>::empty()
            } else if pre.counter() == u64::MAX {
                &&& (reply matches CommandReply::Failed(e) && e is NetworkError)
                &&& post.streams_view() == pre.streams_view()
                &&& post.counter() == pre.counter()
                &&& out == Seq::<ActionModel>::empty()
            } else {
                let sid = (pre.local(), pre.counter(), entropy);
                &&& post.counter() == pre.counter() + 1
                &&& if status_of(pre.streams_view(), sid) is Some {
                    &&& (reply matches CommandReply::Failed(e) && e is InvalidStreamState)
                    &&& post.streams_view() == pre.streams_view()
                    &&& out == Seq::<ActionModel>::empty()
                } else {
                    &&& (reply matches CommandReply::Stream(s) && s@ == sid)
                    &&& assoc_get(post.streams_view(), sid) == Some(
                        fresh_model(
                            peer_id@,
                            StreamDirection::Outbound,
                            StreamStatus::PendingOutbound,
                            reason@,
                            now,
                        ),
                    )
                    &&& (forall|q: (Seq<char>, u64, u64)|
                        q != sid ==> #[trigger] assoc_get(post.streams_view(), q) == assoc_get(
                            pre.streams_view(),
                            q,
                        ))
                    &&& out == seq![
                        ActionModel::SendEnvelope {
                            peer: peer_id@,
                            data: enc_envelope(WireModel::Open { id: sid, reason: reason@ }),
                        },
                    ]
                }
            }
        },
        Command::AcceptStream { stream_id } => {
            &&& post.topics() == pre.topics()
            &&& post.peers() == pre.peers()
            &&& post.ctx_view() == pre.ctx_view()
            &&& post.counter() == pre.counter()
            &&& (match status_of(pre.streams_view(), stream_id@) {
                Option::Some(StreamStatus::PendingInbound) => {
                    let m = assoc_get(pre.streams_view(), stream_id@)->Some_0;
                    &&& reply is Ack
                    &&& assoc_get(post.streams_view(), stream_id@) == Some(
                        StreamModel {
                            status: StreamStatus::Open,
                            pending_outbound: Seq::empty(),
                            buffered_inbound: Seq::empty(),
                            last_activity: now,
                            ..m
                        },
                    )
                    &&& (forall|q: (Seq<char>, u64, u64)|
                        q != stream_id@ ==> #[trigger] assoc_get(post.streams_view(), q)
                            == assoc_get(pre.streams_view(), q))
                    &&& out == seq![
                        ActionModel::SendEnvelope {
                            peer: m.remote_peer,
                            data: enc_envelope(WireModel::Accept { id: stream_id@ }),
                        },
                    ] + flush_sends(m.remote_peer, stream_id@, m.pending_outbound)
                        + deliver_emits(stream_id@, m.buffered_inbound) + seq![
                        ActionModel::Emit {
                            event: EventModel::StreamOpened { stream_id: stream_id@ },
                        },
                    ]
                },
                Option::Some(_) => {
                    &&& (reply matches CommandReply::Failed(e) && e is InvalidStreamState)
                    &&& post.streams_view() == pre.streams_view()
                    &&& out == Seq::<ActionModel>::empty()
                },
                Option::None => {
                    &&& (reply matches CommandReply::Failed(e) && e is StreamNotFound)
                    &&& post.streams_view() == pre.streams_view()
                    &&& out == Seq::<ActionModel>::empty()
                },
            })
        },
        Command::RejectStream { stream_id, reason } => {
            &&& post.topics() == pre.topics()
            &&& post.peers() == pre.peers()
            &&& post.ctx_view() == pre.ctx_view()
            &&& post.counter() == pre.counter()
            &&& (match status_of(pre.streams_view(), stream_id@) {
                Option::Some(StreamStatus::PendingInbound) => {
                    let m = assoc_get(pre.streams_view(), stream_id@)->Some_0;
                    &&& reply is Ack
                    &&& assoc_get(post.streams_view(), stream_id@) == Some(
                        StreamModel {
                            status: StreamStatus::Rejected,
                            last_activity: now,
                            ..m
                        },
                    )
                    &&& (forall|q: (Seq<char>, u64, u64)|
                        q != stream_id@ ==> #[trigger] assoc_get(post.streams_view(), q)
                            == assoc_get(pre.streams_view(), q))
                    &&& out == seq![
                        ActionModel::SendEnvelope {
                            peer: m.remote_peer,
                            data: enc_envelope(
                                WireModel::Reject { id: stream_id@, reason: reason@ },
                            ),
                        },
                    ]
                },
                Option::Some(_) => {
                    &&& (reply matches CommandReply::Failed(e) && e is InvalidStreamState)
                    &&& post.streams_view() == pre.streams_view()
                    &&& out == Seq::<ActionModel>::empty()
                },
                Option::None => {
                    &&& (reply matches CommandReply::Failed(e) && e is StreamNotFound)
                    &&& post.streams_view() == pre.streams_view()
                    &&& out == Seq::<ActionModel>::empty()
                },
            })
        },
        Command::SendStreamData { stream_id, data } => {
            &&& post.topics() == pre.topics()
            &&& post.peers() == pre.peers()
            &&& post.ctx_view() == pre.ctx_view()
            &&& post.counter() == pre.counter()
            &&& (match status_of(pre.streams_view(), stream_id@) {
                Option::Some(StreamStatus::Open) => {
                    let m = assoc_get(pre.streams_view(), stream_id@)->Some_0;
                    &&& reply is Ack
                    &&& assoc_get(post.streams_view(), stream_id@) == Some(
                        StreamModel { last_activity: now, ..m },
                    )
                    &&& (forall|q: (Seq<char>, u64, u64)|
                        q != stream_id@ ==> #[trigger] assoc_get(post.streams_view(), q)
                            == assoc_get(pre.streams_view(), q))
                    &&& out == seq![
                        ActionModel::SendEnvelope {
                            peer: m.remote_peer,
                            data: enc_envelope(WireModel::Data { id: stream_id@, data: data@ }),
                        },
                    ]
                },
                Option::Some(StreamStatus::PendingOutbound)
                | Option::Some(StreamStatus::PendingInbound) => {
                    let m = assoc_get(pre.streams_view(), stream_id@)->Some_0;
                    &&& out == Seq::<ActionModel>::empty()
                    &&& if m.pending_outbound.len() < STREAM_BUFFER_BOUND as int {
                        &&& reply is Ack
                        &&& assoc_get(post.streams_view(), stream_id@) == Some(
                            StreamModel {
                                pending_outbound: m.pending_outbound.push(data@),
                                last_activity: now,
                                ..m
                            },
                        )
                        &&& (forall|q: (Seq<char>, u64, u64)|
                            q != stream_id@ ==> #[trigger] assoc_get(post.streams_view(), q)
                                == assoc_get(pre.streams_view(), q))
                    } else {
                        &&& (reply matches CommandReply::Failed(e) && e is Backpressure)
                        &&& post.streams_view() == pre.streams_view()
                    }
                },
                Option::Some(_) => {
                    &&& (reply matches CommandReply::Failed(e) && e is InvalidStreamState)
                    &&& post.streams_view() == pre.streams_view()
                    &&& out == Seq::<ActionModel>::empty()
                },
                Option::None => {
                    &&& (reply matches CommandReply::Failed(e) && e is StreamNotFound)
                    &&& post.streams_view() == pre.streams_view()
                    &&& out == Seq::<ActionModel>::empty()
                },
            })
        },
        Command::CloseStream { stream_id } => {
            &&& post.topics() == pre.topics()
            &&& post.peers() == pre.peers()
            &&& post.ctx_view() == pre.ctx_view()
            &&& post.counter() == pre.counter()
            &&& (match status_of(pre.streams_view(), stream_id@) {
                Option::Some(st) => if terminal(st) {
                    &&& reply is Ack
                    &&& post.streams_view() == pre.streams_view()
                    &&& out == Seq::<ActionModel>::empty()
                } else {
                    let m = assoc_get(pre.streams_view(), stream_id@)->Some_0;
                    &&& reply is Ack
                    &&& assoc_get(post.streams_view(), stream_id@) == Some(
                        StreamModel {
                            status: StreamStatus::Closed,
                            last_activity: now,
                            ..m
                        },
                    )
                    &&& (forall|q: (Seq<char>, u64, u64)|
                        q != stream_id@ ==> #[trigger] assoc_get(post.streams_view(), q)
                            == assoc_get(pre.streams_view(), q))
                    &&& out == seq![
                        ActionModel::SendEnvelope {
                            peer: m.remote_peer,
                            data: enc_envelope(
                                WireModel::Close { id: stream_id@, reason: Seq::empty() },
                            ),
                        },
                        ActionModel::Emit {
                            event: EventModel::StreamClosed {
                                stream_id: stream_id@,
                                reason: CloseModel::Normal,
                            },
                        },
                    ]
                },
                Option::None => {
                    &&& (reply matches CommandReply::Failed(e) && e is StreamNotFound)
                    &&& post.streams_view() == pre.streams_view()
                    &&& out == Seq::<ActionModel>::empty()
                },
            })
        },
        Command::GetConnectedPeers => {
            &&& post == pre
            &&& (reply matches CommandReply::Peers(v) && peer_texts(v@) == peer_texts(
                pre.peers(),
            ))
            &&& out == Seq::<ActionModel>::empty()
        },
        Command::DiscoverPeers => {
            &&& post == pre
            &&& reply is Ack
            &&& out == seq![ActionModel::StartDiscovery]
        },
        Command::UpdateSelfContext { patch } => {
            &&& post.topics() == pre.topics()
            &&& post.peers() == pre.peers()
            &&& post.streams_view() == pre.streams_view()
            &&& post.counter() == pre.counter()
            &&& if !jv_wf(patch@) || clock_at(
                stored_clock(pre.ctx_view(), pre.local()),
                pre.local(),
            ) == u64::MAX {
                &&& (reply matches CommandReply::Failed(e) && e is Serialization)
                &&& post.ctx_view() == pre.ctx_view()
                &&& out == Seq::<ActionModel>::empty()
            } else {
                let nd = merge_jv(stored_data(pre.ctx_view(), pre.local()), patch@);
                &&& reply is Ack
                &&& stored_data(post.ctx_view(), pre.local()) == nd
                &&& stored_clock(post.ctx_view(), pre.local()) == assoc_set(
                    stored_clock(pre.ctx_view(), pre.local()),
                    pre.local(),
                    (clock_at(stored_clock(pre.ctx_view(), pre.local()), pre.local()) + 1) as u64,
                )
                &&& (forall|q: Seq<char>|
                    q != pre.local() ==> #[trigger] assoc_get(post.ctx_view(), q) == assoc_get(
                        pre.ctx_view(),
                        q,
                    ))
                &&& out == seq![
                    ActionModel::Emit {
                        event: EventModel::ContextUpdated { peer_id: pre.local(), context: nd },
                    },
                    announce_act(pre.local(), post.ctx_view()),
                ]
            }
        },
        Command::ReplaceSelfContext { data } => {
            &&& post.topics() == pre.topics()
            &&& post.peers() == pre.peers()
            &&& post.streams_view() == pre.streams_view()
            &&& post.counter() == pre.counter()
            &&& if !jv_wf(data@) || clock_at(
                stored_clock(pre.ctx_view(), pre.local()),
                pre.local(),
            ) == u64::MAX {
                &&& (reply matches CommandReply::Failed(e) && e is Serialization)
                &&& post.ctx_view() == pre.ctx_view()
                &&& out == Seq::<ActionModel>::empty()
            } else {
                &&& reply is Ack
                &&& stored_data(post.ctx_view(), pre.local()) == data@
                &&& stored_clock(post.ctx_view(), pre.local()) == assoc_set(
                    stored_clock(pre.ctx_view(), pre.local()),
                    pre.local(),
                    (clock_at(stored_clock(pre.ctx_view(), pre.local()), pre.local()) + 1) as u64,
                )
                &&& (forall|q: Seq<char>|
                    q != pre.local() ==> #[trigger] assoc_get(post.ctx_view(), q) == assoc_get(
                        pre.ctx_view(),
                        q,
                    ))
                &&& out == seq![
                    ActionModel::Emit {
                        event: EventModel::ContextUpdated {
                            peer_id: pre.local(),
                            context: data@,
                        },
                    },
                    announce_act(pre.local(), post.ctx_view()),
                ]
            }
        },
        Command::GetPeerContext { peer_id } => {
            &&& post == pre
            &&& out == Seq::<ActionModel>::empty()
            &&& (match peer_id {
                Option::Some(p) => if assoc_get(pre.ctx_view(), p@) is Some {
                    reply matches CommandReply::Context(d) && d@ == stored_data(
                        pre.ctx_view(),
                        p@,
                    )
                } else {
                    reply matches CommandReply::Failed(e) && e matches
                        AviP2pError::PeerNotConnected(q) && q@ == p@
                },
                Option::None => reply matches CommandReply::Context(d) && d@ == stored_data(
                    pre.ctx_view(),
                    pre.local(),
                ),
            })
        },
    })
}

/// Append the send actions that flush buffered payloads, oldest first.
#[verifier::loop_isolation(false)]
fn push_flush(actions: &mut Vec<Action>, peer: &PeerId, id: &StreamId, payloads: Vec<Vec<u8>>)
    ensures
        acts(final(actions)@) == acts(old(actions)@) + flush_sends(
            peer@,
            id@,
            bytes_view(payloads@),
        ),
{
    let ghost base = acts(old(actions)@);
    let ghost orig = bytes_view(payloads@);
    let mut rest = payloads;
    while rest.len() > 0
        invariant
            rest@.len() <= orig.len(),
            bytes_view(rest@) =~= orig.skip(orig.len() - rest@.len()),
            acts(actions@) =~= base + flush_sends(
                peer@,
                id@,
                orig.take(orig.len() - rest@.len()),
            ),
        decreases rest@.len(),
    {
        let ghost c = orig.len() - rest@.len();
        let ghost oldrest = rest@;
        proof {
            assert(bytes_view(rest@)[0] == orig.skip(c)[0]);
            assert(orig.skip(c)[0] == orig[c]);
        }
        let d = rest.remove(0);
        proof {
            assert(d@ == orig[c]);
            assert(rest@ =~= oldrest.subrange(1, oldrest.len() as int));
            assert forall|j: int| 0 <= j < rest@.len() implies bytes_view(rest@)[j] == orig.skip(
                c + 1,
            )[j] by {
                assert(rest@[j] == oldrest[j + 1]);
                assert(bytes_view(oldrest)[j + 1] == orig.skip(c)[j + 1]);
                assert(orig.skip(c)[j + 1] == orig[c + 1 + j]);
                assert(orig.skip(c + 1)[j] == orig[c + 1 + j]);
            }
            assert(bytes_view(rest@) =~= orig.skip(c + 1) && true);
        }
        let env = WireEnvelope::StreamData { id: id.clone(), data: d };
        let bytes = encode_envelope(&env);
        let ghost abase = acts(actions@);
        actions.push(Action::SendEnvelope { peer: peer.clone(), data: bytes });
        proof {
            assert(acts(actions@) =~= abase.push(actions@.last()@));
            assert(actions@.last()@ == ActionModel::SendEnvelope {
                peer: peer@,
                data: enc_envelope(WireModel::Data { id: id@, data: orig[c] }),
            });
            assert(orig.take(c + 1) =~= orig.take(c).push(orig[c]));
            assert(flush_sends(peer@, id@, orig.take(c + 1)) =~= flush_sends(
                peer@,
                id@,
                orig.take(c),
            ).push(
                ActionModel::SendEnvelope {
                    peer: peer@,
                    data: enc_envelope(WireModel::Data { id: id@, data: orig[c] }),
                },
            ));
            assert(acts(actions@) =~= base + flush_sends(peer@, id@, orig.take(c + 1)));
        }
    }
    proof {
        assert(orig.take(orig.len() as int) =~= orig);
    }
}

/// Append the emit actions that deliver early-arrived payloads, oldest
/// first.
#[verifier::loop_isolation(false)]
fn push_delivers(actions: &mut Vec<Action>, id: &StreamId, payloads: Vec<Vec<u8>>)
    ensures
        acts(final(actions)@) == acts(old(actions)@) + deliver_emits(id@, bytes_view(payloads@)),
{
    let ghost base = acts(old(actions)@);
    let ghost orig = bytes_view(payloads@);
    let mut rest = payloads;
    while rest.len() > 0
        invariant
            rest@.len() <= orig.len(),
            bytes_view(rest@) =~= orig.skip(orig.len() - rest@.len()),
            acts(actions@) =~= base + deliver_emits(id@, orig.take(orig.len() - rest@.len())),
        decreases rest@.len(),
    {
        let ghost c = orig.len() - rest@.len();
        let ghost oldrest = rest@;
        proof {
            assert(bytes_view(rest@)[0] == orig.skip(c)[0]);
            assert(orig.skip(c)[0] == orig[c]);
        }
        let d = rest.remove(0);
        proof {
            assert(d@ == orig[c]);
            assert(rest@ =~= oldrest.subrange(1, oldrest.len() as int));
            assert forall|j: int| 0 <= j < rest@.len() implies bytes_view(rest@)[j] == orig.skip(
                c + 1,
            )[j] by {
                assert(rest@[j] == oldrest[j + 1]);
                assert(bytes_view(oldrest)[j + 1] == orig.skip(c)[j + 1]);
                assert(orig.skip(c)[j + 1] == orig[c + 1 + j]);
                assert(orig.skip(c + 1)[j] == orig[c + 1 + j]);
            }
            assert(bytes_view(rest@) =~= orig.skip(c + 1) && true);
        }
        let ghost abase = acts(actions@);
        actions.push(
            Action::Emit { event: AviEvent::StreamData { stream_id: id.clone(), data: d } },
        );
        proof {
            assert(acts(actions@) =~= abase.push(actions@.last()@));
            assert(actions@.last()@ == ActionModel::Emit {
                event: EventModel::StreamData { stream_id: id@, data: orig[c] },
            });
            assert(orig.take(c + 1) =~= orig.take(c).push(orig[c]));
            assert(deliver_emits(id@, orig.take(c + 1)) =~= deliver_emits(
                id@,
                orig.take(c),
            ).push(
                ActionModel::Emit {
                    event: EventModel::StreamData { stream_id: id@, data: orig[c] },
                },
            ));
            assert(acts(actions@) =~= base + deliver_emits(id@, orig.take(c + 1)));
        }
    }
    proof {
        assert(orig.take(orig.len() as int) =~= orig);
    }
}

/// Append the closed events for the streams a disconnect ended.
#[verifier::loop_isolation(false)]
fn push_closed_emits(actions: &mut Vec<Action>, ids: Vec<StreamId>)
    ensures
        acts(final(actions)@) == acts(old(actions)@) + closed_emits(sid_views(ids@)),
{
    let ghost base = acts(old(actions)@);
    let ghost orig = sid_views(ids@);
    let mut rest = ids;
    while rest.len() > 0
        invariant
            rest@.len() <= orig.len(),
            sid_views(rest@) =~= orig.skip(orig.len() - rest@.len()),
            acts(actions@) =~= base + closed_emits(orig.take(orig.len() - rest@.len())),
        decreases rest@.len(),
    {
        let ghost c = orig.len() - rest@.len();
        let ghost oldrest = rest@;
        proof {
            assert(sid_views(rest@)[0] == orig.skip(c)[0]);
            assert(orig.skip(c)[0] == orig[c]);
        }
        let sid = rest.remove(0);
        proof {
            assert(sid@ == orig[c]);
            assert(rest@ =~= oldrest.subrange(1, oldrest.len() as int));
            assert forall|j: int| 0 <= j < rest@.len() implies sid_views(rest@)[j] == orig.skip(
                c + 1,
            )[j] by {
                assert(rest@[j] == oldrest[j + 1]);
                assert(sid_views(oldrest)[j + 1] == orig.skip(c)[j + 1]);
                assert(orig.skip(c)[j + 1] == orig[c + 1 + j]);
                assert(orig.skip(c + 1)[j] == orig[c + 1 + j]);
            }
            assert(sid_views(rest@) =~= orig.skip(c + 1) && true);
        }
        let ghost abase = acts(actions@);
        actions.push(
            Action::Emit {
                event: AviEvent::StreamClosed {
                    stream_id: sid,
                    reason: StreamCloseReason::PeerDisconnected,
                },
            },
        );
        proof {
            assert(acts(actions@) =~= abase.push(actions@.last()@));
            assert(actions@.last()@ == ActionModel::Emit {
                event: EventModel::StreamClosed {
                    stream_id: orig[c],
                    reason: CloseModel::PeerDisconnected,
                },
            });
            assert(orig.take(c + 1) =~= orig.take(c).push(orig[c]));
            assert(closed_emits(orig.take(c + 1)) =~= closed_emits(orig.take(c)).push(
                ActionModel::Emit {
                    event: EventModel::StreamClosed {
                        stream_id: orig[c],
                        reason: CloseModel::PeerDisconnected,
                    },
                },
            ));
            assert(acts(actions@) =~= base + closed_emits(orig.take(c + 1)));
        }
    }
    proof {
        assert(orig.take(orig.len() as int) =~= orig);
    }
}

impl Runtime {
    /// The state the runtime keeps sound: sound components, one entry per
    /// topic and per connected peer, and the context store keyed to the
    /// local peer.
    pub closed spec fn wf(&self) -> bool {
        &&& self.streams.wf()
        &&& self.contexts.wf()
        &&& self.contexts.local_peer() == self.local_peer@
        &&& (forall|i: int, j: int|
            0 <= i < j < self.subscriptions@.len() ==> #[trigger] self.subscriptions@[i]@
                != #[trigger] self.subscriptions@[j]@)
        &&& (forall|i: int, j: int|
            0 <= i < j < self.connected@.len() ==> #[trigger] self.connected@[i]@
                != #[trigger] self.connected@[j]@)
    }

    /// The topics this node subscribes to.
    pub closed spec fn topics(&self) -> Seq<String> {
        self.subscriptions@
    }

    /// The peers connected right now.
    pub closed spec fn peers(&self) -> Seq<PeerId> {
        self.connected@
    }

    /// The local peer's text.
    pub closed spec fn local(&self) -> Seq<char> {
        self.local_peer@
    }

    /// The registry's model.
    pub closed spec fn streams_view(&self) -> Seq<
        ((Seq<char>, u64, u64), StreamModel),
    > {
        self.streams@
    }

    /// The context store's model.
    pub closed spec fn ctx_view(&self) -> Seq<(Seq<char>, CtxModel)> {
        self.contexts@
    }

    /// The next value of the stream-id counter.
    pub closed spec fn counter(&self) -> u64 {
        self.next_stream_counter
    }

    /// A fresh runtime for the given local peer.
    pub fn new(local_peer: PeerId) -> (r: Runtime)
        ensures
            r.wf(),
            r.local() == local_peer@,
            r.topics().len() == 0,
            r.peers().len() == 0,
            r.counter() == 0,
    {
        let me = local_peer.clone();
        Runtime {
            local_peer,
            subscriptions: Vec::new(),
            connected: Vec::new(),
            streams: StreamRegistry::new(),
            contexts: ContextStore::new(me),
            next_stream_counter: 0,
        }
    }

    /// Index of a topic in the subscription list.
    #[verifier::loop_isolation(false)]
    fn find_topic(&self, t: &String) -> (r: Option<usize>)
        ensures
            (match r {
                Some(i) => i < self.topics().len() && self.topics()[i as int]@ == t@,
                None => !has_topic(self.topics(), t@),
            }),
    {
        let mut i: usize = 0;
        while i < self.subscriptions.len()
            invariant
                i <= self.subscriptions@.len(),
                forall|j: int| 0 <= j < i ==> #[trigger] self.subscriptions@[j]@ != t@,
            decreases self.subscriptions@.len() - i,
        {
            if self.subscriptions[i].eq(t) {
                return Some(i);
            }
            i += 1;
        }
        None
    }

    /// Index of a peer in the connected list.
    #[verifier::loop_isolation(false)]
    fn find_peer(&self, p: &PeerId) -> (r: Option<usize>)
        ensures
            (match r {
                Some(i) => i < self.peers().len() && self.peers()[i as int]@ == p@,
                None => !has_peer(self.peers(), p@),
            }),
    {
        let mut i: usize = 0;
        while i < self.connected.len()
            invariant
                i <= self.connected@.len(),
                forall|j: int| 0 <= j < i ==> #[trigger] self.connected@[j]@ != p@,
            decreases self.connected@.len() - i,
        {
            if self.connected[i].same_peer(p) {
                return Some(i);
            }
            i += 1;
        }
        None
    }

    /// Encode and publish the local context as an announce on the
    /// reserved topic.
    fn announce_action(&self, actions: &mut Vec<Action>)
        requires
            self.wf(),
        ensures
            acts(final(actions)@) == acts(old(actions)@).push(
                announce_act(self.local(), self.ctx_view()),
            ),
    {
        let data = match self.contexts.get_data(None) {
            Some(d) => d,
            None => {
                let e = JsonValue::Obj(Vec::new());
                proof {
                    assert(e@->Obj_0 =~= Seq::<(Seq<char>, Jv)>::empty());
                    assert(e@ == Jv::Obj(Seq::<(Seq<char>, Jv)>::empty()));
                }
                e
            },
        };
        proof {
            assert(data@ == stored_data(self.contexts@, self.contexts.local_peer()));
        }
        let clock = self.contexts.local_clock();
        let pairs = clock.to_pairs();
        proof {
            assert(clock_pairs_view(pairs@) =~= clock@);
            assert(clock@ =~= stored_clock(self.contexts@, self.contexts.local_peer()));
        }
        let env = WireEnvelope::ContextAnnounce {
            peer: self.local_peer.clone(),
            data,
            clock: pairs,
        };
        proof {
            assert(env@ =~= announce_wire(self.local(), self.ctx_view()));
        }
        let bytes = encode_envelope(&env);
        let ghost pre = acts(actions@);
        actions.push(Action::Publish { topic: context_topic(), data: bytes });
        proof {
            assert(acts(actions@) =~= pre.push(announce_act(self.local(), self.ctx_view())));
        }
    }

    /// Emit the local context as a context-updated event.
    fn emit_local_context(&self, actions: &mut Vec<Action>)
        requires
            self.wf(),
            assoc_get(self.ctx_view(), self.local()) is Some,
        ensures
            acts(final(actions)@) == acts(old(actions)@).push(
                ActionModel::Emit {
                    event: EventModel::ContextUpdated {
                        peer_id: self.local(),
                        context: stored_data(self.ctx_view(), self.local()),
                    },
                },
            ),
    {
        let ghost pre = acts(actions@);
        match self.contexts.get_data(None) {
            Some(d) => {
                let me = PeerId::new(String::from_str(self.local_peer.as_text().as_str()));
                actions.push(
                    Action::Emit {
                        event: AviEvent::ContextUpdated { peer_id: me, context: d },
                    },
                );
                proof {
                    assert(acts(actions@) =~= pre.push(
                        ActionModel::Emit {
                            event: EventModel::ContextUpdated {
                                peer_id: self.local(),
                                context: stored_data(self.ctx_view(), self.local()),
                            },
                        },
                    ));
                }
            },
            None => {
                proof {
                    assert(false);
                }
            },
        }
    }

    /// Interpret one command against the state; the reply goes back to
    /// the calling handle and the actions to the swarm.
    #[verifier::loop_isolation(false)]
    pub fn handle_command(&mut self, cmd: Command, now: u64, entropy: u64) -> (r: (
        CommandReply,
        Vec<Action>,
    ))
        requires
            old(self).wf(),
        ensures
            final(self).wf(),
            final(self).local() == old(self).local(),
            command_effect(*old(self), *final(self), cmd, now, entropy, r.0, acts(r.1@)),
    {
        let mut actions: Vec<Action> = Vec::new();
        proof {
            assert(acts(actions@) =~= Seq::<ActionModel>::empty());
        }
        match cmd {
            Command::Subscribe { topic } => {
                match self.find_topic(&topic) {
                    Some(i) => {
                        proof {
                            assert(self.topics()[i as int]@ == topic@);
                            assert(has_topic(self.topics(), topic@));
                        }
                    },
                    None => {
                        let ghost pretop = self.subscriptions@;
                        let t2 = String::from_str(topic.as_str());
                        self.subscriptions.push(t2);
                        actions.push(Action::GossipSubscribe { topic });
                        proof {
                            assert(self.subscriptions@.last()@ == topic@);
                            assert(has_topic(self.topics(), topic@));
                            assert forall|t: Seq<char>| t != topic@ implies #[trigger] has_topic(
                                self.topics(),
                                t,
                            ) == has_topic(pretop, t) by {
                                if has_topic(self.topics(), t) {
                                    let k = choose|k: int|
                                        0 <= k < self.topics().len() && self.topics()[k]@ == t;
                                    assert(k < pretop.len());
                                    assert(pretop[k]@ == t);
                                }
                                if has_topic(pretop, t) {
                                    let k = choose|k: int|
                                        0 <= k < pretop.len() && pretop[k]@ == t;
                                    assert(self.topics()[k]@ == t);
                                }
                            }
                            assert(acts(actions@) =~= seq![
                                ActionModel::GossipSubscribe { topic: topic@ },
                            ]);
                        }
                    },
                }
                (CommandReply::Ack, actions)
            },
            Command::Unsubscribe { topic } => {
                match self.find_topic(&topic) {
                    Some(i) => {
                        let ghost pretop = self.subscriptions@;
                        let _ = self.subscriptions.remove(i);
                        actions.push(Action::GossipUnsubscribe { topic: topic });
                        proof {
                            assert(self.subscriptions@ =~= pretop.remove(i as int));
                            assert forall|j: int|
                                0 <= j < self.subscriptions@.len() implies #[trigger] (
                            self.subscriptions@[j])@ == (if j < i as int {
                                pretop[j]@
                            } else {
                                pretop[j + 1]@
                            }) by {}
                            assert(!has_topic(self.topics(), topic@)) by {
                                if has_topic(self.topics(), topic@) {
                                    let k = choose|k: int|
                                        0 <= k < self.topics().len() && self.topics()[k]@
                                            == topic@;
                                    if k < i as int {
                                        assert(pretop[k]@ == topic@);
                                        assert(pretop[i as int]@ == topic@);
                                    } else {
                                        assert(pretop[k + 1]@ == topic@);
                                        assert(pretop[i as int]@ == topic@);
                                    }
                                }
                            }
                            assert forall|t: Seq<char>| t != topic@ implies #[trigger] has_topic(
                                self.topics(),
                                t,
                            ) == has_topic(pretop, t) by {
                                if has_topic(self.topics(), t) {
                                    let k = choose|k: int|
                                        0 <= k < self.topics().len() && self.topics()[k]@ == t;
                                    if k < i as int {
                                        assert(pretop[k]@ == t);
                                    } else {
                                        assert(pretop[k + 1]@ == t);
                                    }
                                }
                                if has_topic(pretop, t) {
                                    let k = choose|k: int|
                                        0 <= k < pretop.len() && pretop[k]@ == t;
                                    assert(k != i as int);
                                    if k < i as int {
                                        assert(self.topics()[k]@ == t);
                                    } else {
                                        assert(self.topics()[k - 1]@ == t);
                                    }
                                }
                            }
                            assert forall|a: int, b: int|
                                0 <= a < b < self.subscriptions@.len() implies #[trigger] (
                            self.subscriptions@[a])@ != #[trigger] (self.subscriptions@[b])@ by {
                                let a2 = if a < i as int { a } else { a + 1 };
                                let b2 = if b < i as int { b } else { b + 1 };
                                assert(self.subscriptions@[a]@ == pretop[a2]@);
                                assert(self.subscriptions@[b]@ == pretop[b2]@);
                            }
                            assert(acts(actions@) =~= seq![
                                ActionModel::GossipUnsubscribe { topic: topic@ },
                            ]);
                        }
                        (CommandReply::Ack, actions)
                    },
                    None => (CommandReply::Ack, actions),
                }
            },
            Command::Publish { topic, data } => {
                actions.push(Action::Publish { topic, data });
                proof {
                    assert(acts(actions@) =~= seq![
                        ActionModel::Publish { topic: topic@, data: data@ },
                    ]);
                }
                (CommandReply::Ack, actions)
            },
            Command::RequestStream { peer_id, reason } => {
                match self.find_peer(&peer_id) {
                    Some(_) => {
                        proof {
                            assert(has_peer(self.peers(), peer_id@));
                        }
                        let counter = self.next_stream_counter;
                        if counter == u64::MAX {
                            return (
                                CommandReply::Failed(AviP2pError::NetworkError(String::new())),
                                actions,
                            );
                        }
                        self.next_stream_counter = counter + 1;
                        let sid = generate_stream_id(&self.local_peer, counter, entropy);
                        match self.streams.status(&sid) {
                            Some(_) => (
                                CommandReply::Failed(
                                    AviP2pError::InvalidStreamState(sid, Vec::new()),
                                ),
                                actions,
                            ),
                            None => {
                                let reason2 = String::from_str(reason.as_str());
                                self.streams.register_outbound(
                                    sid.clone(),
                                    peer_id.clone(),
                                    reason2,
                                    now,
                                );
                                let env = WireEnvelope::StreamOpen { id: sid.clone(), reason };
                                let bytes = encode_envelope(&env);
                                actions.push(Action::SendEnvelope { peer: peer_id, data: bytes });
                                proof {
                                    assert(acts(actions@) =~= seq![actions@[0]@]);
                                }
                                (CommandReply::Stream(sid), actions)
                            },
                        }
                    },
                    None => (
                        CommandReply::Failed(AviP2pError::PeerNotConnected(peer_id)),
                        actions,
                    ),
                }
            },
            Command::AcceptStream { stream_id } => {
                let ghost prestreams = self.streams@;
                match self.streams.local_accept(&stream_id, now) {
                    Ok((to_send, to_deliver)) => {
                        let ghost m = assoc_get(prestreams, stream_id@)->Some_0;
                        let peer = match self.streams.remote_of(&stream_id) {
                            Some(p) => p,
                            None => {
                                proof {
                                    assert(false);
                                }
                                self.local_peer.clone()
                            },
                        };
                        proof {
                            assert(peer@ == m.remote_peer);
                        }
                        let env = WireEnvelope::StreamAccept { id: stream_id.clone() };
                        let bytes = encode_envelope(&env);
                        actions.push(Action::SendEnvelope { peer: peer.clone(), data: bytes });
                        proof {
                            assert(acts(actions@) =~= seq![
                                ActionModel::SendEnvelope {
                                    peer: m.remote_peer,
                                    data: enc_envelope(WireModel::Accept { id: stream_id@ }),
                                },
                            ]);
                        }
                        let ghost s1 = acts(actions@);
                        push_flush(&mut actions, &peer, &stream_id, to_send);
                        let ghost s2 = acts(actions@);
                        proof {
                            assert(s2 == s1 + flush_sends(
                                m.remote_peer,
                                stream_id@,
                                m.pending_outbound,
                            ));
                        }
                        push_delivers(&mut actions, &stream_id, to_deliver);
                        let ghost s3 = acts(actions@);
                        proof {
                            assert(s3 == s2 + deliver_emits(stream_id@, m.buffered_inbound));
                        }
                        actions.push(
                            Action::Emit { event: AviEvent::StreamOpened { stream_id } },
                        );
                        proof {
                            assert(acts(actions@) =~= s3.push(
                                ActionModel::Emit {
                                    event: EventModel::StreamOpened { stream_id: stream_id@ },
                                },
                            ));
                            assert(acts(actions@) =~= seq![
                                ActionModel::SendEnvelope {
                                    peer: m.remote_peer,
                                    data: enc_envelope(WireModel::Accept { id: stream_id@ }),
                                },
                            ] + flush_sends(m.remote_peer, stream_id@, m.pending_outbound)
                                + deliver_emits(stream_id@, m.buffered_inbound) + seq![
                                ActionModel::Emit {
                                    event: EventModel::StreamOpened { stream_id: stream_id@ },
                                },
                            ]);
                        }
                        (CommandReply::Ack, actions)
                    },
                    Err(e) => (CommandReply::Failed(e), actions),
                }
            },
            Command::RejectStream { stream_id, reason } => {
                let ghost prestreams = self.streams@;
                match self.streams.local_reject(&stream_id, now) {
                    Ok(()) => {
                        let ghost m = assoc_get(prestreams, stream_id@)->Some_0;
                        let peer = match self.streams.remote_of(&stream_id) {
                            Some(p) => p,
                            None => {
                                proof {
                                    assert(false);
                                }
                                self.local_peer.clone()
                            },
                        };
                        proof {
                            assert(peer@ == m.remote_peer);
                        }
                        let env = WireEnvelope::StreamReject { id: stream_id, reason };
                        let bytes = encode_envelope(&env);
                        actions.push(Action::SendEnvelope { peer, data: bytes });
                        proof {
                            assert(acts(actions@) =~= seq![actions@[0]@]);
                        }
                        (CommandReply::Ack, actions)
                    },
                    Err(e) => (CommandReply::Failed(e), actions),
                }
            },
            Command::SendStreamData { stream_id, data } => {
                let ghost prestreams = self.streams@;
                match self.streams.local_send(&stream_id, data, now) {
                    Ok(StreamOutcome::SendNow(d)) => {
                        let ghost m = assoc_get(prestreams, stream_id@)->Some_0;
                        let peer = match self.streams.remote_of(&stream_id) {
                            Some(p) => p,
                            None => {
                                proof {
                                    assert(false);
                                }
                                self.local_peer.clone()
                            },
                        };
                        proof {
                            assert(peer@ == m.remote_peer);
                        }
                        let env = WireEnvelope::StreamData { id: stream_id, data: d };
                        let bytes = encode_envelope(&env);
                        actions.push(Action::SendEnvelope { peer, data: bytes });
                        proof {
                            assert(acts(actions@) =~= seq![actions@[0]@]);
                        }
                        (CommandReply::Ack, actions)
                    },
                    Ok(_) => (CommandReply::Ack, actions),
                    Err(e) => (CommandReply::Failed(e), actions),
                }
            },
            Command::CloseStream { stream_id } => {
                let ghost prestreams = self.streams@;
                match self.streams.local_close(&stream_id, now) {
                    Ok(send_close) => {
                        if send_close {
                            let ghost m = assoc_get(prestreams, stream_id@)->Some_0;
                            let peer = match self.streams.remote_of(&stream_id) {
                                Some(p) => p,
                                None => {
                                    proof {
                                        assert(false);
                                    }
                                    self.local_peer.clone()
                                },
                            };
                            proof {
                                assert(peer@ == m.remote_peer);
                            }
                            let reason = String::new();
                            let env = WireEnvelope::StreamClose {
                                id: stream_id.clone(),
                                reason,
                            };
                            let bytes = encode_envelope(&env);
                            actions.push(Action::SendEnvelope { peer, data: bytes });
                            actions.push(
                                Action::Emit {
                                    event: AviEvent::StreamClosed {
                                        stream_id,
                                        reason: StreamCloseReason::Normal,
                                    },
                                },
                            );
                            proof {
                                assert(acts(actions@) =~= seq![actions@[0]@, actions@[1]@]);
                            }
                        }
                        (CommandReply::Ack, actions)
                    },
                    Err(e) => (CommandReply::Failed(e), actions),
                }
            },
            Command::GetConnectedPeers => {
                let mut out: Vec<PeerId> = Vec::new();
                let mut i: usize = 0;
                while i < self.connected.len()
                    invariant
                        i <= self.connected@.len(),
                        out@.len() == i as int,
                        forall|j: int| 0 <= j < i ==> #[trigger] out@[j]@ == self.connected@[j]@,
                    decreases self.connected@.len() - i,
                {
                    out.push(self.connected[i].clone());
                    i += 1;
                }
                proof {
                    assert(peer_texts(out@) =~= peer_texts(self.peers()));
                }
                (CommandReply::Peers(out), actions)
            },
            Command::DiscoverPeers => {
                actions.push(Action::StartDiscovery);
                proof {
                    assert(acts(actions@) =~= seq![ActionModel::StartDiscovery]);
                }
                (CommandReply::Ack, actions)
            },
            Command::UpdateSelfContext { patch } => {
                if !json_check_wf(&patch) {
                    return (
                        CommandReply::Failed(AviP2pError::Serialization(String::new())),
                        actions,
                    );
                }
                let me = PeerId::new(String::from_str(self.local_peer.as_text().as_str()));
                let own = self.contexts.local_clock().get(&me);
                proof {
                    assert(clock_at(
                        stored_clock(self.contexts@, self.contexts.local_peer()),
                        old(self).local(),
                    ) == own as nat);
                }
                if own == u64::MAX {
                    return (
                        CommandReply::Failed(AviP2pError::Serialization(String::new())),
                        actions,
                    );
                }
                self.contexts.update_self(patch, now);
                self.emit_local_context(&mut actions);
                self.announce_action(&mut actions);
                proof {
                    assert(acts(actions@) =~= seq![actions@[0]@, actions@[1]@]);
                }
                (CommandReply::Ack, actions)
            },
            Command::ReplaceSelfContext { data } => {
                if !json_check_wf(&data) {
                    return (
                        CommandReply::Failed(AviP2pError::Serialization(String::new())),
                        actions,
                    );
                }
                let me = PeerId::new(String::from_str(self.local_peer.as_text().as_str()));
                let own = self.contexts.local_clock().get(&me);
                proof {
                    assert(clock_at(
                        stored_clock(self.contexts@, self.contexts.local_peer()),
                        old(self).local(),
                    ) == own as nat);
                }
                if own == u64::MAX {
                    return (
                        CommandReply::Failed(AviP2pError::Serialization(String::new())),
                        actions,
                    );
                }
                self.contexts.replace_self(data, now);
                self.emit_local_context(&mut actions);
                self.announce_action(&mut actions);
                proof {
                    assert(acts(actions@) =~= seq![actions@[0]@, actions@[1]@]);
                }
                (CommandReply::Ack, actions)
            },
            Command::GetPeerContext { peer_id } => {
                match peer_id {
                    Some(p) => match self.contexts.get_data(Some(&p)) {
                        Some(d) => (CommandReply::Context(d), actions),
                        None => (
                            CommandReply::Failed(AviP2pError::PeerNotConnected(p)),
                            actions,
                        ),
                    },
                    None => match self.contexts.get_data(None) {
                        Some(d) => (CommandReply::Context(d), actions),
                        None => {
                            let d = JsonValue::Obj(Vec::new());
                            proof {
                                assert(d@->Obj_0 =~= Seq::<(Seq<char>, Jv)>::empty());
                                assert(d@ == Jv::Obj(Seq::<(Seq<char>, Jv)>::empty()));
                                assert(d@ == stored_data(self.ctx_view(), self.local()));
                            }
                            (CommandReply::Context(d), actions)
                        },
                    },
                }
            },
        }
    }

    /// React to one swarm input: track the peer set, dial fresh
    /// discoveries, fold announces into the context store, run inbound
    /// envelopes through the stream machine, and forward messages on
    /// subscribed topics.
    pub fn handle_swarm_input(&mut self, input: SwarmInput, now: u64) -> (actions: Vec<Action>)
        requires
            old(self).wf(),
        ensures
            final(self).wf(),
            final(self).local() == old(self).local(),
            swarm_effect(*old(self), *final(self), input, now, acts(actions@)),
    {
        let mut actions: Vec<Action> = Vec::new();
        proof {
            assert(acts(actions@) =~= Seq::<ActionModel>::empty());
        }
        match input {
            SwarmInput::PeerDiscovered { peer } => {
                let known = match self.find_peer(&peer) {
                    Some(_) => true,
                    None => false,
                };
                proof {
                    if known {
                        assert(has_peer(self.peers(), peer@));
                    }
                }
                actions.push(
                    Action::Emit { event: AviEvent::PeerDiscovered { peer_id: peer.clone() } },
                );
                if !known {
                    actions.push(Action::Dial { peer });
                    proof {
                        assert(acts(actions@) =~= seq![
                            ActionModel::Emit {
                                event: EventModel::PeerDiscovered { peer_id: peer@ },
                            },
                        ] + seq![ActionModel::Dial { peer: peer@ }]);
                    }
                } else {
                    proof {
                        assert(acts(actions@) =~= seq![
                            ActionModel::Emit {
                                event: EventModel::PeerDiscovered { peer_id: peer@ },
                            },
                        ] + Seq::<ActionModel>::empty());
                    }
                }
                actions
            },
            SwarmInput::PeerConnected { peer } => {
                match self.find_peer(&peer) {
                    Some(i) => {
                        proof {
                            assert(self.peers()[i as int]@ == peer@);
                            assert(has_peer(self.peers(), peer@));
                        }
                    },
                    None => {
                        let ghost prepeers = self.connected@;
                        self.connected.push(peer.clone());
                        proof {
                            assert(self.connected@.last()@ == peer@);
                            assert(has_peer(self.peers(), peer@));
                            assert forall|t: Seq<char>| t != peer@ implies #[trigger] has_peer(
                                self.peers(),
                                t,
                            ) == has_peer(prepeers, t) by {
                                if has_peer(self.peers(), t) {
                                    let k = choose|k: int|
                                        0 <= k < self.peers().len() && self.peers()[k]@ == t;
                                    assert(k < prepeers.len());
                                    assert(prepeers[k]@ == t);
                                }
                                if has_peer(prepeers, t) {
                                    let k = choose|k: int|
                                        0 <= k < prepeers.len() && prepeers[k]@ == t;
                                    assert(self.peers()[k]@ == t);
                                }
                            }
                        }
                    },
                }
                actions.push(
                    Action::Emit { event: AviEvent::PeerConnected { peer_id: peer } },
                );
                proof {
                    assert(acts(actions@) =~= seq![
                        ActionModel::Emit { event: EventModel::PeerConnected { peer_id: peer@ } },
                    ]);
                }
                let ghost s0 = acts(actions@);
                self.announce_action(&mut actions);
                proof {
                    assert(acts(actions@) =~= s0.push(
                        announce_act(self.local(), self.ctx_view()),
                    ));
                    assert(self.ctx_view() == old(self).ctx_view());
                    assert(acts(actions@) =~= seq![
                        ActionModel::Emit { event: EventModel::PeerConnected { peer_id: peer@ } },
                        announce_act(old(self).local(), old(self).ctx_view()),
                    ]);
                }
                actions
            },
            SwarmInput::PeerDisconnected { peer } => {
                match self.find_peer(&peer) {
                    Some(i) => {
                        let ghost prepeers = self.connected@;
                        let _ = self.connected.remove(i);
                        proof {
                            assert(self.connected@ =~= prepeers.remove(i as int));
                            assert(!has_peer(self.peers(), peer@)) by {
                                if has_peer(self.peers(), peer@) {
                                    let k = choose|k: int|
                                        0 <= k < self.peers().len() && self.peers()[k]@ == peer@;
                                    if k < i as int {
                                        assert(prepeers[k]@ == peer@);
                                        assert(prepeers[i as int]@ == peer@);
                                    } else {
                                        assert(prepeers[k + 1]@ == peer@);
                                        assert(prepeers[i as int]@ == peer@);
                                    }
                                }
                            }
                            assert forall|t: Seq<char>| t != peer@ implies #[trigger] has_peer(
                                self.peers(),
                                t,
                            ) == has_peer(prepeers, t) by {
                                if has_peer(self.peers(), t) {
                                    let k = choose|k: int|
                                        0 <= k < self.peers().len() && self.peers()[k]@ == t;
                                    if k < i as int {
                                        assert(prepeers[k]@ == t);
                                    } else {
                                        assert(prepeers[k + 1]@ == t);
                                    }
                                }
                                if has_peer(prepeers, t) {
                                    let k = choose|k: int|
                                        0 <= k < prepeers.len() && prepeers[k]@ == t;
                                    assert(k != i as int);
                                    if k < i as int {
                                        assert(self.peers()[k]@ == t);
                                    } else {
                                        assert(self.peers()[k - 1]@ == t);
                                    }
                                }
                            }
                            assert forall|a: int, b: int|
                                0 <= a < b < self.connected@.len() implies #[trigger] (
                            self.connected@[a])@ != #[trigger] (self.connected@[b])@ by {
                                let a2 = if a < i as int { a } else { a + 1 };
                                let b2 = if b < i as int { b } else { b + 1 };
                                assert(self.connected@[a]@ == prepeers[a2]@);
                                assert(self.connected@[b]@ == prepeers[b2]@);
                            }
                        }
                    },
                    None => {},
                }
                let closed = self.streams.close_for_peer(&peer, now);
                push_closed_emits(&mut actions, closed);
                let ghost s1 = acts(actions@);
                actions.push(
                    Action::Emit { event: AviEvent::PeerDisconnected { peer_id: peer } },
                );
                proof {
                    assert(acts(actions@) =~= s1.push(actions@.last()@));
                    assert(acts(actions@) =~= closed_emits(
                        closed_ids(old(self).streams_view(), input->PeerDisconnected_peer@),
                    ) + seq![actions@.last()@]);
                }
                actions
            },
            SwarmInput::GossipMessage { from, topic, data } => {
                if topic.eq(&context_topic()) {
                    if let Some(WireEnvelope::ContextAnnounce { peer, data: d, clock }) =
                        decode_envelope(&data) {
                        if json_check_wf(&d) {
                            let vc = VectorClock::from_pairs(clock);
                            proof {
                                assert(string_pairs_view(clock@) =~= clock_pairs_view(clock@));
                            }
                            let ghost prectx = self.contexts@;
                            let updated = self.contexts.apply_remote(&peer, d, vc, now);
                            if updated {
                                match self.contexts.get_data(Some(&peer)) {
                                    Some(nd) => {
                                        actions.push(
                                            Action::Emit {
                                                event: AviEvent::ContextUpdated {
                                                    peer_id: peer,
                                                    context: nd,
                                                },
                                            },
                                        );
                                        proof {
                                            assert(acts(actions@) =~= seq![actions@[0]@]);
                                        }
                                    },
                                    None => {
                                        proof {
                                            assert(false);
                                        }
                                    },
                                }
                            }
                        }
                    }
                    actions
                } else {
                    match self.find_topic(&topic) {
                        Some(i) => {
                            proof {
                                assert(self.topics()[i as int]@ == topic@);
                                assert(has_topic(self.topics(), topic@));
                            }
                            actions.push(
                                Action::Emit {
                                    event: AviEvent::Message { from, topic, data },
                                },
                            );
                            proof {
                                assert(acts(actions@) =~= seq![actions@[0]@]);
                            }
                            actions
                        },
                        None => actions,
                    }
                }
            },
            SwarmInput::InboundRequest { from, data } => {
                match decode_envelope(&data) {
                    Some(env) => self.handle_envelope(from, env, now),
                    None => actions,
                }
            },
        }
    }

    /// Run one decoded stream envelope through the state machine.
    fn handle_envelope(&mut self, from: PeerId, env: WireEnvelope, now: u64) -> (actions: Vec<
        Action,
    >)
        requires
            old(self).wf(),
        ensures
            final(self).wf(),
            final(self).local() == old(self).local(),
            envelope_effect(*old(self), *final(self), from@, env@, now, acts(actions@)),
    {
        let mut actions: Vec<Action> = Vec::new();
        proof {
            assert(acts(actions@) =~= Seq::<ActionModel>::empty());
        }
        match env {
            WireEnvelope::StreamOpen { id, reason } => {
                let reason2 = String::from_str(reason.as_str());
                let fresh = self.streams.register_inbound(
                    id.clone(),
                    from.clone(),
                    reason2,
                    now,
                );
                if fresh {
                    actions.push(
                        Action::Emit {
                            event: AviEvent::StreamRequested { stream_id: id, from, reason },
                        },
                    );
                    proof {
                        assert(acts(actions@) =~= seq![actions@[0]@]);
                    }
                }
                actions
            },
            WireEnvelope::StreamAccept { id } => {
                let ghost prestreams = self.streams@;
                let (opened, to_send, to_deliver) = self.streams.on_accept_envelope(&id, now);
                if opened {
                    let ghost m = assoc_get(prestreams, id@)->Some_0;
                    push_flush(&mut actions, &from, &id, to_send);
                    let ghost s1 = acts(actions@);
                    proof {
                        assert(s1 == flush_sends(from@, id@, m.pending_outbound));
                    }
                    push_delivers(&mut actions, &id, to_deliver);
                    let ghost s2 = acts(actions@);
                    proof {
                        assert(s2 == s1 + deliver_emits(id@, m.buffered_inbound));
                    }
                    actions.push(
                        Action::Emit { event: AviEvent::StreamOpened { stream_id: id } },
                    );
                    proof {
                        assert(acts(actions@) =~= s2.push(actions@.last()@));
                        assert(acts(actions@) =~= flush_sends(from@, id@, m.pending_outbound)
                            + deliver_emits(id@, m.buffered_inbound) + seq![actions@.last()@]);
                    }
                }
                actions
            },
            WireEnvelope::StreamReject { id, reason } => {
                let ended = self.streams.on_reject_envelope(&id, now);
                if ended {
                    actions.push(
                        Action::Emit {
                            event: AviEvent::StreamClosed {
                                stream_id: id,
                                reason: StreamCloseReason::RejectedByRemote(reason),
                            },
                        },
                    );
                    proof {
                        assert(acts(actions@) =~= seq![actions@[0]@]);
                    }
                }
                actions
            },
            WireEnvelope::StreamData { id, data } => {
                match self.streams.on_data_envelope(&id, data, now) {
                    StreamOutcome::Deliver(d) => {
                        actions.push(
                            Action::Emit {
                                event: AviEvent::StreamData { stream_id: id, data: d },
                            },
                        );
                        proof {
                            assert(acts(actions@) =~= seq![actions@[0]@]);
                        }
                        actions
                    },
                    _ => actions,
                }
            },
            WireEnvelope::StreamClose { id, reason: _ } => {
                let was_live = self.streams.on_close_envelope(&id, now);
                if was_live {
                    actions.push(
                        Action::Emit {
                            event: AviEvent::StreamClosed {
                                stream_id: id,
                                reason: StreamCloseReason::Normal,
                            },
                        },
                    );
                    proof {
                        assert(acts(actions@) =~= seq![actions@[0]@]);
                    }
                }
                actions
            },
            WireEnvelope::ContextAnnounce { peer, data, clock } => {
                if json_check_wf(&data) {
                    let vc = VectorClock::from_pairs(clock);
                    proof {
                        assert(string_pairs_view(clock@) =~= clock_pairs_view(clock@));
                    }
                    let updated = self.contexts.apply_remote(&peer, data, vc, now);
                    if updated {
                        match self.contexts.get_data(Some(&peer)) {
                            Some(nd) => {
                                actions.push(
                                    Action::Emit {
                                        event: AviEvent::ContextUpdated {
                                            peer_id: peer,
                                            context: nd,
                                        },
                                    },
                                );
                                proof {
                                    assert(acts(actions@) =~= seq![actions@[0]@]);
                                }
                            },
                            None => {
                                proof {
                                    assert(false);
                                }
                            },
                        }
                    }
                }
                actions
            },
        }
    }
}

} // verus!
