//! The events the runtime broadcasts to its subscribers.

use vstd::prelude::*;
use crate::error::{CloseModel, StreamCloseReason};
use crate::json::{JsonValue, Jv};
use crate::peer::PeerId;
use crate::stream::StreamId;

verus! {

/// What happened on the mesh, as seen by this node.
#[derive(Clone)]
pub enum AviEvent {
    /// The node is up and listening.
    Started { local_peer_id: PeerId },
    /// A peer was seen on the local segment or learned from routing.
    PeerDiscovered { peer_id: PeerId },
    /// A connection to a peer is established.
    PeerConnected { peer_id: PeerId },
    /// A connection to a peer went away.
    PeerDisconnected { peer_id: PeerId },
    /// A publish arrived on a topic this node subscribes to.
    Message { from: PeerId, topic: String, data: Vec<u8> },
    /// A peer asks to open a logical stream.
    StreamRequested { stream_id: StreamId, from: PeerId, reason: String },
    /// A logical stream is open in both directions.
    StreamOpened { stream_id: StreamId },
    /// Bytes arrived on an open logical stream.
    StreamData { stream_id: StreamId, data: Vec<u8> },
    /// A logical stream ended, with why.
    StreamClosed { stream_id: StreamId, reason: StreamCloseReason },
    /// A peer's context document changed.
    ContextUpdated { peer_id: PeerId, context: JsonValue },
}

/// The model of an event.
#[verifier::ext_equal]
pub enum EventModel {
    Started { local_peer_id: Seq<char> },
    PeerDiscovered { peer_id: Seq<char> },
    PeerConnected { peer_id: Seq<char> },
    PeerDisconnected { peer_id: Seq<char> },
    Message { from: Seq<char>, topic: Seq<char>, data: Seq<u8> },
    StreamRequested { stream_id: (Seq<char>, u64, u64), from: Seq<char>, reason: Seq<char> },
    StreamOpened { stream_id: (Seq<char>, u64, u64) },
    StreamData { stream_id: (Seq<char>, u64, u64), data: Seq<u8> },
    StreamClosed { stream_id: (Seq<char>, u64, u64), reason: CloseModel },
    ContextUpdated { peer_id: Seq<char>, context: Jv },
}

impl View for AviEvent {
    type V = EventModel;

    open spec fn view(&self) -> EventModel {
        match self {
            AviEvent::Started { local_peer_id } => EventModel::Started {
                local_peer_id: local_peer_id@,
            },
            AviEvent::PeerDiscovered { peer_id } => EventModel::PeerDiscovered {
                peer_id: peer_id@,
            },
            AviEvent::PeerConnected { peer_id } => EventModel::PeerConnected { peer_id: peer_id@ },
            AviEvent::PeerDisconnected { peer_id } => EventModel::PeerDisconnected {
                peer_id: peer_id@,
            },
            AviEvent::Message { from, topic, data } => EventModel::Message {
                from: from@,
                topic: topic@,
                data: data@,
            },
            AviEvent::StreamRequested { stream_id, from, reason } => EventModel::StreamRequested {
                stream_id: stream_id@,
                from: from@,
                reason: reason@,
            },
            AviEvent::StreamOpened { stream_id } => EventModel::StreamOpened {
                stream_id: stream_id@,
            },
            AviEvent::StreamData { stream_id, data } => EventModel::StreamData {
                stream_id: stream_id@,
                data: data@,
            },
            AviEvent::StreamClosed { stream_id, reason } => EventModel::StreamClosed {
                stream_id: stream_id@,
                reason: reason@,
            },
            AviEvent::ContextUpdated { peer_id, context } => EventModel::ContextUpdated {
                peer_id: peer_id@,
                context: context@,
            },
        }
    }
}

} // verus!
