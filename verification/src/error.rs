//! The error taxonomy of the handle API and the runtime.

use vstd::prelude::*;
use crate::peer::PeerId;
use crate::stream::StreamId;

verus! {

/// Why a logical stream reached its end.
#[derive(Clone)]
pub enum StreamCloseReason {
    /// The close was requested in the ordinary way.
    Normal,
    /// The remote side rejected the open request, with its stated reason.
    RejectedByRemote(String),
    /// The remote peer's connection went away.
    PeerDisconnected,
    /// The stream sat idle past its deadline.
    Timeout,
    /// An envelope arrived that the state machine refuses.
    ProtocolError,
    /// The local node is shutting down.
    LocalShutdown,
}

/// The model of a close reason.
#[verifier::ext_equal]
pub enum CloseModel {
    Normal,
    RejectedByRemote(Seq<char>),
    PeerDisconnected,
    Timeout,
    ProtocolError,
    LocalShutdown,
}

impl View for StreamCloseReason {
    type V = CloseModel;

    open spec fn view(&self) -> CloseModel {
        match self {
            StreamCloseReason::Normal => CloseModel::Normal,
            StreamCloseReason::RejectedByRemote(s) => CloseModel::RejectedByRemote(s@),
            StreamCloseReason::PeerDisconnected => CloseModel::PeerDisconnected,
            StreamCloseReason::Timeout => CloseModel::Timeout,
            StreamCloseReason::ProtocolError => CloseModel::ProtocolError,
            StreamCloseReason::LocalShutdown => CloseModel::LocalShutdown,
        }
    }
}

/// Errors returned to handle calls.
pub enum AviP2pError {
    /// Transport, bind, dial or listen failure, with detail text.
    NetworkError(String),
    /// The runtime is gone, or a reply channel was dropped.
    ChannelClosed,
    /// No stream record carries the given id.
    StreamNotFound(StreamId),
    /// The operation is not valid in the stream's current state; the
    /// second field lists the states the operation would have accepted.
    InvalidStreamState(StreamId, Vec<crate::stream::StreamStatus>),
    /// The outbound buffer of a pre-open stream is full.
    Backpressure,
    /// The addressed peer is not connected.
    PeerNotConnected(PeerId),
    /// An envelope could not be decoded, or a value could not be encoded.
    Serialization(String),
    /// A context path operation named a path that is absent.
    PathNotFound(String),
}

} // verus!
