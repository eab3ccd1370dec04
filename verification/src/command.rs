//! Commands from handles to the runtime, the replies they get, and the
//! bounded first-in-first-out queue that carries them.

use vstd::prelude::*;
use crate::error::AviP2pError;
use crate::json::JsonValue;
use crate::peer::PeerId;
use crate::stream::StreamId;

verus! {

broadcast use vstd::std_specs::vec::group_vec_axioms;

/// How many commands the queue holds before senders must wait.
pub const COMMAND_QUEUE_CAPACITY: usize = 100;

/// A request from a handle to the runtime.
pub enum Command {
    Subscribe { topic: String },
    Unsubscribe { topic: String },
    Publish { topic: String, data: Vec<u8> },
    RequestStream { peer_id: PeerId, reason: String },
    AcceptStream { stream_id: StreamId },
    RejectStream { stream_id: StreamId, reason: String },
    SendStreamData { stream_id: StreamId, data: Vec<u8> },
    CloseStream { stream_id: StreamId },
    GetConnectedPeers,
    DiscoverPeers,
    UpdateSelfContext { patch: JsonValue },
    ReplaceSelfContext { data: JsonValue },
    GetPeerContext { peer_id: Option<PeerId> },
}

/// The runtime's answer to one command.
pub enum CommandReply {
    /// Done, with nothing else to say.
    Ack,
    /// The stream that a request-stream command opened.
    Stream(StreamId),
    /// The peers connected right now.
    Peers(Vec<PeerId>),
    /// The context document that was asked for.
    Context(JsonValue),
    /// The command failed.
    Failed(AviP2pError),
}

/// The bounded queue between handles and the runtime. Each entry
/// remembers which handle sent it.
pub struct CommandQueue {
    items: Vec<(u64, Command)>,
}

impl View for CommandQueue {
    type V = Seq<(u64, Command)>;

    closed spec fn view(&self) -> Seq<(u64, Command)> {
        self.items@
    }
}

impl CommandQueue {
    /// The empty queue.
    pub fn new() -> (r: CommandQueue)
        ensures
            r@ =~= Seq::<(u64, Command)>::empty(),
    {
        CommandQueue { items: Vec::new() }
    }

    /// How many commands wait.
    pub fn len(&self) -> (r: usize)
        ensures
            r == self@.len(),
    {
        self.items.len()
    }

    /// Append a command at the back; a full queue refuses it and hands
    /// it back, so the caller can wait and try again.
    pub fn enqueue(&mut self, handle: u64, cmd: Command) -> (r: Result<(), Command>)
        ensures
            old(self)@.len() < COMMAND_QUEUE_CAPACITY as int ==> r is Ok && final(self)@
                == old(self)@.push((handle, cmd)),
            old(self)@.len() >= COMMAND_QUEUE_CAPACITY as int ==> r is Err && final(self)@
                == old(self)@,
    {
        if self.items.len() < COMMAND_QUEUE_CAPACITY {
            self.items.push((handle, cmd));
            Ok(())
        } else {
            Err(cmd)
        }
    }

    /// Take the oldest command, if any waits.
    pub fn dequeue(&mut self) -> (r: Option<(u64, Command)>)
        ensures
            old(self)@.len() == 0 ==> r is None && final(self)@ == old(self)@,
            old(self)@.len() > 0 ==> r == Some(old(self)@[0]) && final(self)@ == old(
                self,
            )@.drop_first(),
    {
        if self.items.len() == 0 {
            None
        } else {
            let e = self.items.remove(0);
            proof {
                assert(self.items@ =~= old(self)@.drop_first());
            }
            Some(e)
        }
    }
}

/// Law: appending a command moves no waiting command: two commands from
/// one handle that stand in arrival order still stand in that order.
pub proof fn law_queue_push_keeps_order(q: Seq<(u64, Command)>, x: (u64, Command), i: int, j: int)
    requires
        0 <= i < j < q.len(),
    ensures
        q.push(x)[i] == q[i],
        q.push(x)[j] == q[j],
        q.push(x)[q.len() as int] == x,
{
}

/// Law: taking the oldest command shifts the rest without reordering
/// them: commands behind it keep their relative order.
pub proof fn law_queue_pop_keeps_order(q: Seq<(u64, Command)>, i: int, j: int)
    requires
        1 <= i < j < q.len(),
    ensures
        q.drop_first()[i - 1] == q[i],
        q.drop_first()[j - 1] == q[j],
        i - 1 < j - 1,
{
}

} // verus!
