use vstd::prelude::*;

use crate::addr::ConnectionAddress;
use crate::addr::SocketId;
use crate::message::Message;
use crate::message::MessageView;
use crate::message::msgs_view;

verus! {

/// Lifecycle state of a connection record.
///
/// `Disconnected` is terminal: the demultiplexer deletes a record the moment
/// it reaches that state, so no stored record ever carries it.
#[derive(Clone, Copy, PartialEq, Eq, Structural, Hash, Debug)]
pub enum ConnectionState {
    /// An explicit connect event has been observed for the peer.
    Connected,
    /// The peer has sent data but no explicit connect event was observed.
    Pending,
    /// A disconnect or timeout was observed; the record is to be destroyed.
    Disconnected,
}

/// FIFO queue of the messages received from one peer, oldest first.
///
/// Only the demultiplexer appends to it; only explicit caller drains shrink
/// it.
#[derive(Clone, Debug, PartialEq, Eq)]
pub struct ReceiveQueue {
    msgs: Vec<Message>,
}

impl View for ReceiveQueue {
    type V = Seq<MessageView>;

    closed spec fn view(&self) -> Seq<MessageView> {
        msgs_view(self.msgs@)
    }
}

impl ReceiveQueue {
    /// An empty queue.
    pub fn new() -> (q: ReceiveQueue)
        ensures
            q@ == Seq::<MessageView>::empty(),
    {
        ReceiveQueue { msgs: Vec::new() }
    }

    /// Wraps an already-ordered message list as a queue.
    pub fn from_vec(msgs: Vec<Message>) -> (q: ReceiveQueue)
        ensures
            q@ == msgs_view(msgs@),
    {
        ReceiveQueue { msgs }
    }

    /// Returns the number of queued messages.
    pub fn len(&self) -> (n: usize)
        ensures
            n == self@.len(),
    {
        self.msgs.len()
    }

    /// Returns `true` if the queue holds no message.
    pub fn is_empty(&self) -> (r: bool)
        ensures
            r == (self@.len() == 0),
    {
        self.msgs.len() == 0
    }

    /// Read-only view of the `i`-th oldest queued message.
    pub fn peek(&self, i: usize) -> (m: &Message)
        requires
            i < self@.len(),
        ensures
            m@ == self@[i as int],
    {
        &self.msgs[i]
    }

    /// Removes and returns every queued message, oldest first.
    pub fn drain(&mut self) -> (out: Vec<Message>)
        ensures
            msgs_view(out@) == old(self)@,
            final(self)@ == Seq::<MessageView>::empty(),
    {
        let mut out: Vec<Message> = Vec::new();
        let ghost q0 = self.msgs@;
        while self.msgs.len() > 0
            invariant
                out@ + self.msgs@ =~= q0,
            decreases self.msgs.len(),
        {
            let m = self.msgs.remove(0);
            out.push(m);
        }
        assert(out@ =~= q0);
        assert(msgs_view(out@) =~= msgs_view(q0));
        assert(self@ =~= Seq::<MessageView>::empty());
        out
    }

    /// Appends a whole ordered message list at the newest end.
    pub(crate) fn append_msgs(&mut self, msgs: Vec<Message>)
        ensures
            final(self)@ == old(self)@ + msgs_view(msgs@),
    {
        let mut tail = msgs;
        self.msgs.append(&mut tail);
        assert(final(self)@ =~= old(self)@ + msgs_view(msgs@));
    }
}

/// One record per known peer: the pair (owning socket, peer address) is its
/// identity, unique within a registry.
#[derive(Clone, Debug)]
pub struct ConnectionRecord {
    /// The locally bound socket this peer talked to.
    pub socket: SocketId,
    /// The remote peer's address.
    pub address: ConnectionAddress,
    /// The peer's lifecycle state; never `Disconnected` while stored.
    pub state: ConnectionState,
    /// Messages received from the peer, oldest first.
    pub queue: ReceiveQueue,
    /// Caller-supplied payload installed by the creation hook, if one was
    /// registered on the owning socket.
    pub attachment: Option<u64>,
}

/// Mathematical model of a [`ConnectionRecord`].
#[verifier::ext_equal]
pub ghost struct RecordView {
    /// The owning socket.
    pub socket: SocketId,
    /// The peer address.
    pub address: ConnectionAddress,
    /// The lifecycle state.
    pub state: ConnectionState,
    /// The inbound queue, oldest first.
    pub queue: Seq<MessageView>,
    /// The creation-hook payload.
    pub attachment: Option<u64>,
}

impl View for ConnectionRecord {
    type V = RecordView;

    open spec fn view(&self) -> RecordView {
        RecordView {
            socket: self.socket,
            address: self.address,
            state: self.state,
            queue: self.queue@,
            attachment: self.attachment,
        }
    }
}

} // verus!
