use vstd::prelude::*;

use crate::addr::ConnectionAddress;
use crate::addr::SocketId;
use crate::message::Message;
use crate::message::MessageView;
use crate::message::msgs_view;
use crate::registry::ConnectionRegistry;
use crate::registry::has_rec;
use crate::registry::rec_of;

verus! {

/// The minimum elapsed time between two polls of one socket, in the same
/// unit as the timestamps handed to [`crate::SocketRegistry::should_poll`]
/// (typically milliseconds).
#[derive(Clone, Copy, PartialEq, Eq, Structural, Hash, Debug)]
pub struct PollInterval(pub u64);

/// FIFO queue of messages awaiting transmission through one socket.
///
/// Unbounded and without backpressure: flow control is left to the transport
/// and to callers.
#[derive(Clone, Debug, PartialEq, Eq)]
pub struct SendQueue {
    msgs: Vec<Message>,
}

impl View for SendQueue {
    type V = Seq<MessageView>;

    closed spec fn view(&self) -> Seq<MessageView> {
        msgs_view(self.msgs@)
    }
}

impl SendQueue {
    /// An empty queue.
    pub fn new() -> (q: SendQueue)
        ensures
            q@ == Seq::<MessageView>::empty(),
    {
        SendQueue { msgs: Vec::new() }
    }

    /// The number of messages awaiting transmission.
    pub fn len(&self) -> (n: usize)
        ensures
            n == self@.len(),
    {
        self.msgs.len()
    }

    /// Queues a message for the next flush; nothing is transmitted yet.
    pub fn send(&mut self, m: Message)
        ensures
            final(self)@ == old(self)@.push(m@),
    {
        self.msgs.push(m);
        assert(final(self)@ =~= old(self)@.push(m@));
    }

    /// Removes and returns every queued message, oldest first.
    ///
    /// The caller attempts to transmit each returned message in order; since
    /// the whole list is produced before any attempt, a failure to send one
    /// message can never prevent the later ones from being attempted.
    pub fn drain(&mut self) -> (out: Vec<Message>)
        ensures
            msgs_view(out@) == old(self)@,
            final(self)@ == Seq::<MessageView>::empty(),
    {
        let mut out: Vec<Message> = Vec::new();
        let ghost q0 = self.msgs@;
        while self.msgs.len() > 0
            invariant
                out@ + self.msgs@ =~= q0,
            decreases self.msgs.len(),
        {
            let m = self.msgs.remove(0);
            out.push(m);
        }
        assert(out@ =~= q0);
        assert(msgs_view(out@) =~= msgs_view(q0));
        assert(self@ =~= Seq::<MessageView>::empty());
        out
    }
}

/// A per-socket extension hook over new-connection creation.
///
/// When registered on a socket, every connection record the demultiplexer
/// creates for that socket has this component installed as its attachment,
/// exactly once, at creation time, before the record becomes visible to
/// lookups.
#[derive(Clone, Copy, PartialEq, Eq, Structural, Hash, Debug)]
pub struct ConnectionBuilder {
    /// The payload to attach to each newly created connection record.
    pub component: u64,
}

impl ConnectionBuilder {
    /// A hook that adjoins the given payload onto new connections.
    pub fn adjoin_component(component: u64) -> (b: ConnectionBuilder)
        ensures
            b.component == component,
    {
        ConnectionBuilder { component }
    }
}

/// The attachment that an optional hook installs on created records.
pub open spec fn attach_of(b: Option<ConnectionBuilder>) -> Option<u64> {
    match b {
        Some(b) => Some(b.component),
        None => None,
    }
}

/// Rate-limiter decision: poll when never polled before, or when `now` lies
/// strictly beyond the last poll plus the configured interval.
pub open spec fn should_poll_spec(last_poll: Option<u64>, interval: u64, now: u64) -> bool {
    match last_poll {
        None => true,
        Some(l) => now > l + interval,
    }
}

/// One record per locally bound socket: its poll rate limit and its outbound
/// queue. The transport-level socket itself lives with the caller.
#[derive(Debug)]
pub struct SocketRecord {
    /// The generated handle identifying this socket.
    pub id: SocketId,
    /// Minimum elapsed time between two polls.
    pub poll_interval: PollInterval,
    /// When this socket was last polled; `None` before the first poll.
    pub last_poll: Option<u64>,
    /// Messages awaiting the next flush.
    pub send_queue: SendQueue,
    /// The new-connection hook, if one was registered.
    pub builder: Option<ConnectionBuilder>,
}

/// Mathematical model of a [`SocketRecord`].
#[verifier::ext_equal]
pub ghost struct SocketView {
    /// The socket handle.
    pub id: SocketId,
    /// Minimum elapsed time between two polls.
    pub poll_interval: u64,
    /// Timestamp of the last poll, if any.
    pub last_poll: Option<u64>,
    /// The outbound queue, oldest first.
    pub outbound: Seq<MessageView>,
    /// The attachment the registered hook installs, if any.
    pub attach: Option<u64>,
}

impl View for SocketRecord {
    type V = SocketView;

    open spec fn view(&self) -> SocketView {
        SocketView {
            id: self.id,
            poll_interval: self.poll_interval.0,
            last_poll: self.last_poll,
            outbound: self.send_queue@,
            attach: attach_of(self.builder),
        }
    }
}

/// The arena of socket records, addressed by generated [`SocketId`] handles.
#[derive(Debug)]
pub struct SocketRegistry {
    sockets: Vec<SocketRecord>,
    next_id: u64,
}

impl View for SocketRegistry {
    type V = Seq<SocketView>;

    closed spec fn view(&self) -> Seq<SocketView> {
        self.sockets@.map_values(|s: SocketRecord| s@)
    }
}

impl SocketRegistry {
    /// Well-formedness: socket handles are distinct and never reused.
    pub closed spec fn wf(&self) -> bool {
        &&& forall|i: int|
            0 <= i < self@.len() ==> (#[trigger] self@[i]).id.0 < self.next_id
        &&& forall|i: int, j: int|
            #![trigger self@[i], self@[j]]
            0 <= i < j < self@.len() ==> self@[i].id != self@[j].id
    }

    /// An empty registry.
    pub fn new() -> (r: SocketRegistry)
        ensures
            r@ == Seq::<SocketView>::empty(),
            r.wf(),
            r.handles_left() == u64::MAX as int,
    {
        let r = SocketRegistry { sockets: Vec::new(), next_id: 0 };
        proof {
            assert(r@ =~= Seq::<SocketView>::empty());
        }
        r
    }

    /// The number of registered sockets.
    pub fn len(&self) -> (n: usize)
        ensures
            n == self@.len(),
    {
        self.sockets.len()
    }

    /// Registers one bound socket: an empty outbound queue, an unset last
    /// poll, no hook, and a fresh handle. The caller performs the
    /// transport-level bind itself and keeps the transport socket beside the
    /// returned handle.
    ///
    /// The counter bound is a machine limit: handles are never reused, so a
    /// registry can hand out at most `u64::MAX` of them.
    pub fn bind(&mut self, poll_interval: PollInterval) -> (sid: SocketId)
        requires
            old(self).wf(),
            old(self).handles_left() > 0,
        ensures
            final(self).wf(),
            final(self)@ == old(self)@.push(
                SocketView {
                    id: sid,
                    poll_interval: poll_interval.0,
                    last_poll: None,
                    outbound: Seq::empty(),
                    attach: None,
                },
            ),
            forall|k: int| 0 <= k < old(self)@.len() ==> (#[trigger] old(self)@[k]).id != sid,
            final(self).handles_left() == old(self).handles_left() - 1,
    {
        let sid = SocketId(self.next_id);
        let rec = SocketRecord {
            id: sid,
            poll_interval,
            last_poll: None,
            send_queue: SendQueue::new(),
            builder: None,
        };
        self.next_id = self.next_id + 1;
        self.sockets.push(rec);
        proof {
            assert(final(self)@ =~= old(self)@.push(
                SocketView {
                    id: sid,
                    poll_interval: poll_interval.0,
                    last_poll: None,
                    outbound: Seq::empty(),
                    attach: None,
                },
            ));
        }
        sid
    }

    /// How many fresh handles this registry can still hand out.
    pub closed spec fn handles_left(&self) -> int {
        u64::MAX - self.next_id
    }

    /// Looks a socket handle up; the returned index is valid until the
    /// registry is next mutated.
    pub fn find(&self, sid: SocketId) -> (r: Option<usize>)
        ensures
            match r {
                Some(i) => i < self@.len() && self@[i as int].id == sid,
                None => forall|k: int| 0 <= k < self@.len() ==> (#[trigger] self@[k]).id != sid,
            },
    {
        let n = self.sockets.len();
        let mut i: usize = 0;
        while i < n
            invariant
                i <= n,
                n == self@.len(),
                forall|k: int| 0 <= k < i ==> (#[trigger] self@[k]).id != sid,
            decreases n - i,
        {
            if self.sockets[i].id.0 == sid.0 {
                return Some(i);
            }
            i = i + 1;
        }
        None
    }

    /// The record behind an index returned by [`SocketRegistry::find`].
    pub fn get(&self, i: usize) -> (r: &SocketRecord)
        requires
            i < self@.len(),
        ensures
            r@ == self@[i as int],
    {
        &self.sockets[i]
    }

    /// Registers the new-connection hook for one socket, replacing any
    /// earlier one.
    pub fn register_builder(&mut self, i: usize, b: ConnectionBuilder)
        requires
            i < old(self)@.len(),
        ensures
            final(self)@ == old(self)@.update(
                i as int,
                SocketView { attach: Some(b.component), ..old(self)@[i as int] },
            ),
            old(self).wf() ==> final(self).wf(),
            final(self).handles_left() == old(self).handles_left(),
    {
        let rec = &mut self.sockets[i];
        rec.builder = Some(b);
        proof {
            assert(final(self)@ =~= old(self)@.update(
                i as int,
                SocketView { attach: Some(b.component), ..old(self)@[i as int] },
            ));
            if old(self).wf() {
                self.lemma_update_keeps_wf(*old(self), i as int);
            }
        }
    }

    /// The hook registered on one socket, if any.
    pub fn builder(&self, i: usize) -> (b: Option<ConnectionBuilder>)
        requires
            i < self@.len(),
        ensures
            attach_of(b) == self@[i as int].attach,
    {
        self.sockets[i].builder
    }

    /// An update that keeps every record's handle keeps the registry well
    /// formed.
    proof fn lemma_update_keeps_wf(&self, prev: SocketRegistry, i: int)
        requires
            prev.wf(),
            self@.len() == prev@.len(),
            self.next_id == prev.next_id,
            forall|k: int| 0 <= k < self@.len() ==> (#[trigger] self@[k]).id == prev@[k].id,
        ensures
            self.wf(),
    {
    }

    /// Rate-limiter check, with the stored timestamp advanced exactly when
    /// the check passes: ticks faster than the interval are no-ops for this
    /// socket.
    pub fn should_poll(&mut self, i: usize, now: u64) -> (r: bool)
        requires
            i < old(self)@.len(),
        ensures
            r == should_poll_spec(
                old(self)@[i as int].last_poll,
                old(self)@[i as int].poll_interval,
                now,
            ),
            r ==> final(self)@ == old(self)@.update(
                i as int,
                SocketView { last_poll: Some(now), ..old(self)@[i as int] },
            ),
            !r ==> final(self)@ == old(self)@ && final(self).wf() == old(self).wf(),
            old(self).wf() ==> final(self).wf(),
            final(self).handles_left() == old(self).handles_left(),
    {
        let rec = &mut self.sockets[i];
        let poll = match rec.last_poll {
            None => true,
            Some(l) => l <= now && now - l > rec.poll_interval.0,
        };
        if poll {
            rec.last_poll = Some(now);
        }
        proof {
            if poll {
                assert(final(self)@ =~= old(self)@.update(
                    i as int,
                    SocketView { last_poll: Some(now), ..old(self)@[i as int] },
                ));
                if old(self).wf() {
                    self.lemma_update_keeps_wf(*old(self), i as int);
                }
            } else {
                assert(final(self)@ =~= old(self)@);
            }
        }
        poll
    }

    /// Appends a message to one socket's outbound queue. Nothing is
    /// transmitted until the next flush: a message enqueued after this
    /// tick's flush step leaves only with the next tick's.
    pub fn enqueue_outbound(&mut self, i: usize, m: Message)
        requires
            i < old(self)@.len(),
        ensures
            final(self)@ == old(self)@.update(
                i as int,
                SocketView {
                    outbound: old(self)@[i as int].outbound.push(m@),
                    ..old(self)@[i as int]
                },
            ),
            old(self).wf() ==> final(self).wf(),
            final(self).handles_left() == old(self).handles_left(),
    {
        let rec = &mut self.sockets[i];
        rec.send_queue.send(m);
        proof {
            assert(final(self)@ =~= old(self)@.update(
                i as int,
                SocketView {
                    outbound: old(self)@[i as int].outbound.push(m@),
                    ..old(self)@[i as int]
                },
            ));
            if old(self).wf() {
                self.lemma_update_keeps_wf(*old(self), i as int);
            }
        }
    }

    /// Empties one socket's outbound queue and returns its messages, oldest
    /// first, for the caller to attempt in that order. The whole queue is
    /// handed out before any transmission happens, so one message's send
    /// failure cannot keep a later message from being attempted; failed
    /// messages are reported by the caller and dropped, never retried.
    pub fn flush_outbound(&mut self, i: usize) -> (out: Vec<Message>)
        requires
            i < old(self)@.len(),
        ensures
            msgs_view(out@) == old(self)@[i as int].outbound,
            final(self)@ == old(self)@.update(
                i as int,
                SocketView { outbound: Seq::empty(), ..old(self)@[i as int] },
            ),
            old(self).wf() ==> final(self).wf(),
            final(self).handles_left() == old(self).handles_left(),
    {
        let rec = &mut self.sockets[i];
        let out = rec.send_queue.drain();
        proof {
            assert(final(self)@ =~= old(self)@.update(
                i as int,
                SocketView { outbound: Seq::empty(), ..old(self)@[i as int] },
            ));
            if old(self).wf() {
                self.lemma_update_keeps_wf(*old(self), i as int);
            }
        }
        out
    }

    /// Destroys one socket record and cascade-destroys its connection
    /// records, so no orphaned record stays addressable by no socket.
    pub fn destroy(&mut self, i: usize, conns: &mut ConnectionRegistry)
        requires
            i < old(self)@.len(),
            old(conns).wf(),
        ensures
            final(self)@ == old(self)@.remove(i as int),
            old(self).wf() ==> final(self).wf(),
            final(self).handles_left() == old(self).handles_left(),
            final(conns).wf(),
            forall|a: ConnectionAddress| !has_rec(final(conns)@, old(self)@[i as int].id, a),
            forall|s: SocketId, a: ConnectionAddress|
                s != old(self)@[i as int].id ==> (#[trigger] has_rec(final(conns)@, s, a)
                    == has_rec(old(conns)@, s, a)),
            forall|s: SocketId, a: ConnectionAddress|
                s != old(self)@[i as int].id && has_rec(old(conns)@, s, a) ==> #[trigger] rec_of(
                    final(conns)@,
                    s,
                    a,
                ) == rec_of(old(conns)@, s, a),
    {
        let sid = self.sockets[i].id;
        let _ = self.sockets.remove(i);
        conns.remove_socket(sid);
        proof {
            assert(final(self)@ =~= old(self)@.remove(i as int));
            if old(self).wf() {
                let r0 = old(self)@;
                let r1 = final(self)@;
                assert(forall|k: int| 0 <= k < i ==> r1[k] == r0[k]);
                assert(forall|k: int| i <= k < r1.len() ==> r1[k] == r0[k + 1]);
            }
        }
    }
}

} // verus!
