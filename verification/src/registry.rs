use vstd::prelude::*;

use crate::addr::ConnectionAddress;
use crate::addr::SocketId;
use crate::connection::ConnectionRecord;
use crate::connection::ConnectionState;
use crate::connection::ReceiveQueue;
use crate::connection::RecordView;
use crate::message::Message;
use crate::message::msgs_view;

verus! {

/// Whether record `r` is the record of peer identity (`sid`, `a`).
pub open spec fn is_key(r: RecordView, sid: SocketId, a: ConnectionAddress) -> bool {
    r.socket == sid && r.address == a
}

/// Well-formedness of a registry's contents: at most one record per peer
/// identity, and no stored record in the terminal `Disconnected` state.
pub open spec fn registry_wf(recs: Seq<RecordView>) -> bool {
    &&& forall|i: int, j: int|
        #![trigger recs[i], recs[j]]
        0 <= i < j < recs.len() ==> !is_key(recs[j], recs[i].socket, recs[i].address)
    &&& forall|i: int|
        0 <= i < recs.len() ==> (#[trigger] recs[i]).state != ConnectionState::Disconnected
}

/// Whether a record for peer identity (`sid`, `a`) exists.
pub open spec fn has_rec(recs: Seq<RecordView>, sid: SocketId, a: ConnectionAddress) -> bool {
    exists|i: int| 0 <= i < recs.len() && is_key(#[trigger] recs[i], sid, a)
}

/// The record of peer identity (`sid`, `a`); meaningful when `has_rec` holds
/// and the registry is well formed.
pub open spec fn rec_of(recs: Seq<RecordView>, sid: SocketId, a: ConnectionAddress) -> RecordView {
    recs[choose|i: int| 0 <= i < recs.len() && is_key(#[trigger] recs[i], sid, a)]
}

/// In a well-formed registry, any index holding the key identifies the
/// record: lookup is deterministic.
pub proof fn lemma_rec_at(recs: Seq<RecordView>, sid: SocketId, a: ConnectionAddress, i: int)
    requires
        registry_wf(recs),
        0 <= i < recs.len(),
        is_key(recs[i], sid, a),
    ensures
        has_rec(recs, sid, a),
        rec_of(recs, sid, a) == recs[i],
{
    assert(has_rec(recs, sid, a));
    let j = choose|j: int| 0 <= j < recs.len() && is_key(#[trigger] recs[j], sid, a);
    if i < j {
        assert(!is_key(recs[j], recs[i].socket, recs[i].address));
    } else if j < i {
        assert(!is_key(recs[i], recs[j].socket, recs[j].address));
    }
}

/// Removing the record at index `i` of a well-formed registry removes that
/// peer identity and leaves every other identity's record untouched.
pub proof fn lemma_remove_frame(recs: Seq<RecordView>, i: int)
    requires
        registry_wf(recs),
        0 <= i < recs.len(),
    ensures
        registry_wf(recs.remove(i)),
        !has_rec(recs.remove(i), recs[i].socket, recs[i].address),
        forall|s: SocketId, a: ConnectionAddress|
            !is_key(recs[i], s, a) ==> (#[trigger] has_rec(recs.remove(i), s, a) == has_rec(
                recs,
                s,
                a,
            )),
        forall|s: SocketId, a: ConnectionAddress|
            !is_key(recs[i], s, a) && has_rec(recs, s, a) ==> #[trigger] rec_of(
                recs.remove(i),
                s,
                a,
            ) == rec_of(recs, s, a),
{
    let out = recs.remove(i);
    assert(forall|k: int| 0 <= k < i ==> out[k] == recs[k]);
    assert(forall|k: int| i <= k < out.len() ==> out[k] == recs[k + 1]);
    assert forall|s: SocketId, a: ConnectionAddress| !is_key(recs[i], s, a) implies (
    #[trigger] has_rec(out, s, a) == has_rec(recs, s, a)) by {
        if has_rec(out, s, a) {
            let k = choose|k: int| 0 <= k < out.len() && is_key(#[trigger] out[k], s, a);
            if k < i {
                assert(is_key(recs[k], s, a));
            } else {
                assert(is_key(recs[k + 1], s, a));
            }
        }
        if has_rec(recs, s, a) {
            let k = choose|k: int| 0 <= k < recs.len() && is_key(#[trigger] recs[k], s, a);
            if k < i {
                assert(is_key(out[k], s, a));
            } else {
                assert(k != i);
                assert(is_key(out[k - 1], s, a));
            }
        }
    }
    assert forall|s: SocketId, a: ConnectionAddress|
        !is_key(recs[i], s, a) && has_rec(recs, s, a) implies #[trigger] rec_of(out, s, a)
        == rec_of(recs, s, a) by {
        assert(has_rec(out, s, a));
        let k = choose|k: int| 0 <= k < out.len() && is_key(#[trigger] out[k], s, a);
        if k < i {
            lemma_rec_at(recs, s, a, k);
        } else {
            lemma_rec_at(recs, s, a, k + 1);
        }
        lemma_rec_at(out, s, a, k);
    }
    if has_rec(out, recs[i].socket, recs[i].address) {
        let k = choose|k: int|
            0 <= k < out.len() && is_key(#[trigger] out[k], recs[i].socket, recs[i].address);
        if k < i {
            assert(is_key(recs[k], recs[i].socket, recs[i].address));
            assert(!is_key(recs[i], recs[k].socket, recs[k].address));
        } else {
            assert(is_key(recs[k + 1], recs[i].socket, recs[i].address));
            assert(!is_key(recs[k + 1], recs[i].socket, recs[i].address));
        }
    }
}

/// Appending a record for a fresh peer identity keeps the registry well
/// formed, registers exactly that record, and touches no other identity.
pub proof fn lemma_push_frame(recs: Seq<RecordView>, r: RecordView)
    requires
        registry_wf(recs),
        !has_rec(recs, r.socket, r.address),
        r.state != ConnectionState::Disconnected,
    ensures
        registry_wf(recs.push(r)),
        has_rec(recs.push(r), r.socket, r.address),
        rec_of(recs.push(r), r.socket, r.address) == r,
        forall|s: SocketId, a: ConnectionAddress|
            !is_key(r, s, a) ==> (#[trigger] has_rec(recs.push(r), s, a) == has_rec(recs, s, a)),
        forall|s: SocketId, a: ConnectionAddress|
            !is_key(r, s, a) && has_rec(recs, s, a) ==> #[trigger] rec_of(recs.push(r), s, a)
                == rec_of(recs, s, a),
{
    let out = recs.push(r);
    assert(forall|k: int| 0 <= k < recs.len() ==> out[k] == recs[k]);
    assert(out[recs.len() as int] == r);
    assert(registry_wf(out)) by {
        assert forall|i: int, j: int|
            #![trigger out[i], out[j]]
            0 <= i < j < out.len() implies !is_key(out[j], out[i].socket, out[i].address) by {
            if j < recs.len() {
                assert(!is_key(recs[j], recs[i].socket, recs[i].address));
            } else {
                assert(out[j] == r);
                if is_key(r, recs[i].socket, recs[i].address) {
                    assert(is_key(recs[i], r.socket, r.address));
                }
            }
        }
    }
    lemma_rec_at(out, r.socket, r.address, recs.len() as int);
    assert forall|s: SocketId, a: ConnectionAddress| !is_key(r, s, a) implies (
    #[trigger] has_rec(out, s, a) == has_rec(recs, s, a)) by {
        if has_rec(out, s, a) {
            let k = choose|k: int| 0 <= k < out.len() && is_key(#[trigger] out[k], s, a);
            assert(k < recs.len());
            assert(is_key(recs[k], s, a));
        }
        if has_rec(recs, s, a) {
            let k = choose|k: int| 0 <= k < recs.len() && is_key(#[trigger] recs[k], s, a);
            assert(is_key(out[k], s, a));
        }
    }
    assert forall|s: SocketId, a: ConnectionAddress|
        !is_key(r, s, a) && has_rec(recs, s, a) implies #[trigger] rec_of(out, s, a) == rec_of(
        recs,
        s,
        a,
    ) by {
        let k = choose|k: int| 0 <= k < recs.len() && is_key(#[trigger] recs[k], s, a);
        lemma_rec_at(recs, s, a, k);
        lemma_rec_at(out, s, a, k);
    }
}

/// The arena of connection records: one per (socket identity, peer address)
/// pair, each owning that peer's inbound queue and lifecycle state.
#[derive(Debug)]
pub struct ConnectionRegistry {
    pub(crate) records: Vec<ConnectionRecord>,
}

impl View for ConnectionRegistry {
    type V = Seq<RecordView>;

    closed spec fn view(&self) -> Seq<RecordView> {
        self.records@.map_values(|r: ConnectionRecord| r@)
    }
}

impl ConnectionRegistry {
    /// Well-formedness: see [`registry_wf`].
    pub open spec fn wf(&self) -> bool {
        registry_wf(self@)
    }

    /// An empty registry.
    pub fn new() -> (r: ConnectionRegistry)
        ensures
            r@ == Seq::<RecordView>::empty(),
            r.wf(),
    {
        let r = ConnectionRegistry { records: Vec::new() };
        proof {
            assert(r@ =~= Seq::<RecordView>::empty());
        }
        r
    }

    /// The number of known peers.
    pub fn len(&self) -> (n: usize)
        ensures
            n == self@.len(),
    {
        self.records.len()
    }

    /// Looks a peer identity up; the returned index is a handle valid until
    /// the registry is next mutated.
    pub fn find(&self, sid: SocketId, a: ConnectionAddress) -> (r: Option<usize>)
        ensures
            match r {
                Some(i) => i < self@.len() && is_key(self@[i as int], sid, a) && has_rec(
                    self@,
                    sid,
                    a,
                ),
                None => !has_rec(self@, sid, a),
            },
    {
        let n = self.records.len();
        let mut i: usize = 0;
        while i < n
            invariant
                i <= n,
                n == self@.len(),
                forall|k: int| 0 <= k < i ==> !is_key(#[trigger] self@[k], sid, a),
            decreases n - i,
        {
            let rec = &self.records[i];
            if rec.socket.0 == sid.0 && rec.address.ip == a.ip && rec.address.port == a.port {
                assert(is_key(self@[i as int], sid, a));
                return Some(i);
            }
            i = i + 1;
        }
        assert(!has_rec(self@, sid, a));
        None
    }

    /// The record behind a handle returned by [`ConnectionRegistry::find`].
    pub fn get(&self, i: usize) -> (r: &ConnectionRecord)
        requires
            i < self@.len(),
        ensures
            r@ == self@[i as int],
    {
        &self.records[i]
    }

    /// The lifecycle state of the peer behind a handle; never `Disconnected`
    /// in a well-formed registry.
    pub fn state(&self, i: usize) -> (s: ConnectionState)
        requires
            i < self@.len(),
        ensures
            s == self@[i as int].state,
    {
        self.records[i].state
    }

    /// Read-only view of the peer's inbound queue.
    pub fn peek_inbound(&self, i: usize) -> (q: &ReceiveQueue)
        requires
            i < self@.len(),
        ensures
            q@ == self@[i as int].queue,
    {
        &self.records[i].queue
    }

    /// Drains the peer's inbound queue, oldest message first; the record
    /// itself stays.
    pub fn drain_inbound(&mut self, i: usize) -> (out: Vec<Message>)
        requires
            i < old(self)@.len(),
        ensures
            msgs_view(out@) == old(self)@[i as int].queue,
            final(self)@ == old(self)@.update(
                i as int,
                RecordView { queue: Seq::empty(), ..old(self)@[i as int] },
            ),
            old(self).wf() ==> final(self).wf(),
    {
        let rec = &mut self.records[i];
        let out = rec.queue.drain();
        proof {
            assert(final(self)@ =~= old(self)@.update(
                i as int,
                RecordView { queue: Seq::empty(), ..old(self)@[i as int] },
            ));
            if old(self).wf() {
                assert(registry_wf(final(self)@)) by {
                    let r0 = old(self)@;
                    let r1 = final(self)@;
                    assert(forall|k: int|
                        0 <= k < r1.len() ==> (#[trigger] r1[k]).socket == r0[k].socket && r1[k].address
                            == r0[k].address && r1[k].state == r0[k].state);
                }
            }
        }
        out
    }

    /// Takes the record at one index out, shifting the later ones down.
    pub(crate) fn take_at(&mut self, i: usize) -> (rec: ConnectionRecord)
        requires
            i < old(self)@.len(),
        ensures
            rec@ == old(self)@[i as int],
            final(self)@ == old(self)@.remove(i as int),
    {
        let rec = self.records.remove(i);
        proof {
            assert(final(self)@ =~= old(self)@.remove(i as int));
        }
        rec
    }

    /// Appends one record at the end.
    pub(crate) fn put(&mut self, rec: ConnectionRecord)
        ensures
            final(self)@ == old(self)@.push(rec@),
    {
        let ghost r = rec@;
        self.records.push(rec);
        proof {
            assert(final(self)@ =~= old(self)@.push(r));
        }
    }

    /// Cascade teardown: removes every connection record owned by socket
    /// `sid`, leaving every other socket's records untouched. Run when the
    /// owning socket is destroyed, so no record stays addressable by no
    /// socket.
    pub fn remove_socket(&mut self, sid: SocketId)
        requires
            old(self).wf(),
        ensures
            final(self).wf(),
            forall|a: ConnectionAddress| !has_rec(final(self)@, sid, a),
            forall|s: SocketId, a: ConnectionAddress|
                s != sid ==> (#[trigger] has_rec(final(self)@, s, a) == has_rec(old(self)@, s, a)),
            forall|s: SocketId, a: ConnectionAddress|
                s != sid && has_rec(old(self)@, s, a) ==> #[trigger] rec_of(final(self)@, s, a)
                    == rec_of(old(self)@, s, a),
    {
        let ghost r0 = self@;
        let mut i: usize = 0;
        while i < self.records.len()
            invariant
                self.wf(),
                i <= self@.len(),
                forall|k: int| 0 <= k < i ==> (#[trigger] self@[k]).socket != sid,
                forall|s: SocketId, a: ConnectionAddress|
                    s != sid ==> (#[trigger] has_rec(self@, s, a) == has_rec(r0, s, a)),
                forall|s: SocketId, a: ConnectionAddress|
                    s != sid && has_rec(r0, s, a) ==> #[trigger] rec_of(self@, s, a) == rec_of(
                        r0,
                        s,
                        a,
                    ),
            decreases self@.len() - i,
        {
            if self.records[i].socket.0 == sid.0 {
                let ghost pre = self@;
                let _ = self.records.remove(i);
                proof {
                    assert(self@ =~= pre.remove(i as int));
                    lemma_remove_frame(pre, i as int);
                    assert(forall|k: int| 0 <= k < i ==> self@[k] == pre[k]);
                }
            } else {
                i = i + 1;
            }
        }
        proof {
            assert forall|a: ConnectionAddress| !has_rec(self@, sid, a) by {
                if has_rec(self@, sid, a) {
                    let k = choose|k: int| 0 <= k < self@.len() && is_key(#[trigger] self@[k], sid, a);
                    assert(self@[k].socket != sid);
                }
            }
        }
    }

    /// Explicit caller-initiated teardown of the record behind a handle.
    pub fn destroy(&mut self, i: usize)
        requires
            i < old(self)@.len(),
        ensures
            final(self)@ == old(self)@.remove(i as int),
    {
        let _ = self.records.remove(i);
        proof {
            assert(final(self)@ =~= old(self)@.remove(i as int));
        }
    }
}

} // verus!
