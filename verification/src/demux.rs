use vstd::prelude::*;

use crate::addr::ConnectionAddress;
use crate::addr::SocketId;
use crate::connection::ConnectionRecord;
use crate::connection::ConnectionState;
use crate::connection::ReceiveQueue;
use crate::connection::RecordView;
use crate::event::Event;
use crate::event::batch_packets;
use crate::event::batch_state;
use crate::event::event_addr;
use crate::event::lemma_batch_push;
use crate::event::lemma_batch_untouched;
use crate::event::touched;
use crate::message::Message;
use crate::message::MessageView;
use crate::message::msgs_view;
use crate::registry::ConnectionRegistry;
use crate::registry::has_rec;
use crate::registry::lemma_push_frame;
use crate::registry::lemma_rec_at;
use crate::registry::lemma_remove_frame;
use crate::registry::rec_of;
use crate::socket::ConnectionBuilder;
use crate::socket::attach_of;

verus! {

/// Whether address `a` still has a record after folding `events` into the
/// registry contents `r0` for socket `sid`: it must have been known or be
/// referenced by the batch, and the batch's last state-bearing event for it
/// must not drive it to the terminal state.
pub open spec fn demux_survives(
    r0: Seq<RecordView>,
    sid: SocketId,
    events: Seq<Event>,
    a: ConnectionAddress,
) -> bool {
    &&& has_rec(r0, sid, a) || touched(events, a)
    &&& batch_state(events, a) != Some(ConnectionState::Disconnected)
}

/// The record address `a` owns after the fold, when it survives: an existing
/// record keeps its queue plus the batch's packets in delivery order, and
/// moves to the batch's final state if the batch carries one; a fresh record
/// starts from the batch's packets, in state `Connected` or `Pending`
/// according to whether a connect event was seen, with the hook's attachment
/// installed.
pub open spec fn demux_rec(
    r0: Seq<RecordView>,
    sid: SocketId,
    events: Seq<Event>,
    a: ConnectionAddress,
    attach: Option<u64>,
) -> RecordView {
    if has_rec(r0, sid, a) {
        let prev = rec_of(r0, sid, a);
        RecordView {
            state: match batch_state(events, a) {
                Some(s) => s,
                None => prev.state,
            },
            queue: prev.queue + batch_packets(events, a),
            ..prev
        }
    } else {
        RecordView {
            socket: sid,
            address: a,
            state: match batch_state(events, a) {
                Some(s) => s,
                None => ConnectionState::Pending,
            },
            queue: batch_packets(events, a),
            attachment: attach,
        }
    }
}

/// The full effect of demultiplexing one poll-batch of socket `sid` over
/// registry contents `r0`, yielding `r1`: per address of that socket, the
/// record exists exactly when it survives the batch and then equals
/// [`demux_rec`]; every other socket's records are untouched.
pub open spec fn demux_post(
    r0: Seq<RecordView>,
    r1: Seq<RecordView>,
    sid: SocketId,
    events: Seq<Event>,
    attach: Option<u64>,
) -> bool {
    &&& forall|a: ConnectionAddress|
        #[trigger] has_rec(r1, sid, a) == demux_survives(r0, sid, events, a)
    &&& forall|a: ConnectionAddress|
        has_rec(r1, sid, a) ==> #[trigger] rec_of(r1, sid, a) == demux_rec(
            r0,
            sid,
            events,
            a,
            attach,
        )
    &&& forall|s: SocketId, a: ConnectionAddress|
        s != sid ==> (#[trigger] has_rec(r1, s, a) == has_rec(r0, s, a))
    &&& forall|s: SocketId, a: ConnectionAddress|
        s != sid && has_rec(r0, s, a) ==> #[trigger] rec_of(r1, s, a) == rec_of(r0, s, a)
}

/// The transient per-poll accumulation for one peer address: the pending
/// lifecycle transition (the batch's latest state-bearing event wins) and
/// the pending inbound messages in delivery order.
struct PendingAction {
    addr: ConnectionAddress,
    state: Option<ConnectionState>,
    packets: Vec<Message>,
}

/// Mathematical model of a [`PendingAction`].
#[verifier::ext_equal]
ghost struct ActionView {
    addr: ConnectionAddress,
    state: Option<ConnectionState>,
    packets: Seq<MessageView>,
}

impl View for PendingAction {
    type V = ActionView;

    closed spec fn view(&self) -> ActionView {
        ActionView { addr: self.addr, state: self.state, packets: msgs_view(self.packets@) }
    }
}

/// The model of a whole accumulation table.
spec fn acts(t: Seq<PendingAction>) -> Seq<ActionView> {
    t.map_values(|p: PendingAction| p@)
}

/// Whether the table already accumulates for address `a`.
spec fn has_entry(t: Seq<ActionView>, a: ConnectionAddress) -> bool {
    exists|k: int| 0 <= k < t.len() && (#[trigger] t[k]).addr == a
}

/// The address an event references.
fn addr_of_event(e: &Event) -> (a: ConnectionAddress)
    ensures
        a == event_addr(*e),
{
    match e {
        Event::Connect(a) => *a,
        Event::Disconnect(a) => *a,
        Event::Packet(m) => m.addr,
        Event::Timeout(a) => *a,
    }
}

/// Linear lookup into the accumulation table.
fn find_action(table: &Vec<PendingAction>, a: ConnectionAddress) -> (r: Option<usize>)
    ensures
        match r {
            Some(k) => k < table@.len() && acts(table@)[k as int].addr == a,
            None => !has_entry(acts(table@), a),
        },
{
    let n = table.len();
    let mut i: usize = 0;
    while i < n
        invariant
            i <= n,
            n == table@.len(),
            forall|k: int| 0 <= k < i ==> acts(table@)[k].addr != a,
        decreases n - i,
    {
        let entry = &table[i];
        if entry.addr == a {
            return Some(i);
        }
        i = i + 1;
    }
    None
}

/// One address's share of the finished fold.
spec fn addr_done(
    r0: Seq<RecordView>,
    r1: Seq<RecordView>,
    sid: SocketId,
    events: Seq<Event>,
    attach: Option<u64>,
    a: ConnectionAddress,
) -> bool {
    &&& has_rec(r1, sid, a) == demux_survives(r0, sid, events, a)
    &&& has_rec(r1, sid, a) ==> rec_of(r1, sid, a) == demux_rec(r0, sid, events, a, attach)
}

/// One address's record is as it was.
spec fn addr_same(
    r0: Seq<RecordView>,
    r1: Seq<RecordView>,
    sid: SocketId,
    a: ConnectionAddress,
) -> bool {
    &&& has_rec(r1, sid, a) == has_rec(r0, sid, a)
    &&& has_rec(r0, sid, a) ==> rec_of(r1, sid, a) == rec_of(r0, sid, a)
}

/// Every record of every other socket is as it was.
spec fn others_unchanged(r0: Seq<RecordView>, r1: Seq<RecordView>, sid: SocketId) -> bool {
    &&& forall|s: SocketId, a: ConnectionAddress|
        s != sid ==> (#[trigger] has_rec(r1, s, a) == has_rec(r0, s, a))
    &&& forall|s: SocketId, a: ConnectionAddress|
        s != sid && has_rec(r0, s, a) ==> #[trigger] rec_of(r1, s, a) == rec_of(r0, s, a)
}

impl ConnectionRegistry {
    /// The event demultiplexer: folds the ordered poll-batch `events` of
    /// socket `sid` into this registry.
    ///
    /// All events sharing a peer address are accumulated together before any
    /// registry mutation is committed for that address, then exactly one
    /// registry operation is applied per address. Hence, per poll and per
    /// address: at most one record creation and at most one destruction, no
    /// matter how many raw events reference the address. Packets are
    /// appended in delivery order even when the same batch tears the
    /// connection down; the teardown then removes the record together with
    /// the queued payloads, so a reconnect starts from a fresh record.
    ///
    /// A timeout or disconnect for an address with no record is a benign
    /// no-op. A `builder` hook, when given, installs its component on every
    /// record this call creates, exactly once, before the record becomes
    /// visible to lookups.
    pub fn drain_recv(&mut self, sid: SocketId, events: Vec<Event>, builder: Option<
        ConnectionBuilder,
    >)
        requires
            old(self).wf(),
        ensures
            final(self).wf(),
            demux_post(old(self)@, final(self)@, sid, events@, attach_of(builder)),
    {
        let ghost evs0 = events@;
        let ghost attach = attach_of(builder);

        // Phase 1: accumulate the batch into one pending action per address.
        let mut evs = events;
        let mut table: Vec<PendingAction> = Vec::new();
        let ghost mut k: int = 0;
        while evs.len() > 0
            invariant
                0 <= k <= evs0.len(),
                evs@ =~= evs0.skip(k),
                forall|k1: int, k2: int|
                    #![trigger acts(table@)[k1], acts(table@)[k2]]
                    0 <= k1 < k2 < acts(table@).len() ==> acts(table@)[k1].addr != acts(
                        table@,
                    )[k2].addr,
                forall|j: int|
                    0 <= j < acts(table@).len() ==> touched(evs0.take(k), (#[trigger] acts(
                        table@,
                    )[j]).addr),
                forall|j: int|
                    0 <= j < acts(table@).len() ==> (#[trigger] acts(table@)[j]).state
                        == batch_state(evs0.take(k), acts(table@)[j].addr),
                forall|j: int|
                    0 <= j < acts(table@).len() ==> (#[trigger] acts(table@)[j]).packets
                        == batch_packets(evs0.take(k), acts(table@)[j].addr),
                forall|a: ConnectionAddress|
                    #[trigger] touched(evs0.take(k), a) ==> has_entry(acts(table@), a),
            decreases evs.len(),
        {
            let ghost prefix = evs0.take(k);
            let ghost t_old = acts(table@);
            let e = evs.remove(0);
            proof {
                assert(e == evs0[k]);
                assert(evs@ =~= evs0.skip(k + 1));
                assert(evs0.take(k + 1) =~= prefix.push(e));
                lemma_batch_push(prefix, e);
            }
            let a = addr_of_event(&e);
            let idx = find_action(&table, a);
            match idx {
                Some(j) => {
                    match e {
                        Event::Packet(m) => {
                            let entry = &mut table[j];
                            entry.packets.push(m);
                            proof {
                                assert(msgs_view(entry.packets@) =~= t_old[j as int].packets.push(
                                    m@,
                                ));
                            }
                        },
                        Event::Connect(_) => {
                            let entry = &mut table[j];
                            entry.state = Some(ConnectionState::Connected);
                        },
                        Event::Disconnect(_) => {
                            let entry = &mut table[j];
                            entry.state = Some(ConnectionState::Disconnected);
                        },
                        Event::Timeout(_) => {
                            let entry = &mut table[j];
                            entry.state = Some(ConnectionState::Disconnected);
                        },
                    }
                    proof {
                        assert(acts(table@) =~= t_old.update(j as int, acts(table@)[j as int]));
                        assert forall|a2: ConnectionAddress|
                            #[trigger] touched(evs0.take(k + 1), a2) implies has_entry(
                            acts(table@),
                            a2,
                        ) by {
                            if touched(prefix, a2) {
                                let j2 = choose|j2: int|
                                    0 <= j2 < t_old.len() && (#[trigger] t_old[j2]).addr == a2;
                                assert(acts(table@)[j2].addr == a2);
                            } else {
                                assert(acts(table@)[j as int].addr == a2);
                            }
                        }
                    }
                },
                None => {
                    let entry = match e {
                        Event::Packet(m) => {
                            let mut first: Vec<Message> = Vec::new();
                            first.push(m);
                            PendingAction { addr: a, state: None, packets: first }
                        },
                        Event::Connect(_) => PendingAction {
                            addr: a,
                            state: Some(ConnectionState::Connected),
                            packets: Vec::new(),
                        },
                        Event::Disconnect(_) => PendingAction {
                            addr: a,
                            state: Some(ConnectionState::Disconnected),
                            packets: Vec::new(),
                        },
                        Event::Timeout(_) => PendingAction {
                            addr: a,
                            state: Some(ConnectionState::Disconnected),
                            packets: Vec::new(),
                        },
                    };
                    table.push(entry);
                    proof {
                        assert(acts(table@) =~= t_old.push(entry@));
                        assert(entry@.packets =~= batch_packets(evs0.take(k + 1), a)) by {
                            lemma_batch_untouched(prefix, a);
                        }
                        assert(entry@.state == batch_state(evs0.take(k + 1), a)) by {
                            lemma_batch_untouched(prefix, a);
                        }
                        assert forall|a2: ConnectionAddress|
                            #[trigger] touched(evs0.take(k + 1), a2) implies has_entry(
                            acts(table@),
                            a2,
                        ) by {
                            if touched(prefix, a2) {
                                let j2 = choose|j2: int|
                                    0 <= j2 < t_old.len() && (#[trigger] t_old[j2]).addr == a2;
                                assert(acts(table@)[j2].addr == a2);
                            } else {
                                assert(acts(table@)[t_old.len() as int].addr == a2);
                            }
                        }
                    }
                },
            }
            proof {
                k = k + 1;
            }
        }
        proof {
            assert(evs0.take(k) =~= evs0);
        }

        // Phase 2: apply exactly one registry operation per accumulated
        // address.
        let ghost r0 = self@;
        let ghost t0 = acts(table@);
        let mut rest = table;
        let ghost mut done: int = 0;
        while rest.len() > 0
            invariant
                self.wf(),
                attach == attach_of(builder),
                0 <= done <= t0.len(),
                acts(rest@) =~= t0.skip(done),
                forall|k1: int, k2: int|
                    #![trigger t0[k1], t0[k2]]
                    0 <= k1 < k2 < t0.len() ==> t0[k1].addr != t0[k2].addr,
                forall|j: int| 0 <= j < t0.len() ==> touched(evs0, (#[trigger] t0[j]).addr),
                forall|j: int|
                    0 <= j < t0.len() ==> (#[trigger] t0[j]).state == batch_state(
                        evs0,
                        t0[j].addr,
                    ),
                forall|j: int|
                    0 <= j < t0.len() ==> (#[trigger] t0[j]).packets == batch_packets(
                        evs0,
                        t0[j].addr,
                    ),
                forall|a: ConnectionAddress| #[trigger] touched(evs0, a) ==> has_entry(t0, a),
                forall|j: int|
                    0 <= j < done ==> addr_done(r0, self@, sid, evs0, attach, (#[trigger] t0[j]).addr),
                forall|j: int|
                    done <= j < t0.len() ==> addr_same(r0, self@, sid, (#[trigger] t0[j]).addr),
                forall|a: ConnectionAddress|
                    !has_entry(t0, a) ==> #[trigger] addr_same(r0, self@, sid, a),
                others_unchanged(r0, self@, sid),
            decreases rest.len(),
        {
            let ghost r_pre = self@;
            let ghost rest_pre = rest@;
            let act = rest.remove(0);
            proof {
                assert(act == rest_pre[0]);
                assert(acts(rest_pre).len() == rest_pre.len());
                assert(acts(rest_pre) == t0.skip(done));
                assert(acts(rest_pre)[0] == rest_pre[0]@);
                assert(t0.skip(done)[0] == t0[done]);
                assert(act@ == t0[done]);
                assert(rest@ =~= rest_pre.skip(1));
                assert forall|j: int| 0 <= j < rest@.len() implies acts(rest@)[j] == t0.skip(
                    done + 1,
                )[j] by {
                    assert(rest@[j] == rest_pre[j + 1]);
                    assert(acts(rest_pre)[j + 1] == rest_pre[j + 1]@);
                    assert(t0.skip(done)[j + 1] == t0[done + 1 + j]);
                }
                assert(acts(rest@) =~= t0.skip(done + 1));
            }
            let a = act.addr;
            let ghost bs = batch_state(evs0, a);
            let ghost bp = batch_packets(evs0, a);
            proof {
                assert(addr_same(r0, r_pre, sid, a));
            }
            let found = self.find(sid, a);
            match found {
                Some(i) => {
                    proof {
                        lemma_rec_at(r_pre, sid, a, i as int);
                        lemma_remove_frame(r_pre, i as int);
                    }
                    let mut rec = self.take_at(i);
                    let ghost r_mid = self@;
                    rec.queue.append_msgs(act.packets);
                    match act.state {
                        Some(st) => {
                            rec.state = st;
                        },
                        None => {},
                    }
                    let keep = match rec.state {
                        ConnectionState::Disconnected => false,
                        _ => true,
                    };
                    proof {
                        assert(rec@.queue =~= rec_of(r0, sid, a).queue + bp);
                        assert(keep == (bs != Some(ConnectionState::Disconnected)));
                    }
                    if keep {
                        let ghost rv = rec@;
                        proof {
                            lemma_push_frame(r_mid, rv);
                        }
                        self.put(rec);
                        proof {
                            assert(rv =~= demux_rec(r0, sid, evs0, a, attach));
                        }
                    }
                },
                None => {
                    proof {
                        assert(!has_rec(r0, sid, a));
                    }
                    let create = match act.state {
                        Some(ConnectionState::Disconnected) => false,
                        _ => true,
                    };
                    proof {
                        assert(act@.state == bs);
                        assert(act@.packets == bp);
                        assert(create == (bs != Some(ConnectionState::Disconnected)));
                    }
                    if create {
                        let attachment: Option<u64> = match builder {
                            Some(b) => Some(b.component),
                            None => None,
                        };
                        proof {
                            assert(attachment == attach);
                        }
                        let state = match act.state {
                            Some(st) => st,
                            None => ConnectionState::Pending,
                        };
                        let rec = ConnectionRecord {
                            socket: sid,
                            address: a,
                            state,
                            queue: ReceiveQueue::from_vec(act.packets),
                            attachment,
                        };
                        let ghost rv = rec@;
                        proof {
                            lemma_push_frame(r_pre, rv);
                        }
                        self.put(rec);
                        proof {
                            assert(rv =~= demux_rec(r0, sid, evs0, a, attach));
                        }
                    }
                },
            }
            proof {
                assert(addr_done(r0, self@, sid, evs0, attach, a));
                assert forall|j: int|
                    0 <= j < done + 1 implies addr_done(
                    r0,
                    self@,
                    sid,
                    evs0,
                    attach,
                    (#[trigger] t0[j]).addr,
                ) by {
                    if j < done {
                        assert(t0[j].addr != a);
                        assert(addr_done(r0, r_pre, sid, evs0, attach, t0[j].addr));
                        assert(has_rec(self@, sid, t0[j].addr) == has_rec(r_pre, sid, t0[j].addr));
                    }
                }
                assert forall|j: int|
                    done + 1 <= j < t0.len() implies addr_same(
                    r0,
                    self@,
                    sid,
                    (#[trigger] t0[j]).addr,
                ) by {
                    assert(t0[j].addr != a);
                    assert(addr_same(r0, r_pre, sid, t0[j].addr));
                    assert(has_rec(self@, sid, t0[j].addr) == has_rec(r_pre, sid, t0[j].addr));
                }
                assert forall|a2: ConnectionAddress|
                    !has_entry(t0, a2) implies #[trigger] addr_same(r0, self@, sid, a2) by {
                    assert(a2 != a) by {
                        assert(t0[done].addr == a);
                    }
                    assert(addr_same(r0, r_pre, sid, a2));
                    assert(has_rec(self@, sid, a2) == has_rec(r_pre, sid, a2));
                }
                done = done + 1;
            }
        }
        proof {
            assert forall|a: ConnectionAddress|
                #[trigger] has_rec(self@, sid, a) == demux_survives(r0, sid, evs0, a) by {
                if has_entry(t0, a) {
                    let j = choose|j: int| 0 <= j < t0.len() && (#[trigger] t0[j]).addr == a;
                    assert(addr_done(r0, self@, sid, evs0, attach, a));
                } else {
                    assert(!touched(evs0, a));
                    lemma_batch_untouched(evs0, a);
                    assert(addr_same(r0, self@, sid, a));
                }
            }
            assert forall|a: ConnectionAddress| has_rec(self@, sid, a) implies #[trigger] rec_of(
                self@,
                sid,
                a,
            ) == demux_rec(r0, sid, evs0, a, attach) by {
                if has_entry(t0, a) {
                    let j = choose|j: int| 0 <= j < t0.len() && (#[trigger] t0[j]).addr == a;
                    assert(addr_done(r0, self@, sid, evs0, attach, a));
                } else {
                    assert(!touched(evs0, a));
                    lemma_batch_untouched(evs0, a);
                    assert(addr_same(r0, self@, sid, a));
                    assert(demux_rec(r0, sid, evs0, a, attach) =~= rec_of(r0, sid, a));
                }
            }
        }
    }
}

} // verus!
