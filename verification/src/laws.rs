use vstd::prelude::*;

use crate::addr::ConnectionAddress;
use crate::addr::SocketId;
use crate::connection::ConnectionState;
use crate::connection::RecordView;
use crate::demux::demux_post;
use crate::demux::demux_rec;
use crate::demux::demux_survives;
use crate::event::Event;
use crate::event::batch_packets;
use crate::event::batch_state;
use crate::event::event_addr;
use crate::event::is_state_event;
use crate::event::lemma_batch_state_last;
use crate::event::lemma_batch_untouched;
use crate::event::touched;
use crate::message::MessageView;
use crate::registry::has_rec;
use crate::registry::is_key;
use crate::registry::rec_of;
use crate::registry::registry_wf;
use crate::socket::should_poll_spec;

verus! {

/// At most one creation per poll-batch: a batch that references a
/// previously-unseen peer address through any mix of connect and packet
/// events (at least one) leaves exactly one record for that address.
///
/// `r0` and `r1` are the registry contents before and after one
/// [`crate::ConnectionRegistry::drain_recv`] call, as its contract relates
/// them.
pub proof fn lemma_at_most_one_creation(
    r0: Seq<RecordView>,
    r1: Seq<RecordView>,
    sid: SocketId,
    events: Seq<Event>,
    attach: Option<u64>,
    a: ConnectionAddress,
)
    requires
        registry_wf(r0),
        registry_wf(r1),
        demux_post(r0, r1, sid, events, attach),
        !has_rec(r0, sid, a),
        touched(events, a),
        forall|i: int|
            0 <= i < events.len() && event_addr(#[trigger] events[i]) == a ==> (events[i] is Connect
                || events[i] is Packet),
    ensures
        has_rec(r1, sid, a),
        forall|i: int, j: int|
            #![trigger r1[i], r1[j]]
            0 <= i < r1.len() && 0 <= j < r1.len() && is_key(r1[i], sid, a) && is_key(r1[j], sid, a)
                ==> i == j,
{
    lemma_no_disconnect_events(events, a);
    assert(demux_survives(r0, sid, events, a));
    assert forall|i: int, j: int|
        #![trigger r1[i], r1[j]]
        0 <= i < r1.len() && 0 <= j < r1.len() && is_key(r1[i], sid, a) && is_key(
            r1[j],
            sid,
            a,
        ) implies i == j by {
        if i < j {
            assert(!is_key(r1[j], r1[i].socket, r1[i].address));
        }
        if j < i {
            assert(!is_key(r1[i], r1[j].socket, r1[j].address));
        }
    }
}

/// A batch whose events for `a` are all connects or packets can never drive
/// `a` towards the terminal state.
pub proof fn lemma_no_disconnect_events(events: Seq<Event>, a: ConnectionAddress)
    requires
        forall|i: int|
            0 <= i < events.len() && event_addr(#[trigger] events[i]) == a ==> (events[i] is Connect
                || events[i] is Packet),
    ensures
        batch_state(events, a) != Some(ConnectionState::Disconnected),
    decreases events.len(),
{
    if events.len() > 0 {
        assert(events.last() == events[events.len() - 1]);
        assert forall|i: int|
            0 <= i < events.drop_last().len() && event_addr(#[trigger] events.drop_last()[i]) == a
            implies (events.drop_last()[i] is Connect || events.drop_last()[i] is Packet) by {
            assert(events.drop_last()[i] == events[i]);
        }
        lemma_no_disconnect_events(events.drop_last(), a);
    }
}

/// At most one destruction per poll-batch, and removal is idempotent: a
/// batch whose events all reference a previously-known peer address and all
/// carry disconnect or timeout (at least one event) leaves that address
/// without a record, and running the same batch once more changes nothing at
/// all.
///
/// `r0`, `r1` and `r2` are the registry contents before the first
/// [`crate::ConnectionRegistry::drain_recv`] call, between the two, and
/// after the second, as the call's contract relates them.
pub proof fn lemma_idempotent_removal(
    r0: Seq<RecordView>,
    r1: Seq<RecordView>,
    r2: Seq<RecordView>,
    sid: SocketId,
    events: Seq<Event>,
    attach: Option<u64>,
    attach2: Option<u64>,
    a: ConnectionAddress,
)
    requires
        registry_wf(r0),
        registry_wf(r1),
        registry_wf(r2),
        demux_post(r0, r1, sid, events, attach),
        demux_post(r1, r2, sid, events, attach2),
        has_rec(r0, sid, a),
        events.len() > 0,
        forall|i: int|
            0 <= i < events.len() ==> event_addr(#[trigger] events[i]) == a && (
            events[i] is Disconnect || events[i] is Timeout),
    ensures
        !has_rec(r1, sid, a),
        forall|s: SocketId, b: ConnectionAddress|
            #[trigger] has_rec(r2, s, b) == has_rec(r1, s, b),
        forall|s: SocketId, b: ConnectionAddress|
            has_rec(r1, s, b) ==> #[trigger] rec_of(r2, s, b) == rec_of(r1, s, b),
{
    assert(touched(events, a)) by {
        assert(event_addr(events[0]) == a);
    }
    lemma_teardown_batch_state(events, a);
    assert(!demux_survives(r0, sid, events, a));
    assert(!has_rec(r1, sid, a));
    assert forall|s: SocketId, b: ConnectionAddress| #[trigger] has_rec(r2, s, b) == has_rec(
        r1,
        s,
        b,
    ) by {
        if s == sid {
            if b == a {
                assert(!demux_survives(r1, sid, events, a));
            } else {
                lemma_only_addr_touched(events, a, b);
                lemma_batch_untouched(events, b);
                assert(demux_survives(r1, sid, events, b) == has_rec(r1, sid, b));
            }
        }
    }
    assert forall|s: SocketId, b: ConnectionAddress| has_rec(r1, s, b) implies #[trigger] rec_of(
        r2,
        s,
        b,
    ) == rec_of(r1, s, b) by {
        if s == sid {
            assert(b != a);
            lemma_only_addr_touched(events, a, b);
            lemma_batch_untouched(events, b);
            assert(rec_of(r2, sid, b) == demux_rec(r1, sid, events, b, attach2));
            assert(demux_rec(r1, sid, events, b, attach2) =~= rec_of(r1, sid, b));
        }
    }
}

/// A batch that references `a` only through disconnect and timeout events
/// (at least one) drives `a` to the terminal state, whatever it carries for
/// other addresses.
pub proof fn lemma_teardown_batch_state(events: Seq<Event>, a: ConnectionAddress)
    requires
        touched(events, a),
        forall|i: int|
            0 <= i < events.len() && event_addr(#[trigger] events[i]) == a ==> (
            events[i] is Disconnect || events[i] is Timeout),
    ensures
        batch_state(events, a) == Some(ConnectionState::Disconnected),
    decreases events.len(),
{
    let w = choose|w: int| 0 <= w < events.len() && event_addr(#[trigger] events[w]) == a;
    assert(events.last() == events[events.len() - 1]);
    if event_addr(events.last()) == a {
        assert(is_state_event(events.last()));
    } else {
        assert(w < events.len() - 1);
        assert(touched(events.drop_last(), a)) by {
            assert(events.drop_last()[w] == events[w]);
        }
        assert forall|i: int|
            0 <= i < events.drop_last().len() && event_addr(#[trigger] events.drop_last()[i]) == a
            implies (events.drop_last()[i] is Disconnect || events.drop_last()[i] is Timeout) by {
            assert(events.drop_last()[i] == events[i]);
        }
        lemma_teardown_batch_state(events.drop_last(), a);
    }
}

/// At most one destruction per poll-batch: a batch that references a
/// previously-known peer address only through disconnect and timeout events
/// (at least one, and no matter how many) leaves that address without a
/// record, exactly once — there is no record left for a second removal to
/// act on.
///
/// `r0` and `r1` are the registry contents before and after one
/// [`crate::ConnectionRegistry::drain_recv`] call, as its contract relates
/// them.
pub proof fn lemma_at_most_one_destruction(
    r0: Seq<RecordView>,
    r1: Seq<RecordView>,
    sid: SocketId,
    events: Seq<Event>,
    attach: Option<u64>,
    a: ConnectionAddress,
)
    requires
        registry_wf(r0),
        registry_wf(r1),
        demux_post(r0, r1, sid, events, attach),
        has_rec(r0, sid, a),
        touched(events, a),
        forall|i: int|
            0 <= i < events.len() && event_addr(#[trigger] events[i]) == a ==> (
            events[i] is Disconnect || events[i] is Timeout),
    ensures
        !has_rec(r1, sid, a),
{
    lemma_teardown_batch_state(events, a);
    assert(!demux_survives(r0, sid, events, a));
}

/// A batch whose events all reference `a` never touches another address `b`.
pub proof fn lemma_only_addr_touched(events: Seq<Event>, a: ConnectionAddress, b: ConnectionAddress)
    requires
        forall|i: int| 0 <= i < events.len() ==> event_addr(#[trigger] events[i]) == a,
        b != a,
    ensures
        !touched(events, b),
{
    if touched(events, b) {
        let i = choose|i: int| 0 <= i < events.len() && event_addr(#[trigger] events[i]) == b;
        assert(event_addr(events[i]) == a);
    }
}

/// Packet ordering is preserved: the messages a batch delivers for one
/// address are exactly its packet events for that address, kept in delivery
/// order.
pub proof fn lemma_packets_in_order(events: Seq<Event>, a: ConnectionAddress)
    ensures
        batch_packets(events, a) == events.filter(
            |e: Event| e is Packet && event_addr(e) == a,
        ).map_values(|e: Event| packet_msg(e)),
    decreases events.len(),
{
    reveal(Seq::filter);
    let pred = |e: Event| e is Packet && event_addr(e) == a;
    let f = |e: Event| packet_msg(e);
    if events.len() == 0 {
        assert(batch_packets(events, a) =~= events.filter(pred).map_values(f));
    } else {
        lemma_packets_in_order(events.drop_last(), a);
        let sub = events.drop_last().filter(pred);
        if pred(events.last()) {
            assert(events.filter(pred) == sub.push(events.last()));
            assert(sub.push(events.last()).map_values(f) =~= sub.map_values(f).push(
                f(events.last()),
            ));
            assert(batch_packets(events, a) =~= events.filter(pred).map_values(f));
        } else {
            assert(events.filter(pred) == sub);
            assert(batch_packets(events, a) =~= events.filter(pred).map_values(f));
        }
    }
}

/// The message a packet event carries.
pub open spec fn packet_msg(e: Event) -> MessageView
    recommends
        e is Packet,
{
    match e {
        Event::Packet(m) => m@,
        _ => arbitrary(),
    }
}

/// State precedence, teardown half: when a batch shows a connect for an
/// unseen address and a later disconnect or timeout with no state-bearing
/// event for that address after it, the later event wins and no record
/// survives.
pub proof fn lemma_state_precedence_teardown(
    r0: Seq<RecordView>,
    r1: Seq<RecordView>,
    sid: SocketId,
    events: Seq<Event>,
    attach: Option<u64>,
    a: ConnectionAddress,
    i: int,
    j: int,
)
    requires
        registry_wf(r0),
        registry_wf(r1),
        demux_post(r0, r1, sid, events, attach),
        !has_rec(r0, sid, a),
        0 <= i < j < events.len(),
        events[i] is Connect,
        event_addr(events[i]) == a,
        events[j] is Disconnect || events[j] is Timeout,
        event_addr(events[j]) == a,
        forall|m: int|
            j < m < events.len() ==> !(event_addr(#[trigger] events[m]) == a && is_state_event(
                events[m],
            )),
    ensures
        !has_rec(r1, sid, a),
{
    lemma_batch_state_last(events, a, j);
    assert(batch_state(events, a) == Some(ConnectionState::Disconnected));
    assert(!demux_survives(r0, sid, events, a));
}

/// State precedence, reconnect half: when the last state-bearing event a
/// batch shows for a known address is a connect, the record survives in
/// state `Connected` whatever came before it.
pub proof fn lemma_state_precedence_reconnect(
    r0: Seq<RecordView>,
    r1: Seq<RecordView>,
    sid: SocketId,
    events: Seq<Event>,
    attach: Option<u64>,
    a: ConnectionAddress,
    j: int,
)
    requires
        registry_wf(r0),
        registry_wf(r1),
        demux_post(r0, r1, sid, events, attach),
        has_rec(r0, sid, a),
        0 <= j < events.len(),
        events[j] is Connect,
        event_addr(events[j]) == a,
        forall|m: int|
            j < m < events.len() ==> !(event_addr(#[trigger] events[m]) == a && is_state_event(
                events[m],
            )),
    ensures
        has_rec(r1, sid, a),
        rec_of(r1, sid, a).state == ConnectionState::Connected,
{
    lemma_batch_state_last(events, a, j);
    assert(batch_state(events, a) == Some(ConnectionState::Connected));
    assert(touched(events, a)) by {
        assert(event_addr(events[j]) == a);
    }
    assert(demux_survives(r0, sid, events, a));
    assert(rec_of(r1, sid, a) == demux_rec(r0, sid, events, a, attach));
}

/// Rate limiting: once a poll passes at time `t1` (advancing the stored
/// timestamp to `t1`), a second check within the configured interval fails,
/// and one strictly beyond it passes.
pub proof fn lemma_rate_limiting(interval: u64, t1: u64, t2: u64)
    ensures
        t2 <= t1 + interval ==> !should_poll_spec(Some(t1), interval, t2),
        t2 > t1 + interval ==> should_poll_spec(Some(t1), interval, t2),
{
}

} // verus!
