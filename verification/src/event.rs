use vstd::prelude::*;

use crate::addr::ConnectionAddress;
use crate::connection::ConnectionState;
use crate::message::Message;
use crate::message::MessageView;

verus! {

/// One transport-level event, as the transport classified it during one poll.
///
/// A poll-batch is the ordered sequence of these events that a single poll of
/// one socket produced.
#[derive(Clone, Debug)]
pub enum Event {
    /// The transport observed an explicit connection handshake from a peer.
    Connect(ConnectionAddress),
    /// The transport observed an explicit disconnect from a peer.
    Disconnect(ConnectionAddress),
    /// A payload-bearing datagram arrived from the message's peer.
    Packet(Message),
    /// The transport gave up on a peer that stopped responding.
    Timeout(ConnectionAddress),
}

/// The peer address an event refers to.
pub open spec fn event_addr(e: Event) -> ConnectionAddress {
    match e {
        Event::Connect(a) => a,
        Event::Disconnect(a) => a,
        Event::Packet(m) => m.addr,
        Event::Timeout(a) => a,
    }
}

/// Whether an event carries a lifecycle-state transition (everything but a
/// packet does).
pub open spec fn is_state_event(e: Event) -> bool {
    !(e is Packet)
}

/// The lifecycle state a state-bearing event drives its peer towards.
pub open spec fn event_state(e: Event) -> ConnectionState {
    match e {
        Event::Connect(_) => ConnectionState::Connected,
        _ => ConnectionState::Disconnected,
    }
}

/// Whether some event in the batch references address `a`.
pub open spec fn touched(events: Seq<Event>, a: ConnectionAddress) -> bool {
    exists|i: int| 0 <= i < events.len() && event_addr(#[trigger] events[i]) == a
}

/// How one more event changes the pending state transition for address `a`:
/// the latest state-bearing event wins.
pub open spec fn step_state(
    prev: Option<ConnectionState>,
    e: Event,
    a: ConnectionAddress,
) -> Option<ConnectionState> {
    if event_addr(e) == a && is_state_event(e) {
        Some(event_state(e))
    } else {
        prev
    }
}

/// How one more event changes the pending inbound messages for address `a`:
/// packets for `a` are appended in delivery order.
pub open spec fn step_packets(
    prev: Seq<MessageView>,
    e: Event,
    a: ConnectionAddress,
) -> Seq<MessageView> {
    match e {
        Event::Packet(m) => if m.addr == a {
            prev.push(m@)
        } else {
            prev
        },
        _ => prev,
    }
}

/// The pending state transition for address `a` after the whole batch: the
/// state carried by the last state-bearing event for `a`, if any.
pub open spec fn batch_state(events: Seq<Event>, a: ConnectionAddress) -> Option<ConnectionState>
    decreases events.len(),
{
    if events.len() == 0 {
        None
    } else {
        step_state(batch_state(events.drop_last(), a), events.last(), a)
    }
}

/// The inbound messages the batch delivers for address `a`, in delivery order.
pub open spec fn batch_packets(events: Seq<Event>, a: ConnectionAddress) -> Seq<MessageView>
    decreases events.len(),
{
    if events.len() == 0 {
        Seq::empty()
    } else {
        step_packets(batch_packets(events.drop_last(), a), events.last(), a)
    }
}

/// Appending one event to a batch changes its per-address summaries by
/// exactly one step, for every address at once.
pub proof fn lemma_batch_push(events: Seq<Event>, e: Event)
    ensures
        forall|a: ConnectionAddress|
            #[trigger] batch_state(events.push(e), a) == step_state(batch_state(events, a), e, a),
        forall|a: ConnectionAddress|
            #[trigger] batch_packets(events.push(e), a) == step_packets(
                batch_packets(events, a),
                e,
                a,
            ),
        forall|a: ConnectionAddress|
            #[trigger] touched(events.push(e), a) <==> (touched(events, a) || event_addr(e) == a),
{
    assert(events.push(e).drop_last() =~= events);
    assert(events.push(e).last() == e);
    assert forall|a: ConnectionAddress| #[trigger] touched(events.push(e), a) implies (touched(
        events,
        a,
    ) || event_addr(e) == a) by {
        let i = choose|i: int|
            0 <= i < events.push(e).len() && event_addr(#[trigger] events.push(e)[i]) == a;
        if i < events.len() {
            assert(events.push(e)[i] == events[i]);
        }
    }
    assert forall|a: ConnectionAddress| (touched(events, a) || event_addr(e) == a) implies #[trigger] touched(
        events.push(e),
        a,
    ) by {
        if touched(events, a) {
            let i = choose|i: int| 0 <= i < events.len() && event_addr(#[trigger] events[i]) == a;
            assert(events.push(e)[i] == events[i]);
        } else {
            assert(events.push(e)[events.len() as int] == e);
        }
    }
}

/// A batch that never references `a` leaves no pending transition and no
/// pending messages for `a`.
pub proof fn lemma_batch_untouched(events: Seq<Event>, a: ConnectionAddress)
    requires
        !touched(events, a),
    ensures
        batch_state(events, a) is None,
        batch_packets(events, a) =~= Seq::<MessageView>::empty(),
    decreases events.len(),
{
    if events.len() > 0 {
        assert(event_addr(events.last()) != a) by {
            assert(events[events.len() - 1] == events.last());
        }
        assert(!touched(events.drop_last(), a)) by {
            if touched(events.drop_last(), a) {
                let i = choose|i: int|
                    0 <= i < events.drop_last().len() && event_addr(
                        #[trigger] events.drop_last()[i],
                    ) == a;
                assert(events[i] == events.drop_last()[i]);
            }
        }
        lemma_batch_untouched(events.drop_last(), a);
    }
}

/// The batch's pending transition for `a` is decided by its last
/// state-bearing event for `a`: later events in delivery order win.
pub proof fn lemma_batch_state_last(events: Seq<Event>, a: ConnectionAddress, j: int)
    requires
        0 <= j < events.len(),
        event_addr(events[j]) == a,
        is_state_event(events[j]),
        forall|m: int|
            j < m < events.len() ==> !(event_addr(#[trigger] events[m]) == a && is_state_event(
                events[m],
            )),
    ensures
        batch_state(events, a) == Some(event_state(events[j])),
    decreases events.len(),
{
    if j == events.len() - 1 {
        assert(events.last() == events[j]);
    } else {
        assert(events.last() == events[events.len() - 1]);
        assert(!(event_addr(events.last()) == a && is_state_event(events.last())));
        assert(events.drop_last()[j] == events[j]);
        assert forall|m: int|
            j < m < events.drop_last().len() implies !(event_addr(#[trigger] events.drop_last()[m])
            == a && is_state_event(events.drop_last()[m])) by {
            assert(events.drop_last()[m] == events[m]);
        }
        lemma_batch_state_last(events.drop_last(), a, j);
    }
}

} // verus!
