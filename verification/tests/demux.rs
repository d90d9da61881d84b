use netdemux::ConnectionAddress;
use netdemux::ConnectionBuilder;
use netdemux::ConnectionRegistry;
use netdemux::ConnectionState;
use netdemux::Event;
use netdemux::Message;
use netdemux::SocketId;

fn addr(ip: u128, port: u16) -> ConnectionAddress {
    ConnectionAddress { ip, port }
}

fn msg(a: ConnectionAddress, payload: &[u8]) -> Message {
    Message { addr: a, payload: payload.to_vec() }
}

#[test]
fn single_creation_for_mixed_batch() {
    let sid = SocketId(1);
    let peer = addr(2, 5000);
    let mut reg = ConnectionRegistry::new();
    let events = vec![
        Event::Connect(peer),
        Event::Packet(msg(peer, b"one")),
        Event::Packet(msg(peer, b"two")),
    ];
    reg.drain_recv(sid, events, None);
    assert_eq!(reg.len(), 1);
    let i = reg.find(sid, peer).expect("record must exist");
    assert_eq!(reg.state(i), ConnectionState::Connected);
    assert_eq!(reg.peek_inbound(i).len(), 2);
    assert_eq!(reg.peek_inbound(i).peek(0).payload, b"one".to_vec());
    assert_eq!(reg.peek_inbound(i).peek(1).payload, b"two".to_vec());
}

#[test]
fn packet_only_creates_pending() {
    let sid = SocketId(1);
    let peer = addr(2, 5000);
    let mut reg = ConnectionRegistry::new();
    reg.drain_recv(sid, vec![Event::Packet(msg(peer, b"hi"))], None);
    assert_eq!(reg.len(), 1);
    let i = reg.find(sid, peer).expect("record must exist");
    assert_eq!(reg.state(i), ConnectionState::Pending);
    assert_eq!(reg.peek_inbound(i).len(), 1);
    assert_eq!(reg.peek_inbound(i).peek(0).payload, b"hi".to_vec());
}

#[test]
fn removal_is_idempotent() {
    let sid = SocketId(1);
    let peer = addr(2, 5000);
    let mut reg = ConnectionRegistry::new();
    reg.drain_recv(sid, vec![Event::Connect(peer)], None);
    assert!(reg.find(sid, peer).is_some());

    let batch = vec![Event::Disconnect(peer), Event::Timeout(peer)];
    reg.drain_recv(sid, batch.clone(), None);
    assert!(reg.find(sid, peer).is_none());
    assert_eq!(reg.len(), 0);

    reg.drain_recv(sid, batch, None);
    assert!(reg.find(sid, peer).is_none());
    assert_eq!(reg.len(), 0);
}

#[test]
fn packet_order_and_fifo_drain() {
    let sid = SocketId(1);
    let peer = addr(2, 5000);
    let mut reg = ConnectionRegistry::new();
    reg.drain_recv(sid, vec![Event::Connect(peer)], None);
    let events = vec![
        Event::Packet(msg(peer, b"m1")),
        Event::Packet(msg(peer, b"m2")),
        Event::Packet(msg(peer, b"m3")),
    ];
    reg.drain_recv(sid, events, None);
    let i = reg.find(sid, peer).expect("record must exist");
    let drained = reg.drain_inbound(i);
    let payloads: Vec<Vec<u8>> = drained.into_iter().map(|m| m.payload).collect();
    assert_eq!(payloads, vec![b"m1".to_vec(), b"m2".to_vec(), b"m3".to_vec()]);
    assert!(reg.peek_inbound(i).is_empty());
    assert!(reg.drain_inbound(i).is_empty());
}

#[test]
fn connect_then_disconnect_unseen_leaves_nothing() {
    let sid = SocketId(1);
    let peer = addr(2, 5000);
    let mut reg = ConnectionRegistry::new();
    reg.drain_recv(sid, vec![Event::Connect(peer), Event::Disconnect(peer)], None);
    assert!(reg.find(sid, peer).is_none());
    assert_eq!(reg.len(), 0);
}

#[test]
fn disconnect_then_connect_known_stays_connected() {
    let sid = SocketId(1);
    let peer = addr(2, 5000);
    let mut reg = ConnectionRegistry::new();
    reg.drain_recv(sid, vec![Event::Packet(msg(peer, b"x"))], None);
    reg.drain_recv(sid, vec![Event::Disconnect(peer), Event::Connect(peer)], None);
    let i = reg.find(sid, peer).expect("record must survive");
    assert_eq!(reg.state(i), ConnectionState::Connected);
}

#[test]
fn packet_then_teardown_scenario() {
    let sid = SocketId(0);
    // peer 10.0.0.2:5000, the IPv4 address carried IPv4-mapped
    let peer = addr(0xffff_0a00_0002, 5000);
    let mut reg = ConnectionRegistry::new();

    reg.drain_recv(sid, vec![Event::Packet(msg(peer, b"hi"))], None);
    let i = reg.find(sid, peer).expect("record must exist after the packet");
    assert_eq!(reg.state(i), ConnectionState::Pending);
    assert_eq!(reg.peek_inbound(i).len(), 1);
    assert_eq!(reg.peek_inbound(i).peek(0).payload, b"hi".to_vec());

    reg.drain_recv(sid, vec![Event::Connect(peer), Event::Disconnect(peer)], None);
    assert!(reg.find(sid, peer).is_none());
}

#[test]
fn timeout_for_unseen_peer_is_noop() {
    let sid = SocketId(1);
    let peer = addr(2, 5000);
    let mut reg = ConnectionRegistry::new();
    reg.drain_recv(sid, vec![Event::Timeout(peer)], None);
    assert_eq!(reg.len(), 0);
}

#[test]
fn timeout_removes_known_peer() {
    let sid = SocketId(1);
    let peer = addr(2, 5000);
    let mut reg = ConnectionRegistry::new();
    reg.drain_recv(sid, vec![Event::Connect(peer)], None);
    reg.drain_recv(sid, vec![Event::Timeout(peer)], None);
    assert!(reg.find(sid, peer).is_none());
}

#[test]
fn packets_in_teardown_batch_go_with_the_record() {
    let sid = SocketId(1);
    let peer = addr(2, 5000);
    let mut reg = ConnectionRegistry::new();
    reg.drain_recv(sid, vec![Event::Connect(peer)], None);
    let events = vec![Event::Packet(msg(peer, b"last")), Event::Disconnect(peer)];
    reg.drain_recv(sid, events, None);
    assert!(reg.find(sid, peer).is_none());
    assert_eq!(reg.len(), 0);
}

#[test]
fn builder_attaches_only_at_creation() {
    let sid = SocketId(1);
    let peer = addr(2, 5000);
    let mut reg = ConnectionRegistry::new();
    let hook = ConnectionBuilder::adjoin_component(42);
    reg.drain_recv(sid, vec![Event::Packet(msg(peer, b"a"))], Some(hook));
    let i = reg.find(sid, peer).expect("record must exist");
    assert_eq!(reg.get(i).attachment, Some(42));

    // an existing record keeps its attachment even if a later batch carries
    // another hook
    let other = ConnectionBuilder::adjoin_component(99);
    reg.drain_recv(sid, vec![Event::Packet(msg(peer, b"b"))], Some(other));
    let i = reg.find(sid, peer).expect("record must still exist");
    assert_eq!(reg.get(i).attachment, Some(42));
    assert_eq!(reg.peek_inbound(i).len(), 2);
}

#[test]
fn no_builder_means_no_attachment() {
    let sid = SocketId(1);
    let peer = addr(2, 5000);
    let mut reg = ConnectionRegistry::new();
    reg.drain_recv(sid, vec![Event::Connect(peer)], None);
    let i = reg.find(sid, peer).expect("record must exist");
    assert_eq!(reg.get(i).attachment, None);
}

#[test]
fn other_sockets_records_untouched() {
    let s1 = SocketId(1);
    let s2 = SocketId(2);
    let peer = addr(2, 5000);
    let mut reg = ConnectionRegistry::new();
    reg.drain_recv(s1, vec![Event::Packet(msg(peer, b"one"))], None);
    reg.drain_recv(s2, vec![Event::Connect(peer)], None);
    assert_eq!(reg.len(), 2);
    let i1 = reg.find(s1, peer).expect("first socket's record");
    assert_eq!(reg.state(i1), ConnectionState::Pending);
    assert_eq!(reg.peek_inbound(i1).len(), 1);
    let i2 = reg.find(s2, peer).expect("second socket's record");
    assert_eq!(reg.state(i2), ConnectionState::Connected);
    assert_eq!(reg.peek_inbound(i2).len(), 0);

    reg.drain_recv(s2, vec![Event::Disconnect(peer)], None);
    assert!(reg.find(s2, peer).is_none());
    assert!(reg.find(s1, peer).is_some());
}

#[test]
fn interleaved_peers_keep_their_own_order() {
    let sid = SocketId(1);
    let pa = addr(2, 5000);
    let pb = addr(3, 6000);
    let mut reg = ConnectionRegistry::new();
    let events = vec![
        Event::Packet(msg(pa, b"a1")),
        Event::Packet(msg(pb, b"b1")),
        Event::Packet(msg(pa, b"a2")),
    ];
    reg.drain_recv(sid, events, None);
    assert_eq!(reg.len(), 2);
    let ia = reg.find(sid, pa).expect("peer a");
    let a_msgs: Vec<Vec<u8>> = reg.drain_inbound(ia).into_iter().map(|m| m.payload).collect();
    assert_eq!(a_msgs, vec![b"a1".to_vec(), b"a2".to_vec()]);
    let ib = reg.find(sid, pb).expect("peer b");
    let b_msgs: Vec<Vec<u8>> = reg.drain_inbound(ib).into_iter().map(|m| m.payload).collect();
    assert_eq!(b_msgs, vec![b"b1".to_vec()]);
}

#[test]
fn reconnect_starts_fresh() {
    let sid = SocketId(1);
    let peer = addr(2, 5000);
    let mut reg = ConnectionRegistry::new();
    reg.drain_recv(sid, vec![Event::Packet(msg(peer, b"old"))], None);
    reg.drain_recv(sid, vec![Event::Disconnect(peer)], None);
    reg.drain_recv(sid, vec![Event::Connect(peer)], None);
    let i = reg.find(sid, peer).expect("fresh record");
    assert_eq!(reg.state(i), ConnectionState::Connected);
    assert!(reg.peek_inbound(i).is_empty());
}

#[test]
fn empty_batch_changes_nothing() {
    let sid = SocketId(1);
    let peer = addr(2, 5000);
    let mut reg = ConnectionRegistry::new();
    reg.drain_recv(sid, vec![Event::Packet(msg(peer, b"hi"))], None);
    reg.drain_recv(sid, Vec::new(), None);
    assert_eq!(reg.len(), 1);
    let i = reg.find(sid, peer).expect("record must remain");
    assert_eq!(reg.state(i), ConnectionState::Pending);
    assert_eq!(reg.peek_inbound(i).len(), 1);
}

#[test]
fn explicit_destroy_removes_record() {
    let sid = SocketId(1);
    let peer = addr(2, 5000);
    let mut reg = ConnectionRegistry::new();
    reg.drain_recv(sid, vec![Event::Connect(peer)], None);
    let i = reg.find(sid, peer).expect("record must exist");
    reg.destroy(i);
    assert!(reg.find(sid, peer).is_none());
    assert_eq!(reg.len(), 0);
}
