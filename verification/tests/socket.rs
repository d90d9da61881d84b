use netdemux::ConnectionAddress;
use netdemux::ConnectionRegistry;
use netdemux::Event;
use netdemux::Message;
use netdemux::PollInterval;
use netdemux::SendQueue;
use netdemux::SocketRegistry;

fn addr(ip: u128, port: u16) -> ConnectionAddress {
    ConnectionAddress { ip, port }
}

fn msg(a: ConnectionAddress, payload: &[u8]) -> Message {
    Message { addr: a, payload: payload.to_vec() }
}

#[test]
fn rate_limiting_is_strict() {
    let mut socks = SocketRegistry::new();
    let sid = socks.bind(PollInterval(100));
    let i = socks.find(sid).expect("bound socket");

    // never polled: the first check passes and stores the timestamp
    assert!(socks.should_poll(i, 1000));
    // within the interval: no-op
    assert!(!socks.should_poll(i, 1050));
    // the bound is strict: exactly interval later is still too soon
    assert!(!socks.should_poll(i, 1100));
    // beyond the interval: passes again and advances the timestamp
    assert!(socks.should_poll(i, 1101));
    assert!(!socks.should_poll(i, 1201));
    assert!(socks.should_poll(i, 1202));
}

#[test]
fn flush_isolation() {
    let mut socks = SocketRegistry::new();
    let sid = socks.bind(PollInterval(10));
    let i = socks.find(sid).expect("bound socket");
    let peer = addr(2, 5000);
    socks.enqueue_outbound(i, msg(peer, b"m1"));
    socks.enqueue_outbound(i, msg(peer, b"m2"));
    socks.enqueue_outbound(i, msg(peer, b"m3"));

    // the whole queue is handed out before any send is attempted, so a
    // transport that fails on the second message still sees the first and
    // the third
    let to_send = socks.flush_outbound(i);
    let mut attempted: Vec<Vec<u8>> = Vec::new();
    for (n, m) in to_send.into_iter().enumerate() {
        if n == 1 {
            // simulate the transport refusing this one: report and drop
            continue;
        }
        attempted.push(m.payload);
    }
    assert_eq!(attempted, vec![b"m1".to_vec(), b"m3".to_vec()]);
    // the queue ends empty: no retry for the failed message
    assert!(socks.flush_outbound(i).is_empty());
}

#[test]
fn send_queue_is_fifo() {
    let mut q = SendQueue::new();
    let peer = addr(2, 5000);
    q.send(msg(peer, b"first"));
    q.send(msg(peer, b"second"));
    assert_eq!(q.len(), 2);
    let out: Vec<Vec<u8>> = q.drain().into_iter().map(|m| m.payload).collect();
    assert_eq!(out, vec![b"first".to_vec(), b"second".to_vec()]);
    assert_eq!(q.len(), 0);
}

#[test]
fn messages_enqueued_after_flush_wait_for_the_next_one() {
    let mut socks = SocketRegistry::new();
    let sid = socks.bind(PollInterval(10));
    let i = socks.find(sid).expect("bound socket");
    let peer = addr(2, 5000);
    socks.enqueue_outbound(i, msg(peer, b"this tick"));
    let first = socks.flush_outbound(i);
    assert_eq!(first.len(), 1);
    socks.enqueue_outbound(i, msg(peer, b"next tick"));
    let second = socks.flush_outbound(i);
    assert_eq!(second.len(), 1);
    assert_eq!(second[0].payload, b"next tick".to_vec());
}

#[test]
fn bind_hands_out_fresh_handles() {
    let mut socks = SocketRegistry::new();
    let s1 = socks.bind(PollInterval(10));
    let s2 = socks.bind(PollInterval(20));
    assert_ne!(s1, s2);
    assert_eq!(socks.len(), 2);
    let i1 = socks.find(s1).expect("first socket");
    let i2 = socks.find(s2).expect("second socket");
    assert_ne!(i1, i2);
    assert_eq!(socks.get(i1).poll_interval, PollInterval(10));
    assert_eq!(socks.get(i1).last_poll, None);
    assert_eq!(socks.get(i2).poll_interval, PollInterval(20));
}

#[test]
fn destroying_a_socket_cascades_to_its_connections() {
    let mut socks = SocketRegistry::new();
    let s1 = socks.bind(PollInterval(10));
    let s2 = socks.bind(PollInterval(10));
    let pa = addr(2, 5000);
    let pb = addr(3, 6000);

    let mut conns = ConnectionRegistry::new();
    conns.drain_recv(s1, vec![Event::Connect(pa), Event::Connect(pb)], None);
    conns.drain_recv(s2, vec![Event::Connect(pa)], None);
    assert_eq!(conns.len(), 3);

    let i1 = socks.find(s1).expect("first socket");
    socks.destroy(i1, &mut conns);

    assert!(socks.find(s1).is_none());
    assert_eq!(socks.len(), 1);
    assert!(conns.find(s1, pa).is_none());
    assert!(conns.find(s1, pb).is_none());
    assert!(conns.find(s2, pa).is_some());
    assert_eq!(conns.len(), 1);
}

#[test]
fn registered_builder_reaches_new_connections() {
    let mut socks = SocketRegistry::new();
    let sid = socks.bind(PollInterval(10));
    let i = socks.find(sid).expect("bound socket");
    socks.register_builder(i, netdemux::ConnectionBuilder::adjoin_component(7));
    let hook = socks.builder(i);

    let peer = addr(2, 5000);
    let mut conns = ConnectionRegistry::new();
    conns.drain_recv(sid, vec![Event::Connect(peer)], hook);
    let c = conns.find(sid, peer).expect("new record");
    assert_eq!(conns.get(c).attachment, Some(7));
}
