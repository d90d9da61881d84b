//! A verified connection-lifecycle layer over a polled, event-based UDP
//! transport.
//!
//! The transport (bound sockets, reliability modes, the wire format) is an
//! external collaborator: it classifies each inbound datagram into an
//! [`Event`] and hands the demultiplexer the ordered batch of events that one
//! poll produced. Everything this crate owns is pure state manipulation:
//! folding a poll-batch into a registry of known peers, each with an ordered
//! inbound queue and a lifecycle state, rate-limiting polls, and draining
//! outbound queues in FIFO order.
//!
//! The host drives one tick as three steps in a fixed order, each step a
//! complete pass over all sockets before the next begins:
//!
//! 1. *Poll* — for each socket where [`SocketRegistry::should_poll`] passes,
//!    poll the transport.
//! 2. *Demultiplex* — feed each socket's freshly produced events to
//!    [`ConnectionRegistry::drain_recv`].
//! 3. *Flush* — attempt to send, in order, everything
//!    [`SocketRegistry::flush_outbound`] hands out.
//!
//! Because poll precedes demultiplex precedes flush, a message enqueued by
//! caller code running between ticks leaves with the next tick's flush,
//! never the current one.
//!
//! The properties the demultiplexer guarantees per poll-batch — at most one
//! record creation and at most one destruction per peer address, packet
//! order preserved, the last state-bearing event winning — are stated in
//! [`demux::demux_post`] and proved as the laws in [`laws`].


pub mod addr;
pub mod connection;
pub mod demux;
pub mod event;
pub mod laws;
pub mod message;
pub mod registry;
pub mod socket;

pub use addr::ConnectionAddress;
pub use addr::SocketId;
pub use connection::ConnectionRecord;
pub use connection::ConnectionState;
pub use connection::ReceiveQueue;
pub use event::Event;
pub use message::Message;
pub use registry::ConnectionRegistry;
pub use socket::ConnectionBuilder;
pub use socket::PollInterval;
pub use socket::SendQueue;
pub use socket::SocketRecord;
pub use socket::SocketRegistry;
