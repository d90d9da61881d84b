use vstd::prelude::*;

use crate::addr::ConnectionAddress;

verus! {

/// One application message: a payload received from, or addressed to, a peer.
#[derive(Clone, Debug, PartialEq, Eq)]
pub struct Message {
    /// The peer this message came from or is going to.
    pub addr: ConnectionAddress,
    /// The message body, as the transport delivered or will carry it.
    pub payload: Vec<u8>,
}

/// Mathematical model of a [`Message`].
#[verifier::ext_equal]
pub ghost struct MessageView {
    /// The peer address.
    pub addr: ConnectionAddress,
    /// The message body.
    pub payload: Seq<u8>,
}

impl View for Message {
    type V = MessageView;

    open spec fn view(&self) -> MessageView {
        MessageView { addr: self.addr, payload: self.payload@ }
    }
}

/// The model of a whole message sequence, used by queue contracts.
pub open spec fn msgs_view(msgs: Seq<Message>) -> Seq<MessageView> {
    msgs.map_values(|m: Message| m@)
}

} // verus!
