//! The subscriber's side of events.
use vstd::prelude::*;
use vstd::utf8::encode_utf8;

use crate::json::{json_member, json_member_of};
use crate::message::{FrameView, MessageType, SocketMessage};

verus! {

/// The frame that subscribes to `event`.
pub fn subscribe_request(event: &str) -> (r: SocketMessage)
    ensures
        r@ == (FrameView {
            id: 0,
            kind: MessageType::SubscribeEventRequest,
            msg: encode_utf8(event@),
        }),
{
    SocketMessage::new().set_kind(MessageType::SubscribeEventRequest).set_body(event.as_bytes())
}

/// The parameter (JSON text) that an event frame carries, if its body is an
/// event.
pub fn event_param(msg: &SocketMessage) -> (r: Option<Vec<u8>>)
    ensures
        match r {
            Some(p) => json_member_of(msg.msg@, "param"@) == Some(p@),
            None => json_member_of(msg.msg@, "param"@) is None,
        },
{
    json_member(msg.body(), "param")
}

} // verus!
