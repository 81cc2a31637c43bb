//! The caller's side of the bus: the frames that ask for a method call or
//! publish an event, and what a reply to a call means.
use vstd::prelude::*;

use crate::error::{CommonErrors, RemoteError};
use crate::json::{json_member, json_member_of, json_string, json_string_of};
use crate::message::{push_all, FrameView, MessageType, SocketMessage};

verus! {

/// `{"object":<object>,"method":<method>,"param":<param>}`, with the names as
/// JSON strings and `param` as JSON text.
pub open spec fn call_body(object: Seq<char>, method: Seq<char>, param: Seq<u8>) -> Seq<u8> {
    seq![123u8, 34, 111, 98, 106, 101, 99, 116, 34, 58] + json_string_of(object) + seq![
        44u8,
        34,
        109,
        101,
        116,
        104,
        111,
        100,
        34,
        58,
    ] + json_string_of(method) + seq![44u8, 34, 112, 97, 114, 97, 109, 34, 58] + param + seq![
        125u8,
    ]
}

/// `{"event":<event>,"param":<param>}`, with the name as a JSON string and
/// `param` as JSON text.
pub open spec fn event_body(event: Seq<char>, param: Seq<u8>) -> Seq<u8> {
    seq![123u8, 34, 101, 118, 101, 110, 116, 34, 58] + json_string_of(event) + seq![
        44u8,
        34,
        112,
        97,
        114,
        97,
        109,
        34,
        58,
    ] + param + seq![125u8]
}

/// A method call: the object, the method, and the parameter as JSON text.
pub struct CallMethod {
    pub object: String,
    pub method: String,
    pub param: Vec<u8>,
}

impl CallMethod {
    pub fn as_bytes(&self) -> (r: Vec<u8>)
        ensures
            r@ == call_body(self.object@, self.method@, self.param@),
    {
        let open: [u8; 10] = [123, 34, 111, 98, 106, 101, 99, 116, 34, 58];
        let mid: [u8; 10] = [44, 34, 109, 101, 116, 104, 111, 100, 34, 58];
        let last: [u8; 9] = [44, 34, 112, 97, 114, 97, 109, 34, 58];
        let mut out: Vec<u8> = Vec::new();
        push_all(&mut out, &open);
        let object = json_string(self.object.as_str());
        push_all(&mut out, &object);
        push_all(&mut out, &mid);
        let method = json_string(self.method.as_str());
        push_all(&mut out, &method);
        push_all(&mut out, &last);
        push_all(&mut out, self.param.as_slice());
        out.push(125);
        assert(out@ =~= call_body(self.object@, self.method@, self.param@));
        out
    }
}

/// An event: its name, and the parameter as JSON text.
pub struct Event {
    pub event: String,
    pub param: Vec<u8>,
}

impl Event {
    pub fn as_bytes(&self) -> (r: Vec<u8>)
        ensures
            r@ == event_body(self.event@, self.param@),
    {
        let open: [u8; 9] = [123, 34, 101, 118, 101, 110, 116, 34, 58];
        let last: [u8; 9] = [44, 34, 112, 97, 114, 97, 109, 34, 58];
        let mut out: Vec<u8> = Vec::new();
        push_all(&mut out, &open);
        let event = json_string(self.event.as_str());
        push_all(&mut out, &event);
        push_all(&mut out, &last);
        push_all(&mut out, self.param.as_slice());
        out.push(125);
        assert(out@ =~= event_body(self.event@, self.param@));
        out
    }
}

/// The frame that calls `method` of `object` with `param` (JSON text).
pub fn call_request(object: &str, method: &str, param: &[u8]) -> (r: SocketMessage)
    ensures
        r@ == (FrameView {
            id: 0,
            kind: MessageType::RemoteCallRequest,
            msg: call_body(object@, method@, param@),
        }),
{
    let mut p: Vec<u8> = Vec::new();
    push_all(&mut p, param);
    let call = CallMethod { object: object.to_string(), method: method.to_string(), param: p };
    let body = call.as_bytes();
    SocketMessage::new().set_kind(MessageType::RemoteCallRequest).set_body(&body)
}

/// The frame that publishes event `event` with `param` (JSON text).
pub fn event_request(event: &str, param: &[u8]) -> (r: SocketMessage)
    ensures
        r@ == (FrameView {
            id: 0,
            kind: MessageType::SendEventRequest,
            msg: event_body(event@, param@),
        }),
{
    let mut p: Vec<u8> = Vec::new();
    push_all(&mut p, param);
    let ev = Event { event: event.to_string(), param: p };
    let body = ev.as_bytes();
    SocketMessage::new().set_kind(MessageType::SendEventRequest).set_body(&body)
}

/// What the reply to a call means: a reply of another kind is "invalid
/// response data"; a body `{"error":<value>,...}` is the error `value`;
/// any other body is the returned value.
pub fn call_result(resp: &SocketMessage) -> (r: Result<Vec<u8>, RemoteError>)
    ensures
        resp.kind != MessageType::RemoteCallResponse ==> (r matches Err(e) && e.error@
            == json_string_of(CommonErrors::InvalidResponseData.text())),
        resp.kind == MessageType::RemoteCallResponse ==> match json_member_of(resp.msg@, "error"@) {
            Some(v) => r matches Err(e) && e.error@ == v,
            None => r matches Ok(b) && b@ == resp.msg@,
        },
{
    if resp.kind() != MessageType::RemoteCallResponse {
        let text = json_string(CommonErrors::InvalidResponseData.as_str());
        return Err(RemoteError::new(text));
    }
    match json_member(resp.body(), "error") {
        Some(v) => Err(RemoteError::new(v)),
        None => {
            let mut b: Vec<u8> = Vec::new();
            push_all(&mut b, resp.body());
            Ok(b)
        },
    }
}

} // verus!
