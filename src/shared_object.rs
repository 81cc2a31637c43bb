//! The side of a process that hosts shared objects: registering them with
//! the broker, and answering the calls the broker forwards. The handlers
//! themselves are run by the caller.
use vstd::prelude::*;
use vstd::utf8::encode_utf8;

use crate::error::{CommonErrors, RemoteError};
use crate::json::{json_member, json_member_of, json_string_member, string_member};
use crate::message::{
    error_body, error_body_of, error_envelope, failed_body, failed_bytes, FrameView, MessageType,
    SocketMessage,
};
use crate::objects::answer;

verus! {

/// What the host does with a forwarded call.
pub enum CallDispatch {
    /// Run the handler of `object` for `method` with `param` (JSON text).
    Invoke { object: String, method: String, param: Vec<u8> },
    /// Answer at once with this response.
    Reply(SocketMessage),
}

/// The names of a sequence of texts.
pub open spec fn texts(v: Seq<String>) -> Seq<Seq<char>> {
    v.map_values(|s: String| s@)
}

/// Why a registration did not succeed.
#[derive(Clone, Copy, PartialEq, Eq, Structural, Debug)]
pub enum RegistrationError {
    /// The broker answered `failed`.
    RegistrationFailed,
    /// The broker answered with a frame of another kind.
    InvalidResponse,
}

/// The frame that registers `object` with the broker.
pub fn registration_request(object: &str) -> (r: SocketMessage)
    ensures
        r@ == (FrameView {
            id: 0,
            kind: MessageType::AddShareObjectRequest,
            msg: encode_utf8(object@),
        }),
{
    SocketMessage::new().set_kind(MessageType::AddShareObjectRequest).set_body(object.as_bytes())
}

/// Whether `a` and `b` hold the same bytes.
pub fn bytes_eq(a: &[u8], b: &[u8]) -> (r: bool)
    ensures
        r == (a@ == b@),
{
    if a.len() != b.len() {
        return false;
    }
    let mut i: usize = 0;
    while i < a.len()
        invariant
            a@.len() == b@.len(),
            i <= a@.len(),
            forall|j: int| 0 <= j < i ==> a@[j] == b@[j],
        decreases a@.len() - i,
    {
        if a[i] != b[i] {
            return false;
        }
        i = i + 1;
    }
    assert(a@ =~= b@);
    true
}

/// What the broker's answer to a registration means.
pub fn registration_outcome(reply: &SocketMessage) -> (r: Result<(), RegistrationError>)
    ensures
        reply.kind != MessageType::AddShareObjectResponse ==> r == Err::<(), RegistrationError>(
            RegistrationError::InvalidResponse,
        ),
        reply.kind == MessageType::AddShareObjectResponse ==> (r is Ok <==> reply.msg@
            != failed_bytes()),
        reply.kind == MessageType::AddShareObjectResponse && reply.msg@ == failed_bytes() ==> r
            == Err::<(), RegistrationError>(RegistrationError::RegistrationFailed),
{
    if reply.kind() != MessageType::AddShareObjectResponse {
        return Err(RegistrationError::InvalidResponse);
    }
    let failed = failed_body();
    if bytes_eq(reply.body(), failed.as_slice()) {
        Err(RegistrationError::RegistrationFailed)
    } else {
        Ok(())
    }
}

/// Whether `name` is among `names`.
pub fn contains_name(names: &Vec<String>, name: &String) -> (r: bool)
    ensures
        r == texts(names@).contains(name@),
{
    let mut i: usize = 0;
    while i < names.len()
        invariant
            i <= names@.len(),
            forall|j: int| 0 <= j < i ==> names@[j]@ != name@,
        decreases names@.len() - i,
    {
        if names[i] == *name {
            assert(texts(names@)[i as int] == name@);
            return true;
        }
        i = i + 1;
    }
    proof {
        if texts(names@).contains(name@) {
            let j = choose|j: int| 0 <= j < texts(names@).len() && texts(names@)[j] == name@;
            assert(names@[j]@ == name@);
        }
    }
    false
}

/// Decides what to do with a call that the broker forwarded: run the handler
/// of a hosted object, or answer "Object not found", or "serde parsing
/// error" where the body is not a call.
pub fn dispatch_call(hosted: &Vec<String>, msg: &SocketMessage) -> (r: CallDispatch)
    ensures
        match (
            json_string_member(msg.msg@, "object"@),
            json_string_member(msg.msg@, "method"@),
            json_member_of(msg.msg@, "param"@),
        ) {
            (Some(object), Some(method), Some(param)) => if texts(hosted@).contains(object) {
                r matches CallDispatch::Invoke { object: o, method: m, param: p } && o@ == object
                    && m@ == method && p@ == param
            } else {
                r matches CallDispatch::Reply(m) && m@ == answer(
                    msg@,
                    MessageType::RemoteCallResponse,
                    error_body(CommonErrors::ObjectNotFound),
                )
            },
            _ => r matches CallDispatch::Reply(m) && m@ == answer(
                msg@,
                MessageType::RemoteCallResponse,
                error_body(CommonErrors::SerdeParseError),
            ),
        },
{
    let object = string_member(msg.body(), "object");
    let method = string_member(msg.body(), "method");
    let param = json_member(msg.body(), "param");
    match (object, method, param) {
        (Some(object), Some(method), Some(param)) => {
            if contains_name(hosted, &object) {
                CallDispatch::Invoke { object, method, param }
            } else {
                let body = error_body_of(CommonErrors::ObjectNotFound);
                CallDispatch::Reply(
                    msg.duplicate().set_body(&body).set_kind(MessageType::RemoteCallResponse),
                )
            }
        },
        _ => {
            let body = error_body_of(CommonErrors::SerdeParseError);
            CallDispatch::Reply(
                msg.duplicate().set_body(&body).set_kind(MessageType::RemoteCallResponse),
            )
        },
    }
}

/// The response to a call whose handler returned `outcome`: the value's JSON
/// text, or `{"error":<value>}`, under the call's id.
pub fn call_reply(msg: &SocketMessage, outcome: Result<Vec<u8>, RemoteError>) -> (r: SocketMessage)
    ensures
        match outcome {
            Ok(v) => r@ == answer(msg@, MessageType::RemoteCallResponse, v@),
            Err(e) => r@ == answer(msg@, MessageType::RemoteCallResponse, error_envelope(e.error@)),
        },
{
    let body = match outcome {
        Ok(v) => v,
        Err(e) => e.as_bytes(),
    };
    msg.duplicate().set_body(&body).set_kind(MessageType::RemoteCallResponse)
}

/// The response to bytes that are not a frame.
pub fn unreadable_frame_reply() -> (r: SocketMessage)
    ensures
        r@ == (FrameView {
            id: 0,
            kind: MessageType::RemoteCallResponse,
            msg: error_body(CommonErrors::SerdeParseError),
        }),
{
    let body = error_body_of(CommonErrors::SerdeParseError);
    SocketMessage::new().set_body(&body).set_kind(MessageType::RemoteCallResponse)
}

} // verus!
