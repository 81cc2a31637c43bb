use std::collections::HashMap;

use json_elem::JsonElem;
use remote_call::connector::{call_request, call_result, event_request};
use remote_call::error::{CommonErrors, RemoteError};
use remote_call::event::{event_param, subscribe_request};
use remote_call::objects::ListObjects;
use remote_call::message::{result_to_socket_message, MessageType, SocketMessage};
use remote_call::server::{list_object_call, Broker, Delivery};
use remote_call::shared_object::{
    call_reply, dispatch_call, registration_outcome, registration_request, unreadable_frame_reply,
    CallDispatch, RegistrationError,
};
use remote_call::util::read_frames;
use remote_call::wait_for_object::ObjectWaiter;

const A: u64 = 1;
const B: u64 = 2;
const C: u64 = 3;
const S: u64 = 4;
const W: u64 = 5;

type Handler<'a> = dyn Fn(&str, &str, JsonElem) -> Result<JsonElem, JsonElem> + 'a;

/// Sends a frame across the wire: written as a line, read back.
fn wire(m: &SocketMessage) -> SocketMessage {
    let (frames, all) = read_frames(&m.as_line());
    assert!(all);
    assert_eq!(frames.len(), 1);
    frames.into_iter().next().unwrap()
}

fn send(b: &mut Broker, conn: u64, m: &SocketMessage) -> Vec<(u64, SocketMessage)> {
    b.process_message(conn, wire(m))
        .into_iter()
        .map(|d| (d.conn, wire(&d.frame)))
        .collect()
}

fn json(v: JsonElem) -> Vec<u8> {
    v.try_into().unwrap()
}

fn value(b: &[u8]) -> JsonElem {
    JsonElem::try_from(b).unwrap()
}

fn text(s: &str) -> JsonElem {
    JsonElem::String(s.to_string())
}

fn provider() -> JsonElem {
    let mut param = HashMap::new();
    param.insert("provider".to_string(), text("microsoft"));
    JsonElem::HashMap(param)
}

fn host(hosted: &[&str], frame: &SocketMessage, handler: &Handler<'_>) -> SocketMessage {
    let names: Vec<String> = hosted.iter().map(|s| s.to_string()).collect();
    match dispatch_call(&names, frame) {
        CallDispatch::Invoke { object, method, param } => {
            let outcome = match handler(&object, &method, value(&param)) {
                Ok(v) => Ok(json(v)),
                Err(e) => Err(RemoteError::new(json(e))),
            };
            call_reply(frame, outcome)
        }
        CallDispatch::Reply(m) => m,
    }
}

fn register(b: &mut Broker, conn: u64, name: &str) {
    let out = send(b, conn, &registration_request(name));
    assert_eq!(out.len(), 1);
    assert_eq!(out[0].0, conn);
    assert_eq!(out[0].1.kind(), MessageType::AddShareObjectResponse);
    assert_eq!(registration_outcome(&out[0].1), Ok(()));
}

fn outcome(reply: &SocketMessage) -> Result<JsonElem, JsonElem> {
    match call_result(reply) {
        Ok(v) => Ok(value(&v)),
        Err(e) => Err(value(&e.error)),
    }
}

#[allow(clippy::too_many_arguments)]
fn call(
    b: &mut Broker,
    caller: u64,
    owner: u64,
    hosted: &[&str],
    object: &str,
    method: &str,
    param: JsonElem,
    handler: &Handler<'_>,
) -> Result<JsonElem, JsonElem> {
    let out = send(b, caller, &call_request(object, method, &json(param)));
    assert_eq!(out.len(), 1);
    if out[0].0 == owner && out[0].1.kind() == MessageType::RemoteCallRequest {
        let reply = host(hosted, &out[0].1, handler);
        let back = send(b, owner, &reply);
        assert_eq!(back.len(), 1);
        assert_eq!(back[0].0, caller);
        assert_eq!(back[0].1.id(), out[0].1.id());
        outcome(&back[0].1)
    } else {
        assert_eq!(out[0].0, caller);
        outcome(&out[0].1)
    }
}

fn fruit(object: &str, _method: &str, _param: JsonElem) -> Result<JsonElem, JsonElem> {
    match object {
        "mango" => Ok(text("This is my response from mango")),
        "orange" => Ok(text("This is my response from Orange")),
        _ => Err(text("exception happend")),
    }
}

const FRUITS: [&str; 3] = ["mango", "orange", "apple"];

#[test]
fn test_server_shared_object_call_method() {
    let mut b = Broker::new();
    register(&mut b, A, "mango");
    register(&mut b, A, "orange");
    register(&mut b, A, "apple");

    let r2 = call(&mut b, B, A, &FRUITS, "mango", "login", provider(), &fruit);
    let r3 = call(&mut b, C, A, &FRUITS, "mango", "login", JsonElem::Null, &fruit);
    let r4 = call(&mut b, S, A, &FRUITS, "mango", "login", JsonElem::Null, &fruit);
    let r5 = call(&mut b, W, A, &FRUITS, "orange", "login", JsonElem::Null, &fruit);
    let r6 = call(&mut b, B, A, &FRUITS, "orange", "login", provider(), &fruit);
    let r7 = call(&mut b, C, A, &FRUITS, "apple", "login", provider(), &fruit);

    assert_eq!(r2, Ok(text("This is my response from mango")));
    assert_eq!(r3, Ok(text("This is my response from mango")));
    assert_eq!(r4, Ok(text("This is my response from mango")));
    assert_eq!(r5, Ok(text("This is my response from Orange")));
    assert_eq!(r6, Ok(text("This is my response from Orange")));
    assert_eq!(r7, Err(text("exception happend")));
}

#[test]
fn happy_call_returns_the_handler_value() {
    let mut b = Broker::new();
    register(&mut b, A, "mango");
    let seen = std::cell::RefCell::new(Vec::new());
    let handler = |object: &str, method: &str, param: JsonElem| {
        seen.borrow_mut().push((object.to_string(), method.to_string(), param));
        Ok(text("This is my response from mango"))
    };
    let r = call(&mut b, B, A, &["mango"], "mango", "login", provider(), &handler);
    assert_eq!(r, Ok(text("This is my response from mango")));
    assert_eq!(seen.borrow()[0], ("mango".to_string(), "login".to_string(), provider()));
}

#[test]
fn null_param_reaches_the_handler() {
    let mut b = Broker::new();
    register(&mut b, A, "mango");
    let seen = std::cell::RefCell::new(Vec::new());
    let handler = |_: &str, _: &str, param: JsonElem| {
        seen.borrow_mut().push(param);
        Ok(text("This is my response from mango"))
    };
    let r = call(&mut b, B, A, &["mango"], "mango", "login", JsonElem::Null, &handler);
    assert_eq!(r, Ok(text("This is my response from mango")));
    assert_eq!(seen.borrow()[0], JsonElem::Null);
}

#[test]
fn handler_error_reaches_the_caller() {
    let mut b = Broker::new();
    register(&mut b, A, "apple");
    let r = call(&mut b, B, A, &["apple"], "apple", "login", provider(), &fruit);
    assert_eq!(r, Err(text("exception happend")));
}

#[test]
fn test_no_shared_object_call_method() {
    let mut b = Broker::new();
    let out = send(&mut b, B, &call_request("no object", "login", &json(JsonElem::Null)));
    assert_eq!(out.len(), 1);
    assert_eq!(out[0].0, B);
    assert_eq!(out[0].1.kind(), MessageType::RemoteCallResponse);
    assert_eq!(out[0].1.body(), br#"{"error":"Object not found"}"#);
    let err = call_result(&out[0].1).unwrap_err();
    assert_eq!(value(&err.error), text(CommonErrors::ObjectNotFound.as_str()));
    assert_eq!(value(&err.error), text("Object not found"));
}

#[test]
fn test_event() {
    let mut b = Broker::new();
    assert!(send(&mut b, S, &subscribe_request("event")).is_empty());
    let param = json(text("Sending you this event!!"));
    let out = send(&mut b, C, &event_request("event", &param));
    assert_eq!(out.len(), 1);
    assert_eq!(out[0].0, S);
    let got = event_param(&out[0].1).unwrap();
    assert_eq!(value(&got), text("Sending you this event!!"));
}

#[test]
fn event_goes_to_each_subscriber_once() {
    let mut b = Broker::new();
    send(&mut b, S, &subscribe_request("event"));
    send(&mut b, S, &subscribe_request("event"));
    send(&mut b, W, &subscribe_request("event"));
    send(&mut b, A, &subscribe_request("other"));
    let out = send(&mut b, C, &event_request("event", b"1"));
    let mut to: Vec<u64> = out.iter().map(|d| d.0).collect();
    to.sort();
    assert_eq!(to, vec![S, W]);
    assert!(send(&mut b, C, &event_request("nobody", b"1")).is_empty());
}

#[test]
fn wait_for_object_returns_once_registered() {
    let mut b = Broker::new();
    let mut waiter = ObjectWaiter::new(vec!["mango".to_string()]);
    for _ in 0..3 {
        let q = waiter.request().unwrap();
        let out = send(&mut b, W, &q);
        assert_eq!(out.len(), 1);
        assert_eq!(out[0].1.kind(), MessageType::WaitForObject);
        assert_eq!(out[0].1.body(), b"failed");
        waiter.on_reply(&out[0].1);
        assert!(!waiter.is_done());
    }
    register(&mut b, A, "mango");
    let out = send(&mut b, W, &waiter.request().unwrap());
    assert_eq!(out[0].1.body(), b"success");
    waiter.on_reply(&out[0].1);
    assert!(waiter.is_done());
    assert!(waiter.request().is_none());
}

#[test]
fn waiter_goes_through_names_in_order() {
    let mut b = Broker::new();
    register(&mut b, A, "b");
    let mut waiter = ObjectWaiter::new(vec!["a".to_string(), "b".to_string()]);
    let q = waiter.request().unwrap();
    assert_eq!(q.body(), b"a");
    let out = send(&mut b, W, &q);
    waiter.on_reply(&out[0].1);
    assert_eq!(waiter.request().unwrap().body(), b"a");
    register(&mut b, A, "a");
    let out = send(&mut b, W, &waiter.request().unwrap());
    waiter.on_reply(&out[0].1);
    assert_eq!(waiter.request().unwrap().body(), b"b");
    let out = send(&mut b, W, &waiter.request().unwrap());
    waiter.on_reply(&out[0].1);
    assert!(waiter.is_done());
    assert!(ObjectWaiter::new(Vec::new()).is_done());
}

#[test]
fn responses_reach_their_own_callers() {
    let mut b = Broker::new();
    register(&mut b, A, "mango");
    let p = json(JsonElem::Null);
    let fwd_b = send(&mut b, B, &call_request("mango", "login", &p));
    let fwd_c = send(&mut b, C, &call_request("mango", "login", &p));
    assert_eq!(fwd_b[0].0, A);
    assert_eq!(fwd_c[0].0, A);
    let (id_b, id_c) = (fwd_b[0].1.id(), fwd_c[0].1.id());
    assert_ne!(id_b, id_c);
    // The owner answers in the other order.
    let reply_c = call_reply(&fwd_c[0].1, Ok(json(text("for c"))));
    let reply_b = call_reply(&fwd_b[0].1, Ok(json(text("for b"))));
    let back_c = send(&mut b, A, &reply_c);
    let back_b = send(&mut b, A, &reply_b);
    assert_eq!(back_c.len(), 1);
    assert_eq!((back_c[0].0, back_c[0].1.id()), (C, id_c));
    assert_eq!(outcome(&back_c[0].1), Ok(text("for c")));
    assert_eq!((back_b[0].0, back_b[0].1.id()), (B, id_b));
    assert_eq!(outcome(&back_b[0].1), Ok(text("for b")));
}

#[test]
fn each_request_gets_exactly_one_response() {
    let mut b = Broker::new();
    register(&mut b, A, "mango");
    let fwd = send(&mut b, B, &call_request("mango", "m", b"null"));
    let reply = call_reply(&fwd[0].1, Ok(b"1".to_vec()));
    // A response from a connection that is not the owner is dropped.
    assert!(send(&mut b, C, &reply).is_empty());
    assert_eq!(send(&mut b, A, &reply).len(), 1);
    assert!(send(&mut b, A, &reply).is_empty());
}

#[test]
fn ids_increase() {
    let mut b = Broker::new();
    let first = send(&mut b, A, &registration_request("x"));
    let second = send(&mut b, A, &registration_request("y"));
    assert_eq!(first[0].1.id(), 1);
    assert_eq!(second[0].1.id(), 2);
}

#[test]
fn closed_connection_leaves_no_trace() {
    let mut b = Broker::new();
    register(&mut b, A, "mango");
    send(&mut b, A, &subscribe_request("event"));
    let pending = send(&mut b, B, &call_request("mango", "m", b"null"));
    b.connection_closed(A);
    let out = send(&mut b, C, &call_request("mango", "m", b"null"));
    assert_eq!(out.len(), 1);
    assert_eq!(out[0].0, C);
    assert_eq!(out[0].1.body(), br#"{"error":"Object not found"}"#);
    assert!(send(&mut b, C, &event_request("event", b"1")).is_empty());
    // The call that A never answered is gone too.
    let late = call_reply(&pending[0].1, Ok(b"1".to_vec()));
    assert!(send(&mut b, A, &late).is_empty());
    let w = send(&mut b, W, &ObjectWaiter::new(vec!["mango".to_string()]).request().unwrap());
    assert_eq!(w[0].1.body(), b"failed");
}

#[test]
fn closed_caller_gets_nothing() {
    let mut b = Broker::new();
    register(&mut b, A, "mango");
    let pending = send(&mut b, B, &call_request("mango", "m", b"null"));
    b.connection_closed(B);
    let reply = call_reply(&pending[0].1, Ok(b"1".to_vec()));
    assert!(send(&mut b, A, &reply).is_empty());
}

#[test]
fn failed_forward_answers_the_caller_and_evicts_the_owner() {
    let mut b = Broker::new();
    register(&mut b, A, "mango");
    let out = b.process_message(B, call_request("mango", "m", b"null"));
    assert_eq!(out.len(), 1);
    let lost: &Delivery = &out[0];
    let answer = b.delivery_failed(lost);
    assert_eq!(answer.len(), 1);
    assert_eq!(answer[0].conn, B);
    assert_eq!(answer[0].frame.id(), lost.frame.id());
    assert_eq!(answer[0].frame.body(), br#"{"error":"remote connection error"}"#);
    assert!(b.delivery_failed(lost).is_empty());
    let again = send(&mut b, B, &call_request("mango", "m", b"null"));
    assert_eq!(again[0].1.body(), br#"{"error":"Object not found"}"#);
}

#[test]
fn unparsable_call_is_answered_with_a_parse_error() {
    let mut b = Broker::new();
    let bad = SocketMessage::new().set_kind(MessageType::RemoteCallRequest).set_body(b"not json");
    let out = send(&mut b, B, &bad);
    assert_eq!(out[0].0, B);
    assert_eq!(out[0].1.kind(), MessageType::RemoteCallResponse);
    assert_eq!(out[0].1.body(), br#"{"error":"serde parsing error"}"#);
}

#[test]
fn registration_refusals() {
    let mut b = Broker::new();
    let bad = SocketMessage::new().set_kind(MessageType::AddShareObjectRequest).set_body(&[0xff, 0xfe]);
    let out = send(&mut b, A, &bad);
    assert_eq!(out[0].1.body(), b"failed");
    assert_eq!(registration_outcome(&out[0].1), Err(RegistrationError::RegistrationFailed));
    let other = SocketMessage::new().set_kind(MessageType::WaitForObject).set_body(b"success");
    assert_eq!(registration_outcome(&other), Err(RegistrationError::InvalidResponse));
    let wait_bad = SocketMessage::new().set_kind(MessageType::WaitForObject).set_body(&[0xff]);
    assert_eq!(send(&mut b, W, &wait_bad)[0].1.body(), b"failed");
}

#[test]
fn other_kinds_are_dropped() {
    let mut b = Broker::new();
    for kind in [
        MessageType::AddShareObjectResponse,
        MessageType::SendEventResponse,
        MessageType::SubscribeEventResponse,
        MessageType::RemoveShareObjectRequest,
        MessageType::RemoveShareObjectResponse,
    ] {
        assert!(send(&mut b, A, &SocketMessage::new().set_kind(kind)).is_empty());
    }
}

#[test]
fn registration_overwrites_the_owner() {
    let mut b = Broker::new();
    register(&mut b, A, "mango");
    register(&mut b, C, "mango");
    let out = send(&mut b, B, &call_request("mango", "m", b"null"));
    assert_eq!(out[0].0, C);
}

#[test]
fn listing_of_objects() {
    let mut b = Broker::new();
    register(&mut b, A, "mango");
    register(&mut b, A, "apple");
    register(&mut b, C, "mango");
    let listing = b.list_objects();
    assert_eq!(listing.body(), br#"{"objects":["mango","apple"]}"#);
    assert_eq!(list_object_call("listObjects", listing.body()).unwrap(), listing.body().to_vec());
    let err = list_object_call("other", listing.body()).unwrap_err();
    assert_eq!(value(&err.error), text("other method not found."));
    assert_eq!(Broker::new().list_objects().body(), br#"{"objects":[]}"#);
}

#[test]
fn host_answers_for_objects_it_does_not_hold() {
    let call = call_request("pear", "m", b"null").set_id(9);
    let reply = host(&["mango"], &call, &fruit);
    assert_eq!(reply.id(), 9);
    assert_eq!(reply.kind(), MessageType::RemoteCallResponse);
    assert_eq!(reply.body(), br#"{"error":"Object not found"}"#);
    let no_param = SocketMessage::new()
        .set_kind(MessageType::RemoteCallRequest)
        .set_body(br#"{"object":"mango","method":"m"}"#)
        .set_id(4);
    let reply = host(&["mango"], &no_param, &fruit);
    assert_eq!(reply.id(), 4);
    assert_eq!(reply.body(), br#"{"error":"serde parsing error"}"#);
    let unreadable = unreadable_frame_reply();
    assert_eq!(unreadable.kind(), MessageType::RemoteCallResponse);
    assert_eq!(unreadable.body(), br#"{"error":"serde parsing error"}"#);
}

#[test]
fn reply_of_the_wrong_kind_is_invalid_data() {
    let reply = SocketMessage::new().set_kind(MessageType::WaitForObject).set_body(b"1");
    let err = call_result(&reply).unwrap_err();
    assert_eq!(value(&err.error), text("invalid response data"));
    let ok = SocketMessage::new().set_kind(MessageType::RemoteCallResponse).set_body(b"[1,2]");
    assert_eq!(call_result(&ok).unwrap(), b"[1,2]".to_vec());
}

#[test]
fn error_texts() {
    assert_eq!(CommonErrors::NoError.as_str(), "OK");
    assert_eq!(CommonErrors::ObjectNotFound.as_str(), "Object not found");
    assert_eq!(CommonErrors::ClientConnectionError.as_str(), "client connection error");
    assert_eq!(CommonErrors::ServerConnectionError.as_str(), "server connection error");
    assert_eq!(CommonErrors::SerdeParseError.as_str(), "serde parsing error");
    assert_eq!(CommonErrors::RemoteConnectionError.as_str(), "remote connection error");
    assert_eq!(CommonErrors::InvalidResponseData.as_str(), "invalid response data");
    assert_eq!(RemoteError::new(b"\"x\"".to_vec()).as_bytes(), br#"{"error":"x"}"#.to_vec());
}

#[test]
fn registry_answer_or_error_text() {
    let m = SocketMessage::new().set_id(3).set_kind(MessageType::WaitForObject).set_body(b"success");
    let r = result_to_socket_message(Ok(Some(m)), MessageType::WaitForObject);
    assert_eq!((r.id(), r.body()), (3, &b"success"[..]));
    let r = result_to_socket_message(
        Err("Problem in sending a Request to the Actor".to_string()),
        MessageType::AddShareObjectResponse,
    );
    assert_eq!(r.kind(), MessageType::AddShareObjectResponse);
    assert_eq!(r.body(), b"Problem in sending a Request to the Actor");
}

#[test]
fn body_that_is_not_a_call_is_not_forwarded() {
    let mut b = Broker::new();
    register(&mut b, A, "mango");
    for body in [
        &br#"{"object":"mango","param":null}"#[..],
        br#"{"object":"mango","method":"login"}"#,
        br#"{"object":"mango","method":7,"param":null}"#,
    ] {
        let m = SocketMessage::new().set_kind(MessageType::RemoteCallRequest).set_body(body);
        let out = send(&mut b, B, &m);
        assert_eq!(out.len(), 1);
        assert_eq!(out[0].0, B);
        assert_eq!(out[0].1.kind(), MessageType::RemoteCallResponse);
        assert_eq!(out[0].1.body(), br#"{"error":"serde parsing error"}"#);
    }
}

#[test]
fn body_that_is_not_an_event_is_not_broadcast() {
    let mut b = Broker::new();
    send(&mut b, S, &subscribe_request("event"));
    let m = SocketMessage::new()
        .set_kind(MessageType::SendEventRequest)
        .set_body(br#"{"event":"event"}"#);
    assert!(send(&mut b, C, &m).is_empty());
    assert_eq!(send(&mut b, C, &event_request("event", b"null")).len(), 1);
    let registry = ListObjects::new();
    let (to, answer) = registry.send_event(&m.set_id(6));
    assert!(to.is_empty());
    assert_eq!((answer.id(), answer.kind()), (6, MessageType::SendEventResponse));
    assert_eq!(answer.body(), b"failed");
}

#[test]
fn escaped_text_in_error_values() {
    let err = list_object_call("a\"b\n", b"{}").unwrap_err();
    assert_eq!(err.error, br#""a\"b\n method not found.""#.to_vec());
    assert_eq!(value(&err.error), text("a\"b\n method not found."));
}
