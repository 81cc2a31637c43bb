use json_elem::JsonElem;
use remote_call::connector::{CallMethod, Event};
use remote_call::message::{FrameError, MessageType, SocketMessage};
use remote_call::util::{read_frames, separate};

fn frame(id: u64, kind: MessageType, body: &[u8]) -> SocketMessage {
    SocketMessage::new().set_body(body).set_id(id).set_kind(kind)
}

fn same(a: &SocketMessage, b: &SocketMessage) -> bool {
    a.id() == b.id() && a.kind() == b.kind() && a.body() == b.body()
}

#[test]
fn test_separate() {
    let json_str = r#"{"id":5,"kind":3,"msg":[34,84,104,105,115,32,105,115,32,109,121,32,114,101,115,112,111,110,115,101,32,102,114,111,109,32,109,97,110,103,111,34]}{"id":6,"kind":3,"msg":[34,84,104,105,115,32,105,115,32,109,121,32,114,101,115,112,111,110,115,101,32,102,114,111,109,32,109,97,110,103,111,34]}{"id":8,"kind":3,"msg":[34,84,104,105,115,32,105,115,32,109,121,32,114,101,115,112,111,110,115,101,32,102,114,111,109,32,109,97,110,103,111,34]}"#.as_bytes();
    let ret = separate(json_str).unwrap();

    assert_eq!(ret.len(), 3);
    for data in ret {
        let _msg = SocketMessage::from_bytes(data.as_slice()).unwrap();
    }

    let json_str = r#"{"id":5,"kind":3,"msg":[34,84,104,105,115,32,105,115,32,109,121,32,114,101,115,112,111,110,115,101,32,102,114,111,109,32,109,97,110,103,111,34]}"#.as_bytes();
    let ret = separate(json_str).unwrap();

    assert_eq!(ret.len(), 1);
    for data in ret {
        let _msg = SocketMessage::from_bytes(data.as_slice()).unwrap();
    }

    let json_str = r#"{"id":5,"kind":3,"msg":[34,84,104,105,115,32,105,115,32,109,121,32,114,101,115,112,111,110,115,101,32,102,114,111,109,32,109,97,110,103,111,34]}{"id":8,"kind":3,"msg":[34,84,104,105,115,32,105,115,32,109,121,32,114,101,115,112,111,110,115,101,32,102,114,111,109,32,109,97,110,103,111,34]}"#.as_bytes();
    let ret = separate(json_str).unwrap();

    assert_eq!(ret.len(), 2);
    for data in ret {
        let _msg = SocketMessage::from_bytes(data.as_slice()).unwrap();
    }
}

#[test]
fn test_call_method() {
    let param: Vec<u8> = JsonElem::String("test param".to_string()).try_into().unwrap();
    let call = CallMethod {
        object: "my_object".to_string(),
        method: "my_function".to_string(),
        param,
    };

    assert_eq!(
        call.as_bytes(),
        &[
            123, 34, 111, 98, 106, 101, 99, 116, 34, 58, 34, 109, 121, 95, 111, 98, 106, 101,
            99, 116, 34, 44, 34, 109, 101, 116, 104, 111, 100, 34, 58, 34, 109, 121, 95, 102,
            117, 110, 99, 116, 105, 111, 110, 34, 44, 34, 112, 97, 114, 97, 109, 34, 58, 34,
            116, 101, 115, 116, 32, 112, 97, 114, 97, 109, 34, 125
        ]
    );
}

#[test]
fn frame_serialize_share_object() {
    let message = frame(0, MessageType::AddShareObjectRequest, "my_object".as_bytes());
    assert_eq!(
        message.as_bytes().as_slice(),
        r#"{"id":0,"kind":0,"msg":[109,121,95,111,98,106,101,99,116]}"#.as_bytes()
    );
}

#[test]
fn frame_serialize_remote_call() {
    let param: Vec<u8> = JsonElem::String("test param".to_string()).try_into().unwrap();
    let body = CallMethod {
        object: "my_object".to_string(),
        method: "my_function".to_string(),
        param,
    }
    .as_bytes();
    let message = frame(0, MessageType::RemoteCallRequest, &body);
    assert_eq!(
        message.as_bytes().as_slice(),
        r#"{"id":0,"kind":2,"msg":[123,34,111,98,106,101,99,116,34,58,34,109,121,95,111,98,106,101,99,116,34,44,34,109,101,116,104,111,100,34,58,34,109,121,95,102,117,110,99,116,105,111,110,34,44,34,112,97,114,97,109,34,58,34,116,101,115,116,32,112,97,114,97,109,34,125]}"#.as_bytes()
    );
}

#[test]
fn frame_serialize_send_event() {
    let message = frame(0, MessageType::SendEventRequest, "hello world".as_bytes());
    assert_eq!(
        message.as_bytes().as_slice(),
        r#"{"id":0,"kind":4,"msg":[104,101,108,108,111,32,119,111,114,108,100]}"#.as_bytes()
    );
}

#[test]
fn frame_deserialize_cases() {
    let hello = [104, 101, 108, 108, 111, 32, 119, 111, 114, 108, 100];
    let cases = [
        (
            r#"{"id":0,"kind":0,"msg":[104,101,108,108,111,32,119,111,114,108,100]}"#,
            MessageType::AddShareObjectRequest,
        ),
        (
            r#"{"id":0,"kind":2,"msg":[104,101,108,108,111,32,119,111,114,108,100]}"#,
            MessageType::RemoteCallRequest,
        ),
        (
            r#"{"id":0,"kind":4,"msg":[104,101,108,108,111,32,119,111,114,108,100]}"#,
            MessageType::SendEventRequest,
        ),
    ];
    for (text, kind) in cases {
        let msg = SocketMessage::from_bytes(text.as_bytes()).unwrap();
        assert!(same(&msg, &frame(0, kind, &hello)));
    }
}

#[test]
fn frame_is_json_that_serde_reads() {
    let message = frame(123456789, MessageType::WaitForObject, &[0, 9, 10, 99, 100, 255]);
    let v: serde_json::Value = serde_json::from_slice(&message.as_bytes()).unwrap();
    assert_eq!(v.get("id").and_then(|x| x.as_u64()), Some(123456789));
    assert_eq!(v.get("kind").and_then(|x| x.as_u64()), Some(10));
    let msg: Vec<u8> = serde_json::from_value(v.get("msg").unwrap().clone()).unwrap();
    assert_eq!(msg, vec![0, 9, 10, 99, 100, 255]);
}

#[test]
fn frame_round_trip() {
    let kinds = [
        MessageType::AddShareObjectRequest,
        MessageType::AddShareObjectResponse,
        MessageType::RemoteCallRequest,
        MessageType::RemoteCallResponse,
        MessageType::SendEventRequest,
        MessageType::SendEventResponse,
        MessageType::SubscribeEventRequest,
        MessageType::SubscribeEventResponse,
        MessageType::RemoveShareObjectRequest,
        MessageType::RemoveShareObjectResponse,
        MessageType::WaitForObject,
    ];
    for (n, kind) in kinds.iter().enumerate() {
        for id in [0u64, 1, 9, 10, 1986, u64::MAX] {
            for body in [vec![], vec![0u8], vec![255u8, 0, 10], (0..=255u8).collect::<Vec<u8>>()] {
                let f = frame(id, *kind, &body);
                let back = SocketMessage::from_bytes(&f.as_bytes()).unwrap();
                assert!(same(&f, &back));
                assert_eq!(kind.code(), n as u64);
                assert_eq!(MessageType::from_code(n as u64), Some(*kind));
            }
        }
    }
}

#[test]
fn frame_unknown_kind() {
    let r = SocketMessage::from_bytes(br#"{"id":3,"kind":11,"msg":[]}"#);
    assert!(matches!(r, Err(FrameError::UnknownKind(11))));
    assert_eq!(MessageType::from_code(11), None);
}

#[test]
fn frame_malformed() {
    for text in [
        &br#"{"id":3,"kind":1,"msg":[]"#[..],
        br#"{"id":03,"kind":1,"msg":[]}"#,
        br#"{"id":3,"kind":1,"msg":[256]}"#,
        br#"{"id":18446744073709551616,"kind":1,"msg":[]}"#,
        br#"{"id":3,"kind":1,"msg":[1,]}"#,
        br#"{"kind":1,"id":3,"msg":[]}"#,
        b"",
        b"hello",
    ] {
        assert!(matches!(SocketMessage::from_bytes(text), Err(FrameError::Malformed)));
    }
}

#[test]
fn frame_line_ends_with_newline() {
    let f = frame(7, MessageType::SendEventResponse, b"ok");
    let mut expected = f.as_bytes();
    expected.push(b'\n');
    assert_eq!(f.as_line(), expected);
}

#[test]
fn separate_concatenation_gives_back_the_objects() {
    let objects: Vec<Vec<u8>> = vec![
        frame(1, MessageType::RemoteCallResponse, b"x").as_bytes(),
        br#"{"a":"}{","b":{"c":[1,{}]},"d":"\"}"}"#.to_vec(),
        br#"{}"#.to_vec(),
        frame(2, MessageType::WaitForObject, b"").as_bytes(),
    ];
    let joined: Vec<u8> = objects.concat();
    assert_eq!(separate(&joined).unwrap(), objects);

    let mut lines = Vec::new();
    for o in &objects {
        lines.extend_from_slice(o);
        lines.push(b'\n');
    }
    assert_eq!(separate(&lines).unwrap(), objects);
    assert_eq!(separate(b"").unwrap(), Vec::<Vec<u8>>::new());
    assert_eq!(separate(b" \n\t\r").unwrap(), Vec::<Vec<u8>>::new());
}

#[test]
fn separate_refuses_partial_and_stray_bytes() {
    assert_eq!(separate(br#"{"id":1}{"id":"#), None);
    assert_eq!(separate(br#"{"id":1}x{"id":2}"#), None);
    assert_eq!(separate(br#"{"s":"}"#), None);
}

#[test]
fn read_frames_skips_only_what_is_not_a_frame() {
    let a = frame(1, MessageType::RemoteCallResponse, b"a");
    let b = frame(2, MessageType::RemoteCallResponse, b"b");
    let mut data = a.as_line();
    data.extend_from_slice(&b.as_line());
    let (frames, all) = read_frames(&data);
    assert!(all);
    assert_eq!(frames.len(), 2);
    assert!(same(&frames[0], &a) && same(&frames[1], &b));

    let mut data = a.as_bytes();
    data.extend_from_slice(br#"{"id":2}"#);
    data.extend_from_slice(br#"{"id":3,"kind":11,"msg":[]}"#);
    data.extend_from_slice(&b.as_bytes());
    let (frames, all) = read_frames(&data);
    assert!(!all);
    assert_eq!(frames.len(), 2);
    assert!(same(&frames[0], &a) && same(&frames[1], &b));

    let mut data = br#"{"not":"a frame"}"#.to_vec();
    data.extend_from_slice(&b.as_line());
    let (frames, all) = read_frames(&data);
    assert!(!all);
    assert_eq!(frames.len(), 1);
    assert!(same(&frames[0], &b));

    let (frames, all) = read_frames(br#"{"id":2"#);
    assert!(!all && frames.is_empty());
}

#[test]
fn event_body_matches_serde_layout() {
    let param: Vec<u8> = JsonElem::String("Sending you this event!!".to_string()).try_into().unwrap();
    let ev = Event { event: "event".to_string(), param };
    assert_eq!(ev.as_bytes(), br#"{"event":"event","param":"Sending you this event!!"}"#.to_vec());
}
