//! The broker's registry: which connection owns each shared object, and which
//! connections subscribe to each event.
use vstd::prelude::*;
use vstd::utf8::{decode_utf8, valid_utf8};

use crate::error::CommonErrors;
use crate::json::{
    json_member, json_member_of, json_string, json_string_member, json_string_of, string_member,
    utf8_text,
};
use crate::message::{
    error_body, error_body_of, failed_body, failed_bytes, push_all, success_body, success_bytes,
    FrameView, MessageType, SocketMessage,
};
use crate::tables::{without_member, without_value, NameTable, PairSet};

verus! {

/// What the registry does with a call request.
pub enum CallRoute {
    /// Write the request, as it is, to the owner's connection.
    Forward(u64, SocketMessage),
    /// Answer the caller with this response instead.
    Reply(SocketMessage),
}

/// The owner of each object name and the subscribers of each event.
pub struct ListObjects {
    objects: NameTable,
    events: PairSet,
}

/// The object name that a call body names: the body must be a call, with
/// a string `object`, a string `method` and a `param`.
pub open spec fn call_target(body: Seq<u8>) -> Option<Seq<char>> {
    if json_string_member(body, "method"@) is Some && json_member_of(body, "param"@) is Some {
        json_string_member(body, "object"@)
    } else {
        None
    }
}

/// The event name that an event body names: the body must be an event, with
/// a string `event` and a `param`.
pub open spec fn event_target(body: Seq<u8>) -> Option<Seq<char>> {
    if json_member_of(body, "param"@) is Some {
        json_string_member(body, "event"@)
    } else {
        None
    }
}

/// Reads the object name of a call body (see `call_target`).
fn read_call_target(body: &[u8]) -> (r: Option<String>)
    ensures
        match r {
            Some(s) => call_target(body@) == Some(s@),
            None => call_target(body@) is None,
        },
{
    let method = string_member(body, "method");
    let param = json_member(body, "param");
    if method.is_none() || param.is_none() {
        return None;
    }
    string_member(body, "object")
}

/// Reads the event name of an event body (see `event_target`).
fn read_event_target(body: &[u8]) -> (r: Option<String>)
    ensures
        match r {
            Some(s) => event_target(body@) == Some(s@),
            None => event_target(body@) is None,
        },
{
    if json_member(body, "param").is_none() {
        return None;
    }
    string_member(body, "event")
}

/// The name that a registration, subscription or wait body holds: its bytes
/// as UTF-8 text.
pub open spec fn name_in(body: Seq<u8>) -> Option<Seq<char>> {
    if valid_utf8(body) {
        Some(decode_utf8(body))
    } else {
        None
    }
}

/// The names, each as JSON text, separated by commas.
pub open spec fn json_names(names: Seq<Seq<char>>) -> Seq<u8>
    decreases names.len(),
{
    if names.len() == 0 {
        Seq::empty()
    } else if names.len() == 1 {
        json_string_of(names[0])
    } else {
        json_names(names.drop_last()) + seq![44u8] + json_string_of(names.last())
    }
}

/// `{"objects":[<names>]}`.
pub open spec fn objects_listing(names: Seq<Seq<char>>) -> Seq<u8> {
    seq![123u8, 34, 111, 98, 106, 101, 99, 116, 115, 34, 58, 91] + json_names(names) + seq![
        93u8,
        125,
    ]
}

/// The frame `msg` with its kind and body replaced.
pub open spec fn answer(msg: FrameView, kind: MessageType, body: Seq<u8>) -> FrameView {
    FrameView { id: msg.id, kind, msg: body }
}

impl ListObjects {
    /// Which connection owns each object name.
    pub closed spec fn owners(&self) -> Map<Seq<char>, u64> {
        self.objects@
    }

    /// The (event name, connection) subscriptions.
    pub closed spec fn subscriptions(&self) -> Set<(Seq<char>, u64)> {
        self.events@
    }

    /// The object names, in the order in which they were first registered.
    pub closed spec fn object_names(&self) -> Seq<Seq<char>> {
        self.objects.names()
    }

    pub closed spec fn wf(&self) -> bool {
        self.objects.wf() && self.events.wf()
    }

    pub proof fn lemma_object_names(&self)
        requires
            self.wf(),
        ensures
            self.object_names().no_duplicates(),
            forall|k: Seq<char>|
                self.owners().contains_key(k) <==> #[trigger] self.object_names().contains(k),
    {
        self.objects.lemma_names();
    }

    pub fn new() -> (r: ListObjects)
        ensures
            r.wf(),
            r.owners() == Map::<Seq<char>, u64>::empty(),
            r.subscriptions() == Set::<(Seq<char>, u64)>::empty(),
    {
        ListObjects { objects: NameTable::new(), events: PairSet::new() }
    }

    /// Registers the object named by the body of `msg` as owned by `conn`,
    /// replacing an earlier owner; a body that is not UTF-8 text is refused.
    pub fn add(&mut self, msg: SocketMessage, conn: u64) -> (r: SocketMessage)
        requires
            old(self).wf(),
        ensures
            final(self).wf(),
            final(self).subscriptions() == old(self).subscriptions(),
            match name_in(msg.msg@) {
                Some(name) => {
                    &&& final(self).owners() == old(self).owners().insert(name, conn)
                    &&& r@ == answer(msg@, MessageType::AddShareObjectResponse, success_bytes())
                },
                None => {
                    &&& final(self).owners() == old(self).owners()
                    &&& r@ == answer(msg@, MessageType::AddShareObjectResponse, failed_bytes())
                },
            },
    {
        match utf8_text(msg.body()) {
            Some(object) => {
                self.objects.insert(object, conn);
                let body = success_body();
                msg.set_body(&body).set_kind(MessageType::AddShareObjectResponse)
            },
            None => {
                let body = failed_body();
                msg.set_body(&body).set_kind(MessageType::AddShareObjectResponse)
            },
        }
    }

    /// Drops every object and subscription of `conn`.
    pub fn remove(&mut self, conn: u64) -> (r: SocketMessage)
        requires
            old(self).wf(),
        ensures
            final(self).wf(),
            final(self).owners() == without_value(old(self).owners(), conn),
            final(self).subscriptions() == without_member(old(self).subscriptions(), conn),
            r@ == (FrameView {
                id: 0,
                kind: MessageType::RemoveShareObjectResponse,
                msg: Seq::empty(),
            }),
    {
        self.objects.remove_value(conn);
        self.events.remove_conn(conn);
        SocketMessage::new().set_kind(MessageType::RemoveShareObjectResponse)
    }

    /// Decides where a call request goes: to the connection that owns the
    /// object it names, or back to the caller as "Object not found", or as
    /// "serde parsing error" where the body is not a call (a string `object`,
    /// a string `method` and a `param`).
    pub fn call_method(&self, msg: SocketMessage) -> (r: CallRoute)
        requires
            self.wf(),
        ensures
            match call_target(msg.msg@) {
                None => r matches CallRoute::Reply(m) && m@ == answer(
                    msg@,
                    MessageType::RemoteCallResponse,
                    error_body(CommonErrors::SerdeParseError),
                ),
                Some(name) => if self.owners().contains_key(name) {
                    r matches CallRoute::Forward(owner, m) && owner == self.owners()[name] && m@
                        == msg@
                } else {
                    r matches CallRoute::Reply(m) && m@ == answer(
                        msg@,
                        MessageType::RemoteCallResponse,
                        error_body(CommonErrors::ObjectNotFound),
                    )
                },
            },
    {
        match read_call_target(msg.body()) {
            Some(object) => match self.objects.get(&object) {
                Some(owner) => CallRoute::Forward(owner, msg),
                None => {
                    let body = error_body_of(CommonErrors::ObjectNotFound);
                    CallRoute::Reply(
                        msg.set_body(&body).set_kind(MessageType::RemoteCallResponse),
                    )
                },
            },
            None => {
                let body = error_body_of(CommonErrors::SerdeParseError);
                CallRoute::Reply(msg.set_body(&body).set_kind(MessageType::RemoteCallResponse))
            },
        }
    }

    /// A forwarded call could not be written to `owner`: the owner is taken
    /// as gone, and the caller is answered "remote connection error".
    pub fn forward_failed(&mut self, owner: u64, msg: SocketMessage) -> (r: SocketMessage)
        requires
            old(self).wf(),
        ensures
            final(self).wf(),
            final(self).owners() == without_value(old(self).owners(), owner),
            final(self).subscriptions() == without_member(old(self).subscriptions(), owner),
            r@ == answer(
                msg@,
                MessageType::RemoteCallResponse,
                error_body(CommonErrors::RemoteConnectionError),
            ),
    {
        let _ = self.remove(owner);
        let body = error_body_of(CommonErrors::RemoteConnectionError);
        msg.set_body(&body).set_kind(MessageType::RemoteCallResponse)
    }

    /// Answers whether the object named by the body of `msg` is registered.
    pub fn wait_for_object(&self, msg: SocketMessage) -> (r: SocketMessage)
        requires
            self.wf(),
        ensures
            r@ == answer(
                msg@,
                MessageType::WaitForObject,
                if name_in(msg.msg@) matches Some(name) && self.owners().contains_key(name) {
                    success_bytes()
                } else {
                    failed_bytes()
                },
            ),
    {
        let found = match utf8_text(msg.body()) {
            Some(object) => self.objects.get(&object).is_some(),
            None => false,
        };
        let body = if found {
            success_body()
        } else {
            failed_body()
        };
        msg.set_body(&body).set_kind(MessageType::WaitForObject)
    }

    /// Subscribes `conn` to the event named by the body of `msg`; a body that
    /// is not UTF-8 text is refused.
    pub fn subscribe_event(&mut self, msg: SocketMessage, conn: u64) -> (r: SocketMessage)
        requires
            old(self).wf(),
        ensures
            final(self).wf(),
            final(self).owners() == old(self).owners(),
            match name_in(msg.msg@) {
                Some(name) => {
                    &&& final(self).subscriptions() == old(self).subscriptions().insert(
                        (name, conn),
                    )
                    &&& r@ == answer(msg@, MessageType::SubscribeEventResponse, success_bytes())
                },
                None => {
                    &&& final(self).subscriptions() == old(self).subscriptions()
                    &&& r@ == answer(msg@, MessageType::SubscribeEventResponse, failed_bytes())
                },
            },
    {
        match utf8_text(msg.body()) {
            Some(event) => {
                self.events.insert(event, conn);
                let body = success_body();
                msg.set_body(&body).set_kind(MessageType::SubscribeEventResponse)
            },
            None => {
                let body = failed_body();
                msg.set_body(&body).set_kind(MessageType::SubscribeEventResponse)
            },
        }
    }

    /// The subscribers that an event frame goes to, each once, with the
    /// response to the sender; a body that is not an event (a string `event`
    /// and a `param`) goes nowhere and is answered `failed`.
    pub fn send_event(&self, msg: &SocketMessage) -> (r: (Vec<u64>, SocketMessage))
        requires
            self.wf(),
        ensures
            r.0@.no_duplicates(),
            match event_target(msg.msg@) {
                Some(name) => {
                    &&& forall|c: u64| #[trigger]
                        r.0@.contains(c) <==> self.subscriptions().contains((name, c))
                    &&& r.1@ == answer(msg@, MessageType::SendEventResponse, success_bytes())
                },
                None => {
                    &&& r.0@.len() == 0
                    &&& r.1@ == answer(msg@, MessageType::SendEventResponse, failed_bytes())
                },
            },
    {
        let id = msg.id();
        match read_event_target(msg.body()) {
            Some(event) => {
                let conns = self.events.members(&event);
                let body = success_body();
                (
                    conns,
                    SocketMessage::new().set_id(id).set_body(&body).set_kind(
                        MessageType::SendEventResponse,
                    ),
                )
            },
            None => {
                let body = failed_body();
                (
                    Vec::new(),
                    SocketMessage::new().set_id(id).set_body(&body).set_kind(
                        MessageType::SendEventResponse,
                    ),
                )
            },
        }
    }

    /// A frame whose body is `{"objects":[...]}` with every registered name.
    pub fn list_objects(&self) -> (r: SocketMessage)
        requires
            self.wf(),
        ensures
            r@ == (FrameView {
                id: 0,
                kind: MessageType::AddShareObjectRequest,
                msg: objects_listing(self.object_names()),
            }),
    {
        let names = self.objects.keys();
        let open: [u8; 12] = [123, 34, 111, 98, 106, 101, 99, 116, 115, 34, 58, 91];
        let mut body: Vec<u8> = Vec::new();
        push_all(&mut body, &open);
        assert(body@ =~= seq![123u8, 34, 111, 98, 106, 101, 99, 116, 115, 34, 58, 91]);
        let ghost start = body@;
        let ghost all = names@.map_values(|s: String| s@);
        let mut i: usize = 0;
        while i < names.len()
            invariant
                i <= names@.len(),
                all == names@.map_values(|s: String| s@),
                body@ == start + json_names(all.subrange(0, i as int)),
            decreases names@.len() - i,
        {
            let text = json_string(names[i].as_str());
            proof {
                let pre = all.subrange(0, i as int);
                let cur = all.subrange(0, i + 1);
                assert(cur.drop_last() =~= pre);
                assert(cur.last() == names@[i as int]@);
                if i == 0 {
                    assert(pre =~= Seq::<Seq<char>>::empty());
                }
            }
            if i > 0 {
                body.push(44);
            }
            push_all(&mut body, &text);
            i = i + 1;
            assert(body@ =~= start + json_names(all.subrange(0, i as int)));
        }
        body.push(93);
        body.push(125);
        assert(all.subrange(0, i as int) =~= all);
        assert(body@ =~= objects_listing(self.object_names()));
        SocketMessage::new().set_body(&body)
    }
}

} // verus!
