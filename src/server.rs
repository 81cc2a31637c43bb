//! The broker's side of each connection: it stamps requests with ids, asks the
//! registry, and says which frames go to which connections. The caller owns
//! the sockets: it feeds every frame read from a connection to
//! `process_message`, writes the deliveries it gets back, reports a failed
//! write with `delivery_failed`, and a closed connection with
//! `connection_closed`.
use vstd::prelude::*;
use vstd::string::StringExecFns;

use crate::error::{CommonErrors, RemoteError};
use crate::json::{json_string, json_string_of};
use crate::message::{
    error_body, failed_bytes, push_all, success_bytes, FrameView, MessageType, SocketMessage,
};
use crate::objects::{
    answer, call_target, event_target, name_in, objects_listing, CallRoute, ListObjects,
};
use crate::tables::{without_conn, without_member, without_value, IdTable};

verus! {

/// Everything the broker knows: the owner of each object, the event
/// subscriptions, the requests awaiting a response (id to caller and owner),
/// the last id given out, and, for every call request ever stamped, the
/// connection that sent it.
pub struct BrokerState {
    pub owners: Map<Seq<char>, u64>,
    pub subs: Set<(Seq<char>, u64)>,
    pub inflight: Map<u64, (u64, u64)>,
    pub next_id: u64,
    pub assigned: Map<u64, u64>,
}

/// A frame to write to a connection.
pub struct Delivery {
    pub conn: u64,
    pub frame: SocketMessage,
}

impl View for Delivery {
    type V = (u64, FrameView);

    open spec fn view(&self) -> (u64, FrameView) {
        (self.conn, self.frame@)
    }
}

pub open spec fn deliveries_view(v: Seq<Delivery>) -> Seq<(u64, FrameView)> {
    v.map_values(|d: Delivery| d@)
}

/// The connections that the deliveries go to.
pub open spec fn targets(out: Seq<(u64, FrameView)>) -> Seq<u64> {
    out.map_values(|d: (u64, FrameView)| d.0)
}

pub open spec fn initial_state() -> BrokerState {
    BrokerState {
        owners: Map::empty(),
        subs: Set::empty(),
        inflight: Map::empty(),
        next_id: 0,
        assigned: Map::empty(),
    }
}

/// The id after `n`; the counter wraps only after every id was used.
pub open spec fn id_after(n: u64) -> u64 {
    if n == u64::MAX {
        0
    } else {
        (n + 1) as u64
    }
}

/// The frame `f` stamped with the id that the broker gives it.
pub open spec fn stamped(s: BrokerState, f: FrameView) -> FrameView {
    FrameView { id: id_after(s.next_id), kind: f.kind, msg: f.msg }
}

/// Whether a response from `conn` answers the waiting request `id`.
pub open spec fn answers(s: BrokerState, conn: u64, id: u64) -> bool {
    s.inflight.contains_key(id) && s.inflight[id].1 == conn
}

/// The state after the broker handles frame `f` read from connection `conn`.
pub open spec fn broker_next(s: BrokerState, conn: u64, f: FrameView) -> BrokerState {
    let id = id_after(s.next_id);
    match f.kind {
        MessageType::AddShareObjectRequest => BrokerState {
            owners: match name_in(f.msg) {
                Some(name) => s.owners.insert(name, conn),
                None => s.owners,
            },
            next_id: id,
            ..s
        },
        MessageType::RemoteCallRequest => BrokerState {
            inflight: match call_target(f.msg) {
                Some(name) => if s.owners.contains_key(name) {
                    s.inflight.insert(id, (conn, s.owners[name]))
                } else {
                    s.inflight.remove(id)
                },
                None => s.inflight.remove(id),
            },
            next_id: id,
            assigned: s.assigned.insert(id, conn),
            ..s
        },
        MessageType::RemoteCallResponse => if answers(s, conn, f.id) {
            BrokerState { inflight: s.inflight.remove(f.id), ..s }
        } else {
            s
        },
        MessageType::SubscribeEventRequest => BrokerState {
            subs: match name_in(f.msg) {
                Some(name) => s.subs.insert((name, conn)),
                None => s.subs,
            },
            next_id: id,
            ..s
        },
        MessageType::SendEventRequest => BrokerState { next_id: id, ..s },
        MessageType::WaitForObject => BrokerState { next_id: id, ..s },
        _ => s,
    }
}

/// Whether `out` is what the broker writes when it handles frame `f` read
/// from connection `conn`: a registration or a wait is answered to `conn`; a
/// call goes to the owner of its object, or is answered with an error; a
/// response goes to the caller that waits for it; an event goes to each of
/// its subscribers once, in no given order; anything else is dropped.
pub open spec fn broker_out(
    s: BrokerState,
    conn: u64,
    f: FrameView,
    out: Seq<(u64, FrameView)>,
) -> bool {
    let g = stamped(s, f);
    match f.kind {
        MessageType::AddShareObjectRequest => out == seq![
            (
                conn,
                answer(
                    g,
                    MessageType::AddShareObjectResponse,
                    if name_in(f.msg) is Some {
                        success_bytes()
                    } else {
                        failed_bytes()
                    },
                ),
            ),
        ],
        MessageType::RemoteCallRequest => match call_target(f.msg) {
            Some(name) => if s.owners.contains_key(name) {
                out == seq![(s.owners[name], g)]
            } else {
                out == seq![
                    (
                        conn,
                        answer(
                            g,
                            MessageType::RemoteCallResponse,
                            error_body(CommonErrors::ObjectNotFound),
                        ),
                    ),
                ]
            },
            None => out == seq![
                (
                    conn,
                    answer(
                        g,
                        MessageType::RemoteCallResponse,
                        error_body(CommonErrors::SerdeParseError),
                    ),
                ),
            ],
        },
        MessageType::RemoteCallResponse => if answers(s, conn, f.id) {
            out == seq![(s.inflight[f.id].0, f)]
        } else {
            out.len() == 0
        },
        MessageType::SendEventRequest => match event_target(f.msg) {
            Some(name) => {
                &&& targets(out).no_duplicates()
                &&& forall|c: u64| #[trigger] targets(out).contains(c) <==> s.subs.contains((name, c))
                &&& forall|i: int| 0 <= i < out.len() ==> (#[trigger] out[i]).1 == g
            },
            None => out.len() == 0,
        },
        MessageType::WaitForObject => out == seq![
            (
                conn,
                answer(
                    g,
                    MessageType::WaitForObject,
                    if name_in(f.msg) matches Some(name) && s.owners.contains_key(name) {
                        success_bytes()
                    } else {
                        failed_bytes()
                    },
                ),
            ),
        ],
        _ => out.len() == 0,
    }
}

/// The state after connection `c` closes: its objects, its subscriptions and
/// every request it made or was asked to answer are gone.
pub open spec fn broker_closed(s: BrokerState, c: u64) -> BrokerState {
    BrokerState {
        owners: without_value(s.owners, c),
        subs: without_member(s.subs, c),
        inflight: without_conn(s.inflight, c),
        ..s
    }
}

/// Whether a failed write of frame `f` to connection `c` was the forwarding
/// of a call that still waits for `c`.
pub open spec fn lost_forward(s: BrokerState, c: u64, f: FrameView) -> bool {
    f.kind == MessageType::RemoteCallRequest && answers(s, c, f.id)
}

/// The state after a write of `f` to connection `c` failed: where it was the
/// forwarding of a call, the owner `c` is taken as gone and the call is over.
pub open spec fn broker_write_failed(s: BrokerState, c: u64, f: FrameView) -> BrokerState {
    if lost_forward(s, c, f) {
        BrokerState {
            owners: without_value(s.owners, c),
            subs: without_member(s.subs, c),
            inflight: s.inflight.remove(f.id),
            ..s
        }
    } else {
        s
    }
}

/// What the broker writes after a write of `f` to connection `c` failed: the
/// caller of a lost call is answered "remote connection error".
pub open spec fn broker_write_failed_out(s: BrokerState, c: u64, f: FrameView) -> Seq<
    (u64, FrameView),
> {
    if lost_forward(s, c, f) {
        seq![
            (
                s.inflight[f.id].0,
                answer(
                    f,
                    MessageType::RemoteCallResponse,
                    error_body(CommonErrors::RemoteConnectionError),
                ),
            ),
        ]
    } else {
        Seq::empty()
    }
}

/// The broker's own shared object `list`: its method `listObjects` returns
/// `listing`; any other method is the error "<method> method not found.".
pub fn list_object_call(method: &str, listing: &[u8]) -> (r: Result<Vec<u8>, RemoteError>)
    ensures
        method@ == "listObjects"@ ==> (r matches Ok(v) && v@ == listing@),
        method@ != "listObjects"@ ==> (r matches Err(e) && e.error@ == json_string_of(
            method@ + " method not found."@,
        )),
{
    let name = method.to_string();
    let expected = "listObjects".to_string();
    if name == expected {
        let mut v: Vec<u8> = Vec::new();
        push_all(&mut v, listing);
        Ok(v)
    } else {
        let text = name.concat(" method not found.");
        Err(RemoteError::new(json_string(text.as_str())))
    }
}

/// The broker: its registry, the requests awaiting a response, and the id
/// counter.
pub struct Broker {
    registry: ListObjects,
    inflight: IdTable,
    next_id: u64,
    assigned: Ghost<Map<u64, u64>>,
}

impl View for Broker {
    type V = BrokerState;

    closed spec fn view(&self) -> BrokerState {
        BrokerState {
            owners: self.registry.owners(),
            subs: self.registry.subscriptions(),
            inflight: self.inflight@,
            next_id: self.next_id,
            assigned: self.assigned@,
        }
    }
}

impl Broker {
    pub closed spec fn wf(&self) -> bool {
        self.registry.wf() && self.inflight.wf()
    }

    /// The object names, in the order in which they were first registered.
    pub closed spec fn object_names(&self) -> Seq<Seq<char>> {
        self.registry.object_names()
    }

    pub proof fn lemma_object_names(&self)
        requires
            self.wf(),
        ensures
            self.object_names().no_duplicates(),
            forall|k: Seq<char>| self@.owners.contains_key(k) <==> #[trigger] self.object_names().contains(k),
    {
        self.registry.lemma_object_names();
    }

    pub fn new() -> (r: Broker)
        ensures
            r.wf(),
            r@ == initial_state(),
    {
        let r = Broker {
            registry: ListObjects::new(),
            inflight: IdTable::new(),
            next_id: 0,
            assigned: Ghost(Map::empty()),
        };
        assert(r@ == initial_state());
        r
    }

    /// Gives out the next id.
    fn acquire_id(&mut self) -> (r: u64)
        ensures
            r == id_after(old(self).next_id),
            final(self).next_id == r,
            final(self).registry == old(self).registry,
            final(self).inflight == old(self).inflight,
            final(self).assigned == old(self).assigned,
    {
        self.next_id = if self.next_id == u64::MAX {
            0
        } else {
            self.next_id + 1
        };
        self.next_id
    }

    /// The registry's listing of object names.
    pub fn list_objects(&self) -> (r: SocketMessage)
        requires
            self.wf(),
        ensures
            r@ == (FrameView {
                id: 0,
                kind: MessageType::AddShareObjectRequest,
                msg: objects_listing(self.object_names()),
            }),
    {
        self.registry.list_objects()
    }

    /// Handles frame `msg` read from connection `conn`, and returns the
    /// frames to write.
    pub fn process_message(&mut self, conn: u64, msg: SocketMessage) -> (r: Vec<Delivery>)
        requires
            old(self).wf(),
        ensures
            final(self).wf(),
            final(self)@ == broker_next(old(self)@, conn, msg@),
            broker_out(old(self)@, conn, msg@, deliveries_view(r@)),
    {
        let ghost s = self@;
        let mut out: Vec<Delivery> = Vec::new();
        match msg.kind() {
            MessageType::AddShareObjectRequest => {
                let id = self.acquire_id();
                let reply = self.registry.add(msg.set_id(id), conn);
                out.push(Delivery { conn, frame: reply });
            },
            MessageType::RemoteCallRequest => {
                let id = self.acquire_id();
                self.assigned = Ghost(self.assigned@.insert(id, conn));
                match self.registry.call_method(msg.set_id(id)) {
                    CallRoute::Forward(owner, m) => {
                        self.inflight.insert(id, conn, owner);
                        out.push(Delivery { conn: owner, frame: m });
                    },
                    CallRoute::Reply(m) => {
                        self.inflight.remove(id);
                        out.push(Delivery { conn, frame: m });
                    },
                }
            },
            MessageType::RemoteCallResponse => {
                match self.inflight.get(msg.id()) {
                    Some((caller, owner)) => {
                        if owner == conn {
                            self.inflight.remove(msg.id());
                            out.push(Delivery { conn: caller, frame: msg });
                        }
                    },
                    None => {},
                }
            },
            MessageType::SubscribeEventRequest => {
                let id = self.acquire_id();
                let _ = self.registry.subscribe_event(msg.set_id(id), conn);
            },
            MessageType::SendEventRequest => {
                let id = self.acquire_id();
                let frame = msg.set_id(id);
                let (conns, _) = self.registry.send_event(&frame);
                let mut i: usize = 0;
                while i < conns.len()
                    invariant
                        i <= conns@.len(),
                        out@.len() == i,
                        frame@ == stamped(s, msg@),
                        forall|j: int|
                            0 <= j < i ==> (#[trigger] out@[j]).conn == conns@[j] && out@[j].frame@
                                == frame@,
                    decreases conns@.len() - i,
                {
                    out.push(Delivery { conn: conns[i], frame: frame.duplicate() });
                    i = i + 1;
                }
                proof {
                    let v = deliveries_view(out@);
                    assert(targets(v) =~= conns@);
                    assert forall|j: int| 0 <= j < v.len() implies (#[trigger] v[j]).1 == frame@ by {
                        assert(v[j] == out@[j]@);
                    }
                }
            },
            MessageType::WaitForObject => {
                let id = self.acquire_id();
                let reply = self.registry.wait_for_object(msg.set_id(id));
                out.push(Delivery { conn, frame: reply });
            },
            _ => {},
        }
        proof {
            let v = deliveries_view(out@);
            if out@.len() == 1 {
                assert(v =~= seq![out@[0]@]);
            } else if out@.len() == 0 {
                assert(v =~= Seq::<(u64, FrameView)>::empty());
            }
            assert(self@ =~= broker_next(s, conn, msg@));
        }
        out
    }

    /// Connection `conn` is closed: forgets its objects, its subscriptions
    /// and the requests it made or was asked to answer.
    pub fn connection_closed(&mut self, conn: u64)
        requires
            old(self).wf(),
        ensures
            final(self).wf(),
            final(self)@ == broker_closed(old(self)@, conn),
    {
        let _ = self.registry.remove(conn);
        self.inflight.remove_conn(conn);
        assert(self@ =~= broker_closed(old(self)@, conn));
    }

    /// The write of `d` failed; returns the frames to write instead.
    pub fn delivery_failed(&mut self, d: &Delivery) -> (r: Vec<Delivery>)
        requires
            old(self).wf(),
        ensures
            final(self).wf(),
            final(self)@ == broker_write_failed(old(self)@, d.conn, d.frame@),
            deliveries_view(r@) == broker_write_failed_out(old(self)@, d.conn, d.frame@),
    {
        let mut out: Vec<Delivery> = Vec::new();
        if d.frame.kind() == MessageType::RemoteCallRequest {
            match self.inflight.get(d.frame.id()) {
                Some((caller, owner)) => {
                    if owner == d.conn {
                        self.inflight.remove(d.frame.id());
                        let reply = self.registry.forward_failed(owner, d.frame.duplicate());
                        out.push(Delivery { conn: caller, frame: reply });
                        assert(deliveries_view(out@) =~= seq![out@[0]@]);
                    }
                },
                None => {},
            }
        }
        proof {
            if out@.len() == 0 {
                assert(deliveries_view(out@) =~= Seq::<(u64, FrameView)>::empty());
            }
            assert(self@ =~= broker_write_failed(old(self)@, d.conn, d.frame@));
        }
        out
    }
}

} // verus!
