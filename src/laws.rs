//! What holds of the broker over any run: responses reach the caller that
//! made the request, exactly once, and a closed connection leaves no trace.
use vstd::prelude::*;

use crate::message::{FrameView, MessageType};
use crate::objects::{call_target, event_target};
use crate::server::{
    broker_closed, broker_next, broker_out, broker_write_failed, broker_write_failed_out, id_after,
    initial_state, stamped, targets, BrokerState,
};

verus! {

/// Every waiting request is recorded under the id that the broker gave the
/// call, with the connection that sent it.
pub open spec fn calls_recorded(s: BrokerState) -> bool {
    forall|i: u64| #[trigger]
        s.inflight.contains_key(i) ==> s.assigned.contains_key(i) && s.assigned[i]
            == s.inflight[i].0
}

/// No waiting id is above the last id given out.
pub open spec fn ids_given(s: BrokerState) -> bool {
    forall|i: u64| #[trigger] s.inflight.contains_key(i) ==> 0 < i <= s.next_id
}

/// Every response that a step writes goes to the connection whose call was
/// stamped with the response's id.
pub open spec fn responses_routed(s: BrokerState, out: Seq<(u64, FrameView)>) -> bool {
    forall|k: int|
        0 <= k < out.len() && (#[trigger] out[k]).1.kind == MessageType::RemoteCallResponse
            ==> s.assigned.contains_key(out[k].1.id) && s.assigned[out[k].1.id] == out[k].0
}

pub proof fn lemma_initial_state()
    ensures
        calls_recorded(initial_state()),
        ids_given(initial_state()),
{
}

/// Handling a frame keeps the record of calls true.
pub proof fn lemma_step_keeps_record(s: BrokerState, conn: u64, f: FrameView)
    requires
        calls_recorded(s),
    ensures
        calls_recorded(broker_next(s, conn, f)),
{
    let n = broker_next(s, conn, f);
    let id = id_after(s.next_id);
    assert forall|i: u64| #[trigger] n.inflight.contains_key(i) implies n.assigned.contains_key(i)
        && n.assigned[i] == n.inflight[i].0 by {
        if f.kind == MessageType::RemoteCallRequest && i != id {
            assert(s.inflight.contains_key(i));
        }
    }
}

/// Response routing: whatever frame a connection sends, every response the
/// broker writes carries the id that the broker gave to the call of the
/// connection it goes to, and the record of calls stays true.
pub proof fn lemma_response_routing(s: BrokerState, conn: u64, f: FrameView, out: Seq<(u64, FrameView)>)
    requires
        calls_recorded(s),
        broker_out(s, conn, f, out),
    ensures
        calls_recorded(broker_next(s, conn, f)),
        responses_routed(broker_next(s, conn, f), out),
{
    let n = broker_next(s, conn, f);
    lemma_step_keeps_record(s, conn, f);
    if f.kind == MessageType::SendEventRequest {
        assert forall|k: int|
            0 <= k < out.len() && (#[trigger] out[k]).1.kind
                == MessageType::RemoteCallResponse implies n.assigned.contains_key(out[k].1.id)
            && n.assigned[out[k].1.id] == out[k].0 by {
            if let Some(name) = event_target(f.msg) {
                assert(out[k].1 == stamped(s, f));
            }
        }
    }
}

/// Closing a connection keeps the record of calls true.
pub proof fn lemma_close_routing(s: BrokerState, c: u64)
    requires
        calls_recorded(s),
        ids_given(s),
    ensures
        calls_recorded(broker_closed(s, c)),
        ids_given(broker_closed(s, c)),
{
}

/// A failed forward is answered to the caller that made the call, under the
/// call's id, and the record of calls stays true.
pub proof fn lemma_write_failed_routing(s: BrokerState, c: u64, f: FrameView)
    requires
        calls_recorded(s),
        ids_given(s),
    ensures
        calls_recorded(broker_write_failed(s, c, f)),
        ids_given(broker_write_failed(s, c, f)),
        responses_routed(broker_write_failed(s, c, f), broker_write_failed_out(s, c, f)),
{
}

/// Once a call is forwarded to the owner of its object, the broker waits for
/// exactly that owner's response under the call's id.
pub proof fn lemma_call_forwarded(s: BrokerState, caller: u64, f: FrameView, out: Seq<(u64, FrameView)>)
    requires
        f.kind == MessageType::RemoteCallRequest,
        call_target(f.msg) matches Some(name) && s.owners.contains_key(name),
        broker_out(s, caller, f, out),
    ensures
        out.len() == 1,
        out[0].1 == stamped(s, f),
        s.next_id < u64::MAX ==> out[0].1.id == s.next_id + 1,
        broker_next(s, caller, f).inflight.contains_key(out[0].1.id),
        broker_next(s, caller, f).inflight[out[0].1.id] == (caller, out[0].0),
{
}

/// A call that is not forwarded is answered to its caller at once, and
/// nothing waits for it afterwards.
pub proof fn lemma_call_answered_at_once(s: BrokerState, caller: u64, f: FrameView, out: Seq<(u64, FrameView)>)
    requires
        f.kind == MessageType::RemoteCallRequest,
        !(call_target(f.msg) matches Some(name) && s.owners.contains_key(name)),
        broker_out(s, caller, f, out),
    ensures
        out.len() == 1,
        out[0].0 == caller,
        out[0].1.kind == MessageType::RemoteCallResponse,
        out[0].1.id == id_after(s.next_id),
        !broker_next(s, caller, f).inflight.contains_key(out[0].1.id),
{
}

/// The owner's response to a waiting call reaches the caller once: it is
/// written to the caller, and any later response under the same id, from
/// any connection, is dropped.
pub proof fn lemma_response_once(
    s: BrokerState,
    id: u64,
    caller: u64,
    owner: u64,
    f: FrameView,
    out: Seq<(u64, FrameView)>,
    conn2: u64,
    f2: FrameView,
    out2: Seq<(u64, FrameView)>,
)
    requires
        s.inflight.contains_key(id),
        s.inflight[id] == (caller, owner),
        f.kind == MessageType::RemoteCallResponse,
        f.id == id,
        broker_out(s, owner, f, out),
        f2.kind == MessageType::RemoteCallResponse,
        f2.id == id,
        broker_out(broker_next(s, owner, f), conn2, f2, out2),
    ensures
        out == seq![(caller, f)],
        out2.len() == 0,
{
}

/// A waiting call stays waiting, for the same caller and owner, through any
/// step other than its owner's response, as long as neither connection
/// closes and the id counter has not run out.
pub proof fn lemma_call_keeps_waiting(s: BrokerState, id: u64, conn: u64, f: FrameView)
    requires
        ids_given(s),
        s.next_id < u64::MAX,
        s.inflight.contains_key(id),
        !(f.kind == MessageType::RemoteCallResponse && f.id == id && conn == s.inflight[id].1),
    ensures
        ids_given(broker_next(s, conn, f)),
        broker_next(s, conn, f).inflight.contains_key(id),
        broker_next(s, conn, f).inflight[id] == s.inflight[id],
{
    let n = broker_next(s, conn, f);
    assert forall|i: u64| #[trigger] n.inflight.contains_key(i) implies 0 < i <= n.next_id by {
        if f.kind == MessageType::RemoteCallRequest && i != id_after(s.next_id) {
            assert(s.inflight.contains_key(i));
        }
    }
}

/// The same through the close of a connection that is neither the caller
/// nor the owner.
pub proof fn lemma_call_survives_close(s: BrokerState, id: u64, c: u64)
    requires
        s.inflight.contains_key(id),
        s.inflight[id].0 != c,
        s.inflight[id].1 != c,
    ensures
        broker_closed(s, c).inflight.contains_key(id),
        broker_closed(s, c).inflight[id] == s.inflight[id],
{
}

/// The same through a failed write, other than that of the call itself to
/// its owner.
pub proof fn lemma_call_survives_failed_write(s: BrokerState, id: u64, c: u64, f: FrameView)
    requires
        s.inflight.contains_key(id),
        !(f.kind == MessageType::RemoteCallRequest && f.id == id),
    ensures
        broker_write_failed(s, c, f).inflight.contains_key(id),
        broker_write_failed(s, c, f).inflight[id] == s.inflight[id],
{
}

/// Connection `x` owns no object, subscribes to no event, and neither made
/// nor is asked to answer any waiting call.
pub open spec fn forgets(s: BrokerState, x: u64) -> bool {
    &&& forall|k: Seq<char>| #[trigger] s.owners.contains_key(k) ==> s.owners[k] != x
    &&& forall|p: (Seq<char>, u64)| #[trigger] s.subs.contains(p) ==> p.1 != x
    &&& forall|i: u64| #[trigger]
        s.inflight.contains_key(i) ==> s.inflight[i].0 != x && s.inflight[i].1 != x
}

/// After a connection closes, the broker holds nothing of it.
pub proof fn lemma_close_forgets(s: BrokerState, x: u64)
    ensures
        forgets(broker_closed(s, x), x),
{
}

/// Once the broker holds nothing of a closed connection, frames from the
/// other connections never lead to a frame for it, and it stays forgotten.
pub proof fn lemma_forgotten_stays(s: BrokerState, x: u64, conn: u64, f: FrameView, out: Seq<(u64, FrameView)>)
    requires
        forgets(s, x),
        conn != x,
        broker_out(s, conn, f, out),
    ensures
        forgets(broker_next(s, conn, f), x),
        forall|k: int| 0 <= k < out.len() ==> (#[trigger] out[k]).0 != x,
{
    if f.kind == MessageType::SendEventRequest {
        if let Some(name) = event_target(f.msg) {
            assert forall|k: int| 0 <= k < out.len() implies (#[trigger] out[k]).0 != x by {
                assert(targets(out)[k] == out[k].0);
                assert(targets(out).contains(out[k].0));
            }
        }
    }
    let n = broker_next(s, conn, f);
    assert forall|i: u64| #[trigger] n.inflight.contains_key(i) implies n.inflight[i].0 != x
        && n.inflight[i].1 != x by {
        if f.kind == MessageType::RemoteCallRequest && i != id_after(s.next_id) {
            assert(s.inflight.contains_key(i));
        }
    }
}

/// The same for a failed write.
pub proof fn lemma_forgotten_stays_after_failed_write(s: BrokerState, x: u64, c: u64, f: FrameView)
    requires
        forgets(s, x),
    ensures
        forgets(broker_write_failed(s, c, f), x),
        forall|k: int|
            0 <= k < broker_write_failed_out(s, c, f).len() ==> (#[trigger] broker_write_failed_out(
                s,
                c,
                f,
            )[k]).0 != x,
{
}

/// Something that happens to the broker.
pub enum BrokerEvent {
    /// A frame read from a connection.
    Frame(u64, FrameView),
    /// A connection closed.
    Closed(u64),
    /// A write of a frame to a connection failed.
    WriteFailed(u64, FrameView),
}

pub open spec fn apply(s: BrokerState, e: BrokerEvent) -> BrokerState {
    match e {
        BrokerEvent::Frame(c, f) => broker_next(s, c, f),
        BrokerEvent::Closed(c) => broker_closed(s, c),
        BrokerEvent::WriteFailed(c, f) => broker_write_failed(s, c, f),
    }
}

/// The state after the events, one after the other.
pub open spec fn run(s: BrokerState, es: Seq<BrokerEvent>) -> BrokerState
    decreases es.len(),
{
    if es.len() == 0 {
        s
    } else {
        run(apply(s, es[0]), es.skip(1))
    }
}

/// Over any run, the record of calls stays true; so, by
/// `lemma_response_routing` and `lemma_write_failed_routing`, every response
/// written at any point of the run goes to the caller whose call was stamped
/// with its id.
pub proof fn lemma_calls_recorded_through(s: BrokerState, es: Seq<BrokerEvent>)
    requires
        calls_recorded(s),
    ensures
        calls_recorded(run(s, es)),
    decreases es.len(),
{
    if es.len() > 0 {
        match es[0] {
            BrokerEvent::Frame(c, f) => lemma_step_keeps_record(s, c, f),
            BrokerEvent::Closed(c) => {},
            BrokerEvent::WriteFailed(c, f) => {},
        }
        lemma_calls_recorded_through(apply(s, es[0]), es.skip(1));
    }
}

/// Whether event `e` answers or ends call `id` of `caller` to `owner`: the
/// owner's response, the close of either connection, or the failed write of
/// the call itself.
pub open spec fn ends_call(e: BrokerEvent, id: u64, caller: u64, owner: u64) -> bool {
    match e {
        BrokerEvent::Frame(c, f) => f.kind == MessageType::RemoteCallResponse && f.id == id && c
            == owner,
        BrokerEvent::Closed(c) => c == caller || c == owner,
        BrokerEvent::WriteFailed(c, f) => f.kind == MessageType::RemoteCallRequest && f.id == id,
    }
}

/// No loss: a forwarded call keeps waiting, for its caller and its owner,
/// through any run of events, from any connections and in any order, that
/// does not answer or end it (as long as the id counter does not run out);
/// its owner's response is then written to the caller exactly once
/// (`lemma_response_once`).
pub proof fn lemma_call_waits_through(s: BrokerState, id: u64, es: Seq<BrokerEvent>)
    requires
        ids_given(s),
        s.inflight.contains_key(id),
        s.next_id + es.len() < u64::MAX,
        forall|k: int|
            0 <= k < es.len() ==> !ends_call(
                #[trigger] es[k],
                id,
                s.inflight[id].0,
                s.inflight[id].1,
            ),
    ensures
        ids_given(run(s, es)),
        run(s, es).inflight.contains_key(id),
        run(s, es).inflight[id] == s.inflight[id],
    decreases es.len(),
{
    if es.len() > 0 {
        let e = es[0];
        assert(!ends_call(e, id, s.inflight[id].0, s.inflight[id].1));
        let n = apply(s, e);
        match e {
            BrokerEvent::Frame(c, f) => {
                lemma_call_keeps_waiting(s, id, c, f);
            },
            BrokerEvent::Closed(c) => {
                lemma_call_survives_close(s, id, c);
            },
            BrokerEvent::WriteFailed(c, f) => {
                lemma_call_survives_failed_write(s, id, c, f);
            },
        }
        assert(n.next_id <= s.next_id + 1);
        let rest = es.skip(1);
        assert forall|k: int| 0 <= k < rest.len() implies !ends_call(
            #[trigger] rest[k],
            id,
            n.inflight[id].0,
            n.inflight[id].1,
        ) by {
            assert(rest[k] == es[k + 1]);
        }
        lemma_call_waits_through(n, id, rest);
    }
}

/// Whether event `e` comes from connection `x`.
pub open spec fn from_conn(e: BrokerEvent, x: u64) -> bool {
    match e {
        BrokerEvent::Frame(c, _) => c == x,
        BrokerEvent::Closed(_) => false,
        BrokerEvent::WriteFailed(_, _) => false,
    }
}

/// No trace of a closed connection: after connection `x` closes, through any
/// run of events that carries no frame from `x`, the broker holds nothing of
/// `x`; so, by `lemma_forgotten_stays`, no frame is ever written to it.
pub proof fn lemma_closed_stays_forgotten(s: BrokerState, x: u64, es: Seq<BrokerEvent>)
    requires
        forall|k: int| 0 <= k < es.len() ==> !from_conn(#[trigger] es[k], x),
    ensures
        forgets(run(broker_closed(s, x), es), x),
{
    lemma_close_forgets(s, x);
    lemma_forgotten_through(broker_closed(s, x), x, es);
}

proof fn lemma_forgotten_through(s: BrokerState, x: u64, es: Seq<BrokerEvent>)
    requires
        forgets(s, x),
        forall|k: int| 0 <= k < es.len() ==> !from_conn(#[trigger] es[k], x),
    ensures
        forgets(run(s, es), x),
    decreases es.len(),
{
    if es.len() > 0 {
        let e = es[0];
        assert(!from_conn(e, x));
        match e {
            BrokerEvent::Frame(c, f) => {
                let n = broker_next(s, c, f);
                assert forall|i: u64| #[trigger] n.inflight.contains_key(i) implies n.inflight[i].0
                    != x && n.inflight[i].1 != x by {
                    if f.kind == MessageType::RemoteCallRequest && i != id_after(s.next_id) {
                        assert(s.inflight.contains_key(i));
                    }
                }
            },
            BrokerEvent::Closed(c) => {},
            BrokerEvent::WriteFailed(c, f) => {},
        }
        let rest = es.skip(1);
        assert forall|k: int| 0 <= k < rest.len() implies !from_conn(#[trigger] rest[k], x) by {
            assert(rest[k] == es[k + 1]);
        }
        lemma_forgotten_through(apply(s, e), x, rest);
    }
}

} // verus!
