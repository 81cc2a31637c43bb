//! Waiting until objects are registered: ask the broker for each name in
//! turn, again and again, until it answers `success`.
use vstd::prelude::*;
use vstd::utf8::encode_utf8;

use crate::message::{success_body, success_bytes, FrameView, MessageType, SocketMessage};
use crate::shared_object::bytes_eq;

verus! {

/// The names to wait for, and how many of them are known to be registered.
pub struct ObjectWaiter {
    names: Vec<String>,
    found: usize,
}

impl ObjectWaiter {
    /// The names, in the order in which they are waited for.
    pub closed spec fn names(&self) -> Seq<Seq<char>> {
        self.names@.map_values(|s: String| s@)
    }

    /// How many of the names are known to be registered.
    pub closed spec fn found(&self) -> nat {
        self.found as nat
    }

    /// No more names are found than there are.
    pub open spec fn wf(&self) -> bool {
        self.found() <= self.names().len()
    }

    pub fn new(names: Vec<String>) -> (r: ObjectWaiter)
        ensures
            r.wf(),
            r.names() == names@.map_values(|s: String| s@),
            r.found() == 0,
    {
        ObjectWaiter { names, found: 0 }
    }

    /// Whether every name is known to be registered.
    pub fn is_done(&self) -> (r: bool)
        requires
            self.wf(),
        ensures
            r == (self.found() == self.names().len()),
    {
        self.found == self.names.len()
    }

    /// The question to send next: whether the first name not yet found is
    /// registered; none once all are.
    pub fn request(&self) -> (r: Option<SocketMessage>)
        requires
            self.wf(),
        ensures
            self.found() == self.names().len() ==> r is None,
            self.found() < self.names().len() ==> (r matches Some(m) && m@ == (FrameView {
                id: 0,
                kind: MessageType::WaitForObject,
                msg: encode_utf8(self.names()[self.found() as int]),
            })),
    {
        if self.found == self.names.len() {
            None
        } else {
            let name = self.names[self.found].as_str();
            Some(SocketMessage::new().set_kind(MessageType::WaitForObject).set_body(name.as_bytes()))
        }
    }

    /// Takes the broker's answer to the last question: `success` moves on to
    /// the next name; anything else asks again.
    pub fn on_reply(&mut self, reply: &SocketMessage)
        requires
            old(self).wf(),
        ensures
            final(self).wf(),
            final(self).names() == old(self).names(),
            final(self).found() == if old(self).found() < old(self).names().len() && reply.msg@
                == success_bytes() {
                old(self).found() + 1
            } else {
                old(self).found()
            },
    {
        let success = success_body();
        if self.found < self.names.len() && bytes_eq(reply.body(), success.as_slice()) {
            self.found = self.found + 1;
        }
    }
}

} // verus!
