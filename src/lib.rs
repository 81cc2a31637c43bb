//! A local inter-process object bus: processes register named objects with a
//! broker, call methods on objects hosted by other processes, and publish or
//! subscribe to named events. This crate holds the wire format of the bus and
//! the decisions of the broker and of its clients; sockets and tasks are run
//! by the caller.

pub mod connector;
pub mod event;
pub mod error;
pub mod json;
pub mod laws;
pub mod message;
pub mod objects;
pub mod server;
pub mod shared_object;
pub mod tables;
pub mod util;
pub mod wait_for_object;
pub mod wire;
