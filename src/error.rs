//! The errors of the bus.
use vstd::prelude::*;

use crate::json::needs_no_escape;
use crate::message::{error_envelope, wrap_error};

verus! {

/// The error texts that the bus itself reports.
#[derive(Clone, Copy, PartialEq, Eq, Structural, Debug)]
pub enum CommonErrors {
    NoError,
    ObjectNotFound,
    ClientConnectionError,
    ServerConnectionError,
    SerdeParseError,
    RemoteConnectionError,
    InvalidResponseData,
}

impl CommonErrors {
    pub open spec fn text(self) -> Seq<char> {
        match self {
            CommonErrors::NoError => "OK"@,
            CommonErrors::ObjectNotFound => "Object not found"@,
            CommonErrors::ClientConnectionError => "client connection error"@,
            CommonErrors::ServerConnectionError => "server connection error"@,
            CommonErrors::SerdeParseError => "serde parsing error"@,
            CommonErrors::RemoteConnectionError => "remote connection error"@,
            CommonErrors::InvalidResponseData => "invalid response data"@,
        }
    }

    /// The texts are JSON strings as they stand, between quotes.
    pub proof fn lemma_text_needs_no_escape(self)
        ensures
            needs_no_escape(self.text()),
    {
        reveal_strlit("OK");
        reveal_strlit("Object not found");
        reveal_strlit("client connection error");
        reveal_strlit("server connection error");
        reveal_strlit("serde parsing error");
        reveal_strlit("remote connection error");
        reveal_strlit("invalid response data");
    }

    pub fn as_str(&self) -> (r: &'static str)
        ensures
            r@ == self.text(),
    {
        match self {
            CommonErrors::NoError => "OK",
            CommonErrors::ObjectNotFound => "Object not found",
            CommonErrors::ClientConnectionError => "client connection error",
            CommonErrors::ServerConnectionError => "server connection error",
            CommonErrors::SerdeParseError => "serde parsing error",
            CommonErrors::RemoteConnectionError => "remote connection error",
            CommonErrors::InvalidResponseData => "invalid response data",
        }
    }
}

/// An error value sent back to a caller, held as its JSON text.
#[derive(Debug)]
pub struct RemoteError {
    pub error: Vec<u8>,
}

impl RemoteError {
    /// An error whose value has the JSON text `error`.
    pub fn new(error: Vec<u8>) -> (r: RemoteError)
        ensures
            r.error@ == error@,
    {
        RemoteError { error }
    }

    /// The body that carries this error: `{"error":<value>}`.
    pub fn as_bytes(&self) -> (r: Vec<u8>)
        ensures
            r@ == error_envelope(self.error@),
    {
        wrap_error(self.error.as_slice())
    }
}

} // verus!
