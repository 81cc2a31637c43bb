use vstd::prelude::*;
use vstd::utf8::encode_utf8;

use crate::error::CommonErrors;
use crate::json::json_string;
use crate::wire::{
    dec, expect_at, lemma_lit_in, lemma_list_push, lemma_list_unique, lemma_numbers_agree,
    lemma_number_in, list_bytes, read_dec, read_list, write_dec,
};

verus! {

/// The kind of a frame, sent on the wire as its numeric code.
#[derive(Clone, Copy, PartialEq, Eq, Structural, Debug)]
pub enum MessageType {
    AddShareObjectRequest,
    AddShareObjectResponse,
    RemoteCallRequest,
    RemoteCallResponse,
    SendEventRequest,
    SendEventResponse,
    SubscribeEventRequest,
    SubscribeEventResponse,
    RemoveShareObjectRequest,
    RemoveShareObjectResponse,
    WaitForObject,
}

/// The largest code that names a kind.
pub const MAX_KIND_CODE: u64 = 10;

impl MessageType {
    /// The numeric code of each kind.
    pub open spec fn spec_code(self) -> u64 {
        match self {
            MessageType::AddShareObjectRequest => 0,
            MessageType::AddShareObjectResponse => 1,
            MessageType::RemoteCallRequest => 2,
            MessageType::RemoteCallResponse => 3,
            MessageType::SendEventRequest => 4,
            MessageType::SendEventResponse => 5,
            MessageType::SubscribeEventRequest => 6,
            MessageType::SubscribeEventResponse => 7,
            MessageType::RemoveShareObjectRequest => 8,
            MessageType::RemoveShareObjectResponse => 9,
            MessageType::WaitForObject => 10,
        }
    }

    pub fn code(&self) -> (r: u64)
        ensures
            r == self.spec_code(),
            r <= MAX_KIND_CODE,
    {
        match self {
            MessageType::AddShareObjectRequest => 0,
            MessageType::AddShareObjectResponse => 1,
            MessageType::RemoteCallRequest => 2,
            MessageType::RemoteCallResponse => 3,
            MessageType::SendEventRequest => 4,
            MessageType::SendEventResponse => 5,
            MessageType::SubscribeEventRequest => 6,
            MessageType::SubscribeEventResponse => 7,
            MessageType::RemoveShareObjectRequest => 8,
            MessageType::RemoveShareObjectResponse => 9,
            MessageType::WaitForObject => 10,
        }
    }

    /// The kind with the given code; `None` for a code that names no kind.
    pub fn from_code(c: u64) -> (r: Option<MessageType>)
        ensures
            match r {
                Some(k) => k.spec_code() == c,
                None => c > MAX_KIND_CODE,
            },
    {
        if c == 0 {
            Some(MessageType::AddShareObjectRequest)
        } else if c == 1 {
            Some(MessageType::AddShareObjectResponse)
        } else if c == 2 {
            Some(MessageType::RemoteCallRequest)
        } else if c == 3 {
            Some(MessageType::RemoteCallResponse)
        } else if c == 4 {
            Some(MessageType::SendEventRequest)
        } else if c == 5 {
            Some(MessageType::SendEventResponse)
        } else if c == 6 {
            Some(MessageType::SubscribeEventRequest)
        } else if c == 7 {
            Some(MessageType::SubscribeEventResponse)
        } else if c == 8 {
            Some(MessageType::RemoveShareObjectRequest)
        } else if c == 9 {
            Some(MessageType::RemoveShareObjectResponse)
        } else if c == 10 {
            Some(MessageType::WaitForObject)
        } else {
            None
        }
    }
}

/// No code is above `MAX_KIND_CODE`.
pub proof fn lemma_code_bound(k: MessageType)
    ensures
        k.spec_code() <= MAX_KIND_CODE,
{
    match k {
        _ => {},
    }
}

/// Two kinds with the same code are the same kind.
pub proof fn lemma_code_injective(a: MessageType, b: MessageType)
    requires
        a.spec_code() == b.spec_code(),
    ensures
        a == b,
{
}

/// The body of a response that reports success: `success`.
pub open spec fn success_bytes() -> Seq<u8> {
    seq![115u8, 117, 99, 99, 101, 115, 115]
}

/// The body of a response that reports failure: `failed`.
pub open spec fn failed_bytes() -> Seq<u8> {
    seq![102u8, 97, 105, 108, 101, 100]
}

/// `{"error":` and `}` around the JSON text of an error value.
pub open spec fn error_envelope(value: Seq<u8>) -> Seq<u8> {
    seq![123u8, 34, 101, 114, 114, 111, 114, 34, 58] + value + seq![125u8]
}

/// The body that reports one of the bus's own errors: `{"error":"<text>"}`.
pub open spec fn error_body(e: CommonErrors) -> Seq<u8> {
    error_envelope(seq![34u8] + encode_utf8(e.text()) + seq![34u8])
}

pub fn success_body() -> (r: Vec<u8>)
    ensures
        r@ == success_bytes(),
{
    let b: [u8; 7] = [115, 117, 99, 99, 101, 115, 115];
    let mut v: Vec<u8> = Vec::new();
    push_all(&mut v, &b);
    assert(v@ =~= success_bytes());
    v
}

pub fn failed_body() -> (r: Vec<u8>)
    ensures
        r@ == failed_bytes(),
{
    let b: [u8; 6] = [102, 97, 105, 108, 101, 100];
    let mut v: Vec<u8> = Vec::new();
    push_all(&mut v, &b);
    assert(v@ =~= failed_bytes());
    v
}

/// Wraps the JSON text of an error value as `{"error":<value>}`.
pub fn wrap_error(value: &[u8]) -> (r: Vec<u8>)
    ensures
        r@ == error_envelope(value@),
{
    let open: [u8; 9] = [123, 34, 101, 114, 114, 111, 114, 34, 58];
    let mut v: Vec<u8> = Vec::new();
    push_all(&mut v, &open);
    push_all(&mut v, value);
    v.push(125);
    assert(v@ =~= error_envelope(value@));
    v
}

/// The body that reports `e`.
pub fn error_body_of(e: CommonErrors) -> (r: Vec<u8>)
    ensures
        r@ == error_body(e),
{
    proof {
        e.lemma_text_needs_no_escape();
    }
    let text = json_string(e.as_str());
    wrap_error(&text)
}

/// Appends every byte of `b` to `out`.
pub fn push_all(out: &mut Vec<u8>, b: &[u8])
    ensures
        final(out)@ == old(out)@ + b@,
{
    let mut i: usize = 0;
    while i < b.len()
        invariant
            i <= b.len(),
            out@ == old(out)@ + b@.subrange(0, i as int),
        decreases b.len() - i,
    {
        out.push(b[i]);
        i = i + 1;
        assert(b@.subrange(0, i as int) =~= b@.subrange(0, i - 1 as int).push(b@[i - 1]));
    }
    assert(b@.subrange(0, i as int) =~= b@);
}

/// One broker message: a correlation id, a kind and an opaque payload.
#[derive(Debug)]
pub struct SocketMessage {
    pub id: u64,
    pub kind: MessageType,
    pub msg: Vec<u8>,
}

/// What a frame holds.
pub struct FrameView {
    pub id: u64,
    pub kind: MessageType,
    pub msg: Seq<u8>,
}

impl View for SocketMessage {
    type V = FrameView;

    open spec fn view(&self) -> FrameView {
        FrameView { id: self.id, kind: self.kind, msg: self.msg@ }
    }
}

impl SocketMessage {
    /// A frame with id 0, kind `AddShareObjectRequest` and an empty payload.
    pub fn new() -> (r: SocketMessage)
        ensures
            r.id == 0,
            r.kind == MessageType::AddShareObjectRequest,
            r.msg@ == Seq::<u8>::empty(),
    {
        SocketMessage { id: 0, kind: MessageType::AddShareObjectRequest, msg: Vec::new() }
    }

    pub fn set_id(self, id: u64) -> (r: SocketMessage)
        ensures
            r.id == id,
            r.kind == self.kind,
            r.msg@ == self.msg@,
    {
        let mut s = self;
        s.id = id;
        s
    }

    pub fn set_kind(self, kind: MessageType) -> (r: SocketMessage)
        ensures
            r.id == self.id,
            r.kind == kind,
            r.msg@ == self.msg@,
    {
        let mut s = self;
        s.kind = kind;
        s
    }

    pub fn set_body(self, body: &[u8]) -> (r: SocketMessage)
        ensures
            r.id == self.id,
            r.kind == self.kind,
            r.msg@ == body@,
    {
        let mut s = self;
        let mut v: Vec<u8> = Vec::new();
        push_all(&mut v, body);
        s.msg = v;
        s
    }

    /// A frame with the same id, kind and payload.
    pub fn duplicate(&self) -> (r: SocketMessage)
        ensures
            r@ == self@,
    {
        let mut v: Vec<u8> = Vec::new();
        push_all(&mut v, self.msg.as_slice());
        SocketMessage { id: self.id, kind: self.kind, msg: v }
    }

    pub fn body(&self) -> (r: &[u8])
        ensures
            r@ == self.msg@,
    {
        self.msg.as_slice()
    }

    pub fn id(&self) -> (r: u64)
        ensures
            r == self.id,
    {
        self.id
    }

    pub fn kind(&self) -> (r: MessageType)
        ensures
            r == self.kind,
    {
        self.kind
    }
}


pub open spec fn id_open() -> Seq<u8> {
    seq![123u8, 34, 105, 100, 34, 58]
}

pub open spec fn kind_open() -> Seq<u8> {
    seq![44u8, 34, 107, 105, 110, 100, 34, 58]
}

pub open spec fn msg_open() -> Seq<u8> {
    seq![44u8, 34, 109, 115, 103, 34, 58, 91]
}

pub open spec fn frame_close() -> Seq<u8> {
    seq![93u8, 125]
}

/// The wire text of a frame with the given id, kind code and payload:
/// `{"id":<id>,"kind":<code>,"msg":[<byte>,...]}`.
pub open spec fn frame_bytes(id: u64, code: u64, msg: Seq<u8>) -> Seq<u8> {
    id_open() + dec(id as nat) + kind_open() + dec(code as nat) + msg_open() + list_bytes(msg)
        + frame_close()
}

/// Whether `b` is the wire text of some frame, whatever its kind code.
pub open spec fn is_frame_text(b: Seq<u8>) -> bool {
    exists|t: (u64, u64, Seq<u8>)| frame_bytes(t.0, t.1, t.2) == b
}

/// Why a text is not a frame.
#[derive(Clone, Copy, PartialEq, Eq, Structural, Debug)]
pub enum FrameError {
    /// The text is not of the shape of a frame.
    Malformed,
    /// The text is of the shape of a frame whose kind code names no kind.
    UnknownKind(u64),
}

impl SocketMessage {
    pub open spec fn spec_bytes(&self) -> Seq<u8> {
        frame_bytes(self.id, self.kind.spec_code(), self.msg@)
    }

    /// The wire text of this frame (without the line terminator).
    pub fn as_bytes(&self) -> (r: Vec<u8>)
        ensures
            r@ == self.spec_bytes(),
    {
        let mut out: Vec<u8> = Vec::new();
        let id_lit: [u8; 6] = [123, 34, 105, 100, 34, 58];
        let kind_lit: [u8; 8] = [44, 34, 107, 105, 110, 100, 34, 58];
        let msg_lit: [u8; 8] = [44, 34, 109, 115, 103, 34, 58, 91];
        assert(id_lit@ =~= id_open());
        assert(kind_lit@ =~= kind_open());
        assert(msg_lit@ =~= msg_open());
        push_all(&mut out, &id_lit);
        write_dec(&mut out, self.id);
        push_all(&mut out, &kind_lit);
        write_dec(&mut out, self.kind.code());
        push_all(&mut out, &msg_lit);
        let ghost start = out@;
        let mut i: usize = 0;
        while i < self.msg.len()
            invariant
                i <= self.msg@.len(),
                out@ == start + list_bytes(self.msg@.subrange(0, i as int)),
            decreases self.msg@.len() - i,
        {
            proof {
                let s = self.msg@.subrange(0, i as int);
                assert(self.msg@.subrange(0, i + 1) =~= s.push(self.msg@[i as int]));
                if i > 0 {
                    lemma_list_push(s, self.msg@[i as int]);
                } else {
                    assert(s.push(self.msg@[0]).skip(1) =~= Seq::<u8>::empty());
                    assert(list_bytes(s.push(self.msg@[0])) =~= dec(self.msg@[0] as nat));
                }
            }
            if i > 0 {
                out.push(44);
            }
            write_dec(&mut out, self.msg[i] as u64);
            i = i + 1;
            proof {
                if i > 1 {
                    assert(out@ =~= start + list_bytes(self.msg@.subrange(0, i as int)));
                } else {
                    assert(out@ =~= start + list_bytes(self.msg@.subrange(0, i as int)));
                }
            }
        }
        out.push(93);
        out.push(125);
        assert(self.msg@.subrange(0, i as int) =~= self.msg@);
        assert(out@ =~= self.spec_bytes());
        out
    }

    /// The wire text of this frame followed by the line terminator.
    pub fn as_line(&self) -> (r: Vec<u8>)
        ensures
            r@ == self.spec_bytes().push(10),
    {
        let mut v = self.as_bytes();
        v.push(10);
        v
    }

    /// Reads a frame from its wire text (without the line terminator): the
    /// compact form that `as_bytes` writes and serde_json writes for a frame,
    /// with the keys in the order `id`, `kind`, `msg` and no white space.
    /// Any other text is refused, also JSON of the same frame laid out
    /// otherwise (with white space, or its keys in another order).
    pub fn from_bytes(data: &[u8]) -> (r: Result<SocketMessage, FrameError>)
        ensures
            r matches Ok(m) ==> m.spec_bytes() == data@,
            r matches Err(FrameError::UnknownKind(c)) ==> c > MAX_KIND_CODE && exists|
                t: (u64, Seq<u8>),
            | frame_bytes(t.0, c, t.1) == data@,
            r matches Err(FrameError::Malformed) ==> !is_frame_text(data@),
    {
        let (id, code, msg) = match read_frame_parts(data) {
            None => {
                return Err(FrameError::Malformed);
            },
            Some(parts) => parts,
        };
        let ghost body = msg@;
        match MessageType::from_code(code) {
            Some(kind) => {
                let m = SocketMessage { id, kind, msg };
                assert(m.spec_bytes() == frame_bytes(id, code, body));
                Ok(m)
            },
            None => {
                let ghost w: (u64, Seq<u8>) = (id, body);
                assert(frame_bytes(w.0, code, w.1) == data@);
                Err(FrameError::UnknownKind(code))
            },
        }
    }
}


/// Reads the id, the kind code and the payload of a frame from its wire text.
#[verifier::rlimit(40)]
fn read_frame_parts(data: &[u8]) -> (r: Option<(u64, u64, Vec<u8>)>)
    ensures
        match r {
            Some((id, code, msg)) => frame_bytes(id, code, msg@) == data@,
            None => !is_frame_text(data@),
        },
{
    let dlen = data.len();
    let ghost has = is_frame_text(data@);
    let ghost t: (u64, u64, Seq<u8>) = if has {
        choose|t: (u64, u64, Seq<u8>)| frame_bytes(t.0, t.1, t.2) == data@
    } else {
        (0, 0, Seq::empty())
    };
    let ghost len = data@.len() as int;
    let ghost r1 = dec(t.0 as nat) + kind_open() + dec(t.1 as nat) + msg_open() + list_bytes(t.2)
        + frame_close();
    let ghost r2 = kind_open() + dec(t.1 as nat) + msg_open() + list_bytes(t.2) + frame_close();
    let ghost r3 = dec(t.1 as nat) + msg_open() + list_bytes(t.2) + frame_close();
    let ghost r4 = msg_open() + list_bytes(t.2) + frame_close();
    let ghost r5 = list_bytes(t.2) + frame_close();
    let id_lit: [u8; 6] = [123, 34, 105, 100, 34, 58];
    let kind_lit: [u8; 8] = [44, 34, 107, 105, 110, 100, 34, 58];
    let msg_lit: [u8; 8] = [44, 34, 109, 115, 103, 34, 58, 91];
    let close_lit: [u8; 2] = [93, 125];
    assert(id_lit@ =~= id_open());
    assert(kind_lit@ =~= kind_open());
    assert(msg_lit@ =~= msg_open());
    assert(close_lit@ =~= frame_close());
    proof {
        if has {
            assert(data@.subrange(0, len) =~= id_open() + r1);
            lemma_lit_in(data@, 0, id_open(), r1);
            assert(r1 =~= dec(t.0 as nat) + r2);
            lemma_number_in(data@, 6, t.0, r2);
        }
    }
    if !expect_at(data, 0, &id_lit) {
        return None;
    }
    let (id, e1) = match read_dec(data, 6) {
        None => {
            return None;
        },
        Some(x) => x,
    };
    proof {
        if has {
            assert(r2 =~= kind_open() + r3);
            lemma_lit_in(data@, e1 as int, kind_open(), r3);
            assert(r3 =~= dec(t.1 as nat) + r4);
            lemma_number_in(data@, e1 + 8, t.1, r4);
        }
    }
    if !expect_at(data, e1, &kind_lit) {
        return None;
    }
    let (code, e2) = match read_dec(data, e1 + 8) {
        None => {
            return None;
        },
        Some(x) => x,
    };
    proof {
        if has {
            assert(r4 =~= msg_open() + r5);
            lemma_lit_in(data@, e2 as int, msg_open(), r5);
        }
    }
    if !expect_at(data, e2, &msg_lit) {
        return None;
    }
    let (msg, e3) = match read_list(data, e2 + 8, Ghost(t.2), Ghost(frame_close())) {
        None => {
            return None;
        },
        Some(x) => x,
    };
    proof {
        if has {
            lemma_lit_in(data@, e2 + 8, list_bytes(t.2), frame_close());
            assert(frame_close() + Seq::<u8>::empty() =~= frame_close());
            lemma_lit_in(data@, e3 as int, frame_close(), Seq::empty());
        }
    }
    if !expect_at(data, e3, &close_lit) || e3 + 2 != dlen {
        return None;
    }
    proof {
        lemma_frame_assembled(data@, e1 as int, e2 as int, e3 as int, id, code, msg@);
    }
    Some((id, code, msg))
}

proof fn lemma_frame_assembled(
    data: Seq<u8>,
    e1: int,
    e2: int,
    e3: int,
    id: u64,
    code: u64,
    msg: Seq<u8>,
)
    requires
        6 < e1,
        e1 + 8 < e2,
        e2 + 8 <= e3,
        e3 + 2 == data.len(),
        data.subrange(0, 6) == id_open(),
        data.subrange(6, e1) == dec(id as nat),
        data.subrange(e1, e1 + 8) == kind_open(),
        data.subrange(e1 + 8, e2) == dec(code as nat),
        data.subrange(e2, e2 + 8) == msg_open(),
        data.subrange(e2 + 8, e3) == list_bytes(msg),
        data.subrange(e3, e3 + 2) == frame_close(),
    ensures
        data == frame_bytes(id, code, msg),
{
    assert(data =~= data.subrange(0, 6) + data.subrange(6, e1) + data.subrange(e1, e1 + 8)
        + data.subrange(e1 + 8, e2) + data.subrange(e2, e2 + 8) + data.subrange(e2 + 8, e3)
        + data.subrange(e3, e3 + 2));
}

proof fn lemma_frame_nested(id: u64, code: u64, msg: Seq<u8>)
    ensures
        frame_bytes(id, code, msg) == id_open() + (dec(id as nat) + (kind_open() + (dec(
            code as nat,
        ) + (msg_open() + (list_bytes(msg) + frame_close()))))),
{
    assert(frame_bytes(id, code, msg) =~= id_open() + (dec(id as nat) + (kind_open() + (dec(
        code as nat,
    ) + (msg_open() + (list_bytes(msg) + frame_close()))))));
}

proof fn lemma_skip_prefix(a: Seq<u8>, b: Seq<u8>)
    ensures
        (a + b).skip(a.len() as int) == b,
{
    assert((a + b).skip(a.len() as int) =~= b);
}

/// Whether `b` is the wire text of a frame of a known kind.
pub open spec fn is_known_frame(b: Seq<u8>) -> bool {
    exists|t: (u64, MessageType, Seq<u8>)| frame_bytes(t.0, t.1.spec_code(), t.2) == b
}

/// The registry's answer; where the registry could not be reached, a frame
/// of kind `msg_type` whose body is the text of the error.
pub fn result_to_socket_message(res: Result<Option<SocketMessage>, String>, msg_type: MessageType) -> (r:
    SocketMessage)
    requires
        !(res matches Ok(None)),
    ensures
        res matches Ok(Some(m)) ==> r@ == m@,
        res matches Err(e) ==> r@ == (FrameView {
            id: 0,
            kind: msg_type,
            msg: encode_utf8(e@),
        }),
{
    match res {
        Ok(Some(m)) => m,
        Ok(None) => SocketMessage::new(),
        Err(e) => SocketMessage::new().set_kind(msg_type).set_body(e.as_str().as_bytes()),
    }
}

/// Different frames have different wire texts.
pub proof fn lemma_frame_bytes_injective(a: (u64, u64, Seq<u8>), b: (u64, u64, Seq<u8>))
    requires
        frame_bytes(a.0, a.1, a.2) == frame_bytes(b.0, b.1, b.2),
    ensures
        a == b,
{
    let la = list_bytes(a.2) + frame_close();
    let lb = list_bytes(b.2) + frame_close();
    let ka = dec(a.1 as nat) + (msg_open() + la);
    let kb = dec(b.1 as nat) + (msg_open() + lb);
    let ia = dec(a.0 as nat) + (kind_open() + ka);
    let ib = dec(b.0 as nat) + (kind_open() + kb);
    lemma_frame_nested(a.0, a.1, a.2);
    lemma_frame_nested(b.0, b.1, b.2);
    lemma_skip_prefix(id_open(), ia);
    lemma_skip_prefix(id_open(), ib);
    lemma_numbers_agree(a.0, kind_open() + ka, b.0, kind_open() + kb);
    lemma_skip_prefix(kind_open(), ka);
    lemma_skip_prefix(kind_open(), kb);
    lemma_numbers_agree(a.1, msg_open() + la, b.1, msg_open() + lb);
    lemma_skip_prefix(msg_open(), la);
    lemma_skip_prefix(msg_open(), lb);
    lemma_list_unique(a.2, frame_close(), b.2, frame_close());
}

/// Reading the wire text of a frame gives that frame back: whatever
/// `from_bytes` returns for `f.as_bytes()` is `Ok` of a frame equal to `f`.
pub proof fn lemma_frame_round_trip(f: SocketMessage, r: Result<SocketMessage, FrameError>)
    requires
        match r {
            Ok(m) => m.spec_bytes() == f.spec_bytes(),
            Err(FrameError::UnknownKind(c)) => c > MAX_KIND_CODE && exists|t: (u64, Seq<u8>)|
                frame_bytes(t.0, c, t.1) == f.spec_bytes(),
            Err(FrameError::Malformed) => !is_frame_text(f.spec_bytes()),
        },
    ensures
        r matches Ok(m) && m.id == f.id && m.kind == f.kind && m.msg@ == f.msg@,
{
    let fa = (f.id, f.kind.spec_code(), f.msg@);
    match r {
        Ok(m) => {
            lemma_frame_bytes_injective(fa, (m.id, m.kind.spec_code(), m.msg@));
            lemma_code_injective(m.kind, f.kind);
        },
        Err(FrameError::UnknownKind(c)) => {
            let t = choose|t: (u64, Seq<u8>)| frame_bytes(t.0, c, t.1) == f.spec_bytes();
            lemma_frame_bytes_injective(fa, (t.0, c, t.1));
        },
        Err(FrameError::Malformed) => {
            assert(frame_bytes(fa.0, fa.1, fa.2) == f.spec_bytes());
        },
    }
}

} // verus!
