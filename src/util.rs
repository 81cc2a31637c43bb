//! Splitting a received byte stream into the JSON objects it carries.
use vstd::prelude::*;

use crate::wire::{dec, lemma_dec_digits, list_bytes, tail_bytes};

use crate::message::{
    frame_close, id_open, kind_open, msg_open,
    frame_bytes, is_frame_text, is_known_frame, lemma_code_bound, lemma_frame_bytes_injective, FrameError,
    MessageType, SocketMessage,
};

verus! {

/// What a scan of JSON text knows after some bytes: how many braces are
/// open, whether it is inside a string, and whether the previous byte in a
/// string was a backslash.
pub struct ScanState {
    pub depth: int,
    pub in_str: bool,
    pub escaped: bool,
}

pub open spec fn scan_start() -> ScanState {
    ScanState { depth: 0, in_str: false, escaped: false }
}

/// The scan after byte `c`; braces inside strings are not counted.
pub open spec fn scan_step(st: ScanState, c: u8) -> ScanState {
    if st.in_str {
        if st.escaped {
            ScanState { depth: st.depth, in_str: true, escaped: false }
        } else if c == 92 {
            ScanState { depth: st.depth, in_str: true, escaped: true }
        } else if c == 34 {
            ScanState { depth: st.depth, in_str: false, escaped: false }
        } else {
            st
        }
    } else if c == 34 {
        ScanState { depth: st.depth, in_str: true, escaped: false }
    } else if c == 123 {
        ScanState { depth: st.depth + 1, in_str: false, escaped: false }
    } else if c == 125 {
        ScanState { depth: st.depth - 1, in_str: false, escaped: false }
    } else {
        st
    }
}

/// Scanning `b` from index `i` in state `st`: the index just past the byte
/// that closes every open brace, if there is one.
pub open spec fn close_from(b: Seq<u8>, i: int, st: ScanState) -> Option<int>
    decreases b.len() - i,
{
    if i < 0 || i >= b.len() {
        None
    } else {
        let next = scan_step(st, b[i]);
        if next.depth <= 0 {
            Some(i + 1)
        } else {
            close_from(b, i + 1, next)
        }
    }
}

/// A JSON object: it opens with `{`, and its braces are first all closed at
/// its last byte.
pub open spec fn is_object(b: Seq<u8>) -> bool {
    b.len() > 0 && b[0] == 123 && close_from(b, 0, scan_start()) == Some(b.len() as int)
}

pub open spec fn is_space(c: u8) -> bool {
    c == 32 || c == 10 || c == 13 || c == 9
}

/// The objects of a stream: each opens with `{` and runs until its braces
/// close; white space between them is skipped; anything else, or an object
/// that does not close, makes the stream invalid.
pub open spec fn split_spec(b: Seq<u8>) -> Option<Seq<Seq<u8>>>
    decreases b.len(),
{
    if b.len() == 0 {
        Some(Seq::empty())
    } else if is_space(b[0]) {
        split_spec(b.skip(1))
    } else if b[0] == 123 {
        match close_from(b, 0, scan_start()) {
            Some(e) => if 0 < e <= b.len() {
                match split_spec(b.skip(e)) {
                    Some(rest) => Some(seq![b.take(e)] + rest),
                    None => None,
                }
            } else {
                None
            },
            None => None,
        }
    } else {
        None
    }
}

/// The byte strings one after the other.
pub open spec fn concat(bs: Seq<Seq<u8>>) -> Seq<u8>
    decreases bs.len(),
{
    if bs.len() == 0 {
        Seq::empty()
    } else {
        bs[0] + concat(bs.skip(1))
    }
}

/// The byte strings one after the other, each followed by a newline.
pub open spec fn concat_lines(bs: Seq<Seq<u8>>) -> Seq<u8>
    decreases bs.len(),
{
    if bs.len() == 0 {
        Seq::empty()
    } else {
        bs[0] + seq![10u8] + concat_lines(bs.skip(1))
    }
}

/// Bytes after the closing point do not change where an object closes.
pub proof fn lemma_close_prefix(x: Seq<u8>, y: Seq<u8>, i: int, st: ScanState)
    requires
        0 <= i,
        close_from(x, i, st) is Some,
    ensures
        close_from(x + y, i, st) == close_from(x, i, st),
    decreases x.len() - i,
{
    if i < x.len() {
        assert((x + y)[i] == x[i]);
        let next = scan_step(st, x[i]);
        if next.depth > 0 {
            lemma_close_prefix(x, y, i + 1, next);
        }
    }
}

proof fn lemma_split_object_first(x: Seq<u8>, rest: Seq<u8>)
    requires
        is_object(x),
    ensures
        split_spec(x + rest) == match split_spec(rest) {
            Some(r) => Some(seq![x] + r),
            None => None::<Seq<Seq<u8>>>,
        },
{
    lemma_close_prefix(x, rest, 0, scan_start());
    let b = x + rest;
    assert(b[0] == 123);
    assert(b.take(x.len() as int) =~= x);
    assert(b.skip(x.len() as int) =~= rest);
}

/// Splitting objects written one after the other gives them back.
pub proof fn lemma_split_concat(bs: Seq<Seq<u8>>)
    requires
        forall|k: int| 0 <= k < bs.len() ==> is_object(#[trigger] bs[k]),
    ensures
        split_spec(concat(bs)) == Some(bs),
    decreases bs.len(),
{
    if bs.len() == 0 {
        assert(split_spec(concat(bs)) == Some(Seq::<Seq<u8>>::empty()));
        assert(bs =~= Seq::<Seq<u8>>::empty());
    } else {
        let tail = bs.skip(1);
        assert forall|k: int| 0 <= k < tail.len() implies is_object(#[trigger] tail[k]) by {
            assert(tail[k] == bs[k + 1]);
        }
        lemma_split_concat(tail);
        assert(is_object(bs[0]));
        lemma_split_object_first(bs[0], concat(tail));
        assert(seq![bs[0]] + tail =~= bs);
    }
}

/// Splitting objects that each end with a newline gives them back.
pub proof fn lemma_split_concat_lines(bs: Seq<Seq<u8>>)
    requires
        forall|k: int| 0 <= k < bs.len() ==> is_object(#[trigger] bs[k]),
    ensures
        split_spec(concat_lines(bs)) == Some(bs),
    decreases bs.len(),
{
    if bs.len() == 0 {
        assert(split_spec(concat_lines(bs)) == Some(Seq::<Seq<u8>>::empty()));
        assert(bs =~= Seq::<Seq<u8>>::empty());
    } else {
        let tail = bs.skip(1);
        assert forall|k: int| 0 <= k < tail.len() implies is_object(#[trigger] tail[k]) by {
            assert(tail[k] == bs[k + 1]);
        }
        lemma_split_concat_lines(tail);
        assert(is_object(bs[0]));
        let rest = seq![10u8] + concat_lines(tail);
        assert(concat_lines(bs) =~= bs[0] + rest);
        assert(rest.skip(1) =~= concat_lines(tail));
        assert(split_spec(rest) == split_spec(concat_lines(tail)));
        lemma_split_object_first(bs[0], rest);
        assert(seq![bs[0]] + tail =~= bs);
    }
}

/// No byte that the scan counts: no quote, backslash or brace.
pub open spec fn is_plain(b: Seq<u8>) -> bool {
    forall|i: int| 0 <= i < b.len() ==> b[i] != 34 && b[i] != 92 && b[i] != 123 && b[i] != 125
}

pub open spec fn shift(o: Option<int>, k: int) -> Option<int> {
    match o {
        Some(e) => Some(e + k),
        None => None,
    }
}

proof fn lemma_close_shift(x: Seq<u8>, y: Seq<u8>, j: int, st: ScanState)
    requires
        0 <= j,
    ensures
        close_from(x + y, x.len() + j, st) == shift(close_from(y, j, st), x.len() as int),
    decreases y.len() - j,
{
    if j < y.len() {
        assert((x + y)[x.len() + j] == y[j]);
        lemma_close_shift(x, y, j + 1, scan_step(st, y[j]));
    }
}

proof fn lemma_skip_plain(b: Seq<u8>, i: int, n: int, st: ScanState)
    requires
        0 <= i,
        0 <= n,
        i + n <= b.len(),
        is_plain(b.subrange(i, i + n)),
        st.depth > 0,
        !st.escaped,
    ensures
        close_from(b, i, st) == close_from(b, i + n, st),
    decreases n,
{
    if n > 0 {
        assert(b.subrange(i, i + n)[0] == b[i]);
        assert(scan_step(st, b[i]) == st);
        assert forall|j: int| 0 <= j < n - 1 implies #[trigger] b.subrange(i + 1, i + n)[j] == b.subrange(
            i,
            i + n,
        )[j + 1] by {}
        lemma_skip_plain(b, i + 1, n - 1, st);
    }
}

/// A run of plain bytes changes nothing in the scan.
proof fn lemma_plain_prefix(seg: Seq<u8>, rest: Seq<u8>, st: ScanState)
    requires
        is_plain(seg),
        st.depth > 0,
        !st.escaped,
    ensures
        close_from(seg + rest, 0, st) == shift(close_from(rest, 0, st), seg.len() as int),
{
    let b = seg + rest;
    assert(b.subrange(0, seg.len() as int) =~= seg);
    lemma_skip_plain(b, 0, seg.len() as int, st);
    lemma_close_shift(seg, rest, 0, st);
}

/// A quote opens or closes a string.
proof fn lemma_quote_prefix(rest: Seq<u8>, st: ScanState)
    requires
        st.depth > 0,
        !st.escaped,
    ensures
        close_from(seq![34u8] + rest, 0, st) == shift(
            close_from(rest, 0, ScanState { depth: st.depth, in_str: !st.in_str, escaped: false }),
            1,
        ),
{
    let b = seq![34u8] + rest;
    assert(b[0] == 34);
    lemma_close_shift(seq![34u8], rest, 0, ScanState { depth: st.depth, in_str: !st.in_str, escaped: false });
}

/// A quoted name without quotes or backslashes in it changes nothing in the
/// scan.
proof fn lemma_name_prefix(name: Seq<u8>, rest: Seq<u8>, st: ScanState)
    requires
        is_plain(name),
        st.depth > 0,
        !st.in_str,
        !st.escaped,
    ensures
        close_from(seq![34u8] + name + seq![34u8] + rest, 0, st) == shift(
            close_from(rest, 0, st),
            name.len() + 2int,
        ),
{
    let inside = ScanState { depth: st.depth, in_str: true, escaped: false };
    assert(seq![34u8] + name + seq![34u8] + rest =~= seq![34u8] + (name + (seq![34u8] + rest)));
    lemma_quote_prefix(name + (seq![34u8] + rest), st);
    lemma_plain_prefix(name, seq![34u8] + rest, inside);
    lemma_quote_prefix(rest, inside);
    assert(ScanState { depth: inside.depth, in_str: !inside.in_str, escaped: false } == st);
}

proof fn lemma_dec_plain(n: nat)
    ensures
        is_plain(dec(n)),
{
    lemma_dec_digits(n);
}

proof fn lemma_tail_plain(s: Seq<u8>)
    ensures
        is_plain(tail_bytes(s)),
    decreases s.len(),
{
    if s.len() > 0 {
        lemma_dec_digits(s[0] as nat);
        lemma_tail_plain(s.skip(1));
        let a = seq![44u8] + dec(s[0] as nat);
        assert forall|i: int| 0 <= i < tail_bytes(s).len() implies tail_bytes(s)[i] != 34
            && tail_bytes(s)[i] != 92 && tail_bytes(s)[i] != 123 && tail_bytes(s)[i] != 125 by {
            if i >= a.len() {
                assert(tail_bytes(s)[i] == tail_bytes(s.skip(1))[i - a.len()]);
            } else if i > 0 {
                assert(tail_bytes(s)[i] == dec(s[0] as nat)[i - 1]);
            }
        }
    }
}

proof fn lemma_list_plain(s: Seq<u8>)
    ensures
        is_plain(list_bytes(s)),
{
    if s.len() > 0 {
        lemma_dec_digits(s[0] as nat);
        lemma_tail_plain(s.skip(1));
        let d = dec(s[0] as nat);
        assert forall|i: int| 0 <= i < list_bytes(s).len() implies list_bytes(s)[i] != 34
            && list_bytes(s)[i] != 92 && list_bytes(s)[i] != 123 && list_bytes(s)[i] != 125 by {
            if i >= d.len() {
                assert(list_bytes(s)[i] == tail_bytes(s.skip(1))[i - d.len()]);
            }
        }
    }
}

proof fn lemma_plain_between(a: Seq<u8>, mid: Seq<u8>, z: Seq<u8>)
    requires
        is_plain(a),
        is_plain(mid),
        is_plain(z),
    ensures
        is_plain(a + mid + z),
{
    assert forall|i: int| 0 <= i < (a + mid + z).len() implies (a + mid + z)[i] != 34 && (a + mid
        + z)[i] != 92 && (a + mid + z)[i] != 123 && (a + mid + z)[i] != 125 by {
        if i < a.len() {
            assert((a + mid + z)[i] == a[i]);
        } else if i < a.len() + mid.len() {
            assert((a + mid + z)[i] == mid[i - a.len()]);
        } else {
            assert((a + mid + z)[i] == z[i - a.len() - mid.len()]);
        }
    }
}

/// The wire text of every frame is one JSON object.
pub proof fn lemma_frame_is_object(id: u64, code: u64, msg: Seq<u8>)
    ensures
        is_object(frame_bytes(id, code, msg)),
{
    let f = frame_bytes(id, code, msg);
    let one = ScanState { depth: 1, in_str: false, escaped: false };
    let p1 = seq![58u8] + dec(id as nat) + seq![44u8];
    let p2 = seq![58u8] + dec(code as nat) + seq![44u8];
    let p3 = seq![58u8, 91] + list_bytes(msg) + seq![93u8];
    let id_name = seq![105u8, 100];
    let kind_name = seq![107u8, 105, 110, 100];
    let msg_name = seq![109u8, 115, 103];
    let t6 = p3 + seq![125u8];
    let t5 = seq![34u8] + msg_name + seq![34u8] + t6;
    let t4 = p2 + t5;
    let t3 = seq![34u8] + kind_name + seq![34u8] + t4;
    let t2 = p1 + t3;
    let t1 = seq![34u8] + id_name + seq![34u8] + t2;
    assert(f =~= seq![123u8] + t1);
    lemma_dec_plain(id as nat);
    lemma_dec_plain(code as nat);
    lemma_list_plain(msg);
    lemma_plain_between(seq![58u8], dec(id as nat), seq![44u8]);
    lemma_plain_between(seq![58u8], dec(code as nat), seq![44u8]);
    lemma_plain_between(seq![58u8, 91], list_bytes(msg), seq![93u8]);
    assert(close_from(f, 0, scan_start()) == close_from(f, 1, one));
    lemma_close_shift(seq![123u8], t1, 0, one);
    lemma_name_prefix(id_name, t2, one);
    lemma_plain_prefix(p1, t3, one);
    lemma_name_prefix(kind_name, t4, one);
    lemma_plain_prefix(p2, t5, one);
    lemma_name_prefix(msg_name, t6, one);
    lemma_plain_prefix(p3, seq![125u8], one);
    assert(close_from(seq![125u8], 0, one) == Some(1int));
    assert(f[0] == 123);
}

/// The wire texts of frames given by id, kind and payload.
pub open spec fn frame_texts(frames: Seq<(u64, MessageType, Seq<u8>)>) -> Seq<Seq<u8>> {
    frames.map_values(|t: (u64, MessageType, Seq<u8>)| frame_bytes(t.0, t.1.spec_code(), t.2))
}

/// Frames written one after another on a connection, each as a line, split
/// back into their wire texts, in order; each of them is then read by
/// `SocketMessage::from_bytes` as the frame that was written
/// (`lemma_frame_round_trip`).
pub proof fn lemma_frame_lines_split(frames: Seq<(u64, MessageType, Seq<u8>)>)
    ensures
        split_spec(concat_lines(frame_texts(frames)))
            == Some(frame_texts(frames)),
        forall|k: int| 0 <= k < frames.len() ==> is_known_frame(
            #[trigger] frame_texts(frames)[k],
        ),
{
    let texts = frame_texts(frames);
    assert forall|k: int| 0 <= k < texts.len() implies is_object(#[trigger] texts[k]) by {
        lemma_frame_is_object(frames[k].0, frames[k].1.spec_code(), frames[k].2);
    }
    lemma_split_concat_lines(texts);
    assert forall|k: int| 0 <= k < frames.len() implies is_known_frame(#[trigger] texts[k]) by {
        let t = frames[k];
        assert(frame_bytes(t.0, t.1.spec_code(), t.2) == texts[k]);
    }
}

/// What each byte buffer holds.
pub open spec fn parts_view(v: Seq<Vec<u8>>) -> Seq<Seq<u8>> {
    v.map_values(|p: Vec<u8>| p@)
}

pub open spec fn prepend(p: Seq<Seq<u8>>, o: Option<Seq<Seq<u8>>>) -> Option<Seq<Seq<u8>>> {
    match o {
        Some(r) => Some(p + r),
        None => None,
    }
}

/// The bytes of `b` from `lo` up to `hi`.
pub fn copy_range(b: &[u8], lo: usize, hi: usize) -> (r: Vec<u8>)
    requires
        lo <= hi <= b@.len(),
    ensures
        r@ == b@.subrange(lo as int, hi as int),
{
    let mut out: Vec<u8> = Vec::new();
    let mut i: usize = lo;
    while i < hi
        invariant
            lo <= i <= hi <= b@.len(),
            out@ == b@.subrange(lo as int, i as int),
        decreases hi - i,
    {
        out.push(b[i]);
        i = i + 1;
        assert(out@ =~= b@.subrange(lo as int, i as int));
    }
    out
}

/// Where the object that opens at `start` closes: the index just past its
/// last byte.
fn object_end(b: &[u8], start: usize) -> (r: Option<usize>)
    requires
        start < b@.len(),
        b@[start as int] == 123,
    ensures
        match r {
            Some(e) => start < e <= b@.len() && close_from(b@.skip(start as int), 0, scan_start())
                == Some(e - start),
            None => close_from(b@.skip(start as int), 0, scan_start()) is None,
        },
{
    let ghost s = b@.skip(start as int);
    let mut j: usize = start;
    let mut depth: usize = 0;
    let mut in_str = false;
    let mut escaped = false;
    let n = b.len();
    while j < n
        invariant
            n == b@.len(),
            s == b@.skip(start as int),
            b@[start as int] == 123,
            start <= j <= n,
            depth <= j - start,
            j > start ==> depth >= 1,
            !in_str ==> !escaped,
            j == start ==> depth == 0 && !in_str && !escaped,
            close_from(s, 0, scan_start()) == close_from(
                s,
                j - start,
                ScanState { depth: depth as int, in_str, escaped },
            ),
        decreases n - j,
    {
        let c = b[j];
        assert(s[j - start] == c);
        let ghost st = ScanState { depth: depth as int, in_str, escaped };
        let ghost nx = scan_step(st, c);
        if in_str {
            if escaped {
                escaped = false;
            } else if c == 92 {
                escaped = true;
            } else if c == 34 {
                in_str = false;
            }
        } else if c == 34 {
            in_str = true;
        } else if c == 123 {
            depth = depth + 1;
        } else if c == 125 {
            depth = depth - 1;
            if depth == 0 {
                return Some(j + 1);
            }
        }
        assert(nx == ScanState { depth: depth as int, in_str, escaped });
        assert(close_from(s, j - start, st) == close_from(s, j - start + 1, nx));
        j = j + 1;
    }
    None
}

/// Splits a received byte stream into the JSON objects it carries, each
/// kept byte for byte. Objects may follow one another directly or with white
/// space (such as the newline that ends each frame) between them; `None`
/// where anything else stands between objects or the last one is cut short.
pub fn separate(data: &[u8]) -> (r: Option<Vec<Vec<u8>>>)
    ensures
        match r {
            Some(v) => split_spec(data@) == Some(parts_view(v@)),
            None => split_spec(data@) is None,
        },
{
    let mut out: Vec<Vec<u8>> = Vec::new();
    let mut i: usize = 0;
    let n = data.len();
    assert(data@.skip(0) =~= data@);
    assert(parts_view(out@) + Seq::<Seq<u8>>::empty() =~= Seq::<Seq<u8>>::empty());
    while i < n
        invariant
            n == data@.len(),
            i <= n,
            split_spec(data@) == prepend(parts_view(out@), split_spec(data@.skip(i as int))),
        decreases n - i,
    {
        let ghost rest = data@.skip(i as int);
        assert(rest[0] == data@[i as int]);
        let c = data[i];
        if c == 32 || c == 10 || c == 13 || c == 9 {
            assert(rest.skip(1) =~= data@.skip(i + 1));
            i = i + 1;
        } else if c == 123 {
            match object_end(data, i) {
                None => {
                    return None;
                },
                Some(e) => {
                    let part = copy_range(data, i, e);
                    proof {
                        assert(rest.skip(e - i) =~= data@.skip(e as int));
                        assert(rest.take(e - i) =~= data@.subrange(i as int, e as int));
                        let old_view = parts_view(out@);
                        assert(parts_view(out@.push(part)) =~= old_view.push(part@));
                        match split_spec(data@.skip(e as int)) {
                            Some(tail) => {
                                assert(old_view + (seq![part@] + tail) =~= old_view.push(part@)
                                    + tail);
                            },
                            None => {},
                        }
                    }
                    out.push(part);
                    i = e;
                },
            }
        } else {
            return None;
        }
    }
    proof {
        assert(data@.skip(i as int) =~= Seq::<u8>::empty());
        assert(parts_view(out@) + Seq::<Seq<u8>>::empty() =~= parts_view(out@));
    }
    Some(out)
}

/// The wire texts of frames of a known kind among `parts`, in order.
pub open spec fn known_frames(parts: Seq<Seq<u8>>) -> Seq<Seq<u8>> {
    parts.filter(|b: Seq<u8>| is_known_frame(b))
}

proof fn lemma_known_frames_last(s: Seq<Seq<u8>>)
    requires
        s.len() > 0,
    ensures
        known_frames(s) == if is_known_frame(s.last()) {
            known_frames(s.drop_last()).push(s.last())
        } else {
            known_frames(s.drop_last())
        },
{
    reveal(Seq::filter);
}

/// The wire texts of the frames.
pub open spec fn texts_of(frames: Seq<SocketMessage>) -> Seq<Seq<u8>> {
    frames.map_values(|m: SocketMessage| m.spec_bytes())
}

/// Reads the frames that a received buffer carries, in order. An object
/// that is not a frame of a known kind is skipped, and the frames after it
/// are still read; the flag says whether every object was a frame. A buffer
/// that does not split into objects gives no frame.
pub fn read_frames(data: &[u8]) -> (r: (Vec<SocketMessage>, bool))
    ensures
        match split_spec(data@) {
            None => r.0@.len() == 0 && !r.1,
            Some(parts) => {
                &&& texts_of(r.0@) == known_frames(parts)
                &&& r.1 == (forall|i: int| 0 <= i < parts.len() ==> is_known_frame(#[trigger] parts[i]))
            },
        },
{
    let mut frames: Vec<SocketMessage> = Vec::new();
    let parts = match separate(data) {
        None => {
            return (frames, false);
        },
        Some(p) => p,
    };
    let ghost view = parts_view(parts@);
    let mut all = true;
    let mut i: usize = 0;
    assert(view.take(0) =~= Seq::<Seq<u8>>::empty());
    assert(texts_of(frames@) =~= Seq::<Seq<u8>>::empty());
    while i < parts.len()
        invariant
            i <= parts@.len(),
            view == parts_view(parts@),
            split_spec(data@) == Some(view),
            texts_of(frames@) == known_frames(view.take(i as int)),
            all == (forall|j: int| 0 <= j < i ==> is_known_frame(#[trigger] view[j])),
        decreases parts@.len() - i,
    {
        let ghost b = view[i as int];
        assert(b == parts@[i as int]@);
        assert(view.take(i + 1).drop_last() =~= view.take(i as int));
        assert(view.take(i + 1).last() == b);
        proof {
            lemma_known_frames_last(view.take(i + 1));
        }
        let ghost before = frames@;
        match SocketMessage::from_bytes(parts[i].as_slice()) {
            Ok(m) => {
                proof {
                    let t: (u64, MessageType, Seq<u8>) = (m.id, m.kind, m.msg@);
                    assert(frame_bytes(t.0, t.1.spec_code(), t.2) == b);
                    assert(is_known_frame(b));
                }
                frames.push(m);
                assert(texts_of(frames@) =~= texts_of(before).push(b));
            },
            Err(e) => {
                proof {
                    if is_known_frame(b) {
                        let t = choose|t: (u64, MessageType, Seq<u8>)|
                            frame_bytes(t.0, t.1.spec_code(), t.2) == b;
                        let w: (u64, u64, Seq<u8>) = (t.0, t.1.spec_code(), t.2);
                        assert(frame_bytes(w.0, w.1, w.2) == b);
                        assert(is_frame_text(b));
                        lemma_code_bound(t.1);
                        if let FrameError::UnknownKind(c) = e {
                            let u = choose|u: (u64, Seq<u8>)| frame_bytes(u.0, c, u.1) == b;
                            lemma_frame_bytes_injective(w, (u.0, c, u.1));
                        }
                    }
                }
                all = false;
            },
        }
        i = i + 1;
    }
    assert(view.take(i as int) =~= view);
    (frames, all)
}

} // verus!
