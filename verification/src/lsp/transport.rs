//! JSON-RPC message framing over a byte stream.
//!
//! LSP frames each message like a small HTTP message: a `Content-Length: N`
//! header line, a blank line, then exactly `N` bytes of JSON. This module
//! builds such frames and reads them back from a buffer, and proves that a
//! frame reads back as the body it was built from, wherever it stands in the
//! buffer and whatever follows it.
use vstd::prelude::*;
use vstd::utf8::{decode_utf8, encode_utf8, is_ascii_chars, valid_utf8};
use crate::lsp::header::{
    content_length_name, header_end_step, header_line_step, header_step, FrameError, FrameFault,
    HeaderState, HeaderStep,
};
use crate::lsp::json::{json_accepts, json_from_slice, json_parse, json_text, json_to_vec};
use crate::lsp::text::{decimal, parse_usize, push_decimal, trim, trim_end};

verus! {

/// The header block of a frame whose body has `len` bytes:
/// `Content-Length: <len>` and a line break, then a blank line.
pub open spec fn frame_header(len: nat) -> Seq<char> {
    content_length_name() + seq![' '] + decimal(len) + seq!['\r', '\n', '\r', '\n']
}

/// The frame that carries `body`: the UTF-8 header block, then the body bytes.
pub open spec fn encode_frame_spec(body: Seq<u8>) -> Seq<u8> {
    encode_utf8(frame_header(body.len())) + body
}

/// The bytes of an ASCII character sequence, one per character.
pub open spec fn ascii_bytes(cs: Seq<char>) -> Seq<u8> {
    cs.map_values(|c: char| c as u8)
}

proof fn lemma_u32_bound_char(c: char)
    requires
        c as u32 <= 0x7f,
    ensures
        '\0' <= c <= '\u{7f}',
{
}

proof fn lemma_frame_header_ascii(len: nat)
    ensures
        is_ascii_chars(frame_header(len)),
{
    crate::lsp::text::lemma_decimal(len);
    let n = content_length_name() + seq![' '];
    let d = decimal(len);
    let t = seq!['\r', '\n', '\r', '\n'];
    assert(is_ascii_chars(n)) by {
        assert forall|i: int| 0 <= i < n.len() implies '\0' <= #[trigger] n[i] <= '\u{7f}' by {
            assert(n =~= seq!['C', 'o', 'n', 't', 'e', 'n', 't', '-', 'L', 'e', 'n', 'g', 't', 'h', ':', ' ']);
        }
    }
    assert(is_ascii_chars(d)) by {
        assert forall|i: int| 0 <= i < d.len() implies '\0' <= #[trigger] d[i] <= '\u{7f}' by {
            assert(crate::lsp::text::is_digit(d[i]));
            lemma_u32_bound_char(d[i]);
        }
    }
    assert(is_ascii_chars(t));
    vstd::utf8::is_ascii_chars_concat(n + d, n, d);
    vstd::utf8::is_ascii_chars_concat(n + d + t, n + d, t);
}

/// Appends the header block of a frame with a body of `len` bytes to `out`.
fn push_frame_header(out: &mut Vec<u8>, len: usize)
    ensures
        final(out)@ == old(out)@ + encode_utf8(frame_header(len as nat)),
{
    let mut cs: Vec<char> = vec![
        'C',
        'o',
        'n',
        't',
        'e',
        'n',
        't',
        '-',
        'L',
        'e',
        'n',
        'g',
        't',
        'h',
        ':',
        ' ',
    ];
    push_decimal(&mut cs, len);
    cs.push('\r');
    cs.push('\n');
    cs.push('\r');
    cs.push('\n');
    let ghost h = frame_header(len as nat);
    assert(cs@ =~= h);
    proof {
        lemma_frame_header_ascii(len as nat);
        vstd::utf8::is_ascii_chars_encode_utf8(h);
    }
    let ghost start = out@;
    let mut i: usize = 0;
    while i < cs.len()
        invariant
            cs@ == h,
            is_ascii_chars(h),
            h.len() == encode_utf8(h).len(),
            forall|j: int| 0 <= j < h.len() ==> h[j] as u8 == #[trigger] encode_utf8(h)[j],
            i <= cs.len(),
            out@ == start + encode_utf8(h).take(i as int),
        decreases cs.len() - i,
    {
        let c = cs[i];
        out.push(c as u8);
        i = i + 1;
        assert(out@ =~= start + encode_utf8(h).take(i as int));
    }
    assert(encode_utf8(h).take(i as int) =~= encode_utf8(h));
}

/// Appends the bytes of `body` to `out`.
fn push_bytes(out: &mut Vec<u8>, body: &[u8])
    ensures
        final(out)@ == old(out)@ + body@,
{
    let ghost start = out@;
    let mut i: usize = 0;
    while i < body.len()
        invariant
            i <= body.len(),
            out@ == start + body@.take(i as int),
        decreases body.len() - i,
    {
        out.push(body[i]);
        i = i + 1;
        assert(out@ =~= start + body@.take(i as int));
    }
    assert(body@.take(i as int) =~= body@);
}

/// The frame that carries `body`.
pub fn encode_frame(body: &[u8]) -> (r: Vec<u8>)
    ensures
        r@ == encode_frame_spec(body@),
{
    let mut out: Vec<u8> = Vec::new();
    push_frame_header(&mut out, body.len());
    push_bytes(&mut out, body);
    assert(out@ =~= encode_frame_spec(body@));
    out
}


/// Where the line that starts at `pos` ends: just past the first `\n` at or
/// after `pos`, or at the end of `buf` (what one `read_line` consumes).
pub open spec fn line_end(buf: Seq<u8>, pos: int) -> int
    decreases buf.len() - pos,
{
    if pos >= buf.len() {
        buf.len() as int
    } else if buf[pos] == 10 {
        pos + 1
    } else {
        line_end(buf, pos + 1)
    }
}

/// A line ends after its start; every byte before its last is no `\n`, and
/// its last byte is a `\n` unless the line runs to the end of the buffer.
pub proof fn lemma_line_end_shape(buf: Seq<u8>, pos: int)
    requires
        0 <= pos < buf.len(),
    ensures
        pos < line_end(buf, pos) <= buf.len(),
        forall|i: int| pos <= i < line_end(buf, pos) - 1 ==> buf[i] != 10,
        line_end(buf, pos) < buf.len() ==> buf[line_end(buf, pos) - 1] == 10,
    decreases buf.len() - pos,
{
    if buf[pos] != 10 {
        if pos + 1 < buf.len() {
            lemma_line_end_shape(buf, pos + 1);
        } else {
            assert(line_end(buf, pos + 1) == buf.len());
        }
    }
}

/// The header state before the first line of a frame.
pub open spec fn frame_start() -> HeaderState {
    HeaderState { started: false, content_length: None }
}

/// Reads the header lines of a frame from `pos` on, in header state `state`. `Ok(Some((n, start)))`: the header block ended, and the
/// body of `n` bytes starts at `start`; `Ok(None)`: the buffer ended cleanly
/// at a frame boundary; `Err`: the header block is malformed.
pub open spec fn scan_headers(buf: Seq<u8>, pos: int, state: HeaderState) -> Result<
    Option<(usize, int)>,
    FrameFault,
>
    decreases buf.len() - pos,
{
    if pos < 0 || pos >= buf.len() {
        match header_end_step(state) {
            Ok(_) => Ok(None),
            Err(e) => Err(e),
        }
    } else {
        let end = line_end(buf, pos);
        let line = buf.subrange(pos, end);
        if !valid_utf8(line) {
            Err(FrameFault::InvalidUtf8)
        } else {
            match header_line_step(state, decode_utf8(line)) {
                Ok(HeaderStep::Continue(c)) => {
                    proof {
                        lemma_line_end_shape(buf, pos);
                    }
                    scan_headers(buf, end, c)
                },
                Ok(HeaderStep::Body(n)) => Ok(Some((n, end))),
                Ok(HeaderStep::Closed) => Ok(None),
                Err(e) => Err(e),
            }
        }
    }
}

/// Reads one frame from `buf` at `pos`: `Ok(Some((body, next)))` with `next`
/// just past the body, `Ok(None)` at a clean end of the buffer, or the fault.
pub open spec fn read_frame_spec(buf: Seq<u8>, pos: int) -> Result<Option<(Seq<u8>, int)>, FrameFault> {
    match scan_headers(buf, pos, frame_start()) {
        Ok(Some((n, start))) => if start + n <= buf.len() {
            Ok(Some((buf.subrange(start, start + n), start + n)))
        } else {
            Err(FrameFault::TruncatedBody)
        },
        Ok(None) => Ok(None),
        Err(e) => Err(e),
    }
}

/// Calls `std::str::from_utf8`: it succeeds exactly on valid UTF-8, and the
/// string it returns is made of those bytes.
#[verifier::external_body]
fn str_from_utf8(bytes: &[u8]) -> (r: Option<&str>)
    ensures
        r is Some <==> valid_utf8(bytes@),
        r matches Some(s) ==> s@ == decode_utf8(bytes@),
{
    std::str::from_utf8(bytes).ok()
}

/// The end of the line of `buf` that starts at `pos`.
fn find_line_end(buf: &[u8], pos: usize) -> (e: usize)
    requires
        pos < buf@.len(),
    ensures
        e == line_end(buf@, pos as int),
        pos < e <= buf@.len(),
{
    let mut i = pos;
    while i < buf.len() && buf[i] != 10
        invariant
            pos <= i <= buf@.len(),
            line_end(buf@, pos as int) == line_end(buf@, i as int),
        decreases buf@.len() - i,
    {
        i = i + 1;
    }
    if i < buf.len() {
        i + 1
    } else {
        i
    }
}

/// A frame result with its error taken as a plain value and its body by its bytes.
pub open spec fn frame_view(r: Result<Option<(Vec<u8>, usize)>, FrameError>) -> Result<
    Option<(Seq<u8>, int)>,
    FrameFault,
> {
    match r {
        Ok(Some((body, next))) => Ok(Some((body@, next as int))),
        Ok(None) => Ok(None),
        Err(e) => Err(e@),
    }
}

/// Reads one frame from `buf` at `pos`, as a reader of a stream does: header
/// lines up to the blank line, then exactly `Content-Length` body bytes.
/// Returns the body and the position just past it, or `None` when the buffer
/// ends cleanly at a frame boundary.
pub fn read_frame(buf: &[u8], pos: usize) -> (r: Result<Option<(Vec<u8>, usize)>, FrameError>)
    requires
        pos <= buf@.len(),
    ensures
        frame_view(r) == read_frame_spec(buf@, pos as int),
{
    let mut state = HeaderState::new();
    let mut p = pos;
    let mut n: usize = 0;
    let mut start: usize = 0;
    loop
        invariant_except_break
            pos <= p <= buf@.len(),
            scan_headers(buf@, pos as int, frame_start()) == scan_headers(buf@, p as int, state),
        ensures
            scan_headers(buf@, pos as int, frame_start()) == Ok::<Option<(usize, int)>, FrameFault>(
                Some((n, start as int)),
            ),
            start <= buf@.len(),
        decreases buf@.len() - p,
    {
        if p == buf.len() {
            match header_step(state, None) {
                Ok(_) => {
                    return Ok(None);
                },
                Err(e) => {
                    return Err(e);
                },
            }
        }
        let e = find_line_end(buf, p);
        let line = vstd::slice::slice_subrange(buf, p, e);
        let s = match str_from_utf8(line) {
            Some(s) => s,
            None => {
                return Err(FrameError::InvalidUtf8);
            },
        };
        match header_step(state, Some(s)) {
            Ok(HeaderStep::Continue(c)) => {
                state = c;
                p = e;
            },
            Ok(HeaderStep::Body(len)) => {
                n = len;
                start = e;
                break ;
            },
            Ok(HeaderStep::Closed) => {
                return Ok(None);
            },
            Err(err) => {
                return Err(err);
            },
        }
    }
    if buf.len() - start < n {
        return Err(FrameError::TruncatedBody);
    }
    let body = vstd::slice::slice_to_vec(vstd::slice::slice_subrange(buf, start, start + n));
    Ok(Some((body, start + n)))
}


/// The first header line of a frame whose body has `len` bytes, line break included.
pub open spec fn length_line(len: nat) -> Seq<char> {
    content_length_name() + seq![' '] + decimal(len) + seq!['\r', '\n']
}

proof fn lemma_digit_byte(c: char)
    requires
        crate::lsp::text::is_digit(c),
    ensures
        c as u8 != 10,
{
}

proof fn lemma_ascii_encode(cs: Seq<char>)
    requires
        is_ascii_chars(cs),
    ensures
        encode_utf8(cs) == ascii_bytes(cs),
{
    vstd::utf8::is_ascii_chars_encode_utf8(cs);
    assert(encode_utf8(cs) =~= ascii_bytes(cs));
}

/// A line that starts at `p` ends just past the first `\n` at or after `p`.
proof fn lemma_line_end_at(buf: Seq<u8>, p: int, q: int)
    requires
        0 <= p < q <= buf.len(),
        forall|i: int| p <= i < q - 1 ==> buf[i] != 10,
        buf[q - 1] == 10,
    ensures
        line_end(buf, p) == q,
    decreases q - p,
{
    if p < q - 1 {
        lemma_line_end_at(buf, p + 1, q);
    }
}

/// The header block splits into the length line and the blank line, both ASCII.
proof fn lemma_frame_header_split(len: nat)
    ensures
        frame_header(len) == length_line(len) + seq!['\r', '\n'],
        is_ascii_chars(length_line(len)),
        is_ascii_chars(seq!['\r', '\n']),
        encode_utf8(frame_header(len)) == ascii_bytes(length_line(len)) + ascii_bytes(
            seq!['\r', '\n'],
        ),
        forall|i: int|
            0 <= i < length_line(len).len() - 1 ==> #[trigger] length_line(len)[i] as u8 != 10,
        length_line(len).last() as u8 == 10,
{
    let l = length_line(len);
    let b = seq!['\r', '\n'];
    assert(frame_header(len) =~= l + b);
    lemma_frame_header_ascii(len);
    vstd::utf8::is_ascii_chars_concat(l + b, l, b);
    lemma_ascii_encode(l + b);
    assert(ascii_bytes(l + b) =~= ascii_bytes(l) + ascii_bytes(b));
    crate::lsp::text::lemma_decimal(len);
    let d = decimal(len);
    let n = content_length_name() + seq![' '];
    assert(n =~= seq!['C', 'o', 'n', 't', 'e', 'n', 't', '-', 'L', 'e', 'n', 'g', 't', 'h', ':', ' ']);
    assert forall|i: int| 0 <= i < l.len() - 1 implies #[trigger] l[i] as u8 != 10 by {
        if i < 16 {
            assert(l[i] == n[i]);
        } else if i < 16 + d.len() {
            assert(l[i] == d[i - 16]);
            assert(crate::lsp::text::is_digit(d[i - 16]));
            lemma_digit_byte(d[i - 16]);
        } else {
            assert(l[i] == '\r');
        }
    }
}

/// Cutting trailing whitespace ignores a final line break.
proof fn lemma_trim_end_crlf(h: Seq<char>)
    ensures
        crate::lsp::text::trim_end(h + seq!['\r', '\n']) == crate::lsp::text::trim_end(h),
{
    let a = h + seq!['\r', '\n'];
    let b = h + seq!['\r'];
    assert(a.drop_last() =~= b);
    assert(b.drop_last() =~= h);
    assert(a.last() == '\n');
    assert(b.last() == '\r');
    assert(crate::lsp::text::is_white_space('\n'));
    assert(crate::lsp::text::is_white_space('\r'));
    assert(crate::lsp::text::trim_end(a) == crate::lsp::text::trim_end(b));
}

/// The length line decides the frame's `Content-Length`, the blank line closes
/// the header block.
proof fn lemma_header_lines(state: HeaderState, len: usize)
    ensures
        header_line_step(state, length_line(len as nat)) == Ok::<HeaderStep, FrameFault>(
            HeaderStep::Continue(HeaderState { started: true, content_length: Some(len) }),
        ),
        header_line_step(
            HeaderState { started: true, content_length: Some(len) },
            seq!['\r', '\n'],
        ) == Ok::<HeaderStep, FrameFault>(HeaderStep::Body(len)),
{
    let d = decimal(len as nat);
    crate::lsp::text::lemma_decimal(len as nat);
    crate::lsp::text::lemma_parse_decimal(len);
    let name = content_length_name();
    let h = name + seq![' '] + d;
    assert(length_line(len as nat) =~= h + seq!['\r', '\n']);
    lemma_trim_end_crlf(h);
    assert(h.last() == d.last());
    assert(crate::lsp::text::trim_end(h) == h);
    assert(h.subrange(0, 15) =~= name);
    let v = h.skip(15);
    assert(v =~= seq![' '] + d);
    assert(v.last() == d.last());
    assert(crate::lsp::text::trim_end(v) == v);
    assert(v[0] == ' ');
    assert(v.drop_first() =~= d);
    assert(crate::lsp::text::trim_start(d) == d);
    assert(crate::lsp::text::trim(v) == d);
    let e = Seq::<char>::empty();
    lemma_trim_end_crlf(e);
    assert(e + seq!['\r', '\n'] =~= seq!['\r', '\n']);
}

/// Law: a frame reads back as the body it was built from, wherever it stands
/// in the buffer and whatever follows it, and the read stops exactly at the
/// end of the frame.
pub proof fn lemma_read_frame_after_encode(prefix: Seq<u8>, body: Seq<u8>, rest: Seq<u8>)
    requires
        body.len() <= usize::MAX,
    ensures
        read_frame_spec(prefix + encode_frame_spec(body) + rest, prefix.len() as int) == Ok::<
            Option<(Seq<u8>, int)>,
            FrameFault,
        >(Some((body, (prefix.len() + encode_frame_spec(body).len()) as int))),
{
    let n = body.len();
    let l = length_line(n);
    let b = seq!['\r', '\n'];
    lemma_frame_header_split(n);
    lemma_header_lines(frame_start(), n as usize);
    let lb = ascii_bytes(l);
    let bb = ascii_bytes(b);
    let buf = prefix + encode_frame_spec(body) + rest;
    let p = prefix.len() as int;
    let q = p + lb.len();
    let r = q + 2;
    assert(buf =~= prefix + lb + bb + body + rest);
    assert(buf.subrange(p, q) =~= lb);
    assert(buf.subrange(q, r) =~= bb);
    assert(buf.subrange(r, r + n) =~= body);
    lemma_ascii_encode(l);
    lemma_ascii_encode(b);
    vstd::utf8::encode_utf8_valid_utf8(l);
    vstd::utf8::encode_utf8_decode_utf8(l);
    vstd::utf8::encode_utf8_valid_utf8(b);
    vstd::utf8::encode_utf8_decode_utf8(b);
    assert forall|i: int| p <= i < q - 1 implies buf[i] != 10 by {
        assert(buf[i] == lb[i - p]);
        assert(l[i - p] as u8 != 10);
    }
    assert(buf[q - 1] == lb[lb.len() - 1]);
    lemma_line_end_at(buf, p, q);
    assert(buf[q] == 13);
    assert(buf[q + 1] == 10);
    lemma_line_end_at(buf, q, r);
    assert(scan_headers(buf, q, HeaderState { started: true, content_length: Some(n as usize) })
        == Ok::<Option<(usize, int)>, FrameFault>(
        Some((n as usize, r)),
    ));
    assert(scan_headers(buf, p, frame_start()) == Ok::<Option<(usize, int)>, FrameFault>(
        Some((n as usize, r)),
    ));
    assert(encode_frame_spec(body).len() == lb.len() + 2 + n);
}


/// Law: at the end of the buffer there is no frame to read, and that is no error.
pub proof fn lemma_read_frame_at_end(buf: Seq<u8>)
    ensures
        read_frame_spec(buf, buf.len() as int) == Ok::<Option<(Seq<u8>, int)>, FrameFault>(None),
{
}

/// Law: two frames written back to back read back in order, the first read
/// stopping exactly where the second frame starts, and then the buffer ends cleanly.
pub proof fn lemma_read_frames_in_sequence(first: Seq<u8>, second: Seq<u8>)
    requires
        first.len() <= usize::MAX,
        second.len() <= usize::MAX,
    ensures
        ({
            let f1 = encode_frame_spec(first);
            let f2 = encode_frame_spec(second);
            let buf = f1 + f2;
            &&& read_frame_spec(buf, 0) == Ok::<Option<(Seq<u8>, int)>, FrameFault>(
                Some((first, f1.len() as int)),
            )
            &&& read_frame_spec(buf, f1.len() as int) == Ok::<Option<(Seq<u8>, int)>, FrameFault>(
                Some((second, buf.len() as int)),
            )
            &&& read_frame_spec(buf, buf.len() as int) == Ok::<Option<(Seq<u8>, int)>, FrameFault>(
                None,
            )
        }),
{
    let f1 = encode_frame_spec(first);
    let f2 = encode_frame_spec(second);
    let e = Seq::<u8>::empty();
    lemma_read_frame_after_encode(e, first, f2);
    assert(e + f1 + f2 =~= f1 + f2);
    lemma_read_frame_after_encode(f1, second, e);
    assert(f1 + f2 + e =~= f1 + f2);
}

/// Appends the frame that carries `body` to `out`.
pub fn write_frame(out: &mut Vec<u8>, body: &[u8])
    ensures
        final(out)@ == old(out)@ + encode_frame_spec(body@),
{
    push_frame_header(out, body.len());
    push_bytes(out, body);
    assert(final(out)@ =~= old(out)@ + encode_frame_spec(body@));
}

/// Serialises `message` to the bytes of its JSON text, which are UTF-8.
pub fn serialize_message(message: &serde_json::Value) -> (r: Result<Vec<u8>, FrameError>)
    ensures
        r is Ok,
        r matches Ok(body) ==> body@ == json_text(*message) && valid_utf8(body@),
{
    match json_to_vec(message) {
        Ok(body) => Ok(body),
        Err(e) => Err(FrameError::Unserializable(e)),
    }
}

/// Parses the body of a frame as one JSON value.
pub fn decode_body(body: &[u8]) -> (r: Result<serde_json::Value, FrameError>)
    ensures
        r is Ok <==> json_accepts(body@),
        r matches Ok(v) ==> json_parse(body@) == Ok::<serde_json::Value, serde_json::Error>(v),
        r matches Err(e) ==> e@ == FrameFault::InvalidJson(json_parse(body@)->Err_0),
{
    match json_from_slice(body) {
        Ok(v) => Ok(v),
        Err(e) => Err(FrameError::InvalidJson(e)),
    }
}

/// Writes one JSON-RPC message as a frame at the end of `out`: the
/// `Content-Length` header, a blank line, then the JSON text of the message.
pub fn write_message(out: &mut Vec<u8>, message: &serde_json::Value) -> (r: Result<(), FrameError>)
    ensures
        r is Ok,
        final(out)@ == old(out)@ + encode_frame_spec(json_text(*message)),
{
    let body = match serialize_message(message) {
        Ok(body) => body,
        Err(e) => {
            return Err(e);
        },
    };
    write_frame(out, body.as_slice());
    Ok(())
}

/// Reads one message from `buf` at `pos`: a frame whose body must be a JSON
/// text. `Ok(Some((value, next)))` gives the body's value and the position past it.
pub open spec fn read_message_spec(buf: Seq<u8>, pos: int) -> Result<
    Option<(serde_json::Value, int)>,
    FrameFault,
> {
    match read_frame_spec(buf, pos) {
        Ok(Some((body, next))) => match json_parse(body) {
            Ok(v) => Ok(Some((v, next))),
            Err(e) => Err(FrameFault::InvalidJson(e)),
        },
        Ok(None) => Ok(None),
        Err(e) => Err(e),
    }
}

/// Reads exactly one JSON-RPC message from `buf`, starting at `*pos`.
///
/// `Ok(Some(value))`: a complete message was read and `*pos` moved past it;
/// `Ok(None)`: `*pos` was already at the end of the buffer, so the stream
/// ended cleanly at a frame boundary; `Err(..)`: a malformed or half-sent
/// frame or body, and `*pos` is left where it was.
pub fn read_message(buf: &[u8], pos: &mut usize) -> (r: Result<Option<serde_json::Value>, FrameError>)
    requires
        *old(pos) <= buf@.len(),
    ensures
        match r {
            Ok(Some(v)) => read_message_spec(buf@, *old(pos) as int) == Ok::<
                Option<(serde_json::Value, int)>,
                FrameFault,
            >(Some((v, *final(pos) as int))),
            Ok(None) => read_message_spec(buf@, *old(pos) as int) == Ok::<
                Option<(serde_json::Value, int)>,
                FrameFault,
            >(None) && *old(pos) == buf@.len() && *final(pos) == buf@.len(),
            Err(e) => read_message_spec(buf@, *old(pos) as int) == Err::<
                Option<(serde_json::Value, int)>,
                FrameFault,
            >(e@) && *final(pos) == *old(pos),
        },
        match r {
            Ok(Some(v)) => read_frame_spec(buf@, *old(pos) as int) matches Ok(Some((body, next)))
                && next == *final(pos) && json_parse(body) == Ok::<
                serde_json::Value,
                serde_json::Error,
            >(v),
            Ok(None) => read_frame_spec(buf@, *old(pos) as int) == Ok::<
                Option<(Seq<u8>, int)>,
                FrameFault,
            >(None),
            Err(e) => read_frame_spec(buf@, *old(pos) as int) == Err::<
                Option<(Seq<u8>, int)>,
                FrameFault,
            >(e@) || (read_frame_spec(buf@, *old(pos) as int) matches Ok(Some((body, _)))
                && json_parse(body) is Err && e@ == FrameFault::InvalidJson(
                json_parse(body)->Err_0,
            )),
        },
{
    proof {
        lemma_clean_end_only_at_end(buf@, *old(pos) as int);
    }
    match read_frame(buf, *pos) {
        Ok(Some((body, next))) => {
            let value = decode_body(body.as_slice());
            match value {
                Ok(v) => {
                    *pos = next;
                    Ok(Some(v))
                },
                Err(e) => Err(e),
            }
        },
        Ok(None) => Ok(None),
        Err(e) => Err(e),
    }
}

/// Law: a message framed around `body` reads back as the value that
/// `serde_json` parses from the body, wherever the frame stands and whatever
/// follows, and the read stops at the frame's end; a body that does not parse
/// fails with the parser's error.
pub proof fn lemma_read_message_after_write(prefix: Seq<u8>, body: Seq<u8>, rest: Seq<u8>)
    requires
        body.len() <= usize::MAX,
    ensures
        read_message_spec(prefix + encode_frame_spec(body) + rest, prefix.len() as int) == match json_parse(body) {
            Ok(v) => Ok::<Option<(serde_json::Value, int)>, FrameFault>(
                Some((v, (prefix.len() + encode_frame_spec(body).len()) as int)),
            ),
            Err(e) => Err::<Option<(serde_json::Value, int)>, FrameFault>(FrameFault::InvalidJson(e)),
        },
{
    lemma_read_frame_after_encode(prefix, body, rest);
}

/// Law: reading a message is reading a frame and parsing its body. The
/// message read stops exactly where the frame read stops, its value is what
/// `serde_json` parses from the frame's body, and a frame that cannot be read
/// fails the message with the same fault.
pub proof fn lemma_read_message_agrees_with_frame(buf: Seq<u8>, pos: int)
    ensures
        read_message_spec(buf, pos) matches Ok(Some((v, next))) ==> read_frame_spec(buf, pos)
            matches Ok(Some((body, next2))) && next2 == next && json_parse(body) == Ok::<
            serde_json::Value,
            serde_json::Error,
        >(v),
        read_frame_spec(buf, pos) matches Ok(Some((body, next))) ==> (json_parse(body) matches Ok(
            v,
        ) ==> read_message_spec(buf, pos) == Ok::<Option<(serde_json::Value, int)>, FrameFault>(
            Some((v, next)),
        )),
        read_frame_spec(buf, pos) matches Ok(Some((body, _))) ==> (json_parse(body) matches Err(
            e,
        ) ==> read_message_spec(buf, pos) == Err::<Option<(serde_json::Value, int)>, FrameFault>(
            FrameFault::InvalidJson(e),
        )),
        read_frame_spec(buf, pos) is Err ==> read_message_spec(buf, pos) == Err::<
            Option<(serde_json::Value, int)>,
            FrameFault,
        >(read_frame_spec(buf, pos)->Err_0),
        read_frame_spec(buf, pos) == Ok::<Option<(Seq<u8>, int)>, FrameFault>(None)
            <==> read_message_spec(buf, pos) == Ok::<Option<(serde_json::Value, int)>, FrameFault>(
            None,
        ),
{
}

/// The bytes of `lines`, one line after another.
pub open spec fn concat_lines(lines: Seq<Seq<u8>>) -> Seq<u8>
    decreases lines.len(),
{
    if lines.len() == 0 {
        Seq::<u8>::empty()
    } else {
        lines[0] + concat_lines(lines.drop_first())
    }
}

/// A line as it stands in a stream: its only `\n` ends it.
pub open spec fn is_line(line: Seq<u8>) -> bool {
    &&& line.len() > 0
    &&& line.last() == 10
    &&& forall|i: int| 0 <= i < line.len() - 1 ==> line[i] != 10
}

/// A header line other than `Content-Length` as it stands in a stream: UTF-8
/// text whose only `\n` ends it, neither blank once trailing whitespace is cut
/// nor starting with `Content-Length:` (such as `Content-Type: ...`).
pub open spec fn is_other_header_line(line: Seq<u8>) -> bool {
    &&& is_line(line)
    &&& valid_utf8(line)
    &&& trim_end(decode_utf8(line)).len() > 0
    &&& !content_length_name().is_prefix_of(trim_end(decode_utf8(line)))
}

/// The value text of a `Content-Length` line given by its characters:
/// what follows the name, without surrounding whitespace.
pub open spec fn length_value(line: Seq<char>) -> Seq<char> {
    trim(trim_end(line).skip(15))
}

/// A `Content-Length` header line as it stands in a stream.
pub open spec fn is_length_header_line(line: Seq<u8>) -> bool {
    &&& is_line(line)
    &&& valid_utf8(line)
    &&& content_length_name().is_prefix_of(trim_end(decode_utf8(line)))
}

/// A header line that a reader accepts before the blank line: another header,
/// or a `Content-Length` header whose value is a decimal `usize`.
pub open spec fn is_valid_header_line(line: Seq<u8>) -> bool {
    ||| is_other_header_line(line)
    ||| is_length_header_line(line) && parse_usize(length_value(decode_utf8(line))) is Some
}

/// Reading header lines other than `Content-Length` only marks the frame as
/// started: the scan goes on past them with the length seen before.
proof fn lemma_scan_skips_other_headers(
    buf: Seq<u8>,
    p: int,
    state: HeaderState,
    lines: Seq<Seq<u8>>,
)
    requires
        0 <= p,
        p + concat_lines(lines).len() <= buf.len(),
        buf.subrange(p, p + concat_lines(lines).len()) == concat_lines(lines),
        forall|i: int| 0 <= i < lines.len() ==> #[trigger] is_other_header_line(lines[i]),
    ensures
        scan_headers(buf, p, state) == scan_headers(
            buf,
            p + concat_lines(lines).len(),
            if lines.len() == 0 {
                state
            } else {
                HeaderState { started: true, content_length: state.content_length }
            },
        ),
    decreases lines.len(),
{
    if lines.len() > 0 {
        let l0 = lines[0];
        let others = lines.drop_first();
        let c = concat_lines(others);
        let q = p + l0.len();
        assert(is_other_header_line(l0));
        assert(concat_lines(lines) == l0 + c);
        assert(buf.subrange(p, q) =~= l0) by {
            assert forall|i: int| 0 <= i < l0.len() implies buf.subrange(p, q)[i] == l0[i] by {
                assert(buf.subrange(p, p + concat_lines(lines).len())[i] == (l0 + c)[i]);
            }
        }
        assert(buf.subrange(q, q + c.len()) =~= c) by {
            assert forall|i: int| 0 <= i < c.len() implies buf.subrange(q, q + c.len())[i]
                == c[i] by {
                assert(buf.subrange(p, p + concat_lines(lines).len())[l0.len() + i] == (l0
                    + c)[l0.len() + i]);
            }
        }
        assert forall|i: int| p <= i < q - 1 implies buf[i] != 10 by {
            assert(buf.subrange(p, q)[i - p] == buf[i]);
        }
        assert(buf.subrange(p, q)[l0.len() - 1] == buf[q - 1]);
        lemma_line_end_at(buf, p, q);
        crate::lsp::header::lemma_other_header_ignored(state, decode_utf8(l0));
        let s1 = HeaderState { started: true, content_length: state.content_length };
        assert forall|i: int| 0 <= i < others.len() implies #[trigger] is_other_header_line(
            others[i],
        ) by {
            assert(others[i] == lines[i + 1]);
        }
        lemma_scan_skips_other_headers(buf, q, s1, others);
        assert(scan_headers(buf, p, state) == scan_headers(buf, q, s1));
    }
}

/// Reading header lines that a reader accepts marks the frame as started and
/// keeps the scan going past them.
proof fn lemma_scan_skips_header_lines(
    buf: Seq<u8>,
    p: int,
    state: HeaderState,
    lines: Seq<Seq<u8>>,
) -> (s2: HeaderState)
    requires
        0 <= p,
        p + concat_lines(lines).len() <= buf.len(),
        buf.subrange(p, p + concat_lines(lines).len()) == concat_lines(lines),
        forall|i: int| 0 <= i < lines.len() ==> #[trigger] is_valid_header_line(lines[i]),
    ensures
        s2.started == (state.started || lines.len() > 0),
        scan_headers(buf, p, state) == scan_headers(buf, p + concat_lines(lines).len(), s2),
    decreases lines.len(),
{
    if lines.len() == 0 {
        state
    } else {
        let l0 = lines[0];
        let others = lines.drop_first();
        let c = concat_lines(others);
        let q = p + l0.len();
        assert(is_valid_header_line(l0));
        assert(concat_lines(lines) == l0 + c);
        assert(buf.subrange(p, q) =~= l0) by {
            assert forall|i: int| 0 <= i < l0.len() implies buf.subrange(p, q)[i] == l0[i] by {
                assert(buf.subrange(p, p + concat_lines(lines).len())[i] == (l0 + c)[i]);
            }
        }
        assert(buf.subrange(q, q + c.len()) =~= c) by {
            assert forall|i: int| 0 <= i < c.len() implies buf.subrange(q, q + c.len())[i]
                == c[i] by {
                assert(buf.subrange(p, p + concat_lines(lines).len())[l0.len() + i] == (l0
                    + c)[l0.len() + i]);
            }
        }
        assert forall|i: int| p <= i < q - 1 implies buf[i] != 10 by {
            assert(buf.subrange(p, q)[i - p] == buf[i]);
        }
        assert(buf.subrange(p, q)[l0.len() - 1] == buf[q - 1]);
        lemma_line_end_at(buf, p, q);
        let d = decode_utf8(l0);
        let s1 = if is_other_header_line(l0) {
            crate::lsp::header::lemma_other_header_ignored(state, d);
            HeaderState { started: true, content_length: state.content_length }
        } else {
            let n = parse_usize(length_value(d))->Some_0;
            crate::lsp::header::lemma_length_header_sets_length(state, d, n);
            HeaderState { started: true, content_length: Some(n) }
        };
        assert(scan_headers(buf, p, state) == scan_headers(buf, q, s1));
        assert forall|i: int| 0 <= i < others.len() implies #[trigger] is_valid_header_line(
            others[i],
        ) by {
            assert(others[i] == lines[i + 1]);
        }
        lemma_scan_skips_header_lines(buf, q, s1, others)
    }
}

/// Law: the header block ends only at its blank line, header lines other
/// than `Content-Length` are ignored wherever they stand, and the last
/// `Content-Length` wins. A frame whose length line comes after any accepted
/// header lines (earlier lengths among them) and before any other headers
/// reads back as its body, wherever it stands in the buffer and whatever
/// follows it, and the read stops exactly at the end of the frame.
pub proof fn lemma_read_frame_with_other_headers(
    prefix: Seq<u8>,
    before: Seq<Seq<u8>>,
    after: Seq<Seq<u8>>,
    body: Seq<u8>,
    rest: Seq<u8>,
)
    requires
        body.len() <= usize::MAX,
        forall|i: int| 0 <= i < before.len() ==> #[trigger] is_valid_header_line(before[i]),
        forall|i: int| 0 <= i < after.len() ==> #[trigger] is_other_header_line(after[i]),
    ensures
        ({
            let frame = concat_lines(before) + encode_utf8(length_line(body.len()))
                + concat_lines(after) + encode_utf8(seq!['\r', '\n']) + body;
            read_frame_spec(prefix + frame + rest, prefix.len() as int) == Ok::<
                Option<(Seq<u8>, int)>,
                FrameFault,
            >(Some((body, (prefix.len() + frame.len()) as int)))
        }),
{
    let n = body.len();
    let l = length_line(n);
    let b = seq!['\r', '\n'];
    lemma_frame_header_split(n);
    lemma_ascii_encode(l);
    lemma_ascii_encode(b);
    vstd::utf8::encode_utf8_valid_utf8(l);
    vstd::utf8::encode_utf8_decode_utf8(l);
    vstd::utf8::encode_utf8_valid_utf8(b);
    vstd::utf8::encode_utf8_decode_utf8(b);
    let a = concat_lines(before);
    let lb = encode_utf8(l);
    let c = concat_lines(after);
    let bb = encode_utf8(b);
    let frame = a + lb + c + bb + body;
    let buf = prefix + frame + rest;
    let p0 = prefix.len() as int;
    let p1 = p0 + a.len();
    let p2 = p1 + lb.len();
    let p3 = p2 + c.len();
    let p4 = p3 + 2;
    assert(buf =~= prefix + a + lb + c + bb + body + rest);
    assert(buf.subrange(p0, p1) =~= a);
    assert(buf.subrange(p1, p2) =~= lb);
    assert(buf.subrange(p2, p3) =~= c);
    assert(buf.subrange(p3, p4) =~= bb);
    assert(buf.subrange(p4, p4 + n) =~= body);
    let sb = lemma_scan_skips_header_lines(buf, p0, frame_start(), before);
    assert forall|i: int| p1 <= i < p2 - 1 implies buf[i] != 10 by {
        assert(buf[i] == lb[i - p1]);
        assert(l[i - p1] as u8 != 10);
    }
    assert(buf[p2 - 1] == lb[lb.len() - 1]);
    lemma_line_end_at(buf, p1, p2);
    lemma_header_lines(sb, n as usize);
    let sn = HeaderState { started: true, content_length: Some(n as usize) };
    assert(scan_headers(buf, p1, sb) == scan_headers(buf, p2, sn));
    lemma_scan_skips_other_headers(buf, p2, sn, after);
    assert(buf[p3] == 13);
    assert(buf[p3 + 1] == 10);
    lemma_line_end_at(buf, p3, p4);
    assert(scan_headers(buf, p3, sn) == Ok::<Option<(usize, int)>, FrameFault>(
        Some((n as usize, p4)),
    ));
    assert(scan_headers(buf, p0, frame_start()) == Ok::<Option<(usize, int)>, FrameFault>(
        Some((n as usize, p4)),
    ));
    assert(frame.len() == p4 + n - p0);
}

/// From its `Content-Length` line on, a header block of the accepted shape
/// ends at its blank line with the length that line gives.
proof fn lemma_scan_from_length(
    buf: Seq<u8>,
    p1: int,
    state: HeaderState,
    length: Seq<u8>,
    after: Seq<Seq<u8>>,
    blank: Seq<u8>,
    n: usize,
)
    requires
        0 <= p1,
        p1 + length.len() + concat_lines(after).len() + blank.len() <= buf.len(),
        buf.subrange(p1, p1 + length.len()) == length,
        buf.subrange(p1 + length.len(), p1 + length.len() + concat_lines(after).len())
            == concat_lines(after),
        buf.subrange(
            p1 + length.len() + concat_lines(after).len(),
            p1 + length.len() + concat_lines(after).len() + blank.len(),
        ) == blank,
        is_length_header_line(length),
        parse_usize(length_value(decode_utf8(length))) == Some(n),
        forall|i: int| 0 <= i < after.len() ==> #[trigger] is_other_header_line(after[i]),
        is_line(blank),
        valid_utf8(blank),
        trim_end(decode_utf8(blank)).len() == 0,
    ensures
        scan_headers(buf, p1, state) == Ok::<Option<(usize, int)>, FrameFault>(
            Some((n, p1 + length.len() + concat_lines(after).len() + blank.len())),
        ),
{
    let p2 = p1 + length.len();
    let p3 = p2 + concat_lines(after).len();
    lemma_line_at(buf, p1, length);
    crate::lsp::header::lemma_length_header_sets_length(state, decode_utf8(length), n);
    let sn = HeaderState { started: true, content_length: Some(n) };
    assert(scan_headers(buf, p1, state) == scan_headers(buf, p2, sn));
    lemma_scan_skips_other_headers(buf, p2, sn, after);
    lemma_line_at(buf, p3, blank);
    crate::lsp::header::lemma_blank_line_ends_header(sn, decode_utf8(blank));
}

/// Law: what a reader accepts as a frame, in general. Any accepted header
/// lines, then a `Content-Length` line whose value is the body's length, then
/// any headers other than `Content-Length`, then a line that is blank once
/// trailing whitespace is cut, then the body: this reads back as the body,
/// wherever it stands and whatever follows, and the read stops exactly at the
/// end of the body.
pub proof fn lemma_read_frame_accepts(
    prefix: Seq<u8>,
    before: Seq<Seq<u8>>,
    length: Seq<u8>,
    after: Seq<Seq<u8>>,
    blank: Seq<u8>,
    body: Seq<u8>,
    rest: Seq<u8>,
)
    requires
        forall|i: int| 0 <= i < before.len() ==> #[trigger] is_valid_header_line(before[i]),
        is_length_header_line(length),
        parse_usize(length_value(decode_utf8(length))) == Some(body.len() as usize),
        body.len() <= usize::MAX,
        forall|i: int| 0 <= i < after.len() ==> #[trigger] is_other_header_line(after[i]),
        is_line(blank),
        valid_utf8(blank),
        trim_end(decode_utf8(blank)).len() == 0,
    ensures
        ({
            let frame = concat_lines(before) + length + concat_lines(after) + blank + body;
            read_frame_spec(prefix + frame + rest, prefix.len() as int) == Ok::<
                Option<(Seq<u8>, int)>,
                FrameFault,
            >(Some((body, (prefix.len() + frame.len()) as int)))
        }),
{
    let n = body.len() as usize;
    let a = concat_lines(before);
    let c = concat_lines(after);
    let frame = a + length + c + blank + body;
    let buf = prefix + frame + rest;
    let p0 = prefix.len() as int;
    let p1 = p0 + a.len();
    let p2 = p1 + length.len();
    let p3 = p2 + c.len();
    let p4 = p3 + blank.len();
    assert(buf.subrange(p0, p1) =~= a);
    assert(buf.subrange(p1, p2) =~= length);
    assert(buf.subrange(p2, p3) =~= c);
    assert(buf.subrange(p3, p4) =~= blank);
    assert(buf.subrange(p4, p4 + body.len()) =~= body);
    let sb = lemma_scan_skips_header_lines(buf, p0, frame_start(), before);
    lemma_scan_from_length(buf, p1, sb, length, after, blank, n);
}

/// A line placed at `p` in `buf` is the line that a reader takes from `p`.
proof fn lemma_line_at(buf: Seq<u8>, p: int, line: Seq<u8>)
    requires
        0 <= p,
        p + line.len() <= buf.len(),
        buf.subrange(p, p + line.len()) == line,
        is_line(line),
    ensures
        line_end(buf, p) == p + line.len(),
        buf.subrange(p, line_end(buf, p)) == line,
{
    let q = p + line.len();
    assert forall|i: int| p <= i < q - 1 implies buf[i] != 10 by {
        assert(buf.subrange(p, q)[i - p] == buf[i]);
    }
    assert(buf.subrange(p, q)[line.len() - 1] == buf[q - 1]);
    lemma_line_end_at(buf, p, q);
}

/// Law: a header block without a `Content-Length` line is malformed: other
/// headers followed by a blank line fail with `MissingContentLength`,
/// whatever follows.
pub proof fn lemma_read_frame_without_length(
    prefix: Seq<u8>,
    lines: Seq<Seq<u8>>,
    blank: Seq<u8>,
    rest: Seq<u8>,
)
    requires
        forall|i: int| 0 <= i < lines.len() ==> #[trigger] is_other_header_line(lines[i]),
        is_line(blank),
        valid_utf8(blank),
        trim_end(decode_utf8(blank)).len() == 0,
    ensures
        read_frame_spec(prefix + concat_lines(lines) + blank + rest, prefix.len() as int) == Err::<
            Option<(Seq<u8>, int)>,
            FrameFault,
        >(FrameFault::MissingContentLength),
{
    let a = concat_lines(lines);
    let buf = prefix + a + blank + rest;
    let p0 = prefix.len() as int;
    let p1 = p0 + a.len();
    assert(buf.subrange(p0, p1) =~= a);
    assert(buf.subrange(p1, p1 + blank.len()) =~= blank);
    lemma_scan_skips_other_headers(buf, p0, frame_start(), lines);
    let s1 = if lines.len() == 0 {
        frame_start()
    } else {
        HeaderState { started: true, content_length: None }
    };
    lemma_line_at(buf, p1, blank);
    crate::lsp::header::lemma_blank_line_ends_header(s1, decode_utf8(blank));
}

/// Law: a stream that ends after accepted header lines, before the blank
/// line, ends in the middle of a frame: `TruncatedHeader`, never a clean end.
pub proof fn lemma_read_frame_cut_in_header(prefix: Seq<u8>, lines: Seq<Seq<u8>>)
    requires
        lines.len() > 0,
        forall|i: int| 0 <= i < lines.len() ==> #[trigger] is_valid_header_line(lines[i]),
    ensures
        read_frame_spec(prefix + concat_lines(lines), prefix.len() as int) == Err::<
            Option<(Seq<u8>, int)>,
            FrameFault,
        >(FrameFault::TruncatedHeader),
{
    let a = concat_lines(lines);
    let buf = prefix + a;
    let p0 = prefix.len() as int;
    assert(buf.subrange(p0, p0 + a.len()) =~= a);
    let s1 = lemma_scan_skips_header_lines(buf, p0, frame_start(), lines);
    assert(p0 + a.len() == buf.len());
}

/// Law: a `Content-Length` header whose value is not a decimal `usize` makes
/// the frame fail with that value, whatever headers came before and whatever follows.
pub proof fn lemma_read_frame_bad_length(
    prefix: Seq<u8>,
    lines: Seq<Seq<u8>>,
    bad: Seq<u8>,
    rest: Seq<u8>,
)
    requires
        forall|i: int| 0 <= i < lines.len() ==> #[trigger] is_valid_header_line(lines[i]),
        is_length_header_line(bad),
        parse_usize(length_value(decode_utf8(bad))) is None,
    ensures
        read_frame_spec(prefix + concat_lines(lines) + bad + rest, prefix.len() as int) == Err::<
            Option<(Seq<u8>, int)>,
            FrameFault,
        >(FrameFault::InvalidContentLength(length_value(decode_utf8(bad)))),
{
    let a = concat_lines(lines);
    let buf = prefix + a + bad + rest;
    let p0 = prefix.len() as int;
    let p1 = p0 + a.len();
    assert(buf.subrange(p0, p1) =~= a);
    assert(buf.subrange(p1, p1 + bad.len()) =~= bad);
    let s1 = lemma_scan_skips_header_lines(buf, p0, frame_start(), lines);
    lemma_line_at(buf, p1, bad);
}

/// Law: a header line that is not UTF-8 makes the frame fail with
/// `InvalidUtf8`, whatever accepted headers came before and whatever follows.
pub proof fn lemma_read_frame_not_utf8(
    prefix: Seq<u8>,
    lines: Seq<Seq<u8>>,
    bad: Seq<u8>,
    rest: Seq<u8>,
)
    requires
        forall|i: int| 0 <= i < lines.len() ==> #[trigger] is_valid_header_line(lines[i]),
        is_line(bad),
        !valid_utf8(bad),
    ensures
        read_frame_spec(prefix + concat_lines(lines) + bad + rest, prefix.len() as int) == Err::<
            Option<(Seq<u8>, int)>,
            FrameFault,
        >(FrameFault::InvalidUtf8),
{
    let a = concat_lines(lines);
    let buf = prefix + a + bad + rest;
    let p0 = prefix.len() as int;
    let p1 = p0 + a.len();
    assert(buf.subrange(p0, p1) =~= a);
    assert(buf.subrange(p1, p1 + bad.len()) =~= bad);
    let s1 = lemma_scan_skips_header_lines(buf, p0, frame_start(), lines);
    lemma_line_at(buf, p1, bad);
}

/// Law: a stream that ends before the body's promised length fails with
/// `TruncatedBody`: the reader never returns a shorter body.
pub proof fn lemma_read_frame_short_body(prefix: Seq<u8>, n: usize, short: Seq<u8>)
    requires
        short.len() < n,
    ensures
        read_frame_spec(prefix + encode_utf8(frame_header(n as nat)) + short, prefix.len() as int)
            == Err::<Option<(Seq<u8>, int)>, FrameFault>(FrameFault::TruncatedBody),
{
    let l = length_line(n as nat);
    let b = seq!['\r', '\n'];
    lemma_frame_header_split(n as nat);
    lemma_ascii_encode(l);
    lemma_ascii_encode(b);
    vstd::utf8::encode_utf8_valid_utf8(l);
    vstd::utf8::encode_utf8_decode_utf8(l);
    vstd::utf8::encode_utf8_valid_utf8(b);
    vstd::utf8::encode_utf8_decode_utf8(b);
    let lb = ascii_bytes(l);
    let bb = ascii_bytes(b);
    let buf = prefix + encode_utf8(frame_header(n as nat)) + short;
    let p0 = prefix.len() as int;
    let p1 = p0 + lb.len();
    let p2 = p1 + 2;
    assert(buf =~= prefix + lb + bb + short);
    assert(buf.subrange(p0, p1) =~= lb);
    assert(buf.subrange(p1, p2) =~= bb);
    assert forall|i: int| p0 <= i < p1 - 1 implies buf[i] != 10 by {
        assert(buf[i] == lb[i - p0]);
        assert(l[i - p0] as u8 != 10);
    }
    assert(buf[p1 - 1] == lb[lb.len() - 1]);
    lemma_line_end_at(buf, p0, p1);
    assert(buf[p1] == 13);
    assert(buf[p1 + 1] == 10);
    lemma_line_end_at(buf, p1, p2);
    lemma_header_lines(frame_start(), n);
    let sn = HeaderState { started: true, content_length: Some(n) };
    assert(scan_headers(buf, p1, sn) == Ok::<Option<(usize, int)>, FrameFault>(Some((n, p2))));
    assert(scan_headers(buf, p0, frame_start()) == Ok::<Option<(usize, int)>, FrameFault>(
        Some((n, p2)),
    ));
}

/// Once a line of a frame has been read, or while bytes remain, the header
/// scan cannot end cleanly.
proof fn lemma_scan_not_closed(buf: Seq<u8>, pos: int, state: HeaderState)
    requires
        0 <= pos,
        pos < buf.len() || state.started,
    ensures
        scan_headers(buf, pos, state) != Ok::<Option<(usize, int)>, FrameFault>(None),
    decreases buf.len() - pos,
{
    if pos < buf.len() {
        lemma_line_end_shape(buf, pos);
        let e = line_end(buf, pos);
        let line = buf.subrange(pos, e);
        match header_line_step(state, decode_utf8(line)) {
            Ok(HeaderStep::Continue(c)) => {
                lemma_scan_not_closed(buf, e, c);
            },
            _ => {},
        }
    }
}

/// Law: the stream ends cleanly exactly when nothing is left to read; a
/// stream that stops anywhere inside a frame is an error, never a clean end.
pub proof fn lemma_clean_end_only_at_end(buf: Seq<u8>, pos: int)
    requires
        0 <= pos <= buf.len(),
    ensures
        read_frame_spec(buf, pos) == Ok::<Option<(Seq<u8>, int)>, FrameFault>(None) <==> pos
            == buf.len(),
{
    if pos < buf.len() {
        lemma_scan_not_closed(buf, pos, frame_start());
    }
}

/// A header scan that finds a frame puts the body after where it started.
proof fn lemma_scan_bounds(buf: Seq<u8>, pos: int, state: HeaderState)
    requires
        0 <= pos,
        scan_headers(buf, pos, state) is Ok,
        scan_headers(buf, pos, state)->Ok_0 is Some,
    ensures
        pos < scan_headers(buf, pos, state)->Ok_0->Some_0.1 <= buf.len(),
    decreases buf.len() - pos,
{
    lemma_line_end_shape(buf, pos);
    let e = line_end(buf, pos);
    let line = buf.subrange(pos, e);
    match header_line_step(state, decode_utf8(line)) {
        Ok(HeaderStep::Continue(c)) => {
            lemma_scan_bounds(buf, e, c);
        },
        _ => {},
    }
}

/// A header scan that finds a frame whose header block ends with a `\n`
/// depends only on the bytes before the body.
proof fn lemma_scan_ignores_suffix(
    buf: Seq<u8>,
    other: Seq<u8>,
    pos: int,
    state: HeaderState,
    n: usize,
    start: int,
)
    requires
        0 <= pos,
        scan_headers(buf, pos, state) == Ok::<Option<(usize, int)>, FrameFault>(
            Some((n, start)),
        ),
        start <= other.len(),
        forall|i: int| 0 <= i < start ==> other[i] == buf[i],
        buf[start - 1] == 10,
    ensures
        pos < start <= buf.len(),
        scan_headers(other, pos, state) == scan_headers(buf, pos, state),
    decreases buf.len() - pos,
{
    lemma_line_end_shape(buf, pos);
    let e = line_end(buf, pos);
    let line = buf.subrange(pos, e);
    match header_line_step(state, decode_utf8(line)) {
        Ok(HeaderStep::Continue(c)) => {
            lemma_scan_ignores_suffix(buf, other, e, c, n, start);
        },
        _ => {},
    }
    assert(e <= start);
    assert(buf[e - 1] == 10);
    lemma_line_end_at(other, pos, e);
    assert(other.subrange(pos, e) =~= line);
}

/// Law: a frame is self-delimiting. Once a frame has been read from `buf` at
/// `pos`, replacing everything past its end leaves the read unchanged,
/// provided the header block ends with a line break.
pub proof fn lemma_read_frame_ignores_suffix(
    buf: Seq<u8>,
    pos: int,
    body: Seq<u8>,
    next: int,
    rest: Seq<u8>,
)
    requires
        0 <= pos <= buf.len(),
        read_frame_spec(buf, pos) == Ok::<Option<(Seq<u8>, int)>, FrameFault>(Some((body, next))),
        buf[next - body.len() - 1] == 10,
    ensures
        read_frame_spec(buf.take(next) + rest, pos) == Ok::<Option<(Seq<u8>, int)>, FrameFault>(
            Some((body, next)),
        ),
{
    let (n, start) = scan_headers(buf, pos, frame_start())->Ok_0->Some_0;
    let other = buf.take(next) + rest;
    lemma_scan_bounds(buf, pos, frame_start());
    assert(body.len() == n);
    lemma_scan_ignores_suffix(buf, other, pos, frame_start(), n, start);
    assert(other.subrange(start, start + n) =~= buf.subrange(start, start + n));
}

} // verus!
