//! Reading the header block of a frame, one line at a time.
//!
//! The reader of a stream alternates between fetching a line and deciding what
//! to do with it. [`header_step`] is that decision: from the state of the
//! header block (whether a line of the frame was read, and the
//! `Content-Length` seen so far) and the next line (or the end of the stream)
//! it says whether to read another line, read the body, stop cleanly, or fail.
use vstd::prelude::*;
use crate::lsp::text::{
    is_white_space, parse_usize, parse_usize_at, trim, trim_end, trim_end_bound, trim_start_bound,
};

verus! {

/// Why a frame could not be read or written.
#[derive(Debug)]
pub enum FrameError {
    /// The stream ended after a header line of a frame but before the blank
    /// line that closes its header block.
    TruncatedHeader,
    /// A `Content-Length` value that is not a decimal `usize`; holds the value
    /// with surrounding whitespace removed.
    InvalidContentLength(Vec<char>),
    /// The header block ended without a `Content-Length` header.
    MissingContentLength,
    /// A header line is not valid UTF-8.
    InvalidUtf8,
    /// The stream ended before the number of body bytes that the header promised.
    TruncatedBody,
    /// The body is not a JSON text; holds the parser's error.
    InvalidJson(serde_json::Error),
    /// The message could not be serialised; holds the serialiser's error.
    Unserializable(serde_json::Error),
}

/// What a [`FrameError`] says, with its payloads taken as plain values.
pub enum FrameFault {
    /// See [`FrameError::TruncatedHeader`].
    TruncatedHeader,
    /// See [`FrameError::InvalidContentLength`]; holds the trimmed value.
    InvalidContentLength(Seq<char>),
    /// See [`FrameError::MissingContentLength`].
    MissingContentLength,
    /// See [`FrameError::InvalidUtf8`].
    InvalidUtf8,
    /// See [`FrameError::TruncatedBody`].
    TruncatedBody,
    /// See [`FrameError::InvalidJson`]; holds the parser's error.
    InvalidJson(serde_json::Error),
    /// See [`FrameError::Unserializable`]; holds the serialiser's error.
    Unserializable(serde_json::Error),
}

impl View for FrameError {
    type V = FrameFault;

    open spec fn view(&self) -> FrameFault {
        match self {
            FrameError::TruncatedHeader => FrameFault::TruncatedHeader,
            FrameError::InvalidContentLength(v) => FrameFault::InvalidContentLength(v@),
            FrameError::MissingContentLength => FrameFault::MissingContentLength,
            FrameError::InvalidUtf8 => FrameFault::InvalidUtf8,
            FrameError::TruncatedBody => FrameFault::TruncatedBody,
            FrameError::InvalidJson(e) => FrameFault::InvalidJson(*e),
            FrameError::Unserializable(e) => FrameFault::Unserializable(*e),
        }
    }
}

/// How far the header block of the frame being read has come.
#[derive(Debug, Clone, Copy, PartialEq, Eq, Structural)]
pub struct HeaderState {
    /// Whether a line of this frame has been read, so that the stream can no
    /// longer end cleanly before the frame does.
    pub started: bool,
    /// The `Content-Length` seen so far in this frame.
    pub content_length: Option<usize>,
}

impl HeaderState {
    /// The state before the first line of a frame.
    pub fn new() -> (s: Self)
        ensures
            s == (HeaderState { started: false, content_length: None }),
    {
        HeaderState { started: false, content_length: None }
    }
}

/// What to do after one header line (or the end of the stream).
#[derive(Debug, Clone, Copy, PartialEq, Eq, Structural)]
pub enum HeaderStep {
    /// Read another header line, from this state.
    Continue(HeaderState),
    /// The header block is complete: read exactly this many body bytes.
    Body(usize),
    /// The stream ended cleanly at a frame boundary.
    Closed,
}

/// A step result with its error taken as a plain value.
pub open spec fn step_view(r: Result<HeaderStep, FrameError>) -> Result<HeaderStep, FrameFault> {
    match r {
        Ok(s) => Ok(s),
        Err(e) => Err(e@),
    }
}

/// The header name that carries the body length, colon included.
pub open spec fn content_length_name() -> Seq<char> {
    seq!['C', 'o', 'n', 't', 'e', 'n', 't', '-', 'L', 'e', 'n', 'g', 't', 'h', ':']
}

/// The decision on one header line `line`, in header state `state`.
///
/// Trailing whitespace (the line break among it) is ignored. A line that is
/// then empty closes the header block, which must have carried a length. A
/// `Content-Length:` line sets the length from its trimmed value, which must
/// parse as a `usize`. Any other header is ignored. After any line but the
/// last, the frame has started.
pub open spec fn header_line_step(state: HeaderState, line: Seq<char>) -> Result<
    HeaderStep,
    FrameFault,
> {
    let h = trim_end(line);
    if h.len() == 0 {
        match state.content_length {
            Some(n) => Ok(HeaderStep::Body(n)),
            None => Err(FrameFault::MissingContentLength),
        }
    } else if content_length_name().is_prefix_of(h) {
        let value = trim(h.skip(content_length_name().len() as int));
        match parse_usize(value) {
            Some(n) => Ok(HeaderStep::Continue(HeaderState { started: true, content_length: Some(n) })),
            None => Err(FrameFault::InvalidContentLength(value)),
        }
    } else {
        Ok(HeaderStep::Continue(HeaderState { started: true, content_length: state.content_length }))
    }
}

/// The decision when the stream ends before the next header line: a clean end
/// only when no line of the frame has been read, so nothing is half-sent.
pub open spec fn header_end_step(state: HeaderState) -> Result<HeaderStep, FrameFault> {
    if state.started {
        Err(FrameFault::TruncatedHeader)
    } else {
        Ok(HeaderStep::Closed)
    }
}

/// The decision on the next header line, or on the end of the stream (`None`).
pub open spec fn header_step_spec(state: HeaderState, line: Option<Seq<char>>) -> Result<
    HeaderStep,
    FrameFault,
> {
    match line {
        Some(l) => header_line_step(state, l),
        None => header_end_step(state),
    }
}

/// Law: a header line that is neither blank nor a `Content-Length` header is
/// ignored, whatever the state: the length seen so far is kept, and the frame
/// has started.
pub proof fn lemma_other_header_ignored(state: HeaderState, line: Seq<char>)
    requires
        trim_end(line).len() > 0,
        !content_length_name().is_prefix_of(trim_end(line)),
    ensures
        header_line_step(state, line) == Ok::<HeaderStep, FrameFault>(
            HeaderStep::Continue(HeaderState { started: true, content_length: state.content_length }),
        ),
{
}

/// Law: a `Content-Length` header whose trimmed value is a decimal `usize`
/// sets the length to that value, whatever the state and the length seen before.
pub proof fn lemma_length_header_sets_length(state: HeaderState, line: Seq<char>, n: usize)
    requires
        content_length_name().is_prefix_of(trim_end(line)),
        parse_usize(trim(trim_end(line).skip(15))) == Some(n),
    ensures
        header_line_step(state, line) == Ok::<HeaderStep, FrameFault>(
            HeaderStep::Continue(HeaderState { started: true, content_length: Some(n) }),
        ),
{
}

/// Law: a line that is blank once trailing whitespace is cut closes the
/// header block, with the body length seen so far; without one the frame is
/// malformed.
pub proof fn lemma_blank_line_ends_header(state: HeaderState, line: Seq<char>)
    requires
        trim_end(line).len() == 0,
    ensures
        header_line_step(state, line) == match state.content_length {
            Some(n) => Ok::<HeaderStep, FrameFault>(HeaderStep::Body(n)),
            None => Err::<HeaderStep, FrameFault>(FrameFault::MissingContentLength),
        },
{
}

/// The characters of `s`, in order.
pub fn str_chars(s: &str) -> (r: Vec<char>)
    ensures
        r@ == s@,
{
    let mut r: Vec<char> = Vec::new();
    for c in it: s.chars()
        invariant
            r@ == it.seq().take(it.index() as int),
            it.seq() == s@,
    {
        r.push(c);
        assert(r@ =~= it.seq().take(it.index() + 1));
    }
    assert(r@ =~= s@);
    r
}

/// The characters of the header name `Content-Length:`.
fn content_length_chars() -> (r: Vec<char>)
    ensures
        r@ == content_length_name(),
{
    let r = vec!['C', 'o', 'n', 't', 'e', 'n', 't', '-', 'L', 'e', 'n', 'g', 't', 'h', ':'];
    assert(r@ =~= content_length_name());
    r
}

/// Whether `cs[0..k]` starts with `Content-Length:`.
fn starts_with_content_length(cs: &Vec<char>, k: usize) -> (r: bool)
    requires
        k <= cs.len(),
    ensures
        r == content_length_name().is_prefix_of(cs@.subrange(0, k as int)),
{
    let name = content_length_chars();
    if k < name.len() {
        return false;
    }
    let mut i: usize = 0;
    while i < name.len()
        invariant
            name@ == content_length_name(),
            name.len() <= k <= cs.len(),
            i <= name.len(),
            forall|j: int| 0 <= j < i ==> name@[j] == cs@[j],
        decreases name.len() - i,
    {
        if name[i] != cs[i] {
            assert(content_length_name()[i as int] != cs@.subrange(0, k as int)[i as int]);
            return false;
        }
        i = i + 1;
    }
    assert(content_length_name() =~= cs@.subrange(0, k as int).subrange(0, name.len() as int));
    true
}

/// A copy of `cs[lo..hi]`.
fn copy_chars(cs: &Vec<char>, lo: usize, hi: usize) -> (r: Vec<char>)
    requires
        lo <= hi <= cs.len(),
    ensures
        r@ == cs@.subrange(lo as int, hi as int),
{
    let mut r: Vec<char> = Vec::new();
    let mut i = lo;
    while i < hi
        invariant
            lo <= i <= hi <= cs.len(),
            r@ == cs@.subrange(lo as int, i as int),
        decreases hi - i,
    {
        r.push(cs[i]);
        i = i + 1;
        assert(r@ =~= cs@.subrange(lo as int, i as int));
    }
    r
}

/// Decides what follows a header line, or the end of the stream (`line` is
/// `None`), in header state `state`.
pub fn header_step(state: HeaderState, line: Option<&str>) -> (r: Result<HeaderStep, FrameError>)
    ensures
        step_view(r) == header_step_spec(
            state,
            match line {
                Some(l) => Some(l@),
                None => None,
            },
        ),
        match line {
            None => step_view(r) == if state.started {
                Err::<HeaderStep, FrameFault>(FrameFault::TruncatedHeader)
            } else {
                Ok::<HeaderStep, FrameFault>(HeaderStep::Closed)
            },
            Some(l) => {
                let t = trim_end(l@);
                if t.len() == 0 {
                    step_view(r) == match state.content_length {
                        Some(n) => Ok::<HeaderStep, FrameFault>(HeaderStep::Body(n)),
                        None => Err::<HeaderStep, FrameFault>(FrameFault::MissingContentLength),
                    }
                } else if content_length_name().is_prefix_of(t) {
                    let value = trim(t.skip(15));
                    step_view(r) == match parse_usize(value) {
                        Some(n) => Ok::<HeaderStep, FrameFault>(
                            HeaderStep::Continue(
                                HeaderState { started: true, content_length: Some(n) },
                            ),
                        ),
                        None => Err::<HeaderStep, FrameFault>(
                            FrameFault::InvalidContentLength(value),
                        ),
                    }
                } else {
                    step_view(r) == Ok::<HeaderStep, FrameFault>(
                        HeaderStep::Continue(
                            HeaderState { started: true, content_length: state.content_length },
                        ),
                    )
                }
            },
        },
{
    let line = match line {
        None => {
            return if state.started {
                Err(FrameError::TruncatedHeader)
            } else {
                Ok(HeaderStep::Closed)
            };
        },
        Some(l) => l,
    };
    let cs = str_chars(line);
    let k = trim_end_bound(&cs, 0, cs.len());
    assert(cs@.subrange(0, cs.len() as int) =~= cs@);
    let ghost h = cs@.subrange(0, k as int);
    if k == 0 {
        return match state.content_length {
            Some(n) => Ok(HeaderStep::Body(n)),
            None => Err(FrameError::MissingContentLength),
        };
    }
    if !starts_with_content_length(&cs, k) {
        return Ok(
            HeaderStep::Continue(HeaderState { started: true, content_length: state.content_length }),
        );
    }
    let name_len: usize = 15;
    assert(h.skip(15) =~= cs@.subrange(15, k as int));
    let vend = trim_end_bound(&cs, name_len, k);
    let vstart = trim_start_bound(&cs, name_len, vend);
    assert(cs@.subrange(vstart as int, vend as int) == trim(h.skip(15)));
    match parse_usize_at(&cs, vstart, vend) {
        Some(n) => Ok(HeaderStep::Continue(HeaderState { started: true, content_length: Some(n) })),
        None => Err(FrameError::InvalidContentLength(copy_chars(&cs, vstart, vend))),
    }
}

} // verus!
