//! The frame codec and the frame value types.
//!
//! A frame on the wire is a header block — newline-delimited `Key: value`
//! lines closed by one empty line — followed, when the block declares a
//! `Content-Length`, by exactly that many raw body bytes. [`PduParser`]
//! parses one frame from a [`ByteStream`]; [`frame_spec`] is the exact
//! mathematical statement of what it produces, including each failure.

use vstd::prelude::*;
use vstd::utf8::decode_utf8;
use vstd::utf8::valid_utf8;
use crate::headers::Header;
use crate::headers::header_map;
use crate::headers::header_parse;
use crate::strutil::parse_content_length;
use crate::strutil::parse_len;

verus! {

/// The newline byte that delimits header lines.
pub const NL: u8 = 10;

/// An in-memory duplex byte stream: a buffered inbound byte sequence with a
/// read position, and an outbound log of everything written. It plays the
/// role a buffered network stream plays in production and an in-memory
/// cursor plays in tests.
pub struct ByteStream {
    input: Vec<u8>,
    pos: usize,
    written: Vec<u8>,
}

impl ByteStream {
    /// The inbound bytes.
    pub closed spec fn src(&self) -> Seq<u8> {
        self.input@
    }

    /// The read position within the inbound bytes.
    pub closed spec fn cursor(&self) -> int {
        self.pos as int
    }

    /// Everything written outbound so far.
    pub closed spec fn sent(&self) -> Seq<u8> {
        self.written@
    }

    /// The read position never passes the end of the inbound bytes.
    pub open spec fn wf(&self) -> bool {
        0 <= self.cursor() <= self.src().len()
    }

    /// A stream that will read `input` and has written nothing.
    pub fn new(input: Vec<u8>) -> (s: ByteStream)
        ensures
            s.wf(),
            s.src() == input@,
            s.cursor() == 0,
            s.sent() == Seq::<u8>::empty(),
    {
        ByteStream { input, pos: 0, written: Vec::new() }
    }

    /// Current read position.
    pub fn position(&self) -> (p: usize)
        ensures
            p as int == self.cursor(),
    {
        self.pos
    }

    /// The bytes written so far.
    pub fn written_bytes(&self) -> (w: &Vec<u8>)
        ensures
            w@ == self.sent(),
    {
        &self.written
    }

    /// Appends `data` to the outbound log.
    pub fn write_bytes(&mut self, data: &Vec<u8>)
        ensures
            final(self).wf() == old(self).wf(),
            final(self).src() == old(self).src(),
            final(self).cursor() == old(self).cursor(),
            final(self).sent() == old(self).sent() + data@,
    {
        let n = data.len();
        let mut i: usize = 0;
        while i < n
            invariant
                i <= n,
                n == data@.len(),
                self.written@ == old(self).written@ + data@.subrange(0, i as int),
                self.input == old(self).input,
                self.pos == old(self).pos,
            decreases n - i,
        {
            self.written.push(data[i]);
            assert(self.written@ =~= old(self).written@ + data@.subrange(0, i as int + 1));
            i = i + 1;
        }
        assert(data@.subrange(0, n as int) =~= data@);
    }
}

/// Index of the first newline byte at or after `pos`, or the length of `s`
/// when there is none.
pub open spec fn line_end_b(s: Seq<u8>, pos: int) -> int
    decreases s.len() - pos when 0 <= pos <= s.len()
{
    if pos >= s.len() {
        s.len() as int
    } else if s[pos] == NL {
        pos
    } else {
        line_end_b(s, pos + 1)
    }
}

pub proof fn lemma_line_end_b_bounds(s: Seq<u8>, pos: int)
    requires
        0 <= pos <= s.len(),
    ensures
        pos <= line_end_b(s, pos) <= s.len(),
        line_end_b(s, pos) < s.len() ==> s[line_end_b(s, pos)] == NL,
        forall|j: int| pos <= j < line_end_b(s, pos) ==> s[j] != NL,
    decreases s.len() - pos,
{
    if pos < s.len() && s[pos] != NL {
        lemma_line_end_b_bounds(s, pos + 1);
    }
}

/// Where the newline byte is known, `line_end_b` finds exactly it.
pub proof fn lemma_line_end_b_exact(s: Seq<u8>, pos: int, e: int)
    requires
        0 <= pos <= e <= s.len(),
        forall|j: int| pos <= j < e ==> s[j] != NL,
        e == s.len() || s[e] == NL,
    ensures
        line_end_b(s, pos) == e,
    decreases e - pos,
{
    if pos < e {
        lemma_line_end_b_exact(s, pos + 1, e);
    }
}

/// Result of scanning a header block: the accumulated header bytes, the
/// position just past the block, and whether the closing empty line was
/// seen. When the input ends before the empty line, whatever was read is
/// discarded (`raw` is empty) and the scan stands at the end of the input,
/// which the session layer treats as end of stream.
pub struct HeaderScan {
    pub raw: Seq<u8>,
    pub next: int,
    pub terminated: bool,
}

/// Scans the header block that starts at `pos`: whole lines, each with its
/// closing newline, accumulate into `raw` until an empty line closes the
/// block; the empty line is consumed but not accumulated.
pub open spec fn scan_headers(s: Seq<u8>, pos: int) -> HeaderScan
    decreases s.len() - pos when 0 <= pos <= s.len() via scan_headers_decreases
{
    if pos >= s.len() {
        HeaderScan { raw: Seq::empty(), next: s.len() as int, terminated: false }
    } else if s[pos] == NL {
        HeaderScan { raw: Seq::empty(), next: pos + 1, terminated: true }
    } else {
        let e = line_end_b(s, pos);
        let stop = if e < s.len() {
            e + 1
        } else {
            s.len() as int
        };
        let rest = scan_headers(s, stop);
        if rest.terminated {
            HeaderScan { raw: s.subrange(pos, stop) + rest.raw, next: rest.next, terminated: true }
        } else {
            HeaderScan { raw: Seq::empty(), next: rest.next, terminated: false }
        }
    }
}

#[via_fn]
proof fn scan_headers_decreases(s: Seq<u8>, pos: int) {
    if 0 <= pos < s.len() {
        lemma_line_end_b_bounds(s, pos);
    }
}

pub proof fn lemma_scan_headers_bounds(s: Seq<u8>, pos: int)
    requires
        0 <= pos <= s.len(),
    ensures
        pos <= scan_headers(s, pos).next <= s.len(),
        pos < s.len() ==> scan_headers(s, pos).next > pos,
        !scan_headers(s, pos).terminated ==> scan_headers(s, pos).next == s.len()
            && scan_headers(s, pos).raw == Seq::<u8>::empty(),
        pos == s.len() ==> scan_headers(s, pos).raw == Seq::<u8>::empty(),
    decreases s.len() - pos,
{
    if pos < s.len() && s[pos] != NL {
        lemma_line_end_b_bounds(s, pos);
        let e = line_end_b(s, pos);
        let stop = if e < s.len() {
            e + 1
        } else {
            s.len() as int
        };
        lemma_scan_headers_bounds(s, stop);
    }
}

/// Scans the header block starting at `pos` of `input`, exactly as
/// [`scan_headers`] describes.
fn scan_header_block(input: &Vec<u8>, pos: usize) -> (r: (Vec<u8>, usize, bool))
    requires
        pos <= input@.len(),
    ensures
        ({
            let sc = scan_headers(input@, pos as int);
            r.0@ == sc.raw && r.1 as int == sc.next && r.2 == sc.terminated
        }),
{
    let n = input.len();
    let mut raw: Vec<u8> = Vec::new();
    let mut cur: usize = pos;
    loop
        invariant
            pos <= cur <= n,
            n == input@.len(),
            ({
                let sc0 = scan_headers(input@, pos as int);
                let scc = scan_headers(input@, cur as int);
                sc0.terminated == scc.terminated && sc0.next == scc.next && (scc.terminated
                    ==> sc0.raw == raw@ + scc.raw)
            }),
        decreases n - cur,
    {
        if cur >= n {
            let empty: Vec<u8> = Vec::new();
            proof {
                lemma_scan_headers_bounds(input@, pos as int);
            }
            return (empty, cur, false);
        }
        if input[cur] == NL {
            assert(scan_headers(input@, cur as int).raw =~= Seq::<u8>::empty());
            assert(raw@ + Seq::<u8>::empty() =~= raw@);
            return (raw, cur + 1, true);
        }
        let ghost cur0 = cur as int;
        let mut e: usize = cur;
        while e < n && input[e] != NL
            invariant
                cur0 <= e <= n,
                n == input@.len(),
                line_end_b(input@, cur0) == line_end_b(input@, e as int),
            decreases n - e,
        {
            e = e + 1;
        }
        assert(e as int == line_end_b(input@, cur0));
        let stop = if e < n {
            e + 1
        } else {
            n
        };
        let ghost raw0 = raw@;
        let mut j: usize = cur;
        while j < stop
            invariant
                cur <= j <= stop <= n,
                n == input@.len(),
                raw@ == raw0 + input@.subrange(cur as int, j as int),
            decreases stop - j,
        {
            raw.push(input[j]);
            assert(raw@ =~= raw0 + input@.subrange(cur as int, j as int + 1));
            j = j + 1;
        }
        proof {
            let sc_stop = scan_headers(input@, stop as int);
            let sc_cur = scan_headers(input@, cur0);
            assert(sc_cur.terminated == sc_stop.terminated);
            if sc_stop.terminated {
                assert(sc_cur.raw == input@.subrange(cur0, stop as int) + sc_stop.raw);
                assert(raw0 + sc_cur.raw =~= (raw0 + input@.subrange(cur0, stop as int))
                    + sc_stop.raw);
            }
        }
        cur = stop;
    }
}

/// Relies on `String::from_utf8`: it succeeds exactly when the bytes are
/// valid UTF-8 and then returns their decoding.
#[verifier::external_body]
fn bytes_to_string(v: Vec<u8>) -> (r: Option<String>)
    ensures
        match r {
            Some(s) => valid_utf8(v@) && s@ == decode_utf8(v@),
            None => !valid_utf8(v@),
        },
{
    match String::from_utf8(v) {
        Ok(s) => Some(s),
        Err(_) => None,
    }
}

/// Why parsing one frame failed.
#[derive(Debug)]
pub enum ParseError {
    /// The input ended inside the declared body.
    IOError,
    /// A frame body that must be header text is not valid UTF-8.
    StrError,
    /// The header block is not valid UTF-8.
    StringError,
    /// The Content-Length value is not a valid non-negative length.
    NumError,
    /// A typed projection was asked of a frame of the wrong kind.
    FromPduError(FromPduError),
}

/// Failure of a typed projection from a frame, with its reason.
#[derive(Debug)]
pub struct FromPduError(&'static str);

impl FromPduError {
    /// The reason the projection failed.
    pub fn message(&self) -> &'static str {
        self.0
    }
}

/// The mathematical content of a frame: its decoded header mapping and its
/// raw body bytes.
pub struct PduView {
    pub headers: Map<Seq<char>, Seq<char>>,
    pub content: Seq<u8>,
}

/// One parsed protocol frame: a decoded header mapping and the raw body.
#[derive(Debug, Clone, PartialEq, Eq)]
pub struct Pdu {
    header: Header,
    content: Vec<u8>,
}

impl View for Pdu {
    type V = PduView;

    closed spec fn view(&self) -> PduView {
        PduView { headers: self.header@, content: self.content@ }
    }
}

impl Pdu {
    /// The header mapping is well formed.
    pub closed spec fn wf(&self) -> bool {
        self.header.wf()
    }

    /// The value stored under `k`, or the empty string when the frame has no
    /// such header.
    pub fn header(&self, k: &str) -> (r: String)
        requires
            self.wf(),
        ensures
            r@ == if self@.headers.dom().contains(k@) {
                self@.headers[k@]
            } else {
                Seq::<char>::empty()
            },
    {
        self.get(k)
    }

    /// True when the frame has no body.
    pub fn is_empty(&self) -> (r: bool)
        ensures
            r == (self@.content.len() == 0),
    {
        self.content.len() == 0
    }

    /// Projects the frame to another type, as that type's [`FromPdu`]
    /// implementation defines.
    pub fn parse<F: FromPdu>(&self) -> (r: Result<F, F::Err>)
        requires
            self.wf(),
        ensures
            match r {
                Ok(v) => F::ok_of(self@) && F::value_matches(self@, v),
                Err(e) => !F::ok_of(self@) && F::err_matches(self@, e),
            },
    {
        FromPdu::from_pdu(self)
    }

    fn get(&self, k: &str) -> (r: String)
        requires
            self.wf(),
        ensures
            r@ == if self@.headers.dom().contains(k@) {
                self@.headers[k@]
            } else {
                Seq::<char>::empty()
            },
    {
        match self.header.get(k) {
            Some(v) => v.clone(),
            None => String::new(),
        }
    }

}

/// A typed, independently fallible projection of a frame.
pub trait FromPdu: Sized {
    /// The error the projection fails with.
    type Err;

    /// The frames this projection succeeds on.
    spec fn ok_of(pdu: PduView) -> bool;

    /// Relates a frame to the projected value.
    spec fn value_matches(pdu: PduView, v: Self) -> bool;

    /// Relates a frame to the error reported for it.
    spec fn err_matches(pdu: PduView, e: Self::Err) -> bool;

    /// Projects `pdu`, succeeding exactly on the frames `ok_of` describes.
    fn from_pdu(pdu: &Pdu) -> (r: Result<Self, Self::Err>)
        requires
            pdu.wf(),
        ensures
            match r {
                Ok(v) => Self::ok_of(pdu@) && Self::value_matches(pdu@, v),
                Err(e) => !Self::ok_of(pdu@) && Self::err_matches(pdu@, e),
            },
    ;
}

/// Projects a frame to the text of its body.
impl FromPdu for String {
    type Err = ParseError;

    open spec fn ok_of(pdu: PduView) -> bool {
        valid_utf8(pdu.content)
    }

    open spec fn value_matches(pdu: PduView, v: Self) -> bool {
        v@ == decode_utf8(pdu.content)
    }

    open spec fn err_matches(pdu: PduView, e: Self::Err) -> bool {
        e is StrError
    }

    fn from_pdu(pdu: &Pdu) -> (r: Result<Self, Self::Err>) {
        match bytes_to_string(pdu.content.clone()) {
            Some(s) => Ok(s),
            None => Err(ParseError::StrError),
        }
    }
}

/// Parses frames out of a byte stream.
pub struct PduParser {}

impl PduParser {
    /// Parses exactly one frame from `reader`, as [`frame_spec`] describes:
    /// the header block is scanned to its closing empty line (or to the end
    /// of the stream, which yields a frame with no headers), decoded and
    /// split into trimmed, percent-decoded entries; a declared
    /// Content-Length then selects that many raw body bytes.
    ///
    /// Errors, each tied to its exact cause: `StringError` when the header
    /// block is not UTF-8; `NumError` when the Content-Length value is
    /// malformed or oversized; `IOError` when the input ends inside the
    /// declared body.
    pub fn parse(reader: &mut ByteStream) -> (r: Result<Pdu, ParseError>)
        requires
            old(reader).wf(),
        ensures
            final(reader).wf(),
            final(reader).src() == old(reader).src(),
            final(reader).sent() == old(reader).sent(),
            ({
                let fs = frame_spec(old(reader).src(), old(reader).cursor());
                match r {
                    Ok(pdu) => pdu.wf() && (fs matches FrameSpec::Frame { headers, content, next }
                        && pdu@.headers == headers && pdu@.content == content
                        && final(reader).cursor() == next),
                    Err(ParseError::StringError) => fs matches FrameSpec::BadText { next }
                        && final(reader).cursor() == next,
                    Err(ParseError::NumError) => fs matches FrameSpec::BadLength { next }
                        && final(reader).cursor() == next,
                    Err(ParseError::IOError) => fs matches FrameSpec::Truncated { next }
                        && final(reader).cursor() == next,
                    Err(_) => false,
                }
            }),
    {
        let ghost s0 = reader.src();
        let ghost p0 = reader.cursor();
        let (raw, next, _terminated) = scan_header_block(&reader.input, reader.pos);
        proof {
            lemma_scan_headers_bounds(s0, p0);
        }
        reader.pos = next;
        let text = match bytes_to_string(raw) {
            Some(t) => t,
            None => {
                return Err(ParseError::StringError);
            },
        };
        let header = header_parse(text.as_str());
        let has_len = header.contains_key("Content-Length");
        if !has_len {
            let content: Vec<u8> = Vec::new();
            assert(content@ =~= Seq::<u8>::empty());
            return Ok(Pdu { header, content });
        }
        let cl: usize = {
            let v = match header.get("Content-Length") {
                Some(v) => v,
                None => {
                    assert(false);
                    return Err(ParseError::NumError);
                },
            };
            match parse_content_length(v.as_str()) {
                Some(n) => n,
                None => {
                    return Err(ParseError::NumError);
                },
            }
        };
        if cl > reader.input.len() - reader.pos {
            return Err(ParseError::IOError);
        }
        let mut content: Vec<u8> = Vec::new();
        let start = reader.pos;
        let mut j: usize = 0;
        while j < cl
            invariant
                j <= cl,
                start + cl <= reader.input@.len(),
                start + cl <= usize::MAX,
                content@ == reader.input@.subrange(start as int, start as int + j as int),
                reader.input@ == s0,
            decreases cl - j,
        {
            content.push(reader.input[start + j]);
            assert(content@ =~= reader.input@.subrange(start as int, start as int + j as int + 1));
            j = j + 1;
        }
        reader.pos = start + cl;
        Ok(Pdu { header, content })
    }
}

/// The mathematical content of an event: the decoded mapping carried in the
/// frame body, and the body's byte length.
pub struct EventView {
    pub headers: Map<Seq<char>, Seq<char>>,
    pub length: int,
}

/// An asynchronous notification: a read-only projection over the header
/// mapping carried in the body of a `text/event-plain` frame.
#[derive(Debug, Clone, PartialEq, Eq)]
pub struct Event {
    inner: Header,
    length: usize,
}

impl View for Event {
    type V = EventView;

    closed spec fn view(&self) -> EventView {
        EventView { headers: self.inner@, length: self.length as int }
    }
}

impl Event {
    /// The event's mapping is well formed.
    pub closed spec fn wf(&self) -> bool {
        self.inner.wf()
    }

    /// The value stored under `k`, if any.
    pub fn get<'a>(&'a self, k: &str) -> (r: Option<&'a String>)
        requires
            self.wf(),
        ensures
            match r {
                Some(v) => self@.headers.dom().contains(k@) && v@ == self@.headers[k@],
                None => !self@.headers.dom().contains(k@),
            },
    {
        self.inner.get(k)
    }

    /// The byte length of the frame body the event was read from.
    pub fn len(&self) -> (n: usize)
        ensures
            n as int == self@.length,
    {
        self.length
    }
}

/// The frames an [`Event`] can be built from: a `text/event-plain`
/// classification and a body of valid header text.
pub open spec fn event_ok(pdu: PduView) -> bool {
    pdu.headers.dom().contains("Content-Type"@) && pdu.headers["Content-Type"@]
        == "text/event-plain"@ && valid_utf8(pdu.content)
}

/// The classification check alone, apart from the body text check.
pub open spec fn event_typed(pdu: PduView) -> bool {
    pdu.headers.dom().contains("Content-Type"@) && pdu.headers["Content-Type"@]
        == "text/event-plain"@
}

/// Projects a `text/event-plain` frame to the event its body carries.
/// Any other frame kind is refused, never silently emptied.
impl FromPdu for Event {
    type Err = ParseError;

    open spec fn ok_of(pdu: PduView) -> bool {
        event_ok(pdu)
    }

    open spec fn value_matches(pdu: PduView, v: Self) -> bool {
        v.wf() && v@.headers == header_map(decode_utf8(pdu.content)) && v@.length
            == pdu.content.len()
    }

    open spec fn err_matches(pdu: PduView, e: Self::Err) -> bool {
        if !event_typed(pdu) {
            e is FromPduError
        } else {
            e is StrError
        }
    }

    fn from_pdu(pdu: &Pdu) -> (r: Result<Self, Self::Err>) {
        proof {
            reveal_strlit("text/event-plain");
        }
        let ct = pdu.header("Content-Type");
        if crate::strutil::string_eq(&ct, "text/event-plain") {
            assert(ct@.len() > 0);
            assert(pdu@.headers.dom().contains("Content-Type"@));
            match bytes_to_string(pdu.content.clone()) {
                Some(text) => {
                    let inner = header_parse(text.as_str());
                    let length = pdu.content.len();
                    Ok(Event { inner, length })
                },
                None => Err(ParseError::StrError),
            }
        } else {
            assert(!event_typed(pdu@));
            Err(ParseError::FromPduError(FromPduError("invalid content-type expected text/event-plain")))
        }
    }
}

/// What parsing one frame at `pos` of `s` yields: the decoded frame and the
/// next read position, or the exact failure, each with the position the
/// stream is left at.
pub enum FrameSpec {
    /// A complete frame: decoded headers, raw body, next read position.
    Frame { headers: Map<Seq<char>, Seq<char>>, content: Seq<u8>, next: int },
    /// The header block is not valid UTF-8.
    BadText { next: int },
    /// The Content-Length value is malformed or does not fit.
    BadLength { next: int },
    /// The declared body runs past the end of the input.
    Truncated { next: int },
}

/// The exact result of parsing one frame at `pos` of `s`.
pub open spec fn frame_spec(s: Seq<u8>, pos: int) -> FrameSpec {
    let sc = scan_headers(s, pos);
    if !valid_utf8(sc.raw) {
        FrameSpec::BadText { next: sc.next }
    } else {
        let m = header_map(decode_utf8(sc.raw));
        if !m.dom().contains("Content-Length"@) {
            FrameSpec::Frame { headers: m, content: Seq::empty(), next: sc.next }
        } else {
            match parse_len(m["Content-Length"@]) {
                None => FrameSpec::BadLength { next: sc.next },
                Some(v) => if v > usize::MAX as int {
                    FrameSpec::BadLength { next: sc.next }
                } else if sc.next + v > s.len() {
                    FrameSpec::Truncated { next: sc.next }
                } else {
                    FrameSpec::Frame {
                        headers: m,
                        content: s.subrange(sc.next, sc.next + v),
                        next: sc.next + v,
                    }
                },
            }
        }
    }
}

} // verus!
