//! The session engine.
//!
//! A [`Client`] owns one [`Connection`] and three sinks: an unbounded queue
//! of `api/response` frames, an unbounded queue of `command/reply` frames,
//! and a bounded, oldest-evicting buffer of `text/event-plain` frames. Each
//! operation writes its command, then repeatedly parses one frame and routes
//! it by classification until the sink it waits on yields a frame or the
//! session closes. [`step_spec`] states one turn of that loop exactly, and
//! [`run_wait`] states the whole loop.

use vstd::prelude::*;
use vstd::utf8::encode_utf8;
use vstd::utf8::valid_utf8;
use vstd::utf8::decode_utf8;
use crate::data::ByteStream;
use crate::data::Event;
use crate::data::FrameSpec;
use crate::data::ParseError;
use crate::data::Pdu;
use crate::data::PduParser;
use crate::data::PduView;
use crate::data::NL;
use crate::data::frame_spec;
use crate::data::lemma_scan_headers_bounds;
use crate::data::scan_headers;
use crate::headers::header_map;
use crate::sinks::cbuf_add;
use crate::sinks::cbuf_capacity;
use crate::sinks::cbuf_new;
use crate::sinks::cbuf_pdus;
use crate::sinks::cbuf_plain;
use crate::sinks::cbuf_remove;
use crate::sinks::queue_add;
use crate::sinks::queue_new;
use crate::sinks::queue_pdus;
use crate::sinks::queue_remove;
use crate::strutil::string_eq;

verus! {

/// Default capacity of the bounded event sink.
pub const EVENT_QUEUE_SIZE: usize = 100000;

/// The session's transport: an in-memory duplex byte stream.
pub struct Connection {
    stream: ByteStream,
}

impl Connection {
    /// The inbound bytes.
    pub closed spec fn src(&self) -> Seq<u8> {
        self.stream.src()
    }

    /// The read position within the inbound bytes.
    pub closed spec fn cursor(&self) -> int {
        self.stream.cursor()
    }

    /// Everything written outbound so far.
    pub closed spec fn sent(&self) -> Seq<u8> {
        self.stream.sent()
    }

    /// The underlying stream is well formed.
    pub closed spec fn wf(&self) -> bool {
        self.stream.wf()
    }

    /// The underlying byte stream, for reading frames from.
    pub fn reader(&mut self) -> (r: &mut ByteStream)
        ensures
            (*r).src() == old(self).src(),
            (*r).cursor() == old(self).cursor(),
            (*r).sent() == old(self).sent(),
            final(self).src() == (*final(r)).src(),
            final(self).cursor() == (*final(r)).cursor(),
            final(self).sent() == (*final(r)).sent(),
    {
        &mut self.stream
    }

    /// The underlying byte stream, for writing commands to.
    pub fn get_mut(&mut self) -> (r: &mut ByteStream)
        ensures
            (*r).src() == old(self).src(),
            (*r).cursor() == old(self).cursor(),
            (*r).sent() == old(self).sent(),
            final(self).src() == (*final(r)).src(),
            final(self).cursor() == (*final(r)).cursor(),
            final(self).sent() == (*final(r)).sent(),
    {
        &mut self.stream
    }

    /// Wraps a byte stream as a session transport.
    pub fn new(stream: ByteStream) -> (c: Connection)
        requires
            stream.wf(),
        ensures
            c.wf(),
            c.src() == stream.src(),
            c.cursor() == stream.cursor(),
            c.sent() == stream.sent(),
    {
        Connection { stream }
    }
}

/// Why a session operation failed.
#[derive(Debug)]
pub enum ClientError {
    /// The peer closed the session: a disconnect notice or a clean end of
    /// stream; every later operation fails the same way.
    ConnectionClose,
    /// A transport write failure; an in-memory stream never raises it, a
    /// caller driving a real transport maps its write errors to it.
    IOError,
    /// The frame being read was malformed, with the exact parse failure.
    ParseError(ParseError),
    /// A well-formed frame of an unrecognized classification arrived.
    ProtocolViolation,
}

/// A parse failure aborts the waiting operation with itself as the cause.
impl From<ParseError> for ClientError {
    fn from(e: ParseError) -> (r: ClientError) {
        ClientError::ParseError(e)
    }
}

impl vstd::std_specs::convert::FromSpecImpl<ParseError> for ClientError {
    open spec fn obeys_from_spec() -> bool {
        true
    }

    open spec fn from_spec(e: ParseError) -> ClientError {
        ClientError::ParseError(e)
    }
}

/// How the session engine routes one frame, by its Content-Type.
pub enum FrameClass {
    /// `api/response`: to the api-response queue.
    Api,
    /// `text/disconnect-notice`: the session closes.
    Disconnect,
    /// `text/event-plain`: to the bounded event sink.
    Event,
    /// `command/reply`: to the command-reply queue.
    Reply,
    /// A frame with no classification and no body, as an ended stream
    /// presents: the session closes.
    Terminal,
    /// Anything else: a protocol violation, surfaced to the waiting caller.
    Unknown,
}

/// The classification a frame's headers carry: the Content-Type value, or
/// empty text when there is none.
pub open spec fn content_type(h: Map<Seq<char>, Seq<char>>) -> Seq<char> {
    if h.dom().contains("Content-Type"@) {
        h["Content-Type"@]
    } else {
        Seq::empty()
    }
}

/// Classifies one frame, in the order the dispatch loop tests.
pub open spec fn classify(p: PduView) -> FrameClass {
    let ct = content_type(p.headers);
    if ct == "api/response"@ {
        FrameClass::Api
    } else if ct == "text/disconnect-notice"@ {
        FrameClass::Disconnect
    } else if ct == "text/event-plain"@ {
        FrameClass::Event
    } else if ct == "command/reply"@ {
        FrameClass::Reply
    } else if ct == Seq::<char>::empty() && p.content.len() == 0 {
        FrameClass::Terminal
    } else {
        FrameClass::Unknown
    }
}

/// The state of a session: the inbound bytes and the read position, the
/// three sinks (oldest frame first), the event sink's capacity, and whether
/// the session has closed.
pub struct SessionState {
    pub src: Seq<u8>,
    pub pos: int,
    pub api: Seq<PduView>,
    pub reply: Seq<PduView>,
    pub events: Seq<PduView>,
    pub cap: int,
    pub closed: bool,
}

/// A session state the engine can be in: the read position lies within the
/// input, the event sink never exceeds its capacity, and everything
/// retained in the event sink is an event frame.
pub open spec fn wf_state(st: SessionState) -> bool {
    0 <= st.pos <= st.src.len() && st.cap >= 0 && st.events.len() <= st.cap && (forall|i: int|
        0 <= i < st.events.len() ==> classify(#[trigger] st.events[i]) is Event)
}

/// Insertion into the bounded event sink: below capacity the frame joins
/// the tail; at capacity the oldest retained frame is dropped to make room.
pub open spec fn evict_push(s: Seq<PduView>, cap: int, p: PduView) -> Seq<PduView> {
    if s.len() < cap {
        s.push(p)
    } else {
        s.push(p).drop_first()
    }
}

/// One turn of the dispatch loop.
pub enum StepSpec {
    /// A frame was parsed and routed to its sink.
    Routed { st: SessionState },
    /// A disconnect notice or the end of the stream: the session closed.
    Closed { st: SessionState },
    /// The frame could not be parsed; the waiting operation aborts.
    Malformed { e: ParseError, st: SessionState },
    /// A well-formed frame of unknown classification; the waiting operation
    /// aborts.
    Unhandled { st: SessionState },
}

/// One turn of the dispatch loop: parse one frame at the read position and
/// route it by classification.
pub open spec fn step_spec(st: SessionState) -> StepSpec {
    match frame_spec(st.src, st.pos) {
        FrameSpec::BadText { next } => StepSpec::Malformed {
            e: ParseError::StringError,
            st: SessionState { pos: next, ..st },
        },
        FrameSpec::BadLength { next } => StepSpec::Malformed {
            e: ParseError::NumError,
            st: SessionState { pos: next, ..st },
        },
        FrameSpec::Truncated { next } => StepSpec::Malformed {
            e: ParseError::IOError,
            st: SessionState { pos: next, ..st },
        },
        FrameSpec::Frame { headers, content, next } => {
            let p = PduView { headers, content };
            let st1 = SessionState { pos: next, ..st };
            match classify(p) {
                FrameClass::Api => StepSpec::Routed {
                    st: SessionState { api: st1.api.push(p), ..st1 },
                },
                FrameClass::Disconnect => StepSpec::Closed {
                    st: SessionState { closed: true, ..st1 },
                },
                FrameClass::Event => StepSpec::Routed {
                    st: SessionState { events: evict_push(st1.events, st1.cap, p), ..st1 },
                },
                FrameClass::Reply => StepSpec::Routed {
                    st: SessionState { reply: st1.reply.push(p), ..st1 },
                },
                FrameClass::Terminal => StepSpec::Closed {
                    st: SessionState { closed: true, ..st1 },
                },
                FrameClass::Unknown => StepSpec::Unhandled { st: st1 },
            }
        },
    }
}

/// The state reached by one turn of the dispatch loop.
pub open spec fn step_state(st: SessionState) -> SessionState {
    match step_spec(st) {
        StepSpec::Routed { st: st1 } => st1,
        StepSpec::Closed { st: st1 } => st1,
        StepSpec::Malformed { e: _, st: st1 } => st1,
        StepSpec::Unhandled { st: st1 } => st1,
    }
}

/// One turn of the dispatch loop moves the read position forward, never
/// touches the input, the capacity or the other sinks' retained order, and
/// keeps the state well formed; when a frame is routed the position moves
/// strictly forward.
pub proof fn lemma_step_props(st: SessionState)
    requires
        wf_state(st),
    ensures
        wf_state(step_state(st)),
        step_state(st).src == st.src,
        step_state(st).cap == st.cap,
        st.pos <= step_state(st).pos <= st.src.len(),
        step_spec(st) matches StepSpec::Routed { st: st1 } ==> st1.pos > st.pos && st1.closed
            == st.closed,
{
    lemma_scan_headers_bounds(st.src, st.pos);
    let sc = scan_headers(st.src, st.pos);
    if vstd::utf8::valid_utf8(sc.raw) {
        let m = header_map(vstd::utf8::decode_utf8(sc.raw));
        if m.dom().contains("Content-Length"@) {
            crate::strutil::lemma_parse_len_nonneg(m["Content-Length"@]);
        }
    }
    match frame_spec(st.src, st.pos) {
        FrameSpec::Frame { headers, content, next } => {
            let p = PduView { headers, content };
            if st.pos == st.src.len() {
                assert(sc.raw =~= Seq::<u8>::empty());
                assert(vstd::utf8::valid_utf8(sc.raw));
                assert(vstd::utf8::decode_utf8(sc.raw) =~= Seq::<char>::empty());
                assert(header_map(vstd::utf8::decode_utf8(sc.raw)) =~= Map::<Seq<char>,
                    Seq<char>>::empty());
                assert(headers.dom() =~= Set::<Seq<char>>::empty());
                assert(content_type(headers) == Seq::<char>::empty());
                proof_classify_empty_is_terminal(p);
            }
            match classify(p) {
                FrameClass::Event => {
                    let evs = evict_push(st.events, st.cap, p);
                    assert forall|i: int| 0 <= i < evs.len() implies classify(
                        #[trigger] evs[i],
                    ) is Event by {
                        if st.events.len() < st.cap {
                            if i < st.events.len() {
                                assert(evs[i] == st.events[i]);
                            } else {
                                assert(evs[i] == p);
                            }
                        } else {
                            let t = st.events.push(p);
                            assert(evs[i] == t[i + 1]);
                            if i + 1 < st.events.len() {
                                assert(t[i + 1] == st.events[i + 1]);
                            } else {
                                assert(t[i + 1] == p);
                            }
                        }
                    }
                },
                _ => {
                },
            }
        },
        _ => {
        },
    }
}

/// A frame with no classification and no body is a terminal frame.
proof fn proof_classify_empty_is_terminal(p: PduView)
    requires
        content_type(p.headers) == Seq::<char>::empty(),
        p.content.len() == 0,
    ensures
        classify(p) is Terminal,
{
    reveal_strlit("api/response");
    reveal_strlit("text/disconnect-notice");
    reveal_strlit("text/event-plain");
    reveal_strlit("command/reply");
    assert(content_type(p.headers) == Seq::<char>::empty());
    assert(content_type(p.headers).len() == 0);
    assert(("api/response"@).len() == 12);
    assert(("text/disconnect-notice"@).len() == 22);
    assert(("text/event-plain"@).len() == 16);
    assert(("command/reply"@).len() == 13);
}

/// The views of a sequence of frames, in order.
pub open spec fn views_of(s: Seq<Pdu>) -> Seq<PduView> {
    s.map_values(|p: Pdu| p@)
}

proof fn lemma_views_push(s: Seq<Pdu>, v: Pdu)
    ensures
        views_of(s.push(v)) =~= views_of(s).push(v@),
{
}

proof fn lemma_views_drop(s: Seq<Pdu>)
    requires
        s.len() > 0,
    ensures
        views_of(s.drop_first()) =~= views_of(s).drop_first(),
        views_of(s)[0] == s[0]@,
{
}

proof fn lemma_views_evict(s: Seq<Pdu>, cap: int, v: Pdu)
    ensures
        views_of(
            if s.len() < cap {
                s.push(v)
            } else {
                s.push(v).drop_first()
            },
        ) =~= evict_push(views_of(s), cap, v@),
{
    lemma_views_push(s, v);
    if s.len() >= cap {
        lemma_views_drop(s.push(v));
    }
}

/// The session engine for the wire protocol: authenticates, issues
/// commands, subscribes to events, and demultiplexes the frames that come
/// back.
pub struct Client {
    connection: Connection,
    api_response: queues::Queue<Pdu>,
    command_reply: queues::Queue<Pdu>,
    events: queues::CircularBuffer<Pdu>,
    closed: bool,
}

impl Client {
    /// Everything written outbound so far.
    pub closed spec fn sent(&self) -> Seq<u8> {
        self.connection.sent()
    }

    /// Every frame retained in the three sinks, well formed and, for the
    /// event sink, of event classification; the transport and the event
    /// sink are well formed.
    pub closed spec fn wf(&self) -> bool {
        &&& self.connection.wf()
        &&& cbuf_plain(self.events)
        &&& cbuf_capacity(self.events) >= 0
        &&& (forall|i: int|
            0 <= i < queue_pdus(self.api_response).len() ==> (#[trigger] queue_pdus(
                self.api_response,
            )[i]).wf())
        &&& (forall|i: int|
            0 <= i < queue_pdus(self.command_reply).len() ==> (#[trigger] queue_pdus(
                self.command_reply,
            )[i]).wf())
        &&& (forall|i: int|
            0 <= i < cbuf_pdus(self.events).len() ==> (#[trigger] cbuf_pdus(self.events)[i]).wf())
        &&& wf_state(self@)
    }
}

impl View for Client {
    type V = SessionState;

    closed spec fn view(&self) -> SessionState {
        SessionState {
            src: self.connection.src(),
            pos: self.connection.cursor(),
            api: views_of(queue_pdus(self.api_response)),
            reply: views_of(queue_pdus(self.command_reply)),
            events: views_of(cbuf_pdus(self.events)),
            cap: cbuf_capacity(self.events),
            closed: self.closed,
        }
    }
}

impl Client {
    /// A session over `connection` with the default event sink capacity.
    pub fn new(connection: Connection) -> (c: Client)
        requires
            connection.wf(),
        ensures
            c.wf(),
            c@.src == connection.src(),
            c@.pos == connection.cursor(),
            c@.api == Seq::<PduView>::empty(),
            c@.reply == Seq::<PduView>::empty(),
            c@.events == Seq::<PduView>::empty(),
            c@.cap == EVENT_QUEUE_SIZE as int,
            c@.closed == false,
            c.sent() == connection.sent(),
    {
        Client::with_capacity(connection, EVENT_QUEUE_SIZE)
    }

    /// A session over `connection` whose event sink retains at most
    /// `capacity` events.
    pub fn with_capacity(connection: Connection, capacity: usize) -> (c: Client)
        requires
            connection.wf(),
        ensures
            c.wf(),
            c@.src == connection.src(),
            c@.pos == connection.cursor(),
            c@.api == Seq::<PduView>::empty(),
            c@.reply == Seq::<PduView>::empty(),
            c@.events == Seq::<PduView>::empty(),
            c@.cap == capacity as int,
            c@.closed == false,
            c.sent() == connection.sent(),
    {
        let c = Client {
            connection,
            api_response: queue_new(),
            command_reply: queue_new(),
            events: cbuf_new(capacity),
            closed: false,
        };
        assert(c@.api =~= Seq::<PduView>::empty());
        assert(c@.reply =~= Seq::<PduView>::empty());
        assert(c@.events =~= Seq::<PduView>::empty());
        c
    }

    /// True once the session has closed; every operation on a closed
    /// session fails with a connection-closed error.
    pub fn is_closed(&self) -> (r: bool)
        ensures
            r == self@.closed,
    {
        self.closed
    }

    /// The bytes this session has written outbound so far.
    pub fn sent_bytes(&self) -> (w: &Vec<u8>)
        ensures
            w@ == self.sent(),
    {
        self.connection.stream.written_bytes()
    }

    /// Parses one frame and routes it by classification, exactly as
    /// [`step_spec`] describes: to a sink on success; a connection-closed
    /// error on a disconnect notice or at the end of the stream, closing
    /// the session; the parse failure itself on a malformed frame; a
    /// protocol-violation error on an unrecognized classification.
    fn pull_and_process_pdu(&mut self) -> (r: Result<(), ClientError>)
        requires
            old(self).wf(),
        ensures
            final(self).wf(),
            final(self).sent() == old(self).sent(),
            final(self)@ == step_state(old(self)@),
            match r {
                Ok(()) => step_spec(old(self)@) is Routed,
                Err(ClientError::ConnectionClose) => step_spec(old(self)@) is Closed,
                Err(ClientError::ParseError(e)) => step_spec(old(self)@) matches StepSpec::Malformed {
                    e: e2,
                    st: _,
                } && e == e2,
                Err(ClientError::ProtocolViolation) => step_spec(old(self)@) is Unhandled,
                Err(_) => false,
            },
    {
        proof {
            lemma_step_props(old(self)@);
        }
        let parsed = PduParser::parse(&mut self.connection.stream);
        let pdu = match parsed {
            Err(e) => {
                return Err(ClientError::ParseError(e));
            },
            Ok(pdu) => pdu,
        };
        let ghost p = pdu@;
        let ct = pdu.header("Content-Type");
        proof {
            if ct@.len() == 0 {
                assert(ct@ =~= Seq::<char>::empty());
            }
        }
        if string_eq(&ct, "api/response") {
            let ghost before = queue_pdus(self.api_response);
            queue_add(&mut self.api_response, pdu);
            proof {
                lemma_views_push(before, queue_pdus(self.api_response).last());
                assert(views_of(queue_pdus(self.api_response)) =~= views_of(before).push(p));
            }
            Ok(())
        } else if string_eq(&ct, "text/disconnect-notice") {
            self.closed = true;
            Err(ClientError::ConnectionClose)
        } else if string_eq(&ct, "text/event-plain") {
            let ghost before = cbuf_pdus(self.events);
            let ghost cap = cbuf_capacity(self.events);
            let ghost pd = pdu;
            let _evicted = cbuf_add(&mut self.events, pdu);
            proof {
                lemma_views_evict(before, cap, pd);
            }
            Ok(())
        } else if string_eq(&ct, "command/reply") {
            let ghost before = queue_pdus(self.command_reply);
            queue_add(&mut self.command_reply, pdu);
            proof {
                lemma_views_push(before, queue_pdus(self.command_reply).last());
                assert(views_of(queue_pdus(self.command_reply)) =~= views_of(before).push(p));
            }
            Ok(())
        } else if ct.as_str().is_empty() && pdu.is_empty() {
            self.closed = true;
            Err(ClientError::ConnectionClose)
        } else {
            Err(ClientError::ProtocolViolation)
        }
    }
}

/// The sink a session operation waits on.
pub enum SinkKind {
    /// The api-response queue.
    ApiSink,
    /// The command-reply queue.
    ReplySink,
    /// The bounded event sink.
    EventSink,
}

/// The frames the given sink retains, oldest first.
pub open spec fn sink_of(st: SessionState, t: SinkKind) -> Seq<PduView> {
    match t {
        SinkKind::ApiSink => st.api,
        SinkKind::ReplySink => st.reply,
        SinkKind::EventSink => st.events,
    }
}

/// The state after the oldest frame of the given sink is consumed.
pub open spec fn take_sink(st: SessionState, t: SinkKind) -> SessionState
    recommends
        sink_of(st, t).len() > 0,
{
    match t {
        SinkKind::ApiSink => SessionState { api: st.api.drop_first(), ..st },
        SinkKind::ReplySink => SessionState { reply: st.reply.drop_first(), ..st },
        SinkKind::EventSink => SessionState { events: st.events.drop_first(), ..st },
    }
}

/// How a whole dispatch loop ends: with the oldest frame of the awaited
/// sink, or with the error that stopped it.
pub enum RunSpec {
    /// The awaited sink yielded its oldest frame.
    Got { p: PduView, st: SessionState },
    /// The loop stopped: connection closed, malformed frame, or a frame of
    /// unknown classification.
    Stopped { e: ClientError, st: SessionState },
}

/// The dispatch loop, run until the sink `t` is non-empty or the session
/// stops: each turn parses and routes one frame ([`step_spec`]), then the
/// awaited sink is drained if it can be.
pub open spec fn run_wait(st: SessionState, t: SinkKind) -> RunSpec
    decreases st.src.len() - st.pos when wf_state(st) via run_wait_decreases
{
    match step_spec(st) {
        StepSpec::Malformed { e, st: st1 } => RunSpec::Stopped {
            e: ClientError::ParseError(e),
            st: st1,
        },
        StepSpec::Closed { st: st1 } => RunSpec::Stopped { e: ClientError::ConnectionClose, st: st1 },
        StepSpec::Unhandled { st: st1 } => RunSpec::Stopped {
            e: ClientError::ProtocolViolation,
            st: st1,
        },
        StepSpec::Routed { st: st1 } => if sink_of(st1, t).len() > 0 {
            RunSpec::Got { p: sink_of(st1, t)[0], st: take_sink(st1, t) }
        } else {
            run_wait(st1, t)
        },
    }
}

#[via_fn]
proof fn run_wait_decreases(st: SessionState, t: SinkKind) {
    lemma_step_props(st);
}

/// The dispatch loop preserves the input, the capacity and well-formedness;
/// it closes the session exactly when it stops with a connection-closed
/// error; and a frame obtained from the event sink is an event frame.
pub proof fn lemma_run_props(st: SessionState, t: SinkKind)
    requires
        wf_state(st),
    ensures
        match run_wait(st, t) {
            RunSpec::Got { p, st: st2 } => wf_state(st2) && st2.src == st.src && st2.cap == st.cap
                && st2.pos >= st.pos && st2.closed == st.closed && (t is EventSink ==> classify(
                p,
            ) is Event),
            RunSpec::Stopped { e, st: st2 } => wf_state(st2) && st2.src == st.src && st2.cap
                == st.cap && st2.pos >= st.pos && (e is ConnectionClose ==> st2.closed) && (!(
            e is ConnectionClose) ==> st2.closed == st.closed) && (e is ConnectionClose
                || e is ParseError || e is ProtocolViolation),
        },
    decreases st.src.len() - st.pos,
{
    lemma_step_props(st);
    match step_spec(st) {
        StepSpec::Routed { st: st1 } => {
            if sink_of(st1, t).len() > 0 {
            } else {
                lemma_run_props(st1, t);
            }
        },
        _ => {
        },
    }
}

impl Client {
    /// Writes one command line and its blank-line terminator.
    fn send_command(&mut self, cmd: &Vec<u8>)
        requires
            old(self).wf(),
        ensures
            final(self).wf(),
            final(self)@ == old(self)@,
            final(self).sent() == old(self).sent() + cmd@ + seq![NL, NL],
    {
        self.connection.stream.write_bytes(cmd);
        let nl: Vec<u8> = vec![NL, NL];
        assert(nl@ =~= seq![NL, NL]);
        self.connection.stream.write_bytes(&nl);
        assert(old(self).sent() + cmd@ + nl@ =~= (old(self).sent() + cmd@) + nl@);
        assert(self@ == old(self)@);
    }

    /// Runs the dispatch loop until the command-reply queue yields a frame,
    /// exactly as `run_wait` on the command-reply sink describes.
    fn wait_for_command_reply(&mut self) -> (r: Result<Pdu, ClientError>)
        requires
            old(self).wf(),
        ensures
            final(self).wf(),
            final(self).sent() == old(self).sent(),
            match r {
                Ok(pdu) => run_wait(old(self)@, SinkKind::ReplySink) matches RunSpec::Got { p, st }
                    && pdu@ == p && pdu.wf() && final(self)@ == st,
                Err(e) => run_wait(old(self)@, SinkKind::ReplySink) matches RunSpec::Stopped {
                    e: e2,
                    st,
                } && e == e2 && final(self)@ == st,
            },
    {
        loop
            invariant
                self.wf(),
                self.sent() == old(self).sent(),
                run_wait(old(self)@, SinkKind::ReplySink) == run_wait(self@, SinkKind::ReplySink),
            decreases self@.src.len() - self@.pos,
        {
            let ghost pre = self@;
            proof {
                lemma_step_props(pre);
            }
            match self.pull_and_process_pdu() {
                Err(e) => {
                    return Err(e);
                },
                Ok(()) => {
                    let ghost before = queue_pdus(self.command_reply);
                    match queue_remove(&mut self.command_reply) {
                        Ok(pdu) => {
                            proof {
                                lemma_views_drop(before);
                                assert(self@ =~~= take_sink(step_state(pre), SinkKind::ReplySink));
                            }
                            assert(forall|i: int|
                                0 <= i < queue_pdus(self.command_reply).len() ==> (
                                #[trigger] queue_pdus(self.command_reply)[i]) == before[i + 1]);
                            return Ok(pdu);
                        },
                        Err(_) => {
                        },
                    }
                },
            }
        }
    }

    /// Runs the dispatch loop until the api-response queue yields a frame,
    /// exactly as `run_wait` on the api-response sink describes.
    fn wait_for_api_response(&mut self) -> (r: Result<Pdu, ClientError>)
        requires
            old(self).wf(),
        ensures
            final(self).wf(),
            final(self).sent() == old(self).sent(),
            match r {
                Ok(pdu) => run_wait(old(self)@, SinkKind::ApiSink) matches RunSpec::Got { p, st }
                    && pdu@ == p && pdu.wf() && final(self)@ == st,
                Err(e) => run_wait(old(self)@, SinkKind::ApiSink) matches RunSpec::Stopped {
                    e: e2,
                    st,
                } && e == e2 && final(self)@ == st,
            },
    {
        loop
            invariant
                self.wf(),
                self.sent() == old(self).sent(),
                run_wait(old(self)@, SinkKind::ApiSink) == run_wait(self@, SinkKind::ApiSink),
            decreases self@.src.len() - self@.pos,
        {
            let ghost pre = self@;
            proof {
                lemma_step_props(pre);
            }
            match self.pull_and_process_pdu() {
                Err(e) => {
                    return Err(e);
                },
                Ok(()) => {
                    let ghost before = queue_pdus(self.api_response);
                    match queue_remove(&mut self.api_response) {
                        Ok(pdu) => {
                            proof {
                                lemma_views_drop(before);
                                assert(self@ =~~= take_sink(step_state(pre), SinkKind::ApiSink));
                            }
                            assert(forall|i: int|
                                0 <= i < queue_pdus(self.api_response).len() ==> (
                                #[trigger] queue_pdus(self.api_response)[i]) == before[i + 1]);
                            return Ok(pdu);
                        },
                        Err(_) => {
                        },
                    }
                },
            }
        }
    }

    /// Runs the dispatch loop until an event is available and returns its
    /// [`Event`] projection. On a closed session, and whenever the stream
    /// ends or a disconnect notice arrives while waiting, it fails with a
    /// connection-closed error; a retained frame whose body is not valid
    /// header text is refused rather than returned empty.
    pub fn pull_event(&mut self) -> (r: Result<Event, ClientError>)
        requires
            old(self).wf(),
        ensures
            final(self).wf(),
            final(self).sent() == old(self).sent(),
            old(self)@.closed ==> final(self)@ == old(self)@ && (r matches Err(
                ClientError::ConnectionClose,
            )),
            !old(self)@.closed ==> match run_wait(old(self)@, SinkKind::EventSink) {
                RunSpec::Got { p, st } => final(self)@ == st && (match r {
                    Ok(ev) => ev.wf() && valid_utf8(p.content) && ev@.headers == header_map(
                        decode_utf8(p.content),
                    ) && ev@.length == p.content.len(),
                    Err(ClientError::ParseError(pe)) => !valid_utf8(p.content) && pe is StrError,
                    _ => false,
                }),
                RunSpec::Stopped { e, st } => final(self)@ == st && (r matches Err(e2) && e2 == e),
            },
    {
        if self.closed {
            return Err(ClientError::ConnectionClose);
        }
        loop
            invariant
                self.wf(),
                self.sent() == old(self).sent(),
                run_wait(old(self)@, SinkKind::EventSink) == run_wait(self@, SinkKind::EventSink),
                !old(self)@.closed,
            decreases self@.src.len() - self@.pos,
        {
            let ghost pre = self@;
            proof {
                lemma_step_props(pre);
            }
            match self.pull_and_process_pdu() {
                Err(e) => {
                    return Err(e);
                },
                Ok(()) => {
                    let ghost before = cbuf_pdus(self.events);
                    match cbuf_remove(&mut self.events) {
                        Ok(pdu) => {
                            proof {
                                lemma_views_drop(before);
                                assert(self@ =~~= take_sink(step_state(pre), SinkKind::EventSink));
                                reveal_strlit("text/event-plain");
                            }
                            assert(forall|i: int|
                                0 <= i < cbuf_pdus(self.events).len() ==> (#[trigger] cbuf_pdus(
                                    self.events,
                                )[i]) == before[i + 1]);
                            assert(classify(pdu@) is Event);
                            assert(crate::data::event_typed(pdu@));
                            let parsed: Result<Event, ParseError> = pdu.parse();
                            match parsed {
                                Ok(ev) => {
                                    return Ok(ev);
                                },
                                Err(pe) => {
                                    return Err(ClientError::ParseError(pe));
                                },
                            }
                        },
                        Err(_) => {
                        },
                    }
                },
            }
        }
    }

    /// Sends `event plain <event>` and waits for the command reply, which
    /// is accepted as acknowledgement whatever its text. On a closed
    /// session it fails with a connection-closed error.
    pub fn event(&mut self, event: &str) -> (r: Result<(), ClientError>)
        requires
            old(self).wf(),
        ensures
            final(self).wf(),
            old(self)@.closed ==> final(self)@ == old(self)@ && final(self).sent() == old(
                self,
            ).sent() && (r matches Err(ClientError::ConnectionClose)),
            !old(self)@.closed ==> final(self).sent() == old(self).sent() + event_command(event@)
                && match run_wait(old(self)@, SinkKind::ReplySink) {
                RunSpec::Got { p, st } => final(self)@ == st && (r matches Ok(())),
                RunSpec::Stopped { e, st } => final(self)@ == st && (r matches Err(e2) && e2 == e),
            },
    {
        if self.closed {
            return Err(ClientError::ConnectionClose);
        }
        let mut line: Vec<u8> = Vec::new();
        crate::strutil::append_str_bytes(&mut line, "event plain ");
        crate::strutil::append_str_bytes(&mut line, event);
        self.send_command(&line);
        assert(self.sent() =~= old(self).sent() + event_command(event@));
        match self.wait_for_command_reply() {
            Ok(_) => Ok(()),
            Err(e) => Err(e),
        }
    }

    /// Sends `api <cmd> <arg>`, waits for the `api/response` frame, and
    /// returns its body as text. On a closed session it fails with a
    /// connection-closed error; a response body that is not valid text is
    /// refused.
    pub fn api(&mut self, cmd: &str, arg: &str) -> (r: Result<String, ClientError>)
        requires
            old(self).wf(),
        ensures
            final(self).wf(),
            old(self)@.closed ==> final(self)@ == old(self)@ && final(self).sent() == old(
                self,
            ).sent() && (r matches Err(ClientError::ConnectionClose)),
            !old(self)@.closed ==> final(self).sent() == old(self).sent() + api_command(
                cmd@,
                arg@,
            ) && match run_wait(old(self)@, SinkKind::ApiSink) {
                RunSpec::Got { p, st } => final(self)@ == st && (match r {
                    Ok(s) => valid_utf8(p.content) && s@ == decode_utf8(p.content),
                    Err(ClientError::ParseError(pe)) => !valid_utf8(p.content) && pe is StrError,
                    _ => false,
                }),
                RunSpec::Stopped { e, st } => final(self)@ == st && (r matches Err(e2) && e2 == e),
            },
    {
        if self.closed {
            return Err(ClientError::ConnectionClose);
        }
        let mut line: Vec<u8> = Vec::new();
        crate::strutil::append_str_bytes(&mut line, "api ");
        crate::strutil::append_str_bytes(&mut line, cmd);
        crate::strutil::append_str_bytes(&mut line, " ");
        crate::strutil::append_str_bytes(&mut line, arg);
        self.send_command(&line);
        assert(self.sent() =~= old(self).sent() + api_command(cmd@, arg@));
        match self.wait_for_api_response() {
            Err(e) => Err(e),
            Ok(pdu) => {
                let parsed: Result<String, ParseError> = pdu.parse();
                match parsed {
                    Ok(s) => Ok(s),
                    Err(pe) => Err(ClientError::ParseError(pe)),
                }
            },
        }
    }

    /// Authenticates the session: reads one frame, which must be an
    /// `auth/request`; sends `auth <pass>`; and inspects the Reply-Text of
    /// the command reply. Exactly `+OK accepted` succeeds; any other reply
    /// text is an authentication failure, after which the session stays
    /// usable. A closed or closing stream, or a frame that cannot be
    /// parsed, surfaces as a connection error.
    pub fn auth(&mut self, pass: &str) -> (r: Result<(), &'static str>)
        requires
            old(self).wf(),
        ensures
            final(self).wf(),
            old(self)@.closed ==> final(self)@ == old(self)@ && final(self).sent() == old(
                self,
            ).sent() && (r matches Err(m) && m@ == "connection error"@),
            !old(self)@.closed ==> ({
                let fs = frame_spec(old(self)@.src, old(self)@.pos);
                match fs {
                    FrameSpec::Frame { headers, content, next } => {
                        let st1 = SessionState { pos: next, ..old(self)@ };
                        if content_type(headers) == "auth/request"@ {
                            final(self).sent() == old(self).sent() + auth_command(pass@) && (
                            match run_wait(st1, SinkKind::ReplySink) {
                                RunSpec::Got { p, st } => final(self)@ == st && (
                                if p.headers.dom().contains("Reply-Text"@) && p.headers["Reply-Text"@]
                                    == "+OK accepted"@ {
                                    r is Ok
                                } else {
                                    r matches Err(m) && m@ == "fails to authenticate"@
                                }),
                                RunSpec::Stopped { e: _, st } => final(self)@ == st && (r matches Err(
                                    m,
                                ) && m@ == "connection error"@),
                            })
                        } else if content_type(headers) == "text/disconnect-notice"@ || (
                        content_type(headers) == Seq::<char>::empty() && content.len() == 0) {
                            final(self)@ == SessionState { pos: next, closed: true, ..old(self)@ }
                                && final(self).sent() == old(self).sent() && (r matches Err(m) && m@
                                == "connection error"@)
                        } else {
                            final(self)@ == st1 && final(self).sent() == old(self).sent() && (
                            r matches Err(m) && m@ == "fails to authenticate"@)
                        }
                    },
                    FrameSpec::BadText { next } => final(self)@ == SessionState {
                        pos: next,
                        ..old(self)@
                    } && final(self).sent() == old(self).sent() && (r matches Err(m) && m@
                        == "connection error"@),
                    FrameSpec::BadLength { next } => final(self)@ == SessionState {
                        pos: next,
                        ..old(self)@
                    } && final(self).sent() == old(self).sent() && (r matches Err(m) && m@
                        == "connection error"@),
                    FrameSpec::Truncated { next } => final(self)@ == SessionState {
                        pos: next,
                        ..old(self)@
                    } && final(self).sent() == old(self).sent() && (r matches Err(m) && m@
                        == "connection error"@),
                }
            }),
    {
        if self.closed {
            return Err("connection error");
        }
        let parsed = PduParser::parse(&mut self.connection.stream);
        let pdu = match parsed {
            Err(_) => {
                return Err("connection error");
            },
            Ok(p) => p,
        };
        let ct = pdu.header("Content-Type");
        proof {
            if ct@.len() == 0 {
                assert(ct@ =~= Seq::<char>::empty());
            }
        }
        if string_eq(&ct, "auth/request") {
            let mut line: Vec<u8> = Vec::new();
            crate::strutil::append_str_bytes(&mut line, "auth ");
            crate::strutil::append_str_bytes(&mut line, pass);
            self.send_command(&line);
            assert(self.sent() =~= old(self).sent() + auth_command(pass@));
            match self.wait_for_command_reply() {
                Err(_) => Err("connection error"),
                Ok(reply) => {
                    let rt = reply.header("Reply-Text");
                    if string_eq(&rt, "+OK accepted") {
                        proof {
                            reveal_strlit("+OK accepted");
                        }
                        Ok(())
                    } else {
                        Err("fails to authenticate")
                    }
                },
            }
        } else if string_eq(&ct, "text/disconnect-notice") || (ct.as_str().is_empty()
            && pdu.is_empty()) {
            self.closed = true;
            Err("connection error")
        } else {
            Err("fails to authenticate")
        }
    }
}

/// The bytes of the outbound `auth` command line with its terminator.
pub open spec fn auth_command(pass: Seq<char>) -> Seq<u8> {
    encode_utf8("auth "@) + encode_utf8(pass) + seq![NL, NL]
}

/// The bytes of the outbound `api` command line with its terminator.
pub open spec fn api_command(cmd: Seq<char>, arg: Seq<char>) -> Seq<u8> {
    ((encode_utf8("api "@) + encode_utf8(cmd)) + encode_utf8(" "@) + encode_utf8(arg)) + seq![
        NL,
        NL,
    ]
}

/// The bytes of the outbound `event plain` command line with its
/// terminator.
pub open spec fn event_command(spec: Seq<char>) -> Seq<u8> {
    (encode_utf8("event plain "@) + encode_utf8(spec)) + seq![NL, NL]
}

} // verus!
