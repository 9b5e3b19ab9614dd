//! The session engine's laws, each proved once and for all inputs.

use vstd::prelude::*;
use crate::blocking_client::ClientError;
use crate::blocking_client::FrameClass;
use crate::data::PduView;
use crate::blocking_client::RunSpec;
use crate::blocking_client::SessionState;
use crate::blocking_client::SinkKind;
use crate::blocking_client::StepSpec;
use crate::blocking_client::classify;
use crate::blocking_client::evict_push;
use crate::blocking_client::lemma_step_props;
use crate::blocking_client::run_wait;
use crate::blocking_client::step_spec;
use crate::blocking_client::wf_state;
use crate::data::FrameSpec;
use crate::data::frame_spec;

verus! {

/// Classification is total and routing is exclusive: when a frame parses,
/// each of the recognized classifications sends it to exactly one sink and
/// leaves the other two untouched; a disconnect notice closes the session;
/// the terminal frame of an ended stream closes the session; and anything
/// else is surfaced, never silently dropped.
pub proof fn theorem_classification_total(st: SessionState)
    requires
        wf_state(st),
        frame_spec(st.src, st.pos) is Frame,
    ensures
        ({
            let p = match frame_spec(st.src, st.pos) {
                FrameSpec::Frame { headers, content, next: _ } => PduView { headers, content },
                _ => arbitrary(),
            };
            let next = match frame_spec(st.src, st.pos) {
                FrameSpec::Frame { headers: _, content: _, next } => next,
                _ => arbitrary(),
            };
            let st1 = SessionState { pos: next, ..st };
            match classify(p) {
                FrameClass::Api => step_spec(st) == StepSpec::Routed {
                    st: SessionState { api: st1.api.push(p), ..st1 },
                },
                FrameClass::Event => step_spec(st) == StepSpec::Routed {
                    st: SessionState { events: evict_push(st1.events, st1.cap, p), ..st1 },
                },
                FrameClass::Reply => step_spec(st) == StepSpec::Routed {
                    st: SessionState { reply: st1.reply.push(p), ..st1 },
                },
                FrameClass::Disconnect => step_spec(st) == StepSpec::Closed {
                    st: SessionState { closed: true, ..st1 },
                },
                FrameClass::Terminal => step_spec(st) == StepSpec::Closed {
                    st: SessionState { closed: true, ..st1 },
                },
                FrameClass::Unknown => step_spec(st) == StepSpec::Unhandled { st: st1 },
            }
        }),
{
}

/// A session that closes is observed closed by the next blocked caller:
/// whatever sink an operation waits on, the dispatch loop stops at the
/// closing frame with a connection-closed error, and the state it leaves
/// is marked closed.
pub proof fn theorem_close_observed(st: SessionState, t: SinkKind)
    requires
        wf_state(st),
        step_spec(st) is Closed,
    ensures
        (run_wait(st, t) matches RunSpec::Stopped { e, st: st2 } && e
            == ClientError::ConnectionClose && st2.closed),
{
    lemma_step_props(st);
}

/// A stream with no bytes left to read always stops the dispatch loop with
/// a connection-closed error — an ended stream can never make a caller
/// wait forever.
pub proof fn theorem_end_of_stream_closes(st: SessionState, t: SinkKind)
    requires
        wf_state(st),
        st.pos == st.src.len(),
    ensures
        (run_wait(st, t) == RunSpec::Stopped {
            e: ClientError::ConnectionClose,
            st: SessionState { closed: true, ..st },
        }),
{
    lemma_step_props(st);
    match step_spec(st) {
        StepSpec::Closed { st: st1 } => {
            assert(st1 == SessionState { closed: true, ..st });
        },
        StepSpec::Routed { st: st1 } => {
            assert(st1.pos > st.pos);
            assert(false);
        },
        StepSpec::Malformed { e: _, st: _ } => {
            crate::data::lemma_scan_headers_bounds(st.src, st.pos);
            let sc = crate::data::scan_headers(st.src, st.pos);
            assert(sc.raw =~= Seq::<u8>::empty());
            assert(vstd::utf8::valid_utf8(sc.raw));
            assert(crate::headers::header_map(vstd::utf8::decode_utf8(sc.raw)) =~= Map::<Seq<char>,
                Seq<char>>::empty());
            assert(false);
        },
        StepSpec::Unhandled { st: _ } => {
            assert(false);
        },
    }
}

/// The bounded event sink evicts exactly its oldest entry: below capacity
/// an insertion only appends; at capacity it appends and drops precisely
/// the oldest retained event; and the sink never grows past its capacity.
pub proof fn theorem_bounded_sink_eviction(s: Seq<PduView>, cap: int, p: PduView)
    requires
        0 <= s.len() <= cap,
    ensures
        evict_push(s, cap, p).len() <= cap,
        s.len() < cap ==> evict_push(s, cap, p) == s.push(p),
        s.len() == cap && cap > 0 ==> evict_push(s, cap, p) == s.drop_first().push(p),
        s.len() == cap && cap > 0 ==> evict_push(s, cap, p).len() == cap,
{
    if s.len() == cap && cap > 0 {
        assert(s.push(p).drop_first() =~= s.drop_first().push(p));
    }
    if s.len() == cap && cap == 0 {
        assert(s.push(p).drop_first() =~= Seq::<PduView>::empty());
    }
}

} // verus!
