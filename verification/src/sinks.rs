//! Trusted interface to the FIFO collections of the `queues` crate.
//!
//! The session engine keeps parsed frames in two unbounded `queues::Queue`s
//! (api responses and command replies) and one bounded, oldest-evicting
//! `queues::CircularBuffer` (events). The contents of each collection are
//! named as a sequence of frames, oldest first, and each method the engine
//! calls gets a wrapper whose contract states over that name what the
//! crate's source shows.

use vstd::prelude::*;
use queues::IsQueue;
use crate::data::Pdu;

verus! {

#[verifier::external_type_specification]
#[verifier::external_body]
#[verifier::reject_recursive_types(T)]
pub struct ExQueue<T: Clone>(queues::Queue<T>);

#[verifier::external_type_specification]
#[verifier::external_body]
#[verifier::reject_recursive_types(T)]
pub struct ExCircularBuffer<T: Clone>(queues::CircularBuffer<T>);

/// The frames a queue holds, oldest first.
pub uninterp spec fn queue_pdus(q: queues::Queue<Pdu>) -> Seq<Pdu>;

/// The frames a circular buffer holds, oldest first.
pub uninterp spec fn cbuf_pdus(b: queues::CircularBuffer<Pdu>) -> Seq<Pdu>;

/// The capacity a circular buffer was created with.
pub uninterp spec fn cbuf_capacity(b: queues::CircularBuffer<Pdu>) -> int;

/// True of a circular buffer created without a default value, so that
/// removing from it never refills a slot.
pub uninterp spec fn cbuf_plain(b: queues::CircularBuffer<Pdu>) -> bool;

/// Relies on `queues::Queue::new`: a new queue is empty.
#[verifier::external_body]
pub(crate) fn queue_new() -> (q: queues::Queue<Pdu>)
    ensures
        queue_pdus(q) == Seq::<Pdu>::empty(),
{
    queues::Queue::new()
}

/// Relies on `queues::Queue::add`: it pushes the value at the tail of the
/// queue's backing vector and always returns `Ok(None)`, which is discarded
/// here as the session engine discards it.
#[verifier::external_body]
pub(crate) fn queue_add(q: &mut queues::Queue<Pdu>, v: Pdu)
    ensures
        queue_pdus(*final(q)) == queue_pdus(*old(q)).push(v),
{
    let _ = q.add(v);
}

/// Relies on `queues::Queue::remove`: on a non-empty queue the oldest
/// element leaves and is returned; an empty queue is refused and left
/// unchanged.
#[verifier::external_body]
pub(crate) fn queue_remove(q: &mut queues::Queue<Pdu>) -> (r: Result<Pdu, ()>)
    ensures
        match r {
            Ok(p) => queue_pdus(*old(q)).len() > 0 && p == queue_pdus(*old(q))[0] && queue_pdus(
                *final(q),
            ) == queue_pdus(*old(q)).drop_first(),
            Err(_) => queue_pdus(*old(q)).len() == 0 && queue_pdus(*final(q)) == queue_pdus(
                *old(q),
            ),
        },
{
    match q.remove() {
        Ok(p) => Ok(p),
        Err(_) => Err(()),
    }
}

/// Relies on `queues::CircularBuffer::new`: a new buffer is empty, has the
/// given capacity, and holds no default value.
#[verifier::external_body]
pub(crate) fn cbuf_new(capacity: usize) -> (b: queues::CircularBuffer<Pdu>)
    ensures
        cbuf_pdus(b) == Seq::<Pdu>::empty(),
        cbuf_capacity(b) == capacity as int,
        cbuf_plain(b),
{
    queues::CircularBuffer::new(capacity)
}

/// Relies on `queues::CircularBuffer::add`: below capacity the value joins
/// the tail and nothing leaves; at capacity the value joins the tail and the
/// oldest element leaves and is returned. Per its source the call never
/// fails, so a failure arm is never taken.
#[verifier::external_body]
pub(crate) fn cbuf_add(b: &mut queues::CircularBuffer<Pdu>, v: Pdu) -> (r: Option<Pdu>)
    ensures
        cbuf_capacity(*final(b)) == cbuf_capacity(*old(b)),
        cbuf_plain(*final(b)) == cbuf_plain(*old(b)),
        ({
            let s = cbuf_pdus(*old(b));
            let c = cbuf_capacity(*old(b));
            if s.len() < c {
                cbuf_pdus(*final(b)) == s.push(v) && r is None
            } else {
                cbuf_pdus(*final(b)) == s.push(v).drop_first() && r == Some(s.push(v)[0])
            }
        }),
{
    match b.add(v) {
        Ok(evicted) => evicted,
        Err(_) => None,
    }
}

/// Relies on `queues::CircularBuffer::remove`: on a non-empty buffer built
/// without a default value the oldest element leaves and is returned; an
/// empty buffer is refused and left unchanged. Buffers with default values
/// would refill a slot on removal, so they are excluded.
#[verifier::external_body]
pub(crate) fn cbuf_remove(b: &mut queues::CircularBuffer<Pdu>) -> (r: Result<Pdu, ()>)
    requires
        cbuf_plain(*old(b)),
    ensures
        cbuf_capacity(*final(b)) == cbuf_capacity(*old(b)),
        cbuf_plain(*final(b)),
        match r {
            Ok(p) => cbuf_pdus(*old(b)).len() > 0 && p == cbuf_pdus(*old(b))[0] && cbuf_pdus(
                *final(b),
            ) == cbuf_pdus(*old(b)).drop_first(),
            Err(_) => cbuf_pdus(*old(b)).len() == 0 && cbuf_pdus(*final(b)) == cbuf_pdus(
                *old(b),
            ),
        },
{
    match b.remove() {
        Ok(p) => Ok(p),
        Err(_) => Err(()),
    }
}

} // verus!
