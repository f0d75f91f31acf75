//! The aggregator: the single consumer between the capture source's event
//! channel and the counter store.
//!
//! It buffers incoming events and flushes them as one batch of idempotent
//! increments, in arrival order, under exclusive access to the store. A
//! flush is due once the buffer reaches [`FLUSH_SIZE`] events, or once
//! [`FLUSH_INTERVAL_MS`] has elapsed since the last flush with anything at
//! all buffered. A failed increment is counted and skipped, never allowed to
//! abort the rest of the batch: liveness of the loop over completeness of a
//! single count, by design.
//!
//! The surrounding application runs the loop itself — it owns the channel
//! and the clock — polling with a bounded wait of [`POLL_WAIT_MS`] so the
//! time-based trigger is checked even when no events arrive.

use vstd::prelude::*;

use crate::date::Date;
use crate::listener::EventRec;
use crate::listener::InputEvent;
use crate::store::CounterStore;
use crate::store::StoreModel;
use crate::store::key_step;
use crate::store::mouse_step;

verus! {

/// Buffered events that force a flush regardless of time.
pub const FLUSH_SIZE: usize = 50;

/// Elapsed milliseconds since the last flush that force a flush of a
/// non-empty buffer.
pub const FLUSH_INTERVAL_MS: u64 = 3000;

/// The bounded channel wait the aggregation loop polls with, so the
/// time-based trigger is checked with at most this much slack.
pub const POLL_WAIT_MS: u64 = 100;

/// One event applied to the store: a key press or a mouse click increment.
pub open spec fn apply_event(m: StoreModel, e: EventRec, d: Date) -> StoreModel {
    match e {
        EventRec::Key { name, code } => key_step(m, d, name, code),
        EventRec::Click { button } => mouse_step(m, d, button),
    }
}

/// A whole batch applied to the store, in arrival order.
pub open spec fn apply_events(m: StoreModel, es: Seq<EventRec>, d: Date) -> StoreModel
    decreases es.len(),
{
    if es.len() == 0 {
        m
    } else {
        apply_event(apply_events(m, es.drop_last(), d), es.last(), d)
    }
}

/// How many of a batch's increments the store refuses: those arriving once
/// counting capacity is reached.
pub open spec fn lost_events(m: StoreModel, es: Seq<EventRec>, d: Date) -> int
    decreases es.len(),
{
    if es.len() == 0 {
        0
    } else {
        lost_events(m, es.drop_last(), d) + if apply_events(m, es.drop_last(), d).applied
            == i64::MAX {
            1int
        } else {
            0int
        }
    }
}

/// A sum capped at the range of the drop counter.
pub open spec fn capped(x: int) -> int {
    if x < u64::MAX as int {
        x
    } else {
        u64::MAX as int
    }
}

/// Abstract form of the aggregator: the buffered events in arrival order,
/// and how many increments the store has refused so far.
pub struct AggRec {
    pub events: Seq<EventRec>,
    pub dropped: int,
}

/// The event buffer between channel and store, with its observability
/// counter of refused increments.
pub struct Aggregator {
    buffer: Vec<InputEvent>,
    dropped: u64,
}

impl View for Aggregator {
    type V = AggRec;

    closed spec fn view(&self) -> AggRec {
        AggRec {
            events: self.buffer@.map_values(|e: InputEvent| e@),
            dropped: self.dropped as int,
        }
    }
}

impl Aggregator {
    /// A fresh, idle aggregator: nothing buffered, nothing dropped.
    pub fn new() -> (r: Aggregator)
        ensures
            r@.events == Seq::<EventRec>::empty(),
            r@.dropped == 0,
    {
        let r = Aggregator { buffer: Vec::new(), dropped: 0 };
        proof {
            assert(r@.events =~= Seq::<EventRec>::empty());
        }
        r
    }

    /// Buffers one event at the end of the batch. The aggregator leaves the
    /// idle state on the first event buffered.
    pub fn offer(&mut self, e: InputEvent)
        ensures
            final(self)@.events == old(self)@.events.push(e@),
            final(self)@.dropped == old(self)@.dropped,
    {
        let ghost before = self@.events;
        self.buffer.push(e);
        proof {
            assert(self@.events =~= before.push(self.buffer@.last()@));
        }
    }

    /// How many events are buffered.
    pub fn buffered(&self) -> (r: usize)
        ensures
            r == self@.events.len(),
    {
        self.buffer.len()
    }

    /// How many increments the store has refused across all flushes.
    pub fn dropped_increments(&self) -> (r: u64)
        ensures
            r as int == self@.dropped,
    {
        self.dropped
    }

    /// Whether a flush is due: the buffer is non-empty, and either it holds
    /// at least [`FLUSH_SIZE`] events — whatever the clock says — or at
    /// least [`FLUSH_INTERVAL_MS`] milliseconds have passed since the last
    /// flush — with as little as one event buffered.
    pub fn should_flush(&self, elapsed_ms: u64) -> (r: bool)
        ensures
            r == (self@.events.len() > 0 && (self@.events.len() >= FLUSH_SIZE || elapsed_ms
                >= FLUSH_INTERVAL_MS)),
    {
        let len = self.buffer.len();
        len > 0 && (len >= FLUSH_SIZE || elapsed_ms >= FLUSH_INTERVAL_MS)
    }

    /// Applies every buffered event to the store as one increment each, in
    /// arrival order, under the exclusive access the caller holds for the
    /// whole batch, then resets the buffer. A refused increment — the store
    /// at counting capacity — is added to the drop counter and skipped; the
    /// rest of the batch still goes through.
    pub fn flush(&mut self, store: &mut CounterStore, date: Date)
        requires
            old(store).wf(),
            date.wf(),
        ensures
            final(store).wf(),
            final(store)@ == apply_events(old(store)@, old(self)@.events, date),
            final(self)@.events == Seq::<EventRec>::empty(),
            final(self)@.dropped == capped(
                old(self)@.dropped + lost_events(old(store)@, old(self)@.events, date),
            ),
    {
        let ghost m0 = store@;
        let ghost es = self@.events;
        let ghost d0 = self@.dropped;
        let n = self.buffer.len();
        let mut i: usize = 0;
        while i < n
            invariant
                n == self.buffer@.len(),
                i <= n,
                self@.events == es,
                es.len() == n,
                date.wf(),
                store.wf(),
                store@ == apply_events(m0, es.take(i as int), date),
                self@.dropped == capped(d0 + lost_events(m0, es.take(i as int), date)),
                d0 + lost_events(m0, es.take(i as int), date) >= 0,
            decreases n - i,
        {
            proof {
                assert(es.take(i as int + 1).drop_last() =~= es.take(i as int));
                assert(es.take(i as int + 1).last() == es[i as int]);
                assert(es[i as int] == self.buffer@[i as int]@);
            }
            let ev = &self.buffer[i];
            let res = match ev {
                InputEvent::KeyPress { key_name, key_code } => store.increment_key(
                    date,
                    key_name.as_str(),
                    *key_code,
                ),
                InputEvent::MouseClick { button } => store.increment_mouse(
                    date,
                    button.as_str(),
                ),
            };
            if res.is_err() {
                if self.dropped < u64::MAX {
                    self.dropped = self.dropped + 1;
                }
            }
            i += 1;
        }
        proof {
            assert(es.take(n as int) =~= es);
        }
        self.buffer.clear();
        proof {
            assert(self@.events =~= Seq::<EventRec>::empty());
        }
    }
}

} // verus!
