//! The outbound pipe of one peer.
//!
//! A pipe yields events in two phases.  First come the events that were
//! decided when the peer connected.  After them come the events that were
//! sent into the pipe's queue, which holds one event at a time so that a
//! producer cannot run ahead of the transport.

use vstd::prelude::*;
use crate::events::{outbound_views, OutboundEvent, OutboundEventView};

verus! {

/// How many events the queue of a pipe holds.
pub const CHANNEL_CAPACITY: usize = 1;

/// The outbound events of one peer that the transport has not taken yet.
pub struct Pipes {
    first_events: Vec<OutboundEvent>,
    queue: Vec<OutboundEvent>,
}

/// The mathematical content of a [`Pipes`].
pub struct PipesView {
    /// Events of the first phase that were not taken yet, in order.
    pub first: Seq<OutboundEventView>,
    /// Events waiting in the queue, in order.
    pub queued: Seq<OutboundEventView>,
}

impl PipesView {
    /// Everything that waits, in the order in which it will be taken.
    pub open spec fn pending(self) -> Seq<OutboundEventView> {
        self.first + self.queued
    }

    /// The queue is within its capacity.
    pub open spec fn wf(self) -> bool {
        self.queued.len() <= CHANNEL_CAPACITY
    }

    /// The pipe after `event` was sent into it; unchanged if the queue is full.
    pub open spec fn send(self, event: OutboundEventView) -> PipesView {
        if self.queued.len() < CHANNEL_CAPACITY {
            PipesView { first: self.first, queued: self.queued.push(event) }
        } else {
            self
        }
    }

    /// The pipe after its next event was taken; unchanged if nothing waits.
    pub open spec fn advance(self) -> PipesView {
        if self.first.len() > 0 {
            PipesView { first: self.first.drop_first(), queued: self.queued }
        } else if self.queued.len() > 0 {
            PipesView { first: self.first, queued: self.queued.drop_first() }
        } else {
            self
        }
    }
}

impl View for Pipes {
    type V = PipesView;

    closed spec fn view(&self) -> PipesView {
        PipesView {
            first: outbound_views(self.first_events@),
            queued: outbound_views(self.queue@),
        }
    }
}

impl Pipes {
    /// A pipe that will first yield `first_events` and has an empty queue.
    pub fn new(first_events: Vec<OutboundEvent>) -> (out: Pipes)
        ensures
            out@.wf(),
            out@.first == outbound_views(first_events@),
            out@.queued == Seq::<OutboundEventView>::empty(),
    {
        let out = Pipes { first_events, queue: Vec::new() };
        assert(out@.queued =~= Seq::<OutboundEventView>::empty());
        out
    }

    /// Puts `event` into the queue, or hands it back if the queue is full.
    pub fn try_send(&mut self, event: OutboundEvent) -> (r: Result<(), OutboundEvent>)
        requires
            old(self)@.wf(),
        ensures
            final(self)@.wf(),
            final(self)@ == old(self)@.send(event@),
            match r {
                Ok(_) => old(self)@.queued.len() < CHANNEL_CAPACITY,
                Err(back) => back@ == event@ && old(self)@.queued.len() >= CHANNEL_CAPACITY,
            },
    {
        if self.queue.len() < CHANNEL_CAPACITY {
            let ghost before = self.queue@;
            let ghost ev = event@;
            self.queue.push(event);
            proof {
                assert(outbound_views(self.queue@) =~= outbound_views(before).push(ev));
            }
            Ok(())
        } else {
            Err(event)
        }
    }

    /// Takes the next event: the first-phase events in order, then the queue.
    pub fn next(&mut self) -> (r: Option<OutboundEvent>)
        requires
            old(self)@.wf(),
        ensures
            final(self)@.wf(),
            final(self)@ == old(self)@.advance(),
            match r {
                Some(event) => old(self)@.pending().len() > 0 && event@ == old(self)@.pending()[0],
                None => old(self)@.pending().len() == 0,
            },
    {
        if self.first_events.len() > 0 {
            let ghost before = self.first_events@;
            let event = self.first_events.remove(0);
            proof {
                assert(outbound_views(self.first_events@) =~= outbound_views(before).drop_first());
            }
            Some(event)
        } else if self.queue.len() > 0 {
            let ghost before = self.queue@;
            let event = self.queue.remove(0);
            proof {
                assert(outbound_views(self.queue@) =~= outbound_views(before).drop_first());
            }
            Some(event)
        } else {
            None
        }
    }

    /// Whether nothing waits in the pipe.
    pub fn is_empty(&self) -> (r: bool)
        ensures
            r == (self@.pending().len() == 0),
    {
        self.first_events.len() == 0 && self.queue.len() == 0
    }
}

/// Events leave a pipe in the order in which they entered it: whatever is
/// sent into a pipe comes out after everything that waited before it.
pub proof fn pipe_keeps_order(p: PipesView, event: OutboundEventView)
    requires
        p.wf(),
        p.queued.len() < CHANNEL_CAPACITY,
    ensures
        p.send(event).pending() == p.pending().push(event),
        p.pending().len() > 0 ==> p.advance().pending() == p.pending().drop_first(),
        p.pending().len() > 0 ==> p.send(event).advance().pending() == p.advance().pending().push(
            event,
        ),
{
    assert(p.send(event).pending() =~= p.pending().push(event));
    if p.pending().len() > 0 {
        assert(p.advance().pending() =~= p.pending().drop_first());
        assert(p.send(event).advance().pending() =~= p.advance().pending().push(event));
    }
}

} // verus!
