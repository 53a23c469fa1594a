//! The life of a peer over a whole run of the server.
//!
//! Whatever is done with the server, in whatever order, a peer is torn down
//! once for every time it connected, and nothing goes downstream in a
//! peer's name unless the peer is connected at that moment.

use vstd::prelude::*;
use crate::eth::{FullStatusView, InboundMessageView};
use crate::events::{
    CapabilityVersion, DisconnectReason, InboundEventView, OutboundEventView, PeerEvent,
    PeersReplyView,
};
use crate::server::{
    tracked_peers_are_connected, valid_peers_keep_pipes, ServerView,
};
use crate::util::keccak256_digest;

verus! {

/// One step of a run: what is done with the server.
pub enum Step {
    /// A peer asked to be taken in.
    Connect { id: Seq<u8>, version: Option<CapabilityVersion> },
    /// The transport reported an event of a peer.
    Event { id: Seq<u8>, event: InboundEventView, subscribers: bool },
    /// The next outbound event of a peer was asked for.
    Next { id: Seq<u8> },
    /// An event was sent into the pipe of a peer.
    Send { peer: Seq<u8>, outbound: OutboundEventView },
    /// The chain status was set.
    SetStatus { status: FullStatusView },
    /// Word came that nobody listens downstream.
    DownstreamGone,
}

/// The state after the step.
pub open spec fn after(s: ServerView, step: Step) -> ServerView {
    match step {
        Step::Connect { id, version } => s.try_connect(id, version),
        Step::Event { id, event, subscribers } => s.peer_event(id, event, subscribers),
        Step::Next { id } => s.remember(id).advance(keccak256_digest(id)),
        Step::Send { peer, outbound } => s.send(peer, outbound),
        Step::SetStatus { status } => ServerView {
            status: Some(status),
            no_new_peers: false,
            ..s
        },
        Step::DownstreamGone => ServerView { status: None, ..s },
    }
}

/// What the step reports downstream of a peer's coming or going.
pub open spec fn reported(s: ServerView, step: Step) -> Option<PeersReplyView> {
    match step {
        Step::Event { id, event, subscribers } => s.remember(id).handle(
            keccak256_digest(id),
            event,
            subscribers,
        ).1.peer_event,
        _ => None,
    }
}

/// The message that the step hands downstream.
pub open spec fn forwarded(s: ServerView, step: Step) -> Option<InboundMessageView> {
    match step {
        Step::Event { id, event, subscribers } => s.remember(id).handle(
            keccak256_digest(id),
            event,
            subscribers,
        ).1.forward,
        _ => None,
    }
}

/// Whether `peer` is taken in by the step.
pub open spec fn connects(s: ServerView, step: Step, peer: Seq<u8>) -> bool {
    step matches Step::Connect { id, version } && keccak256_digest(id) == peer && s.may_connect(
        id,
        version,
    )
}

/// Whether `peer` is torn down by the step, which is when its leaving is
/// reported downstream.
pub open spec fn tears_down(s: ServerView, step: Step, peer: Seq<u8>) -> bool {
    reported(s, step) == Some(PeersReplyView { peer_id: peer, event: PeerEvent::Disconnect })
}

/// The state after all the steps of a run.
pub open spec fn run(s: ServerView, steps: Seq<Step>) -> ServerView
    decreases steps.len(),
{
    if steps.len() == 0 {
        s
    } else {
        after(run(s, steps.drop_last()), steps.last())
    }
}

/// How often `peer` is taken in over a run.
pub open spec fn connect_count(s: ServerView, steps: Seq<Step>, peer: Seq<u8>) -> nat
    decreases steps.len(),
{
    if steps.len() == 0 {
        0
    } else {
        connect_count(s, steps.drop_last(), peer) + (if connects(
            run(s, steps.drop_last()),
            steps.last(),
            peer,
        ) {
            1nat
        } else {
            0nat
        })
    }
}

/// How often `peer` is torn down over a run.
pub open spec fn teardown_count(s: ServerView, steps: Seq<Step>, peer: Seq<u8>) -> nat
    decreases steps.len(),
{
    if steps.len() == 0 {
        0
    } else {
        teardown_count(s, steps.drop_last(), peer) + (if tears_down(
            run(s, steps.drop_last()),
            steps.last(),
            peer,
        ) {
            1nat
        } else {
            0nat
        })
    }
}

/// One if `peer` has a pipe, zero otherwise.
pub open spec fn open_sessions(s: ServerView, peer: Seq<u8>) -> nat {
    if s.pipes.contains_key(peer) {
        1
    } else {
        0
    }
}

/// A step opens a session where it takes a peer in, ends one where it
/// tears a peer down, and touches no other.
pub proof fn step_keeps_count(s: ServerView, step: Step, peer: Seq<u8>)
    ensures
        open_sessions(after(s, step), peer) + (if tears_down(s, step, peer) {
            1nat
        } else {
            0nat
        }) == open_sessions(s, peer) + (if connects(s, step, peer) {
            1nat
        } else {
            0nat
        }),
        tears_down(s, step, peer) ==> s.pipes.contains_key(peer),
        connects(s, step, peer) ==> !s.pipes.contains_key(peer),
{
    match step {
        Step::Event { id, event, subscribers } => {
            let hashed = keccak256_digest(id);
            let (next, handled) = s.remember(id).handle(hashed, event, subscribers);
            match ServerView::answer(handled) {
                None => {},
                Some(out) => {
                    assert(next.send(hashed, out).pipes.dom() =~= next.pipes.dom());
                },
            }
        },
        Step::Next { id } => {
            assert(after(s, step).pipes.dom() =~= s.pipes.dom());
        },
        Step::Send { peer: to, outbound } => {
            assert(after(s, step).pipes.dom() =~= s.pipes.dom());
        },
        _ => {},
    }
}

/// Over every run a peer is torn down at most once for every time it was
/// taken in: exactly as often, less the session that is still open at the
/// end, if one is.
pub proof fn one_teardown_per_connect(s: ServerView, steps: Seq<Step>, peer: Seq<u8>)
    ensures
        teardown_count(s, steps, peer) + open_sessions(run(s, steps), peer) == connect_count(
            s,
            steps,
            peer,
        ) + open_sessions(s, peer),
        !s.pipes.contains_key(peer) ==> teardown_count(s, steps, peer) <= connect_count(
            s,
            steps,
            peer,
        ),
    decreases steps.len(),
{
    if steps.len() > 0 {
        one_teardown_per_connect(s, steps.drop_last(), peer);
        step_keeps_count(run(s, steps.drop_last()), steps.last(), peer);
    }
}

/// Over every run every valid peer has a pipe, and exactly the peers with a
/// pipe are tracked, at every moment, if it was so at the start.
pub proof fn runs_keep_peers_sound(s: ServerView, steps: Seq<Step>)
    requires
        s.valid_have_pipes(),
        s.pipes_are_tracked(),
    ensures
        run(s, steps).valid_have_pipes(),
        run(s, steps).pipes_are_tracked(),
    decreases steps.len(),
{
    if steps.len() > 0 {
        runs_keep_peers_sound(s, steps.drop_last());
        let before = run(s, steps.drop_last());
        let step = steps.last();
        let nothing = InboundEventView::Disconnect { reason: DisconnectReason::DisconnectRequested };
        let bye = OutboundEventView::Disconnect { reason: DisconnectReason::DisconnectRequested };
        match step {
            Step::Connect { id, version } => {
                valid_peers_keep_pipes(
                    before,
                    id,
                    keccak256_digest(id),
                    version,
                    nothing,
                    bye,
                    false,
                );
                tracked_peers_are_connected(
                    before,
                    id,
                    keccak256_digest(id),
                    version,
                    nothing,
                    false,
                );
            },
            Step::Event { id, event, subscribers } => {
                valid_peers_keep_pipes(
                    before,
                    id,
                    keccak256_digest(id),
                    None,
                    event,
                    bye,
                    subscribers,
                );
                tracked_peers_are_connected(
                    before,
                    id,
                    keccak256_digest(id),
                    None,
                    event,
                    subscribers,
                );
            },
            Step::Next { id } => {
                let a = after(before, step);
                assert(a.pipes.dom() =~= before.pipes.dom());
            },
            Step::Send { peer, outbound } => {
                let a = after(before, step);
                assert(a.pipes.dom() =~= before.pipes.dom());
            },
            Step::SetStatus { status } => {},
            Step::DownstreamGone => {},
        }
    }
}

/// Whatever a step sends downstream carries the name of a peer that has a
/// pipe when the step is taken: a peer that was taken in and not torn down
/// since.
pub proof fn downstream_speaks_of_connected_peers(s: ServerView, step: Step)
    ensures
        reported(s, step) matches Some(reply) ==> s.pipes.contains_key(reply.peer_id),
        forwarded(s, step) matches Some(message) ==> s.pipes.contains_key(message.peer_id),
{
}

} // verus!
