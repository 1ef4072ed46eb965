//! Decisions of the HTTP front end that do not depend on transport.

use vstd::prelude::*;

use crate::error::MatchmakerError;

verus! {

/// Wait estimate in seconds for a queue of the given depth: a lobby needs
/// ten players and each missing slot is assumed to take about two seconds.
pub open spec fn spec_estimate_wait(queue_depth: nat) -> nat {
    if queue_depth < 10 {
        ((10 - queue_depth) * 2 + 5) as nat
    } else {
        10
    }
}

/// Rough wait estimate (seconds) handed back when a player joins the queue.
pub fn estimate_wait(queue_depth: usize) -> (secs: u32)
    ensures
        secs == spec_estimate_wait(queue_depth as nat),
        queue_depth < 10 ==> secs == 2 * (10 - queue_depth) + 5,
        queue_depth >= 10 ==> secs == 10,
{
    if queue_depth < 10 {
        ((10 - queue_depth) as u32) * 2 + 5
    } else {
        10
    }
}

/// Below a full lobby the estimate is five seconds plus two for each of the
/// missing players: it starts at 25 for an empty queue, falls by exactly two
/// with each player who joins and reaches 7 with nine waiting; from ten on
/// it is 10.
pub proof fn law_estimate_counts_missing_players(d: nat, e: nat)
    ensures
        d < 10 ==> spec_estimate_wait(d) == 2 * (10 - d) + 5,
        d >= 10 ==> spec_estimate_wait(d) == 10,
        d + 1 < 10 ==> spec_estimate_wait(d + 1) + 2 == spec_estimate_wait(d),
        d <= e < 10 ==> spec_estimate_wait(e) <= spec_estimate_wait(d),
        5 <= spec_estimate_wait(d) <= 25,
{
}

/// Reply to a player who joined the queue.
#[derive(Debug, Clone, Copy, PartialEq, Eq, Structural)]
pub struct EnqueueResponse {
    pub ticket_id: u128,
    pub position_hint: Option<u32>,
    pub estimated_wait_secs: Option<u32>,
}

/// The reply to a successful join: the ticket is the player's id, the
/// position hint is the queue depth (truncated to 32 bits) and the wait is
/// estimated from that depth.
pub fn enqueue_response(ticket_id: u128, queue_depth: usize) -> (r: EnqueueResponse)
    ensures
        r.ticket_id == ticket_id,
        r.position_hint == Some(queue_depth as u32),
        r.estimated_wait_secs == Some(spec_estimate_wait(queue_depth as nat) as u32),
        queue_depth < 10 ==> r.estimated_wait_secs == Some((2 * (10 - queue_depth) + 5) as u32),
        queue_depth >= 10 ==> r.estimated_wait_secs == Some(10u32),
{
    EnqueueResponse {
        ticket_id,
        position_hint: Some(queue_depth as u32),
        estimated_wait_secs: Some(estimate_wait(queue_depth)),
    }
}

/// HTTP status that answers an error: 409 for a player already queued, 404
/// for one not in the queue, 500 for bad settings.
pub fn error_status(err: &MatchmakerError) -> (code: u16)
    ensures
        err is AlreadyQueued ==> code == 409,
        err is NotInQueue ==> code == 404,
        err is InvalidConfig ==> code == 500,
{
    match err {
        MatchmakerError::AlreadyQueued(_) => 409,
        MatchmakerError::NotInQueue(_) => 404,
        MatchmakerError::InvalidConfig(_) => 500,
    }
}

} // verus!
