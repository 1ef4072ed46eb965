//! Shared value types of the matchmaker.

use vstd::prelude::*;

verus! {

/// Nanoseconds since the Unix epoch.
pub type Timestamp = i64;

/// Whole seconds from `enqueued_at` to `now`, zero when `now` is not later
/// (the whole seconds of the span, truncated toward zero, then floored at 0).
pub open spec fn spec_wait_secs(enqueued_at: Timestamp, now: Timestamp) -> int {
    if now <= enqueued_at {
        0
    } else {
        (now - enqueued_at) / 1_000_000_000
    }
}

/// Whole seconds that a player enqueued at `enqueued_at` has waited at `now`.
pub fn wait_seconds(enqueued_at: Timestamp, now: Timestamp) -> (secs: i64)
    ensures
        secs == spec_wait_secs(enqueued_at, now),
        now <= enqueued_at ==> secs == 0,
        now > enqueued_at ==> secs * 1_000_000_000 <= now - enqueued_at < (secs + 1) * 1_000_000_000,
{
    if now <= enqueued_at {
        0
    } else {
        let span: i128 = now as i128 - enqueued_at as i128;
        (span / 1_000_000_000) as i64
    }
}

/// A wait is the number of whole seconds in the span from enqueue to now
/// (none when now is not later), and it never shrinks as time goes on.
pub proof fn law_wait_is_whole_seconds(enqueued_at: Timestamp, now: Timestamp, later: Timestamp)
    ensures
        spec_wait_secs(enqueued_at, now) >= 0,
        now <= enqueued_at ==> spec_wait_secs(enqueued_at, now) == 0,
        now > enqueued_at ==> spec_wait_secs(enqueued_at, now) * 1_000_000_000 <= now - enqueued_at < (
        spec_wait_secs(enqueued_at, now) + 1) * 1_000_000_000,
        now <= later ==> spec_wait_secs(enqueued_at, now) <= spec_wait_secs(enqueued_at, later),
{
    if now > enqueued_at {
        let x = now - enqueued_at;
        assert(x / 1_000_000_000 * 1_000_000_000 <= x < (x / 1_000_000_000 + 1) * 1_000_000_000)
            by (nonlinear_arith)
            requires
                x > 0,
        ;
        if now <= later {
            let y = later - enqueued_at;
            assert(x / 1_000_000_000 <= y / 1_000_000_000) by (nonlinear_arith)
                requires
                    0 < x <= y,
            ;
        }
    }
}

/// Role preference for team composition.
#[derive(Debug, Clone, Copy, PartialEq, Eq, Structural, Hash)]
pub enum Role {
    Tank,
    Damage,
    Support,
    Flex,
}

/// The role a player gets when the request names none.
pub fn default_role() -> (r: Role)
    ensures
        r == Role::Flex,
{
    Role::Flex
}

/// A player waiting in the queue.
///
/// The skill rating is a floating-point number; the library carries it as the
/// bit pattern of that `f64`, which it never interprets.
#[derive(Debug)]
pub struct QueuedPlayer {
    pub id: u128,
    pub skill_bits: u64,
    pub region: String,
    pub role: Role,
    pub party_id: Option<u128>,
    pub enqueued_at: Timestamp,
}

impl Clone for QueuedPlayer {
    fn clone(&self) -> (r: Self)
        ensures
            r == *self,
    {
        QueuedPlayer {
            id: self.id,
            skill_bits: self.skill_bits,
            region: self.region.clone(),
            role: self.role,
            party_id: self.party_id,
            enqueued_at: self.enqueued_at,
        }
    }
}

} // verus!
