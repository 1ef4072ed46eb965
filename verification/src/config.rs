//! The integer part of the matchmaking settings.

use vstd::prelude::*;

use crate::error::MatchmakerError;

verus! {

/// Players per match: two teams of five.
pub const LOBBY_SIZE: usize = 10;

/// Largest number of whole seconds that a time span can hold without
/// overflowing (a span is bounded by `i64::MAX` milliseconds).
pub const MAX_SPAN_SECS: i64 = 9_223_372_036_854_775;

/// A maximum queue time (seconds, read as a signed count) that can be turned
/// into a time span.
pub open spec fn max_wait_representable(max_queue_time_secs: u64) -> bool {
    let s = #[verifier::truncate] (max_queue_time_secs as i64);
    -MAX_SPAN_SECS <= s && s <= MAX_SPAN_SECS
}

/// Checks that the lobby holds exactly two teams of five.
pub fn validate_lobby_size(lobby_size: usize) -> (r: Result<(), MatchmakerError>)
    ensures
        r is Ok <==> lobby_size == LOBBY_SIZE,
        r matches Err(e) ==> (e matches MatchmakerError::InvalidConfig(msg)
            && msg@ == "lobby_size must be 10 for 5v5"@),
{
    if lobby_size != LOBBY_SIZE {
        return Err(MatchmakerError::InvalidConfig(String::from_str("lobby_size must be 10 for 5v5")));
    }
    Ok(())
}

} // verus!
