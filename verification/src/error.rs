//! Errors reported by the matchmaker.

use vstd::prelude::*;

verus! {

/// What can go wrong when a player joins or leaves, or with the settings.
#[derive(Debug, Clone)]
pub enum MatchmakerError {
    /// The player (by id) is already waiting.
    AlreadyQueued(u128),
    /// The player (by id) is not waiting.
    NotInQueue(u128),
    /// The settings are unusable; the text says why.
    InvalidConfig(String),
}

} // verus!
