//! Verified core of a 5v5 competitive matchmaker: the waiting pool, the
//! scan that commits lobbies, the 5v5 team partition, the health counters
//! and the small decisions of the HTTP front end.

pub mod api;
pub mod balance;
pub mod config;
pub mod engine;
pub mod error;
pub mod metrics;
pub mod pool;
pub mod region;
pub mod types;

pub use api::{enqueue_response, error_status, estimate_wait, EnqueueResponse};
pub use config::{validate_lobby_size, LOBBY_SIZE};
pub use error::MatchmakerError;
pub use types::{default_role, wait_seconds, QueuedPlayer, Role, Timestamp};
pub use metrics::{HealthSnapshot, MatchmakerMetrics, MetricsView};
pub use pool::PlayerPool;
pub use balance::{select_team_mask, split_by_mask, team_masks};
pub use engine::{MatchCandidate, MatchmakerEngine};
