use matchmaker::pool::ids_distinct;
use matchmaker::{
    default_role, enqueue_response, error_status, estimate_wait, validate_lobby_size, wait_seconds,
    MatchmakerError, MatchmakerMetrics, PlayerPool, QueuedPlayer, Role,
};

const SEC: i64 = 1_000_000_000;

fn player(id: u128, region: &str, enqueued_at: i64) -> QueuedPlayer {
    QueuedPlayer {
        id,
        skill_bits: 1500.0f64.to_bits(),
        region: region.to_string(),
        role: Role::Flex,
        party_id: None,
        enqueued_at,
    }
}

fn pool(max_secs: u64) -> PlayerPool {
    PlayerPool::new(max_secs, MatchmakerMetrics::default())
}

#[test]
fn default_role_is_flex() {
    assert_eq!(default_role(), Role::Flex);
}

#[test]
fn estimate_wait_counts_missing_slots() {
    assert_eq!(estimate_wait(0), 25);
    assert_eq!(estimate_wait(3), 19);
    assert_eq!(estimate_wait(9), 7);
    assert_eq!(estimate_wait(10), 10);
    assert_eq!(estimate_wait(5000), 10);
}

#[test]
fn enqueue_response_reports_depth_and_wait() {
    let r = enqueue_response(42, 4);
    assert_eq!(r.ticket_id, 42);
    assert_eq!(r.position_hint, Some(4));
    assert_eq!(r.estimated_wait_secs, Some(17));
    let r = enqueue_response(7, 12);
    assert_eq!(r.position_hint, Some(12));
    assert_eq!(r.estimated_wait_secs, Some(10));
}

#[test]
fn error_statuses() {
    assert_eq!(error_status(&MatchmakerError::AlreadyQueued(1)), 409);
    assert_eq!(error_status(&MatchmakerError::NotInQueue(1)), 404);
    assert_eq!(error_status(&MatchmakerError::InvalidConfig("x".to_string())), 500);
}

#[test]
fn lobby_size_must_be_ten() {
    assert!(validate_lobby_size(10).is_ok());
    match validate_lobby_size(12) {
        Err(MatchmakerError::InvalidConfig(msg)) => assert_eq!(msg, "lobby_size must be 10 for 5v5"),
        other => panic!("unexpected {:?}", other),
    }
    assert!(validate_lobby_size(0).is_err());
}

#[test]
fn wait_seconds_truncates_and_floors_at_zero() {
    assert_eq!(wait_seconds(0, 30 * SEC), 30);
    assert_eq!(wait_seconds(0, 30 * SEC + SEC / 2), 30);
    assert_eq!(wait_seconds(0, SEC - 1), 0);
    assert_eq!(wait_seconds(10 * SEC, 5 * SEC), 0);
    assert_eq!(wait_seconds(i64::MIN, i64::MAX), (u64::MAX / 1_000_000_000) as i64);
}

#[test]
fn enqueue_then_duplicate_is_refused() {
    let mut p = pool(300);
    assert!(p.enqueue(player(1, "us-east", 0)).is_ok());
    assert_eq!(p.len(), 1);
    assert_eq!(p.metrics().snapshot().queue_depth, 1);
    match p.enqueue(player(1, "eu", 5)) {
        Err(MatchmakerError::AlreadyQueued(id)) => assert_eq!(id, 1),
        other => panic!("unexpected {:?}", other),
    }
    assert_eq!(p.len(), 1);
    assert_eq!(p.snapshot_by_region("us-east").len(), 1);
    assert_eq!(p.snapshot_by_region("eu").len(), 0);
    assert_eq!(p.generation(), 0);
}

#[test]
fn dequeue_undoes_enqueue() {
    let mut p = pool(300);
    p.enqueue(player(1, "us-east", 0)).unwrap();
    p.enqueue(player(2, "us-east", 0)).unwrap();
    assert_eq!(p.len(), 2);
    p.dequeue(2).unwrap();
    assert_eq!(p.len(), 1);
    assert_eq!(p.metrics().snapshot().queue_depth, 1);
    let snap = p.snapshot_by_region("us-east");
    assert_eq!(snap.len(), 1);
    assert_eq!(snap[0].id, 1);
    match p.dequeue(2) {
        Err(MatchmakerError::NotInQueue(id)) => assert_eq!(id, 2),
        other => panic!("unexpected {:?}", other),
    }
    assert_eq!(p.generation(), 0);
}

#[test]
fn snapshot_holds_exactly_the_region() {
    let mut p = pool(300);
    for i in 0..6u128 {
        let region = if i % 2 == 0 { "us-east" } else { "eu-west" };
        p.enqueue(player(i, region, i as i64)).unwrap();
    }
    let mut ids: Vec<u128> = p.snapshot_by_region("us-east").iter().map(|q| q.id).collect();
    ids.sort();
    assert_eq!(ids, vec![0, 2, 4]);
    let snap = p.snapshot_by_region("eu-west");
    assert!(snap.iter().all(|q| q.region == "eu-west"));
    assert_eq!(snap.len(), 3);
    assert!(p.snapshot_by_region("us").is_empty());
}

#[test]
fn regions_are_sorted_and_distinct() {
    let mut p = pool(300);
    let names = ["us-west", "eu", "us-east", "eu", "ap-south", "us-west", "éu"];
    for (i, n) in names.iter().enumerate() {
        p.enqueue(player(i as u128, n, 0)).unwrap();
    }
    assert_eq!(p.regions(), vec!["ap-south", "eu", "us-east", "us-west", "éu"]);
    assert!(pool(300).regions().is_empty());
}

#[test]
fn batch_removal_is_all_or_nothing() {
    let mut p = pool(300);
    for i in 0..5u128 {
        p.enqueue(player(i, "us-east", 0)).unwrap();
    }
    assert!(!p.try_remove_batch(&[0, 1, 9]));
    assert_eq!(p.len(), 5);
    assert_eq!(p.generation(), 0);
    assert!(p.try_remove_batch(&[0, 1, 2]));
    assert_eq!(p.len(), 2);
    assert_eq!(p.generation(), 1);
    assert_eq!(p.metrics().snapshot().queue_depth, 2);
    assert!(!p.try_remove_batch(&[2, 3]));
    assert_eq!(p.len(), 2);
}

#[test]
fn batch_with_repeated_id_changes_nothing() {
    let mut p = pool(300);
    for i in 0..3u128 {
        p.enqueue(player(i, "us-east", 0)).unwrap();
    }
    assert!(!p.try_remove_batch(&[0, 0, 1]));
    assert!(!p.try_remove_batch(&[1, 2, 1]));
    assert_eq!(p.len(), 3);
    assert_eq!(p.generation(), 0);
    assert_eq!(p.metrics().snapshot().queue_depth, 3);
    assert!(p.try_remove_batch(&[]));
    assert_eq!(p.generation(), 1);
}

#[test]
fn eviction_removes_only_players_past_the_limit() {
    let mut p = pool(300);
    p.enqueue(player(1, "us-east", 0)).unwrap();
    p.enqueue(player(2, "us-east", 100 * SEC)).unwrap();
    p.enqueue(player(3, "eu", 1)).unwrap();
    let now = 300 * SEC;
    // exactly at the limit is not past it
    assert_eq!(p.evict_expired(now), 0);
    assert_eq!(p.generation(), 0);
    let now = 300 * SEC + 1;
    assert_eq!(p.evict_expired(now), 1);
    assert_eq!(p.len(), 2);
    assert_eq!(p.generation(), 1);
    let snap = p.metrics().snapshot();
    assert_eq!(snap.evictions_total, 1);
    assert_eq!(snap.queue_depth, 2);
    assert_eq!(p.evict_expired(now), 0);
    assert_eq!(p.evict_expired(400 * SEC + 2), 2);
    assert_eq!(p.len(), 0);
    assert_eq!(p.metrics().snapshot().evictions_total, 3);
}

#[test]
fn ids_distinct_spots_any_repeat() {
    assert!(ids_distinct(&[]));
    assert!(ids_distinct(&[7]));
    assert!(ids_distinct(&[1, 2, 3, 4]));
    assert!(!ids_distinct(&[1, 2, 3, 1]));
    assert!(!ids_distinct(&[5, 5]));
}

#[test]
fn generation_moves_once_per_bumping_operation() {
    let mut p = pool(60);
    p.enqueue(player(1, "us-east", 0)).unwrap();
    p.enqueue(player(2, "us-east", 50 * SEC)).unwrap();
    p.enqueue(player(3, "eu", 50 * SEC)).unwrap();
    assert_eq!(p.generation(), 0);
    assert_eq!(p.evict_expired(30 * SEC), 0);
    assert_eq!(p.generation(), 0);
    assert_eq!(p.evict_expired(61 * SEC), 1);
    assert_eq!(p.generation(), 1);
    assert!(!p.try_remove_batch(&[2, 9]));
    assert_eq!(p.generation(), 1);
    assert!(p.try_remove_batch(&[2]));
    assert_eq!(p.generation(), 2);
    p.dequeue(3).unwrap();
    assert_eq!(p.generation(), 2);
    assert_eq!(p.len(), 0);
}
