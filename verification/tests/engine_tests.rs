use matchmaker::{
    split_by_mask, MatchCandidate, MatchmakerEngine, MatchmakerMetrics, PlayerPool, QueuedPlayer, Role,
};

const SEC: i64 = 1_000_000_000;

fn player(id: u128, region: &str, enqueued_at: i64) -> QueuedPlayer {
    QueuedPlayer {
        id,
        skill_bits: (1500.0 + id as f64).to_bits(),
        region: region.to_string(),
        role: Role::Flex,
        party_id: None,
        enqueued_at,
    }
}

fn engine(max_secs: u64) -> MatchmakerEngine {
    MatchmakerEngine::new(PlayerPool::new(max_secs, MatchmakerMetrics::default()))
}

fn first_ten(region: &str, players: &Vec<QueuedPlayer>, _wait: i64) -> Option<MatchCandidate> {
    let lobby: Vec<QueuedPlayer> = players.iter().take(10).cloned().collect();
    let ids: Vec<u128> = lobby.iter().map(|p| p.id).collect();
    let (team_a, team_b) = split_by_mask(&ids, 0b00000_11111);
    Some(MatchCandidate { players: lobby, team_a, team_b, quality_bits: 1.0f64.to_bits(), region: region.to_string() })
}

#[test]
fn lobby_window_needs_ten_players() {
    let mut e = engine(300);
    for i in 0..9u128 {
        e.pool_mut().enqueue(player(i, "us-east", i as i64 * SEC)).unwrap();
    }
    assert!(e.lobby_window("us-east", 20 * SEC).is_none());
    e.pool_mut().enqueue(player(9, "us-east", -3 * SEC)).unwrap();
    let (players, wait) = e.lobby_window("us-east", 20 * SEC).unwrap();
    assert_eq!(players.len(), 10);
    assert_eq!(players[0].id, 9);
    assert_eq!(wait, 23);
    assert!(players.windows(2).all(|w| w[0].enqueued_at <= w[1].enqueued_at));
    assert!(e.lobby_window("eu", 20 * SEC).is_none());
}

fn keep_quality(current: u64, _quality: u64) -> u64 {
    current
}

fn take_quality(_current: u64, quality: u64) -> u64 {
    quality
}

#[test]
fn scan_commits_one_lobby_and_counts_it() {
    let mut e = engine(300);
    for i in 0..10u128 {
        e.pool_mut().enqueue(player(i, "us-east", 0)).unwrap();
    }
    let before = e.metrics().snapshot();
    assert_eq!(before.scans_total, 0);
    let matches = e.scan_once(5 * SEC, first_ten, take_quality);
    assert_eq!(matches.len(), 1);
    assert_eq!(matches[0].team_a.len(), 5);
    assert_eq!(matches[0].team_b.len(), 5);
    assert_eq!(e.pool().len(), 0);
    assert_eq!(e.pool().generation(), 1);
    let after = e.metrics().snapshot();
    assert_eq!(after.queue_depth, 0);
    assert_eq!(after.scans_total, 1);
    assert_eq!(after.matches_formed_total, 1);
    assert_eq!(after.avg_match_quality_bits, 1.0f64.to_bits());
}

#[test]
fn a_scan_that_forms_nothing_is_still_counted() {
    let mut e = engine(300);
    for i in 0..4u128 {
        e.pool_mut().enqueue(player(i, "us-east", 0)).unwrap();
    }
    assert!(e.scan_once(SEC, first_ten, keep_quality).is_empty());
    assert!(e.scan_once(2 * SEC, first_ten, keep_quality).is_empty());
    let s = e.metrics().snapshot();
    assert_eq!(s.scans_total, 2);
    assert_eq!(s.matches_formed_total, 0);
    assert_eq!(s.avg_match_quality_bits, 0);
    assert_eq!(s.queue_depth, 4);
}

#[test]
fn scan_refuses_a_lobby_with_a_player_of_another_region() {
    let mut e = engine(300);
    for i in 0..10u128 {
        e.pool_mut().enqueue(player(i, "us-east", 0)).unwrap();
    }
    e.pool_mut().enqueue(player(50, "eu", 0)).unwrap();
    // a selector that swaps the last player for a waiting player of another region
    let mixed = |region: &str, players: &Vec<QueuedPlayer>, _w: i64| {
        if region != "us-east" {
            return None;
        }
        let mut lobby: Vec<QueuedPlayer> = players.iter().take(9).cloned().collect();
        lobby.push(player(50, "eu", 0));
        let ids: Vec<u128> = lobby.iter().map(|p| p.id).collect();
        let (team_a, team_b) = split_by_mask(&ids, 0b00000_11111);
        Some(MatchCandidate { players: lobby, team_a, team_b, quality_bits: 0, region: region.to_string() })
    };
    assert!(e.scan_once(SEC, mixed, keep_quality).is_empty());
    assert_eq!(e.pool().len(), 11);
    assert_eq!(e.pool().generation(), 0);
    // a lobby labelled with another region than the one scanned is refused too
    let relabelled = |region: &str, players: &Vec<QueuedPlayer>, w: i64| {
        first_ten(region, players, w).map(|mut c| {
            c.region = "elsewhere".to_string();
            c
        })
    };
    assert!(e.scan_once(SEC, relabelled, keep_quality).is_empty());
    assert_eq!(e.pool().len(), 11);
    assert_eq!(e.metrics().snapshot().matches_formed_total, 0);
}

#[test]
fn scan_refuses_lopsided_teams() {
    let mut e = engine(300);
    for i in 0..10u128 {
        e.pool_mut().enqueue(player(i, "us-east", 0)).unwrap();
    }
    let six_four = |region: &str, players: &Vec<QueuedPlayer>, _w: i64| {
        let lobby: Vec<QueuedPlayer> = players.iter().take(10).cloned().collect();
        let ids: Vec<u128> = lobby.iter().map(|p| p.id).collect();
        let (team_a, team_b) = split_by_mask(&ids, 0b00001_11111);
        Some(MatchCandidate { players: lobby, team_a, team_b, quality_bits: 0, region: region.to_string() })
    };
    assert!(e.scan_once(SEC, six_four, keep_quality).is_empty());
    let repeated_in_team = |region: &str, players: &Vec<QueuedPlayer>, _w: i64| {
        let lobby: Vec<QueuedPlayer> = players.iter().take(10).cloned().collect();
        let ids: Vec<u128> = lobby.iter().map(|p| p.id).collect();
        let (mut team_a, team_b) = split_by_mask(&ids, 0b00000_11111);
        team_a[4] = team_a[0];
        Some(MatchCandidate { players: lobby, team_a, team_b, quality_bits: 0, region: region.to_string() })
    };
    assert!(e.scan_once(SEC, repeated_in_team, keep_quality).is_empty());
    assert_eq!(e.pool().len(), 10);
    assert_eq!(e.pool().generation(), 0);
    assert!(!e.scan_once(SEC, first_ten, keep_quality).is_empty());
    assert_eq!(e.pool().len(), 0);
}

#[test]
fn scan_matches_each_player_once_and_keeps_the_rest() {
    let mut e = engine(300);
    for i in 0..25u128 {
        e.pool_mut().enqueue(player(i, "us-east", i as i64)).unwrap();
    }
    for i in 100..112u128 {
        e.pool_mut().enqueue(player(i, "eu", 0)).unwrap();
    }
    let matches = e.scan_once(SEC, first_ten, keep_quality);
    assert_eq!(matches.len(), 3);
    assert_eq!(matches[0].region, "eu");
    let mut seen: Vec<u128> = matches.iter().flat_map(|m| m.players.iter().map(|p| p.id)).collect();
    seen.sort();
    seen.dedup();
    assert_eq!(seen.len(), 30);
    assert_eq!(e.pool().len() + 10 * matches.len(), 37);
    // the oldest players of a region go first
    assert!(matches[1].players.iter().all(|p| p.id < 10));
    assert!(matches[2].players.iter().all(|p| (10..20).contains(&p.id)));
    assert_eq!(e.pool().generation(), 3);
}

#[test]
fn scan_evicts_before_matching() {
    let mut e = engine(60);
    for i in 0..10u128 {
        let at = if i == 0 { 0 } else { 50 * SEC };
        e.pool_mut().enqueue(player(i, "us-east", at)).unwrap();
    }
    let matches = e.scan_once(61 * SEC, first_ten, keep_quality);
    assert!(matches.is_empty());
    assert_eq!(e.pool().len(), 9);
    assert_eq!(e.metrics().snapshot().evictions_total, 1);
    assert_eq!(e.pool().generation(), 1);
}

#[test]
fn scan_refuses_malformed_lobbies() {
    let mut e = engine(300);
    for i in 0..12u128 {
        e.pool_mut().enqueue(player(i, "us-east", 0)).unwrap();
    }
    let repeated = |region: &str, players: &Vec<QueuedPlayer>, _w: i64| {
        let mut lobby: Vec<QueuedPlayer> = players.iter().take(9).cloned().collect();
        lobby.push(players[0].clone());
        Some(MatchCandidate { players: lobby, team_a: vec![], team_b: vec![], quality_bits: 0, region: region.to_string() })
    };
    assert!(e.scan_once(SEC, repeated, keep_quality).is_empty());
    let short = |region: &str, players: &Vec<QueuedPlayer>, _w: i64| {
        let lobby: Vec<QueuedPlayer> = players.iter().take(9).cloned().collect();
        Some(MatchCandidate { players: lobby, team_a: vec![], team_b: vec![], quality_bits: 0, region: region.to_string() })
    };
    assert!(e.scan_once(SEC, short, keep_quality).is_empty());
    let stranger = |region: &str, players: &Vec<QueuedPlayer>, _w: i64| {
        let mut lobby: Vec<QueuedPlayer> = players.iter().take(9).cloned().collect();
        lobby.push(player(999, region, 0));
        Some(MatchCandidate { players: lobby, team_a: vec![], team_b: vec![], quality_bits: 0, region: region.to_string() })
    };
    assert!(e.scan_once(SEC, stranger, keep_quality).is_empty());
    assert_eq!(e.pool().len(), 12);
    assert_eq!(e.pool().generation(), 0);
    let none = |_r: &str, _p: &Vec<QueuedPlayer>, _w: i64| None;
    assert!(e.scan_once(SEC, none, keep_quality).is_empty());
    assert_eq!(e.pool().len(), 12);
}
