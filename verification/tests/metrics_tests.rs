use matchmaker::MatchmakerMetrics;

fn p99_reference(window: &[u64]) -> u64 {
    let mut sorted = window.to_vec();
    sorted.sort_unstable();
    let idx = (sorted.len() as f64 * 0.99) as usize;
    sorted[idx.min(sorted.len() - 1)]
}

#[test]
fn fresh_counters_are_zero() {
    let s = MatchmakerMetrics::default().snapshot();
    assert_eq!(s.queue_depth, 0);
    assert_eq!(s.matches_formed_total, 0);
    assert_eq!(s.scans_total, 0);
    assert_eq!(s.evictions_total, 0);
    assert_eq!(s.avg_match_quality_bits, 0);
    assert_eq!(s.p99_scan_micros, 0);
}

#[test]
fn p99_appears_after_ten_scans() {
    let mut m = MatchmakerMetrics::default();
    for i in 1..=9u64 {
        m.record_scan(i * 1000);
    }
    assert_eq!(m.snapshot().scans_total, 9);
    assert_eq!(m.snapshot().p99_scan_micros, 0);
    m.record_scan(10_999);
    assert_eq!(m.snapshot().p99_scan_micros, 10);
    assert_eq!(m.snapshot().scans_total, 10);
}

#[test]
fn p99_follows_the_rolling_window() {
    let mut m = MatchmakerMetrics::default();
    let mut window: Vec<u64> = Vec::new();
    for i in 0..1300u64 {
        let nanos = ((i * 7919) % 1000) * 1000 + 17;
        m.record_scan(nanos);
        window.push(nanos / 1000);
        if window.len() > 512 {
            window.drain(0..256);
        }
        if window.len() >= 10 {
            assert_eq!(m.snapshot().p99_scan_micros, p99_reference(&window), "after {} scans", i + 1);
        }
    }
    assert_eq!(m.snapshot().scans_total, 1300);
}

#[test]
fn counters_wrap_around() {
    let mut m = MatchmakerMetrics::default();
    m.record_evictions(u64::MAX);
    m.record_evictions(3);
    assert_eq!(m.snapshot().evictions_total, 2);
}

#[test]
fn match_counter_and_quality_average() {
    let mut m = MatchmakerMetrics::default();
    m.record_match(0.8f64.to_bits());
    m.record_match(0.75f64.to_bits());
    let s = m.snapshot();
    assert_eq!(s.matches_formed_total, 2);
    assert_eq!(f64::from_bits(s.avg_match_quality_bits), 0.75);
    assert_eq!(m.quality_ema_bits(), 0.75f64.to_bits());
    m.set_queue_depth(17);
    assert_eq!(m.snapshot().queue_depth, 17);
}

#[test]
fn p99_over_a_full_window_of_scans() {
    let mut m = MatchmakerMetrics::default();
    for i in (1..=512u64).rev() {
        m.record_scan(i * 1000 + 999);
    }
    let s = m.snapshot();
    assert_eq!(s.scans_total, 512);
    // sorted latencies are 1..=512; floor(512 * 0.99) = 506 picks 507
    assert_eq!(s.p99_scan_micros, 507);
}
