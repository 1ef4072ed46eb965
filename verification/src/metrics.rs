//! Health counters of the matching loop.

use vstd::prelude::*;
use vstd::relations::{sorted_by, total_ordering};

verus! {

/// Most scan-latency samples kept in the rolling window.
pub const RECENT_SCAN_CAPACITY: usize = 512;

/// Samples dropped from the front of the window when it overflows.
pub const RECENT_SCAN_DROP: usize = 256;

/// Samples needed before a p99 latency is reported.
pub const P99_MIN_SAMPLES: usize = 10;

/// The order by which latency samples are sorted.
pub open spec fn sample_leq() -> spec_fn(u64, u64) -> bool {
    |a: u64, b: u64| a <= b
}

/// Position of the 99th percentile in a sorted window of `len` samples
/// (`floor(len * 0.99)`, kept inside the window).
pub open spec fn p99_index(len: nat) -> int {
    let i = (len * 99 / 100) as int;
    if i < len - 1 {
        i
    } else {
        len - 1
    }
}

/// The 99th-percentile sample of a window.
pub open spec fn spec_p99(samples: Seq<u64>) -> u64 {
    samples.sort_by(sample_leq())[p99_index(samples.len())]
}

/// The window after a new sample: appended, and when it grows past the
/// capacity the oldest `RECENT_SCAN_DROP` samples leave.
pub open spec fn window_after(recent: Seq<u64>, sample: u64) -> Seq<u64> {
    let pushed = recent.push(sample);
    if pushed.len() > RECENT_SCAN_CAPACITY {
        pushed.subrange(RECENT_SCAN_DROP as int, pushed.len() as int)
    } else {
        pushed
    }
}

/// The counters after one recorded scan that took `duration_nanos`: one
/// more scan, its duration added, its latency in microseconds put into the
/// window, and the 99th percentile republished once the window holds at
/// least `P99_MIN_SAMPLES` samples.
pub open spec fn scan_recorded(o: MetricsView, duration_nanos: u64) -> MetricsView {
    let w = window_after(o.recent_scan_micros, duration_nanos / 1000);
    MetricsView {
        scans: o.scans.wrapping_add(1),
        scan_duration_nanos: o.scan_duration_nanos.wrapping_add(duration_nanos),
        scan_count_for_avg: o.scan_count_for_avg.wrapping_add(1),
        recent_scan_micros: w,
        p99_scan_micros: if w.len() >= P99_MIN_SAMPLES {
            spec_p99(w)
        } else {
            o.p99_scan_micros
        },
        ..o
    }
}

/// The counters after one recorded match, with the running quality average
/// replaced by `quality_ema_bits`.
pub open spec fn match_recorded(o: MetricsView, quality_ema_bits: u64) -> MetricsView {
    MetricsView { matches_formed: o.matches_formed.wrapping_add(1), quality_ema_bits: quality_ema_bits, ..o }
}

/// The counters after recording scans that took `durations`, in order.
pub open spec fn scans_recorded(o: MetricsView, durations: Seq<u64>) -> MetricsView
    decreases durations.len(),
{
    if durations.len() == 0 {
        o
    } else {
        scan_recorded(scans_recorded(o, durations.drop_last()), durations.last())
    }
}

/// The counters of a fresh engine: all zero, with an empty window.
pub open spec fn fresh_view() -> MetricsView {
    MetricsView {
        queue_depth: 0,
        matches_formed: 0,
        scans: 0,
        evictions: 0,
        scan_duration_nanos: 0,
        scan_count_for_avg: 0,
        quality_ema_bits: 0,
        p99_scan_micros: 0,
        recent_scan_micros: Seq::empty(),
    }
}

/// Latency in whole microseconds of each duration.
pub open spec fn micros_of(durations: Seq<u64>) -> Seq<u64> {
    durations.map_values(|d: u64| d / 1000)
}

/// From fresh counters, after recording up to `RECENT_SCAN_CAPACITY` scans
/// the window holds every latency in order, the scan count is their number,
/// and the published p99 is the 99th percentile of all of them once there
/// are at least `P99_MIN_SAMPLES` (zero before that).
pub proof fn law_p99_covers_every_recorded_scan(durations: Seq<u64>)
    requires
        durations.len() <= RECENT_SCAN_CAPACITY,
    ensures
        scans_recorded(fresh_view(), durations).recent_scan_micros == micros_of(durations),
        scans_recorded(fresh_view(), durations).scans == durations.len(),
        durations.len() >= P99_MIN_SAMPLES ==> scans_recorded(fresh_view(), durations).p99_scan_micros
            == spec_p99(micros_of(durations)),
        durations.len() < P99_MIN_SAMPLES ==> scans_recorded(fresh_view(), durations).p99_scan_micros == 0,
    decreases durations.len(),
{
    if durations.len() > 0 {
        let front = durations.drop_last();
        law_p99_covers_every_recorded_scan(front);
        assert(micros_of(durations) =~= micros_of(front).push(durations.last() / 1000));
    } else {
        assert(micros_of(durations) =~= Seq::<u64>::empty());
    }
}

/// Point-in-time copy of the counters, as served to operators.
///
/// The average match quality is a floating-point number; it is carried as the
/// bit pattern of that `f64`.
#[derive(Debug, Clone, Copy, PartialEq, Eq, Structural)]
pub struct HealthSnapshot {
    pub queue_depth: u64,
    pub matches_formed_total: u64,
    pub scans_total: u64,
    pub evictions_total: u64,
    pub avg_match_quality_bits: u64,
    pub p99_scan_micros: u64,
}

/// Abstract state of the counters.
pub struct MetricsView {
    pub queue_depth: u64,
    pub matches_formed: u64,
    pub scans: u64,
    pub evictions: u64,
    pub scan_duration_nanos: u64,
    pub scan_count_for_avg: u64,
    pub quality_ema_bits: u64,
    pub p99_scan_micros: u64,
    pub recent_scan_micros: Seq<u64>,
}

/// Counters of the matching loop. Every counter wraps around on overflow.
#[derive(Debug)]
pub struct MatchmakerMetrics {
    queue_depth: u64,
    matches_formed: u64,
    scans: u64,
    evictions: u64,
    scan_duration_nanos: u64,
    scan_count_for_avg: u64,
    quality_ema_bits: u64,
    p99_scan_micros: u64,
    recent_scan_micros: Vec<u64>,
}

impl View for MatchmakerMetrics {
    type V = MetricsView;

    closed spec fn view(&self) -> MetricsView {
        MetricsView {
            queue_depth: self.queue_depth,
            matches_formed: self.matches_formed,
            scans: self.scans,
            evictions: self.evictions,
            scan_duration_nanos: self.scan_duration_nanos,
            scan_count_for_avg: self.scan_count_for_avg,
            quality_ema_bits: self.quality_ema_bits,
            p99_scan_micros: self.p99_scan_micros,
            recent_scan_micros: self.recent_scan_micros@,
        }
    }
}

impl Default for MatchmakerMetrics {
    fn default() -> (m: Self)
        ensures
            m@ == fresh_view(),
    {
        MatchmakerMetrics {
            queue_depth: 0,
            matches_formed: 0,
            scans: 0,
            evictions: 0,
            scan_duration_nanos: 0,
            scan_count_for_avg: 0,
            quality_ema_bits: 0,
            p99_scan_micros: 0,
            recent_scan_micros: Vec::new(),
        }
    }
}

/// A sorted copy of the samples.
fn sorted_samples(v: &Vec<u64>) -> (r: Vec<u64>)
    ensures
        sorted_by(r@, sample_leq()),
        r@.to_multiset() == v@.to_multiset(),
{
    broadcast use vstd::seq_lib::group_to_multiset_ensures;

    let mut out: Vec<u64> = Vec::new();
    let mut i: usize = 0;
    while i < v.len()
        invariant
            i <= v.len(),
            sorted_by(out@, sample_leq()),
            out@.to_multiset() == v@.take(i as int).to_multiset(),
        decreases v.len() - i,
    {
        let x = v[i];
        let mut pos: usize = 0;
        while pos < out.len() && out[pos] <= x
            invariant
                pos <= out.len(),
                forall|k: int| 0 <= k < pos ==> out@[k] <= x,
            decreases out.len() - pos,
        {
            pos = pos + 1;
        }
        let ghost before = out@;
        out.insert(pos, x);
        proof {
            assert(out@ == before.insert(pos as int, x));
            assert forall|a: int, b: int| 0 <= a < b < out@.len() implies #[trigger] (sample_leq())(
                out@[a],
                out@[b],
            ) by {
                assert(sorted_by(before, sample_leq()));
                if b < pos {
                    assert((sample_leq())(before[a], before[b]));
                } else if a < pos && b == pos {
                } else if a < pos {
                    assert((sample_leq())(before[a], before[b - 1]));
                } else if a == pos {
                    assert(!(before[pos as int] <= x) || pos == before.len());
                    assert((sample_leq())(before[pos as int], before[b - 1]));
                } else {
                    assert((sample_leq())(before[a - 1], before[b - 1]));
                }
            }
            vstd::seq_lib::to_multiset_insert(before, pos as int, x);
            assert(v@.take(i + 1) == v@.take(i as int).push(x));
            vstd::seq_lib::to_multiset_build(v@.take(i as int), x);
        }
        i = i + 1;
    }
    assert(v@.take(v.len() as int) == v@);
    out
}

/// The sample at the 99th percentile of a non-empty window.
fn p99_of(samples: &Vec<u64>) -> (p: u64)
    requires
        0 < samples.len() <= RECENT_SCAN_CAPACITY,
    ensures
        p == spec_p99(samples@),
{
    let sorted = sorted_samples(samples);
    proof {
        assert(total_ordering(sample_leq()));
        samples@.lemma_sort_by_ensures(sample_leq());
        vstd::seq_lib::lemma_sorted_unique(sorted@, samples@.sort_by(sample_leq()), sample_leq());
        assert(sorted@ == samples@.sort_by(sample_leq()));
        vstd::seq_lib::to_multiset_len(sorted@);
        vstd::seq_lib::to_multiset_len(samples@);
    }
    let n = sorted.len();
    let mut idx = n * 99 / 100;
    if idx > n - 1 {
        idx = n - 1;
    }
    sorted[idx]
}

impl MatchmakerMetrics {
    /// The window never holds more than `RECENT_SCAN_CAPACITY` samples.
    #[verifier::type_invariant]
    spec fn window_bounded(&self) -> bool {
        self.recent_scan_micros@.len() <= RECENT_SCAN_CAPACITY
    }

    /// Publishes the current queue depth.
    pub fn set_queue_depth(&mut self, depth: u64)
        ensures
            final(self)@ == (MetricsView { queue_depth: depth, ..old(self)@ }),
    {
        proof {
            use_type_invariant(&*self);
        }
        self.queue_depth = depth;
    }

    /// Records one scan of the pool that took `duration_nanos`: counts it, adds
    /// its duration, puts its latency in microseconds into the window and,
    /// once the window holds at least `P99_MIN_SAMPLES` samples, republishes
    /// the 99th-percentile latency.
    pub fn record_scan(&mut self, duration_nanos: u64)
        ensures
            final(self)@.recent_scan_micros.len() <= RECENT_SCAN_CAPACITY,
            final(self)@ == scan_recorded(old(self)@, duration_nanos),
    {
        proof {
            use_type_invariant(&*self);
        }
        self.scans = self.scans.wrapping_add(1);
        self.scan_duration_nanos = self.scan_duration_nanos.wrapping_add(duration_nanos);
        self.scan_count_for_avg = self.scan_count_for_avg.wrapping_add(1);

        let micros = duration_nanos / 1000;
        let mut recent: Vec<u64> = Vec::new();
        std::mem::swap(&mut recent, &mut self.recent_scan_micros);
        recent.push(micros);
        if recent.len() > RECENT_SCAN_CAPACITY {
            recent = recent.split_off(RECENT_SCAN_DROP);
        }
        if recent.len() >= P99_MIN_SAMPLES {
            self.p99_scan_micros = p99_of(&recent);
        }
        self.recent_scan_micros = recent;
    }

    /// Counts one formed match and stores the updated running average of
    /// match quality (the bit pattern of an `f64`, computed by the caller).
    pub fn record_match(&mut self, quality_ema_bits: u64)
        ensures
            final(self)@ == match_recorded(old(self)@, quality_ema_bits),
    {
        proof {
            use_type_invariant(&*self);
        }
        self.matches_formed = self.matches_formed.wrapping_add(1);
        self.quality_ema_bits = quality_ema_bits;
    }

    /// Adds `count` evicted players to the eviction total.
    pub fn record_evictions(&mut self, count: u64)
        ensures
            final(self)@ == (MetricsView {
                evictions: old(self)@.evictions.wrapping_add(count),
                ..old(self)@
            }),
    {
        proof {
            use_type_invariant(&*self);
        }
        self.evictions = self.evictions.wrapping_add(count);
    }

    /// Current running average of match quality (bit pattern of an `f64`;
    /// zero before the first match).
    pub fn quality_ema_bits(&self) -> (b: u64)
        ensures
            b == self@.quality_ema_bits,
    {
        self.quality_ema_bits
    }

    /// Copies the counters for operators.
    pub fn snapshot(&self) -> (s: HealthSnapshot)
        ensures
            s == (HealthSnapshot {
                queue_depth: self@.queue_depth,
                matches_formed_total: self@.matches_formed,
                scans_total: self@.scans,
                evictions_total: self@.evictions,
                avg_match_quality_bits: self@.quality_ema_bits,
                p99_scan_micros: self@.p99_scan_micros,
            }),
    {
        HealthSnapshot {
            queue_depth: self.queue_depth,
            matches_formed_total: self.matches_formed,
            scans_total: self.scans,
            evictions_total: self.evictions,
            avg_match_quality_bits: self.quality_ema_bits,
            p99_scan_micros: self.p99_scan_micros,
        }
    }
}

} // verus!
