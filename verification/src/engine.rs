//! The matching scan: evict, then per region commit lobbies chosen by the
//! caller's lobby selector, removing their players from the pool.

use vstd::prelude::*;

use crate::balance::TEAM_SIZE;
use crate::config::{max_wait_representable, LOBBY_SIZE};
use crate::metrics::MatchmakerMetrics;
use crate::metrics::{scan_recorded, MetricsView};
use crate::pool::{is_region_list, is_region_snapshot, unexpired, PlayerPool};
use crate::region::same_region;
use crate::types::{spec_wait_secs, wait_seconds, QueuedPlayer, Timestamp};

verus! {

/// A lobby ready to commit: its players, the two teams (player ids), the
/// quality score (bit pattern of an `f64`) and the region.
#[derive(Debug, Clone)]
pub struct MatchCandidate {
    pub players: Vec<QueuedPlayer>,
    pub team_a: Vec<u128>,
    pub team_b: Vec<u128>,
    pub quality_bits: u64,
    pub region: String,
}

/// Ids of the waiting players in `region`.
pub open spec fn region_keys(m: Map<u128, QueuedPlayer>, region: Seq<char>) -> Set<u128> {
    Set::new(|k: u128| m.dom().contains(k) && m[k].region@ == region)
}

/// Number of waiting players in `region`.
pub open spec fn region_size(m: Map<u128, QueuedPlayer>, region: Seq<char>) -> nat {
    region_keys(m, region).len()
}

/// Players ordered from the longest-waiting on.
pub open spec fn by_enqueue_time(s: Seq<QueuedPlayer>) -> bool {
    forall|a: int, b: int| 0 <= a < b < s.len() ==> s[a].enqueued_at <= s[b].enqueued_at
}

/// A region snapshot lists as many players as the region holds.
pub proof fn lemma_snapshot_len(m: Map<u128, QueuedPlayer>, region: Seq<char>, s: Seq<QueuedPlayer>)
    requires
        m.dom().finite(),
        is_region_snapshot(m, region, s),
    ensures
        s.len() == region_size(m, region),
{
    let ids = s.map_values(|p: QueuedPlayer| p.id);
    assert(ids.no_duplicates()) by {
        assert forall|i: int, j: int| 0 <= i < ids.len() && 0 <= j < ids.len() && i != j implies ids[i]
            != ids[j] by {
            if i < j {
                assert(s[i].id != s[j].id);
            } else {
                assert(s[j].id != s[i].id);
            }
        }
    }
    ids.unique_seq_to_set();
    let f = region_keys(m, region);
    assert forall|k: u128| ids.to_set().contains(k) <==> f.contains(k) by {
        if ids.to_set().contains(k) {
            let i = choose|i: int| 0 <= i < ids.len() && ids[i] == k;
            assert(s[i].id == k);
        }
        if f.contains(k) {
            let i = choose|i: int| 0 <= i < s.len() && s[i].id == k;
            assert(ids[i] == k);
        }
    }
    assert(ids.to_set() =~= f);
}

/// Inserts a player into a list ordered by enqueue time, after every
/// player enqueued no later.
fn insert_by_enqueue_time(out: &mut Vec<QueuedPlayer>, x: QueuedPlayer)
    requires
        by_enqueue_time(old(out)@),
    ensures
        by_enqueue_time(final(out)@),
        exists|pos: int| 0 <= pos <= old(out)@.len() && final(out)@ == old(out)@.insert(pos, x),
{
    let mut pos: usize = 0;
    while pos < out.len() && out[pos].enqueued_at <= x.enqueued_at
        invariant
            pos <= out@.len(),
            forall|a: int| 0 <= a < pos ==> (#[trigger] out@[a]).enqueued_at <= x.enqueued_at,
        decreases out@.len() - pos,
    {
        pos = pos + 1;
    }
    let ghost before = out@;
    let ghost key = x.enqueued_at;
    out.insert(pos, x);
    proof {
        assert(out@ == before.insert(pos as int, x));
        assert forall|a: int, b: int| 0 <= a < b < out@.len() implies out@[a].enqueued_at
            <= out@[b].enqueued_at by {
            if b < pos {
            } else if b == pos {
            } else if a < pos {
                if pos < before.len() {
                    assert(!(before[pos as int].enqueued_at <= key));
                }
                assert(before[a].enqueued_at <= key);
            } else if a == pos {
                assert(!(before[pos as int].enqueued_at <= key));
                assert(before[pos as int].enqueued_at <= before[b - 1].enqueued_at);
            } else {
                assert(before[a - 1].enqueued_at <= before[b - 1].enqueued_at);
            }
        }
    }
}

/// Copies of the players ordered by enqueue time (players enqueued at the
/// same time keep their relative order).
fn order_by_enqueue_time(s: &Vec<QueuedPlayer>) -> (r: Vec<QueuedPlayer>)
    requires
        forall|a: int, b: int| 0 <= a < b < s@.len() ==> s@[a].id != s@[b].id,
    ensures
        r@.to_multiset() == s@.to_multiset(),
        by_enqueue_time(r@),
        forall|a: int, b: int| 0 <= a < b < r@.len() ==> r@[a].id != r@[b].id,
{
    broadcast use vstd::seq_lib::group_to_multiset_ensures;

    let mut out: Vec<QueuedPlayer> = Vec::new();
    let mut i: usize = 0;
    while i < s.len()
        invariant
            i <= s@.len(),
            forall|a: int, b: int| 0 <= a < b < s@.len() ==> s@[a].id != s@[b].id,
            by_enqueue_time(out@),
            out@.to_multiset() == s@.take(i as int).to_multiset(),
            forall|a: int, b: int| 0 <= a < b < out@.len() ==> out@[a].id != out@[b].id,
        decreases s@.len() - i,
    {
        let x = s[i].clone();
        let ghost before = out@;
        proof {
            assert forall|a: int| 0 <= a < before.len() implies before[a].id != x.id by {
                assert(before.contains(before[a]));
                vstd::seq_lib::to_multiset_contains(before, before[a]);
                vstd::seq_lib::to_multiset_contains(s@.take(i as int), before[a]);
                assert(s@.take(i as int).contains(before[a]));
                let c = choose|c: int| 0 <= c < i && s@.take(i as int)[c] == before[a];
                assert(s@[c].id != s@[i as int].id);
            }
        }
        insert_by_enqueue_time(&mut out, x);
        proof {
            let pos = choose|pos: int| 0 <= pos <= before.len() && out@ == before.insert(pos, x);
            vstd::seq_lib::to_multiset_insert(before, pos, x);
            assert(s@.take(i + 1) == s@.take(i as int).push(x));
            vstd::seq_lib::to_multiset_build(s@.take(i as int), x);
            assert forall|a: int, b: int| 0 <= a < b < out@.len() implies out@[a].id != out@[b].id by {
                if a == pos {
                    assert(out@[b] == before[b - 1]);
                } else if b == pos {
                    assert(out@[a] == before[a]);
                } else if a < pos && b < pos {
                    assert(out@[a] == before[a] && out@[b] == before[b]);
                } else if a < pos {
                    assert(out@[a] == before[a] && out@[b] == before[b - 1]);
                } else {
                    assert(out@[a] == before[a - 1] && out@[b] == before[b - 1]);
                }
            }
        }
        i = i + 1;
    }
    assert(s@.take(s@.len() as int) == s@);
    out
}

/// Ids of the players, in order.
pub open spec fn player_ids(ps: Seq<QueuedPlayer>) -> Seq<u128> {
    ps.map_values(|p: QueuedPlayer| p.id)
}

/// The two teams split the lobby's players five against five: each team
/// has five ids, every player is on a team, and every team member is a
/// player of the lobby.
pub open spec fn is_five_a_side(c: MatchCandidate) -> bool {
    let teams = c.team_a@ + c.team_b@;
    &&& c.team_a@.len() == TEAM_SIZE
    &&& c.team_b@.len() == TEAM_SIZE
    &&& forall|a: int| 0 <= a < c.players@.len() ==> teams.contains(#[trigger] c.players@[a].id)
    &&& forall|x: int| 0 <= x < teams.len() ==> player_ids(c.players@).contains(#[trigger] teams[x])
}

/// A lobby that a scan may commit: ten players with distinct ids, all of
/// the lobby's region, split five against five.
pub open spec fn is_committable(c: MatchCandidate) -> bool {
    &&& c.players@.len() == LOBBY_SIZE
    &&& player_ids(c.players@).no_duplicates()
    &&& forall|a: int| 0 <= a < c.players@.len() ==> (#[trigger] c.players@[a]).region@ == c.region@
    &&& is_five_a_side(c)
}

/// Lobby `c` fits pool state `state` for `region`: it is committable, of
/// that region, and every player of it waits in that region.
pub open spec fn fits(c: MatchCandidate, region: Seq<char>, state: Map<u128, QueuedPlayer>) -> bool {
    &&& is_committable(c)
    &&& c.region@ == region
    &&& forall|a: int|
        0 <= a < c.players@.len() ==> state.dom().contains(#[trigger] c.players@[a].id)
            && state[c.players@[a].id].region@ == region
}

/// The monotonic clock's instant type of std, declared so that a scan can
/// time itself.
#[verifier::external_type_specification]
#[verifier::external_body]
pub struct ExInstant(std::time::Instant);

/// `Instant::now`: a reading of the monotonic clock. Nothing is promised
/// of it.
#[verifier::external_body]
fn clock_now() -> (t: std::time::Instant) {
    std::time::Instant::now()
}

/// `Instant::elapsed`: the time since `start`. Nothing is promised of it.
#[verifier::external_body]
fn clock_elapsed(start: &std::time::Instant) -> (d: std::time::Duration) {
    start.elapsed()
}

/// `Duration::as_nanos`: the span in whole nanoseconds. The span comes from
/// the clock, so nothing is promised of it here.
#[verifier::external_body]
fn duration_nanos(d: &std::time::Duration) -> (n: u128) {
    d.as_nanos()
}

/// `emas` is the running quality average through the committed lobbies
/// `ms`: it starts at `start` and each step is what `update` gave for the
/// previous average and the lobby's quality.
pub open spec fn quality_chain<G: Fn(u64, u64) -> u64>(update: G, start: u64, ms: Seq<MatchCandidate>, emas: Seq<u64>) -> bool {
    &&& emas.len() == ms.len() + 1
    &&& emas[0] == start
    &&& forall|i: int| 0 <= i < ms.len() ==> #[trigger] update.ensures((emas[i], ms[i].quality_bits), emas[i + 1])
}

/// The counters `post` are `pre` after counting the lobbies `ms` (with the
/// quality averages `emas`) and one scan that took `duration_nanos`.
pub open spec fn scan_counted<G: Fn(u64, u64) -> u64>(
    update: G,
    pre: MetricsView,
    ms: Seq<MatchCandidate>,
    emas: Seq<u64>,
    duration_nanos: u64,
    post: MetricsView,
) -> bool {
    &&& quality_chain(update, pre.quality_ema_bits, ms, emas)
    &&& post == scan_recorded(
        MetricsView {
            matches_formed: ((pre.matches_formed + ms.len()) % 0x1_0000_0000_0000_0000) as u64,
            quality_ema_bits: emas.last(),
            ..pre
        },
        duration_nanos,
    )
}

/// Ids of every player of the committed lobbies.
pub open spec fn matched_ids(ms: Seq<MatchCandidate>) -> Set<u128>
    decreases ms.len(),
{
    if ms.len() == 0 {
        Set::empty()
    } else {
        matched_ids(ms.drop_last()).union(player_ids(ms.last().players@).to_set())
    }
}

/// The committed lobbies `ms` were drawn from the pool `e`: each is
/// committable, no player is in two of them, and the pool `now` holds what
/// `e` held minus their players.
pub open spec fn scan_consistent(e: Map<u128, QueuedPlayer>, now: Map<u128, QueuedPlayer>, ms: Seq<MatchCandidate>) -> bool {
    &&& forall|i: int| 0 <= i < ms.len() ==> is_committable(#[trigger] ms[i])
    &&& forall|i: int, a: int|
        0 <= i < ms.len() && 0 <= a < ms[i].players@.len() ==> e.dom().contains(
            #[trigger] ms[i].players@[a].id,
        )
    &&& forall|i: int, j: int, a: int, b: int|
        0 <= i < ms.len() && 0 <= j < ms.len() && i != j && 0 <= a < ms[i].players@.len() && 0 <= b
            < ms[j].players@.len() ==> #[trigger] ms[i].players@[a].id != #[trigger] ms[j].players@[b].id
    &&& now == e.remove_keys(matched_ids(ms))
}

/// The scan asked the selector about `region` at pool state `state`,
/// showing it the region's players from the longest-waiting on and the
/// first one's wait, and the selector answered `answer`.
pub open spec fn asked<F: Fn(&str, &Vec<QueuedPlayer>, i64) -> Option<MatchCandidate>>(
    find: F,
    region: Seq<char>,
    now: Timestamp,
    state: Map<u128, QueuedPlayer>,
    answer: Option<MatchCandidate>,
) -> bool {
    exists|r: &str, ps: Vec<QueuedPlayer>, w: i64|
        {
            &&& r@ == region
            &&& is_region_snapshot(state, region, ps@)
            &&& by_enqueue_time(ps@)
            &&& ps@.len() >= LOBBY_SIZE
            &&& w == spec_wait_secs(ps@[0].enqueued_at, now)
            &&& #[trigger] find.ensures((r, &ps, w), answer)
        }
}

/// At pool state `state` the scan commits lobby `c` for `region`: the
/// selector proposed it and it fits.
pub open spec fn commits<F: Fn(&str, &Vec<QueuedPlayer>, i64) -> Option<MatchCandidate>>(
    find: F,
    region: Seq<char>,
    now: Timestamp,
    state: Map<u128, QueuedPlayer>,
    c: MatchCandidate,
) -> bool {
    &&& asked(find, region, now, state, Some(c))
    &&& fits(c, region, state)
}

/// At pool state `state` the scan of `region` stops: fewer than a lobby
/// wait there, or the selector found nothing, or proposed a lobby that does
/// not fit.
pub open spec fn stops<F: Fn(&str, &Vec<QueuedPlayer>, i64) -> Option<MatchCandidate>>(
    find: F,
    region: Seq<char>,
    now: Timestamp,
    state: Map<u128, QueuedPlayer>,
) -> bool {
    ||| region_size(state, region) < LOBBY_SIZE
    ||| exists|answer: Option<MatchCandidate>|
        {
            &&& #[trigger] asked(find, region, now, state, answer)
            &&& match answer {
                None => true,
                Some(c) => !fits(c, region, state),
            }
        }
}

/// Scanning `region` from pool state `start` committed `lobbies`, one after
/// the other, and then stopped.
#[verifier::opaque]
pub open spec fn region_pass<F: Fn(&str, &Vec<QueuedPlayer>, i64) -> Option<MatchCandidate>>(
    find: F,
    region: Seq<char>,
    now: Timestamp,
    start: Map<u128, QueuedPlayer>,
    lobbies: Seq<MatchCandidate>,
) -> bool {
    &&& forall|j: int|
        0 <= j < lobbies.len() ==> commits(
            find,
            region,
            now,
            start.remove_keys(matched_ids(lobbies.take(j))),
            #[trigger] lobbies[j],
        )
    &&& stops(find, region, now, start.remove_keys(matched_ids(lobbies)))
}

/// `cuts` splits `n` committed lobbies among `k` regions in order.
pub open spec fn cut_points(cuts: Seq<int>, k: nat, n: nat) -> bool {
    &&& cuts.len() == k + 1
    &&& cuts[0] == 0
    &&& cuts[k as int] == n
    &&& forall|i: int| 0 <= i < k ==> #[trigger] cuts[i] <= cuts[i + 1]
}

/// The scan visited the regions `regs` of pool `e` in order, and region
/// `i` committed the lobbies between `cuts[i]` and `cuts[i + 1]`.
pub open spec fn regions_passed<F: Fn(&str, &Vec<QueuedPlayer>, i64) -> Option<MatchCandidate>>(
    find: F,
    now: Timestamp,
    e: Map<u128, QueuedPlayer>,
    ms: Seq<MatchCandidate>,
    regs: Seq<String>,
    cuts: Seq<int>,
) -> bool {
    &&& is_region_list(e, regs)
    &&& cut_points(cuts, regs.len(), ms.len())
    &&& forall|i: int|
        0 <= i < regs.len() ==> region_pass(
            find,
            (#[trigger] regs[i])@,
            now,
            e.remove_keys(matched_ids(ms.take(cuts[i]))),
            ms.subrange(cuts[i], cuts[i + 1]),
        )
}

/// Adding one more region's lobbies keeps the record of the regions
/// passed so far.
proof fn lemma_extend_passes<F: Fn(&str, &Vec<QueuedPlayer>, i64) -> Option<MatchCandidate>>(
    find: F,
    now: Timestamp,
    e: Map<u128, QueuedPlayer>,
    before: Seq<MatchCandidate>,
    after: Seq<MatchCandidate>,
    regs: Seq<String>,
    cuts: Seq<int>,
    i: int,
)
    requires
        0 <= i < regs.len(),
        cut_points(cuts, i as nat, before.len()),
        forall|k: int|
            0 <= k < i ==> region_pass(
                find,
                (#[trigger] regs[k])@,
                now,
                e.remove_keys(matched_ids(before.take(cuts[k]))),
                before.subrange(cuts[k], cuts[k + 1]),
            ),
        after.len() >= before.len(),
        after.take(before.len() as int) == before,
        region_pass(
            find,
            regs[i]@,
            now,
            e.remove_keys(matched_ids(before)),
            after.subrange(before.len() as int, after.len() as int),
        ),
    ensures
        cut_points(cuts.push(after.len() as int), (i + 1) as nat, after.len()),
        forall|k: int|
            0 <= k < i + 1 ==> region_pass(
                find,
                (#[trigger] regs[k])@,
                now,
                e.remove_keys(matched_ids(after.take(cuts.push(after.len() as int)[k]))),
                after.subrange(cuts.push(after.len() as int)[k], cuts.push(after.len() as int)[k + 1]),
            ),
{
    let c2 = cuts.push(after.len() as int);
    assert forall|j: int| 0 <= j < before.len() implies after[j] == before[j] by {
        assert(after.take(before.len() as int)[j] == before[j]);
    }
    assert forall|k: int| 0 <= k < i + 1 implies #[trigger] c2[k] <= c2[k + 1] by {
        if k < i {
            assert(cuts[k] <= cuts[k + 1]);
        }
    }
    assert forall|k: int|
        0 <= k < i + 1 implies region_pass(
        find,
        (#[trigger] regs[k])@,
        now,
        e.remove_keys(matched_ids(after.take(c2[k]))),
        after.subrange(c2[k], c2[k + 1]),
    ) by {
        if k < i {
            lemma_cuts_nonneg(cuts, i as nat, before.len(), k);
            lemma_cuts_bounded(cuts, i as nat, before.len(), k + 1);
            assert(cuts[k] <= cuts[k + 1]);
            assert(after.take(c2[k]) =~= before.take(cuts[k]));
            assert(after.subrange(c2[k], c2[k + 1]) =~= before.subrange(cuts[k], cuts[k + 1]));
        } else {
            assert(after.take(c2[k]) =~= before);
        }
    }
}

/// Cut points never pass the number of lobbies.
proof fn lemma_cuts_bounded(cuts: Seq<int>, k: nat, n: nat, i: int)
    requires
        cut_points(cuts, k, n),
        0 <= i <= k,
    ensures
        0 <= cuts[i] <= n,
    decreases k - i,
{
    if i < k {
        lemma_cuts_bounded(cuts, k, n, i + 1);
        assert(cuts[i] <= cuts[i + 1]);
    }
    if i == 0 {
    } else {
        lemma_cuts_nonneg(cuts, k, n, i);
    }
}

proof fn lemma_cuts_nonneg(cuts: Seq<int>, k: nat, n: nat, i: int)
    requires
        cut_points(cuts, k, n),
        0 <= i <= k,
    ensures
        0 <= cuts[i],
    decreases i,
{
    if i > 0 {
        lemma_cuts_nonneg(cuts, k, n, i - 1);
        assert(cuts[i - 1] <= cuts[i]);
    }
}

/// Removing players of other regions leaves a region's scan stopped.
proof fn lemma_stops_survive<F: Fn(&str, &Vec<QueuedPlayer>, i64) -> Option<MatchCandidate>>(
    find: F,
    region: Seq<char>,
    now: Timestamp,
    s1: Map<u128, QueuedPlayer>,
    s2: Map<u128, QueuedPlayer>,
)
    requires
        stops(find, region, now, s1),
        forall|k: u128| #[trigger] s2.dom().contains(k) ==> s1.dom().contains(k) && s2[k] == s1[k],
        forall|k: u128| s1.dom().contains(k) && !s2.dom().contains(k) ==> #[trigger] s1[k].region@ != region,
    ensures
        stops(find, region, now, s2),
{
    assert(region_keys(s2, region) =~= region_keys(s1, region));
    if region_size(s1, region) >= LOBBY_SIZE {
        let answer = choose|answer: Option<MatchCandidate>|
            #[trigger] asked(find, region, now, s1, answer) && match answer {
                None => true,
                Some(c) => !fits(c, region, s1),
            };
        let (r, ps, w) = choose|r: &str, ps: Vec<QueuedPlayer>, w: i64|
            {
                &&& r@ == region
                &&& is_region_snapshot(s1, region, ps@)
                &&& by_enqueue_time(ps@)
                &&& ps@.len() >= LOBBY_SIZE
                &&& w == spec_wait_secs(ps@[0].enqueued_at, now)
                &&& #[trigger] find.ensures((r, &ps, w), answer)
            };
        assert forall|i: int| 0 <= i < ps@.len() implies s2.dom().contains(#[trigger] ps@[i].id) && s2[ps@[i].id]
            == ps@[i] && ps@[i].region@ == region by {
            assert(s1.dom().contains(ps@[i].id));
            if !s2.dom().contains(ps@[i].id) {
                assert(s1[ps@[i].id].region@ != region);
            }
        }
        assert(is_region_snapshot(s2, region, ps@));
        assert(asked(find, region, now, s2, answer));
        match answer {
            None => {},
            Some(c) => {
                if fits(c, region, s2) {
                    assert forall|a: int|
                        0 <= a < c.players@.len() implies s1.dom().contains(#[trigger] c.players@[a].id)
                        && s1[c.players@[a].id].region@ == region by {
                        assert(s2.dom().contains(c.players@[a].id));
                    }
                    assert(fits(c, region, s1));
                }
            },
        }
    }
}

/// When every region of `e` has stopped at `after`, a subset of `e`, every
/// region name has: one with no player in `e` has none in `after`.
proof fn lemma_all_regions_stop<F: Fn(&str, &Vec<QueuedPlayer>, i64) -> Option<MatchCandidate>>(
    find: F,
    now: Timestamp,
    e: Map<u128, QueuedPlayer>,
    after: Map<u128, QueuedPlayer>,
    regs: Seq<String>,
)
    requires
        is_region_list(e, regs),
        forall|k: int| 0 <= k < regs.len() ==> stops(find, (#[trigger] regs[k])@, now, after),
        forall|x: u128| #[trigger] after.dom().contains(x) ==> e.dom().contains(x) && after[x] == e[x],
    ensures
        forall|v: Seq<char>| #[trigger] stops(find, v, now, after),
{
    assert forall|v: Seq<char>| #[trigger] stops(find, v, now, after) by {
        if exists|k: int| 0 <= k < regs.len() && regs[k]@ == v {
            let k = choose|k: int| 0 <= k < regs.len() && regs[k]@ == v;
            assert(stops(find, regs[k]@, now, after));
        } else {
            assert forall|x: u128| !region_keys(after, v).contains(x) by {
                if region_keys(after, v).contains(x) {
                    assert(e.dom().contains(x));
                    assert(crate::pool::has_region(regs, e[x].region@));
                }
            }
            assert(region_keys(after, v) =~= Set::<u128>::empty());
        }
    }
}

/// A region's pass removes players of that region only, so the regions
/// scanned before it stay stopped.
proof fn lemma_earlier_regions_stay_stopped<F: Fn(&str, &Vec<QueuedPlayer>, i64) -> Option<MatchCandidate>>(
    find: F,
    now: Timestamp,
    regs: Seq<String>,
    i: int,
    s1: Map<u128, QueuedPlayer>,
    s2: Map<u128, QueuedPlayer>,
)
    requires
        0 <= i < regs.len(),
        crate::pool::sorted_regions(regs),
        forall|k: int| 0 <= k < i ==> stops(find, (#[trigger] regs[k])@, now, s1),
        stops(find, regs[i]@, now, s2),
        forall|k: u128| #[trigger] s2.dom().contains(k) ==> s1.dom().contains(k) && s2[k] == s1[k],
        forall|k: u128| s1.dom().contains(k) && !s2.dom().contains(k) ==> #[trigger] s1[k].region@ == regs[i]@,
    ensures
        forall|k: int| 0 <= k < i + 1 ==> stops(find, (#[trigger] regs[k])@, now, s2),
{
    assert forall|k: int| 0 <= k < i + 1 implies stops(find, (#[trigger] regs[k])@, now, s2) by {
        if k < i {
            assert(crate::region::region_lt(regs[k]@, regs[i]@));
            crate::region::lemma_region_lt_irreflexive(regs[k]@);
            assert forall|x: u128| s1.dom().contains(x) && !s2.dom().contains(x) implies #[trigger] s1[x].region@
                != regs[k]@ by {
                assert(s1[x].region@ == regs[i]@);
            }
            lemma_stops_survive(find, regs[k]@, now, s1, s2);
        }
    }
}

/// Every player of a committed lobby is among the matched ids.
proof fn lemma_matched_ids_contains(ms: Seq<MatchCandidate>, i: int, a: int)
    requires
        0 <= i < ms.len(),
        0 <= a < ms[i].players@.len(),
    ensures
        matched_ids(ms).contains(ms[i].players@[a].id),
    decreases ms.len(),
{
    if i == ms.len() - 1 {
        assert(player_ids(ms.last().players@)[a] == ms[i].players@[a].id);
        assert(player_ids(ms.last().players@).to_set().contains(ms[i].players@[a].id));
    } else {
        lemma_matched_ids_contains(ms.drop_last(), i, a);
        assert(ms.drop_last()[i] == ms[i]);
    }
}

/// Every matched id belongs to some committed lobby.
proof fn lemma_matched_ids_members(ms: Seq<MatchCandidate>, k: u128)
    requires
        matched_ids(ms).contains(k),
    ensures
        exists|i: int, a: int| 0 <= i < ms.len() && 0 <= a < ms[i].players@.len() && ms[i].players@[a].id == k,
    decreases ms.len(),
{
    if player_ids(ms.last().players@).to_set().contains(k) {
        let a = choose|a: int| 0 <= a < player_ids(ms.last().players@).len() && player_ids(ms.last().players@)[a] == k;
        assert(ms[ms.len() - 1].players@[a].id == k);
    } else {
        lemma_matched_ids_members(ms.drop_last(), k);
        let (i, a) = choose|i: int, a: int|
            0 <= i < ms.drop_last().len() && 0 <= a < ms.drop_last()[i].players@.len() && ms.drop_last()[i].players@[a].id == k;
        assert(ms[i] == ms.drop_last()[i]);
    }
}

/// Ids of the players, in order.
fn candidate_ids(players: &Vec<QueuedPlayer>) -> (ids: Vec<u128>)
    ensures
        ids@ == player_ids(players@),
{
    let mut ids: Vec<u128> = Vec::new();
    let mut i: usize = 0;
    while i < players.len()
        invariant
            i <= players@.len(),
            ids@ == player_ids(players@.take(i as int)),
        decreases players@.len() - i,
    {
        ids.push(players[i].id);
        proof {
            assert(player_ids(players@.take(i + 1)) =~= player_ids(players@.take(i as int)).push(players@[i as int].id));
        }
        i = i + 1;
    }
    assert(players@.take(players@.len() as int) == players@);
    ids
}

/// Whether the id is in the list.
fn contains_id(v: &Vec<u128>, x: u128) -> (b: bool)
    ensures
        b == v@.contains(x),
{
    let mut i: usize = 0;
    while i < v.len()
        invariant
            i <= v@.len(),
            forall|a: int| 0 <= a < i ==> v@[a] != x,
        decreases v@.len() - i,
    {
        if v[i] == x {
            return true;
        }
        i = i + 1;
    }
    false
}

/// Whether the proposed lobby fits the pool for `region`, given the
/// region's current players `window`.
fn lobby_fits(
    c: &MatchCandidate,
    region: &str,
    window: &Vec<QueuedPlayer>,
    Ghost(state): Ghost<Map<u128, QueuedPlayer>>,
) -> (b: bool)
    requires
        is_region_snapshot(state, region@, window@),
    ensures
        b == fits(*c, region@, state),
{
    if c.players.len() != LOBBY_SIZE {
        return false;
    }
    let ids = candidate_ids(&c.players);
    if !crate::pool::ids_distinct(ids.as_slice()) {
        return false;
    }
    if !same_region(c.region.as_str(), region) {
        return false;
    }
    let window_ids = candidate_ids(window);
    let mut a: usize = 0;
    while a < c.players.len()
        invariant
            c.players@.len() == LOBBY_SIZE,
            ids@ == player_ids(c.players@),
            window_ids@ == player_ids(window@),
            is_region_snapshot(state, region@, window@),
            a <= c.players@.len(),
            forall|k: int|
                0 <= k < a ==> (#[trigger] c.players@[k]).region@ == region@ && state.dom().contains(
                    c.players@[k].id,
                ) && state[c.players@[k].id].region@ == region@,
        decreases c.players@.len() - a,
    {
        if !same_region(c.players[a].region.as_str(), region) {
            return false;
        }
        let id = c.players[a].id;
        if !contains_id(&window_ids, id) {
            proof {
                if state.dom().contains(id) && state[id].region@ == region@ {
                    let w = choose|w: int| 0 <= w < window@.len() && window@[w].id == id;
                    assert(window_ids@[w] == id);
                }
            }
            return false;
        }
        proof {
            let w = choose|w: int| 0 <= w < window_ids@.len() && window_ids@[w] == id;
            assert(window@[w].id == id);
        }
        a = a + 1;
    }
    if c.team_a.len() != TEAM_SIZE || c.team_b.len() != TEAM_SIZE {
        return false;
    }
    let ghost teams = c.team_a@ + c.team_b@;
    let mut a: usize = 0;
    while a < c.players.len()
        invariant
            c.players@.len() == LOBBY_SIZE,
            teams == c.team_a@ + c.team_b@,
            a <= c.players@.len(),
            forall|k: int| 0 <= k < a ==> teams.contains(#[trigger] c.players@[k].id),
        decreases c.players@.len() - a,
    {
        let id = c.players[a].id;
        let in_a = contains_id(&c.team_a, id);
        let in_b = contains_id(&c.team_b, id);
        if !in_a && !in_b {
            proof {
                if teams.contains(id) {
                    let x = choose|x: int| 0 <= x < teams.len() && teams[x] == id;
                    if x < c.team_a@.len() {
                        assert(c.team_a@[x] == id);
                    } else {
                        assert(c.team_b@[x - c.team_a@.len()] == id);
                    }
                }
            }
            return false;
        }
        proof {
            if in_a {
                let x = choose|x: int| 0 <= x < c.team_a@.len() && c.team_a@[x] == id;
                assert(teams[x] == id);
            } else {
                let x = choose|x: int| 0 <= x < c.team_b@.len() && c.team_b@[x] == id;
                assert(teams[x + c.team_a@.len()] == id);
            }
        }
        a = a + 1;
    }
    let mut x: usize = 0;
    while x < c.team_a.len() + c.team_b.len()
        invariant
            c.team_a@.len() == TEAM_SIZE,
            c.team_b@.len() == TEAM_SIZE,
            teams == c.team_a@ + c.team_b@,
            ids@ == player_ids(c.players@),
            x <= teams.len(),
            forall|k: int| 0 <= k < x ==> player_ids(c.players@).contains(#[trigger] teams[k]),
        decreases teams.len() - x,
    {
        let member = if x < c.team_a.len() {
            c.team_a[x]
        } else {
            c.team_b[x - c.team_a.len()]
        };
        proof {
            assert(member == teams[x as int]);
        }
        if !contains_id(&ids, member) {
            return false;
        }
        x = x + 1;
    }
    true
}

/// The players of `pool` left by eviction at `now`.
pub open spec fn evicted_pool(pool: PlayerPool, now: Timestamp) -> Map<u128, QueuedPlayer> {
    unexpired(pool.entries(), now, pool.max_queue_time())
}

/// The generation of `pool` after eviction at `now`: bumped when someone
/// was evicted.
pub open spec fn generation_after_eviction(pool: PlayerPool, now: Timestamp) -> u64 {
    if pool.entries().len() - evicted_pool(pool, now).len() > 0 {
        pool.spec_generation().wrapping_add(1)
    } else {
        pool.spec_generation()
    }
}

/// The counters of `pool` after eviction at `now`: the evictions added and
/// the depth published when someone was evicted.
pub open spec fn counters_after_eviction(pool: PlayerPool, now: Timestamp) -> MetricsView {
    let evicted = pool.entries().len() - evicted_pool(pool, now).len();
    if evicted > 0 {
        MetricsView {
            evictions: pool.metrics_view().evictions.wrapping_add(evicted as u64),
            queue_depth: #[verifier::truncate] (evicted_pool(pool, now).len() as u64),
            ..pool.metrics_view()
        }
    } else {
        pool.metrics_view()
    }
}

/// The counters once the scan's lobbies are removed, before they are
/// counted: the depth is published when a lobby was committed.
pub open spec fn counters_before_count(pool: PlayerPool, now: Timestamp, after: Map<u128, QueuedPlayer>, committed: nat) -> MetricsView {
    if committed == 0 {
        counters_after_eviction(pool, now)
    } else {
        MetricsView {
            queue_depth: #[verifier::truncate] (after.len() as u64),
            ..counters_after_eviction(pool, now)
        }
    }
}

/// The matching engine: the pool and the scan over it.
#[derive(Debug)]
pub struct MatchmakerEngine {
    pool: PlayerPool,
}

impl MatchmakerEngine {
    /// The pool the engine scans.
    pub closed spec fn spec_pool(&self) -> PlayerPool {
        self.pool
    }

    /// The pool is well formed.
    pub open spec fn wf(&self) -> bool {
        self.spec_pool().wf()
    }

    /// An engine over the given pool.
    pub fn new(pool: PlayerPool) -> (e: Self)
        ensures
            e.spec_pool() == pool,
    {
        MatchmakerEngine { pool }
    }

    /// The pool.
    pub fn pool(&self) -> (p: &PlayerPool)
        ensures
            *p == self.spec_pool(),
    {
        &self.pool
    }

    /// The pool, for players who join or leave.
    pub fn pool_mut(&mut self) -> (p: &mut PlayerPool)
        ensures
            *p == old(self).spec_pool(),
            final(self).spec_pool() == *final(p),
    {
        &mut self.pool
    }

    /// The health counters.
    pub fn metrics(&self) -> (m: &MatchmakerMetrics)
        ensures
            m@ == self.spec_pool().metrics_view(),
    {
        self.pool.metrics()
    }

    /// The players of a region from the longest-waiting on, with the whole
    /// seconds that the first of them has waited; nothing when the region
    /// holds fewer than a lobby.
    pub fn lobby_window(&self, region: &str, now: Timestamp) -> (r: Option<(Vec<QueuedPlayer>, i64)>)
        requires
            self.wf(),
        ensures
            r is None <==> region_size(self.spec_pool().entries(), region@) < LOBBY_SIZE,
            r matches Some((ps, wait)) ==> {
                &&& is_region_snapshot(self.spec_pool().entries(), region@, ps@)
                &&& by_enqueue_time(ps@)
                &&& ps@.len() >= LOBBY_SIZE
                &&& wait == spec_wait_secs(ps@[0].enqueued_at, now)
            },
    {
        let snapshot = self.pool.snapshot_by_region(region);
        proof {
            lemma_snapshot_len(self.pool.entries(), region@, snapshot@);
        }
        if snapshot.len() < LOBBY_SIZE {
            return None;
        }
        let players = order_by_enqueue_time(&snapshot);
        proof {
            lemma_reordered_snapshot(self.pool.entries(), region@, snapshot@, players@);
        }
        let wait = wait_seconds(players[0].enqueued_at, now);
        Some((players, wait))
    }

    /// One pass of matching at `now`: evicts players who waited too long,
    /// then, region by region in scan order, asks `find` for a lobby among
    /// the region's players (longest-waiting first, with the first one's
    /// wait in seconds) and commits it by removing its players, until
    /// `find` finds none, proposes one that is not ten distinct players of
    /// that region split five against five, or proposes one of which some
    /// player is no longer waiting there. Returns the committed
    /// lobbies in order. Afterwards it counts each committed lobby, with
    /// the running quality average that `update_quality` gives for the
    /// previous average and the lobby's quality, and counts the scan with
    /// the time it took.
    #[verifier::rlimit(60)]
    pub fn scan_once<F, G>(&mut self, now: Timestamp, find: F, update_quality: G) -> (matches: Vec<MatchCandidate>)
        where F: Fn(&str, &Vec<QueuedPlayer>, i64) -> Option<MatchCandidate>, G: Fn(u64, u64) -> u64
        requires
            old(self).wf(),
            max_wait_representable(old(self).spec_pool().max_queue_time()),
            forall|r: &str, p: &Vec<QueuedPlayer>, w: i64| #[trigger] find.requires((r, p, w)),
            forall|a: u64, q: u64| #[trigger] update_quality.requires((a, q)),
        ensures
            final(self).wf(),
            final(self).spec_pool().max_queue_time() == old(self).spec_pool().max_queue_time(),
            scan_consistent(evicted_pool(old(self).spec_pool(), now), final(self).spec_pool().entries(), matches@),
            exists|regs: Seq<String>, cuts: Seq<int>|
                #[trigger] regions_passed(find, now, evicted_pool(old(self).spec_pool(), now), matches@, regs, cuts),
            forall|v: Seq<char>| #[trigger] stops(find, v, now, final(self).spec_pool().entries()),
            final(self).spec_pool().spec_generation() as int == (generation_after_eviction(old(self).spec_pool(), now)
                + matches@.len()) % 0x1_0000_0000_0000_0000,
            exists|emas: Seq<u64>, d: u64|
                #[trigger] scan_counted(
                    update_quality,
                    counters_before_count(old(self).spec_pool(), now, final(self).spec_pool().entries(), matches@.len()),
                    matches@,
                    emas,
                    d,
                    final(self).spec_pool().metrics_view(),
                ),
    {
        let started = clock_now();
        let _ = self.pool.evict_expired(now);
        let ghost e = self.pool.entries();
        let ghost g = self.pool.spec_generation();
        let ghost mv = self.pool.metrics_view();
        proof {
            assert(e == evicted_pool(old(self).spec_pool(), now));
            assert(g == generation_after_eviction(old(self).spec_pool(), now));
            assert(mv == counters_after_eviction(old(self).spec_pool(), now));
        }
        let regions = self.pool.regions();
        let mut matches: Vec<MatchCandidate> = Vec::new();
        proof {
            assert(matched_ids(matches@) =~= Set::<u128>::empty());
            assert(e.remove_keys(Set::<u128>::empty()) =~= e);
        }
        let ghost mut cuts: Seq<int> = seq![0];
        let mut i: usize = 0;
        while i < regions.len()
            invariant
                self.wf(),
                scan_consistent(e, self.spec_pool().entries(), matches@),
                is_region_list(e, regions@),
                cut_points(cuts, i as nat, matches@.len()),
                forall|k: int|
                    0 <= k < i ==> region_pass(
                        find,
                        (#[trigger] regions@[k])@,
                        now,
                        e.remove_keys(matched_ids(matches@.take(cuts[k]))),
                        matches@.subrange(cuts[k], cuts[k + 1]),
                    ),
                forall|k: int| 0 <= k < i ==> stops(find, (#[trigger] regions@[k])@, now, self.spec_pool().entries()),
                forall|x: u128|
                    #[trigger] self.spec_pool().entries().dom().contains(x) ==> e.dom().contains(x)
                        && self.spec_pool().entries()[x] == e[x],
                forall|r: &str, p: &Vec<QueuedPlayer>, w: i64| #[trigger] find.requires((r, p, w)),
                forall|a: u64, q: u64| #[trigger] update_quality.requires((a, q)),
                self.spec_pool().max_queue_time() == old(self).spec_pool().max_queue_time(),
                self.spec_pool().spec_generation() as int == (g + matches@.len()) % 0x1_0000_0000_0000_0000,
                matches@.len() == 0 ==> self.spec_pool().metrics_view() == mv,
                matches@.len() > 0 ==> self.spec_pool().metrics_view() == (MetricsView {
                    queue_depth: self.spec_pool().entries().len() as u64,
                    ..mv
                }),
                i <= regions@.len(),
            decreases regions@.len() - i,
        {
            let ghost before = matches@;
            let ghost s1 = self.spec_pool().entries();
            let region: &str = regions[i].as_str();
            self.scan_region(region, now, &find, &mut matches, Ghost(e));
            proof {
                lemma_earlier_regions_stay_stopped(find, now, regions@, i as int, s1, self.spec_pool().entries());
                if matches@.len() == before.len() {
                    assert(matches@ =~= matches@.take(before.len() as int));
                }
                lemma_extend_passes(find, now, e, before, matches@, regions@, cuts, i as int);
                cuts = cuts.push(matches@.len() as int);
            }
            i = i + 1;
        }
        proof {
            assert(regions_passed(find, now, e, matches@, regions@, cuts));
            lemma_all_regions_stop(find, now, e, self.spec_pool().entries(), regions@);
            assert(self.spec_pool().metrics_view() == counters_before_count(
                old(self).spec_pool(),
                now,
                self.spec_pool().entries(),
                matches@.len(),
            ));
        }
        self.count_scan(&matches, &update_quality, &started);
        matches
    }

    /// Counts the committed lobbies, each with the running quality average
    /// that `update_quality` gives, and then one scan with the time since
    /// `started`.
    fn count_scan<G>(&mut self, matches: &Vec<MatchCandidate>, update_quality: &G, started: &std::time::Instant)
        where G: Fn(u64, u64) -> u64
        requires
            old(self).wf(),
            forall|a: u64, q: u64| #[trigger] update_quality.requires((a, q)),
        ensures
            final(self).wf(),
            final(self).spec_pool().entries() == old(self).spec_pool().entries(),
            final(self).spec_pool().max_queue_time() == old(self).spec_pool().max_queue_time(),
            final(self).spec_pool().spec_generation() == old(self).spec_pool().spec_generation(),
            exists|emas: Seq<u64>, d: u64|
                #[trigger] scan_counted(
                    *update_quality,
                    old(self).spec_pool().metrics_view(),
                    matches@,
                    emas,
                    d,
                    final(self).spec_pool().metrics_view(),
                ),
    {
        let ghost pre = self.pool.metrics_view();
        let ghost mut emas: Seq<u64> = seq![pre.quality_ema_bits];
        let mut j: usize = 0;
        while j < matches.len()
            invariant
                self.wf(),
                self.spec_pool().entries() == old(self).spec_pool().entries(),
                self.spec_pool().max_queue_time() == old(self).spec_pool().max_queue_time(),
                self.spec_pool().spec_generation() == old(self).spec_pool().spec_generation(),
                pre == old(self).spec_pool().metrics_view(),
                forall|a: u64, q: u64| #[trigger] update_quality.requires((a, q)),
                j <= matches@.len(),
                emas.len() == j + 1,
                emas[0] == pre.quality_ema_bits,
                forall|k: int|
                    0 <= k < j ==> #[trigger] update_quality.ensures((emas[k], matches@[k].quality_bits), emas[k + 1]),
                self.spec_pool().metrics_view() == (MetricsView {
                    matches_formed: ((pre.matches_formed + j) % 0x1_0000_0000_0000_0000) as u64,
                    quality_ema_bits: emas.last(),
                    ..pre
                }),
            decreases matches@.len() - j,
        {
            let current = self.pool.metrics().quality_ema_bits();
            let next = update_quality(current, matches[j].quality_bits);
            self.pool.metrics_mut().record_match(next);
            proof {
                emas = emas.push(next);
            }
            j = j + 1;
        }
        let taken = duration_nanos(&clock_elapsed(started));
        self.record_scan_time(taken);
        proof {
            let d: u64 = (taken % 0x1_0000_0000_0000_0000) as u64;
            assert(scan_counted(*update_quality, pre, matches@, emas, d, self.spec_pool().metrics_view()));
        }
    }

    /// Counts one scan that took `elapsed_nanos` nanoseconds (kept to its
    /// low 64 bits, as the counters hold `u64`): the recorded duration is
    /// that many nanoseconds and the latency sample is that many whole
    /// microseconds.
    fn record_scan_time(&mut self, elapsed_nanos: u128)
        requires
            old(self).wf(),
        ensures
            final(self).wf(),
            final(self).spec_pool().entries() == old(self).spec_pool().entries(),
            final(self).spec_pool().max_queue_time() == old(self).spec_pool().max_queue_time(),
            final(self).spec_pool().spec_generation() == old(self).spec_pool().spec_generation(),
            final(self).spec_pool().metrics_view() == scan_recorded(
                old(self).spec_pool().metrics_view(),
                (elapsed_nanos % 0x1_0000_0000_0000_0000) as u64,
            ),
            final(self).spec_pool().metrics_view().recent_scan_micros.last() == (elapsed_nanos
                % 0x1_0000_0000_0000_0000) / 1000,
    {
        let d: u64 = #[verifier::truncate] (elapsed_nanos as u64);
        proof {
            assert(d == elapsed_nanos % 0x1_0000_0000_0000_0000) by (bit_vector)
                requires
                    d == elapsed_nanos as u64,
            ;
        }
        self.pool.metrics_mut().record_scan(d);
    }

    /// Commits lobbies of one region while the selector finds a committable
    /// one whose players are all still waiting.
    #[verifier::rlimit(60)]
    fn scan_region<F>(
        &mut self,
        region: &str,
        now: Timestamp,
        find: &F,
        matches: &mut Vec<MatchCandidate>,
        Ghost(e): Ghost<Map<u128, QueuedPlayer>>,
    ) where F: Fn(&str, &Vec<QueuedPlayer>, i64) -> Option<MatchCandidate>
        requires
            old(self).wf(),
            scan_consistent(e, old(self).spec_pool().entries(), old(matches)@),
            forall|r: &str, p: &Vec<QueuedPlayer>, w: i64| #[trigger] find.requires((r, p, w)),
        ensures
            final(self).wf(),
            scan_consistent(e, final(self).spec_pool().entries(), final(matches)@),
            final(matches)@.len() >= old(matches)@.len(),
            final(matches)@.take(old(matches)@.len() as int) == old(matches)@,
            region_pass(
                *find,
                region@,
                now,
                old(self).spec_pool().entries(),
                final(matches)@.subrange(old(matches)@.len() as int, final(matches)@.len() as int),
            ),
            stops(*find, region@, now, final(self).spec_pool().entries()),
            forall|k: u128|
                #[trigger] final(self).spec_pool().entries().dom().contains(k) ==> old(self).spec_pool().entries().dom().contains(k)
                    && final(self).spec_pool().entries()[k] == old(self).spec_pool().entries()[k],
            forall|k: u128|
                old(self).spec_pool().entries().dom().contains(k) && !final(self).spec_pool().entries().dom().contains(k)
                    ==> #[trigger] old(self).spec_pool().entries()[k].region@ == region@,
            final(self).spec_pool().max_queue_time() == old(self).spec_pool().max_queue_time(),
            final(self).spec_pool().spec_generation() as int == (old(self).spec_pool().spec_generation() + (
            final(matches)@.len() - old(matches)@.len())) % 0x1_0000_0000_0000_0000,
            final(matches)@.len() == old(matches)@.len() ==> final(self).spec_pool().metrics_view()
                == old(self).spec_pool().metrics_view(),
            final(matches)@.len() > old(matches)@.len() ==> final(self).spec_pool().metrics_view() == (
            MetricsView {
                queue_depth: final(self).spec_pool().entries().len() as u64,
                ..old(self).spec_pool().metrics_view()
            }),
    {
        reveal(region_pass);
        let ghost start = self.spec_pool().entries();
        let ghost base = matches@.len() as int;
        proof {
            let fresh = matches@.subrange(base, matches@.len() as int);
            assert(fresh =~= Seq::<MatchCandidate>::empty());
            assert(matched_ids(fresh) =~= Set::<u128>::empty());
            assert(start.remove_keys(matched_ids(fresh)) =~= start);
        }
        let mut searching = true;
        while searching
            invariant
                self.wf(),
                scan_consistent(e, self.spec_pool().entries(), matches@),
                forall|r: &str, p: &Vec<QueuedPlayer>, w: i64| #[trigger] find.requires((r, p, w)),
                base == old(matches)@.len(),
                start == old(self).spec_pool().entries(),
                matches@.len() >= base,
                matches@.take(base) == old(matches)@,
                self.spec_pool().entries() == start.remove_keys(
                    matched_ids(matches@.subrange(base, matches@.len() as int)),
                ),
                forall|j: int|
                    0 <= j < matches@.len() - base ==> commits(
                        *find,
                        region@,
                        now,
                        start.remove_keys(matched_ids(matches@.subrange(base, matches@.len() as int).take(j))),
                        #[trigger] matches@.subrange(base, matches@.len() as int)[j],
                    ),
                !searching ==> stops(*find, region@, now, self.spec_pool().entries()),
                forall|k: u128|
                    start.dom().contains(k) && !self.spec_pool().entries().dom().contains(k)
                        ==> #[trigger] start[k].region@ == region@,
                self.spec_pool().max_queue_time() == old(self).spec_pool().max_queue_time(),
                self.spec_pool().spec_generation() as int == (old(self).spec_pool().spec_generation() + (
                matches@.len() - base)) % 0x1_0000_0000_0000_0000,
                matches@.len() == base ==> self.spec_pool().metrics_view()
                    == old(self).spec_pool().metrics_view(),
                matches@.len() > base ==> self.spec_pool().metrics_view() == (MetricsView {
                    queue_depth: self.spec_pool().entries().len() as u64,
                    ..old(self).spec_pool().metrics_view()
                }),
            decreases self.spec_pool().entries().len() + if searching {
                1nat
            } else {
                0nat
            },
        {
            let ghost cur = self.spec_pool().entries();
            let window = self.lobby_window(region, now);
            match window {
                None => {
                    searching = false;
                },
                Some((players, wait)) => {
                    let picked = find(region, &players, wait);
                    proof {
                        assert(asked(*find, region@, now, cur, picked));
                    }
                    match picked {
                        None => {
                            searching = false;
                        },
                        Some(c) => {
                            if !lobby_fits(&c, region, &players, Ghost(cur)) {
                                searching = false;
                            } else {
                                let ids = candidate_ids(&c.players);
                                let ghost ms = matches@;
                                let removed = self.pool.try_remove_batch(ids.as_slice());
                                proof {
                                    assert forall|i: int| 0 <= i < ids@.len() implies cur.dom().contains(#[trigger] ids@[i]) by {
                                        assert(ids@[i] == c.players@[i].id);
                                    }
                                }
                                if !removed {
                                    searching = false;
                                } else {
                                    proof {
                                        ids@.unique_seq_to_set();
                                        cur.lemma_remove_keys_len(ids@.to_set());
                                    }
                                    matches.push(c);
                                    proof {
                                        lemma_commit_keeps_consistent(e, cur, ms, c, ids@);
                                        assert(matches@.take(base) =~= old(matches)@) by {
                                            assert(ms.take(base) == old(matches)@);
                                        }
                                        let before_new = ms.subrange(base, ms.len() as int);
                                        let after_new = matches@.subrange(base, matches@.len() as int);
                                        assert(after_new =~= before_new.push(c));
                                        assert(after_new.drop_last() =~= before_new);
                                        assert(after_new.last() == c);
                                        assert(matched_ids(after_new) == matched_ids(before_new).union(ids@.to_set()));
                                        assert(self.spec_pool().entries() =~= start.remove_keys(matched_ids(after_new)));
                                        assert forall|k: u128|
                                            start.dom().contains(k) && !self.spec_pool().entries().dom().contains(k)
                                            implies #[trigger] start[k].region@ == region@ by {
                                            if cur.dom().contains(k) {
                                                assert(ids@.to_set().contains(k));
                                                let a = choose|a: int| 0 <= a < ids@.len() && ids@[a] == k;
                                                assert(c.players@[a].id == k);
                                            }
                                        }
                                        assert forall|j: int| 0 <= j < matches@.len() - base implies commits(
                                            *find,
                                            region@,
                                            now,
                                            start.remove_keys(matched_ids(after_new.take(j))),
                                            #[trigger] after_new[j],
                                        ) by {
                                            if j < before_new.len() {
                                                assert(after_new.take(j) =~= before_new.take(j));
                                                assert(after_new[j] == before_new[j]);
                                            } else {
                                                assert(after_new.take(j) =~= before_new);
                                            }
                                        }
                                    }
                                }
                            }
                        },
                    }
                },
            }
        }
        proof {
            let fresh = matches@.subrange(base, matches@.len() as int);
            assert(fresh.take(fresh.len() as int) =~= fresh);
        }
    }
}

/// Committing a lobby whose distinct players all still wait keeps the scan
/// consistent.
proof fn lemma_commit_keeps_consistent(
    e: Map<u128, QueuedPlayer>,
    cur: Map<u128, QueuedPlayer>,
    ms: Seq<MatchCandidate>,
    c: MatchCandidate,
    ids: Seq<u128>,
)
    requires
        scan_consistent(e, cur, ms),
        is_committable(c),
        ids == player_ids(c.players@),
        forall|i: int| 0 <= i < ids.len() ==> cur.dom().contains(#[trigger] ids[i]),
    ensures
        scan_consistent(e, cur.remove_keys(ids.to_set()), ms.push(c)),
{
    let ms2 = ms.push(c);
    assert(ms2.drop_last() =~= ms);
    assert(ms2.last() == c);
    assert forall|a: int| 0 <= a < c.players@.len() implies e.dom().contains(#[trigger] c.players@[a].id)
        && !matched_ids(ms).contains(c.players@[a].id) by {
        assert(ids[a] == c.players@[a].id);
        assert(cur.dom().contains(ids[a]));
    }
    assert forall|i: int| 0 <= i < ms2.len() implies is_committable(#[trigger] ms2[i]) by {
        if i < ms.len() {
            assert(ms2[i] == ms[i]);
        }
    }
    assert forall|i: int, a: int|
        0 <= i < ms2.len() && 0 <= a < ms2[i].players@.len() implies e.dom().contains(
        #[trigger] ms2[i].players@[a].id,
    ) by {
        if i < ms.len() {
            assert(ms2[i] == ms[i]);
        }
    }
    assert forall|i: int, j: int, a: int, b: int|
        0 <= i < ms2.len() && 0 <= j < ms2.len() && i != j && 0 <= a < ms2[i].players@.len() && 0 <= b
            < ms2[j].players@.len() implies #[trigger] ms2[i].players@[a].id != #[trigger] ms2[j].players@[b].id by {
        if i < ms.len() && j < ms.len() {
            assert(ms2[i] == ms[i] && ms2[j] == ms[j]);
        } else if i < ms.len() {
            assert(ms2[i] == ms[i]);
            lemma_matched_ids_contains(ms, i, a);
        } else {
            assert(ms2[j] == ms[j]);
            lemma_matched_ids_contains(ms, j, b);
        }
    }
    assert(matched_ids(ms2) == matched_ids(ms).union(ids.to_set()));
    assert(cur.remove_keys(ids.to_set()) =~= e.remove_keys(matched_ids(ms2)));
}

/// The committed lobbies of a consistent scan hold ten times as many
/// distinct players as there are lobbies.
proof fn lemma_matched_ids_len(e: Map<u128, QueuedPlayer>, now: Map<u128, QueuedPlayer>, ms: Seq<MatchCandidate>)
    requires
        scan_consistent(e, now, ms),
    ensures
        matched_ids(ms).finite(),
        matched_ids(ms).len() == LOBBY_SIZE * ms.len(),
        matched_ids(ms).subset_of(e.dom()),
    decreases ms.len(),
{
    if ms.len() > 0 {
        let rest = ms.drop_last();
        let c = ms.last();
        assert forall|i: int| 0 <= i < rest.len() implies is_committable(#[trigger] rest[i]) by {
            assert(rest[i] == ms[i]);
        }
        assert forall|i: int, a: int|
            0 <= i < rest.len() && 0 <= a < rest[i].players@.len() implies e.dom().contains(
            #[trigger] rest[i].players@[a].id,
        ) by {
            assert(rest[i] == ms[i]);
        }
        assert forall|i: int, j: int, a: int, b: int|
            0 <= i < rest.len() && 0 <= j < rest.len() && i != j && 0 <= a < rest[i].players@.len() && 0
                <= b < rest[j].players@.len() implies #[trigger] rest[i].players@[a].id
            != #[trigger] rest[j].players@[b].id by {
            assert(rest[i] == ms[i] && rest[j] == ms[j]);
        }
        lemma_matched_ids_len(e, e.remove_keys(matched_ids(rest)), rest);
        let ids = player_ids(c.players@);
        assert(is_committable(ms[ms.len() - 1]));
        ids.unique_seq_to_set();
        assert(matched_ids(rest).disjoint(ids.to_set())) by {
            assert forall|k: u128| matched_ids(rest).contains(k) implies !ids.to_set().contains(k) by {
                lemma_matched_ids_members(rest, k);
                let (i, a) = choose|i: int, a: int|
                    0 <= i < rest.len() && 0 <= a < rest[i].players@.len() && rest[i].players@[a].id == k;
                if ids.to_set().contains(k) {
                    let b = choose|b: int| 0 <= b < ids.len() && ids[b] == k;
                    assert(rest[i] == ms[i]);
                    assert(ms[ms.len() - 1].players@[b].id == k);
                }
            }
        }
        vstd::set_lib::lemma_set_disjoint_lens(matched_ids(rest), ids.to_set());
        assert forall|k: u128| ids.to_set().contains(k) implies e.dom().contains(k) by {
            let b = choose|b: int| 0 <= b < ids.len() && ids[b] == k;
            assert(ms[ms.len() - 1].players@[b].id == k);
        }
    }
}

/// A scan conserves players: of the players left after eviction, each
/// one either still waits or sits in exactly one committed lobby, and the
/// pool shrinks by ten per lobby.
pub proof fn law_scan_conserves_players(
    e: Map<u128, QueuedPlayer>,
    after: Map<u128, QueuedPlayer>,
    ms: Seq<MatchCandidate>,
)
    requires
        e.dom().finite(),
        scan_consistent(e, after, ms),
    ensures
        after.len() + LOBBY_SIZE * ms.len() == e.len(),
        forall|k: u128|
            e.dom().contains(k) ==> (after.dom().contains(k) <==> !#[trigger] matched_ids(ms).contains(k)),
        forall|k: u128| #[trigger] matched_ids(ms).contains(k) ==> e.dom().contains(k),
{
    lemma_matched_ids_len(e, after, ms);
    assert forall|k: u128| #[trigger] matched_ids(ms).contains(k) implies e.contains_key(k) by {}
    e.lemma_remove_keys_len(matched_ids(ms));
}

/// Every lobby a scan commits is five against five from one region: its
/// ten players all belong to the lobby's region, and its two teams of five
/// together hold each player's id exactly once.
pub proof fn law_scan_lobbies_are_five_against_five(
    e: Map<u128, QueuedPlayer>,
    after: Map<u128, QueuedPlayer>,
    ms: Seq<MatchCandidate>,
    i: int,
)
    requires
        scan_consistent(e, after, ms),
        0 <= i < ms.len(),
    ensures
        ms[i].players@.len() == LOBBY_SIZE,
        forall|a: int| 0 <= a < LOBBY_SIZE ==> (#[trigger] ms[i].players@[a]).region@ == ms[i].region@,
        ms[i].team_a@.len() == TEAM_SIZE,
        ms[i].team_b@.len() == TEAM_SIZE,
        (ms[i].team_a@ + ms[i].team_b@).to_multiset() == player_ids(ms[i].players@).to_multiset(),
{
    let c = ms[i];
    assert(is_committable(c));
    lemma_teams_permute_players(c);
}

/// The two teams of a committable lobby are a rearrangement of its ids.
proof fn lemma_teams_permute_players(c: MatchCandidate)
    requires
        is_committable(c),
    ensures
        (c.team_a@ + c.team_b@).to_multiset() == player_ids(c.players@).to_multiset(),
{
    broadcast use vstd::seq_lib::group_to_multiset_ensures;

    let ids = player_ids(c.players@);
    let teams = c.team_a@ + c.team_b@;
    assert(teams.to_set() =~= ids.to_set()) by {
        assert forall|x: u128| teams.to_set().contains(x) implies ids.to_set().contains(x) by {
            let k = choose|k: int| 0 <= k < teams.len() && teams[k] == x;
            assert(player_ids(c.players@).contains(teams[k]));
        }
        assert forall|x: u128| ids.to_set().contains(x) implies teams.to_set().contains(x) by {
            let k = choose|k: int| 0 <= k < ids.len() && ids[k] == x;
            assert(teams.contains(c.players@[k].id));
        }
    }
    ids.unique_seq_to_set();
    teams.lemma_no_dup_set_cardinality();
    teams.lemma_multiset_has_no_duplicates();
    ids.lemma_multiset_has_no_duplicates();
    assert forall|x: u128| teams.to_multiset().count(x) == ids.to_multiset().count(x) by {
        vstd::seq_lib::to_multiset_contains(teams, x);
        vstd::seq_lib::to_multiset_contains(ids, x);
        assert(teams.contains(x) <==> teams.to_set().contains(x));
        assert(ids.contains(x) <==> ids.to_set().contains(x));
    }
    assert(teams.to_multiset() =~= ids.to_multiset());
}

/// A reordering of a region snapshot is a region snapshot.
proof fn lemma_reordered_snapshot(
    m: Map<u128, QueuedPlayer>,
    region: Seq<char>,
    s: Seq<QueuedPlayer>,
    r: Seq<QueuedPlayer>,
)
    requires
        is_region_snapshot(m, region, s),
        r.to_multiset() == s.to_multiset(),
        forall|a: int, b: int| 0 <= a < b < r.len() ==> r[a].id != r[b].id,
    ensures
        is_region_snapshot(m, region, r),
        r.len() == s.len(),
{
    broadcast use vstd::seq_lib::group_to_multiset_ensures;

    assert forall|i: int| 0 <= i < r.len() implies m.dom().contains(#[trigger] r[i].id) && m[r[i].id] == r[i]
        && r[i].region@ == region by {
        vstd::seq_lib::to_multiset_contains(r, r[i]);
        vstd::seq_lib::to_multiset_contains(s, r[i]);
        assert(r.contains(r[i]));
        let c = choose|c: int| 0 <= c < s.len() && s[c] == r[i];
    }
    assert forall|k: u128| #[trigger] m.dom().contains(k) && m[k].region@ == region implies exists|i: int|
        0 <= i < r.len() && r[i].id == k by {
        let c = choose|c: int| 0 <= c < s.len() && s[c].id == k;
        assert(s.contains(s[c]));
        vstd::seq_lib::to_multiset_contains(r, s[c]);
        vstd::seq_lib::to_multiset_contains(s, s[c]);
        let i = choose|i: int| 0 <= i < r.len() && r[i] == s[c];
    }
    vstd::seq_lib::to_multiset_len(r);
    vstd::seq_lib::to_multiset_len(s);
}

} // verus!
