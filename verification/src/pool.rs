//! The waiting pool: players keyed by id, with all-or-nothing batch removal
//! and time-based eviction.

use vstd::prelude::*;

use dashmap::DashMap;

use crate::config::max_wait_representable;
use crate::error::MatchmakerError;
use crate::metrics::{MatchmakerMetrics, MetricsView};
use crate::region::{region_before, region_lt, same_region};
use crate::types::{QueuedPlayer, Timestamp};

verus! {

/// The concurrent map of the `dashmap` crate, declared so that the pool can
/// hold one; its contents are seen only through `queue_entries`.
#[verifier::external_type_specification]
#[verifier::external_body]
#[verifier::reject_recursive_types(K)]
#[verifier::reject_recursive_types(V)]
#[verifier::reject_recursive_types(S)]
pub struct ExDashMap<K, V, S>(DashMap<K, V, S>);

/// The map that holds the waiting players, by id.
pub type QueueMap = DashMap<u128, QueuedPlayer>;

/// The players that a `DashMap` of the pool holds, by id.
pub uninterp spec fn queue_entries(m: QueueMap) -> Map<u128, QueuedPlayer>;

/// `DashMap::new`: a map that holds nothing.
#[verifier::external_body]
fn entries_new() -> (m: QueueMap)
    ensures
        queue_entries(m).dom().is_empty(),
{
    DashMap::new()
}

/// `DashMap::contains_key`: whether the id is a key of the map.
#[verifier::external_body]
fn entries_contains(m: &QueueMap, id: u128) -> (b: bool)
    ensures
        b == queue_entries(*m).dom().contains(id),
{
    m.contains_key(&id)
}

/// `DashMap::insert`: afterwards the id maps to the player, all other keys
/// are unchanged (the previous value, if any, is dropped).
#[verifier::external_body]
fn entries_insert(m: &mut QueueMap, id: u128, player: QueuedPlayer)
    ensures
        queue_entries(*final(m)) == queue_entries(*old(m)).insert(id, player),
{
    m.insert(id, player);
}

/// `DashMap::remove`: the id is no longer a key; the removed pair comes back
/// when the key was there, `None` otherwise.
#[verifier::external_body]
fn entries_remove(m: &mut QueueMap, id: u128) -> (r: Option<(u128, QueuedPlayer)>)
    ensures
        queue_entries(*final(m)) == queue_entries(*old(m)).remove(id),
        queue_entries(*old(m)).dom().contains(id) ==> r == Some((id, queue_entries(*old(m))[id])),
        !queue_entries(*old(m)).dom().contains(id) ==> r is None,
{
    m.remove(&id)
}

/// `DashMap::len`: the number of keys.
#[verifier::external_body]
fn entries_len(m: &QueueMap) -> (n: usize)
    ensures
        n == queue_entries(*m).len(),
{
    m.len()
}

/// `DashMap::iter`, each entry copied out: every key once, with its value,
/// in an order that the map does not promise.
#[verifier::external_body]
fn entries_list(m: &QueueMap) -> (r: Vec<(u128, QueuedPlayer)>)
    ensures
        r@.len() == queue_entries(*m).len(),
        forall|i: int|
            #![trigger r@[i]]
            0 <= i < r@.len() ==> queue_entries(*m).dom().contains(r@[i].0)
                && queue_entries(*m)[r@[i].0] == r@[i].1,
        forall|i: int, j: int| 0 <= i < j < r@.len() ==> r@[i].0 != r@[j].0,
        forall|k: u128|
            #[trigger] queue_entries(*m).dom().contains(k) ==> exists|i: int|
                0 <= i < r@.len() && r@[i].0 == k,
{
    m.iter().map(|e| (*e.key(), e.value().clone())).collect()
}

/// Whether a player enqueued at `enqueued_at` has, at `now`, waited longer
/// than the maximum queue time (read as a signed count of seconds).
pub open spec fn waited_too_long(enqueued_at: Timestamp, now: Timestamp, max_queue_time_secs: u64) -> bool {
    now - enqueued_at > (#[verifier::truncate] (max_queue_time_secs as i64)) * 1_000_000_000
}

/// The players of `m` that have not waited too long at `now`.
pub open spec fn unexpired(m: Map<u128, QueuedPlayer>, now: Timestamp, max_queue_time_secs: u64) -> Map<
    u128,
    QueuedPlayer,
> {
    Map::new(
        |k: u128| m.dom().contains(k) && !waited_too_long(m[k].enqueued_at, now, max_queue_time_secs),
        |k: u128| m[k],
    )
}

/// `s` lists, once each and in some order, exactly the players of `m` whose
/// region is `region`.
pub open spec fn is_region_snapshot(m: Map<u128, QueuedPlayer>, region: Seq<char>, s: Seq<QueuedPlayer>) -> bool {
    &&& forall|i: int|
        0 <= i < s.len() ==> m.dom().contains(#[trigger] s[i].id) && m[s[i].id] == s[i]
            && s[i].region@ == region
    &&& forall|i: int, j: int| 0 <= i < j < s.len() ==> s[i].id != s[j].id
    &&& forall|k: u128|
        #[trigger] m.dom().contains(k) && m[k].region@ == region ==> exists|i: int|
            0 <= i < s.len() && s[i].id == k
}

/// Some player of `m` waits in region `v`.
pub open spec fn region_in(m: Map<u128, QueuedPlayer>, v: Seq<char>) -> bool {
    exists|k: u128| m.dom().contains(k) && m[k].region@ == v
}

/// `s` lists the distinct regions of the players of `m`, in scan order.
pub open spec fn is_region_list(m: Map<u128, QueuedPlayer>, s: Seq<String>) -> bool {
    &&& sorted_regions(s)
    &&& forall|i: int| 0 <= i < s.len() ==> region_in(m, #[trigger] s[i]@)
    &&& forall|k: u128| #[trigger] m.dom().contains(k) ==> has_region(s, m[k].region@)
}

/// Players waiting to be matched, keyed by id.
#[derive(Debug)]
pub struct PlayerPool {
    players: QueueMap,
    generation: u64,
    max_queue_time_secs: u64,
    metrics: MatchmakerMetrics,
}

impl PlayerPool {
    /// The waiting players, by id.
    pub closed spec fn entries(&self) -> Map<u128, QueuedPlayer> {
        queue_entries(self.players)
    }

    /// Counter bumped by each eviction pass that evicts and each committed batch.
    pub closed spec fn spec_generation(&self) -> u64 {
        self.generation
    }

    /// Seconds a player may wait before eviction.
    pub closed spec fn max_queue_time(&self) -> u64 {
        self.max_queue_time_secs
    }

    /// The health counters the pool keeps up to date.
    pub closed spec fn metrics_view(&self) -> MetricsView {
        self.metrics@
    }

    /// Finitely many players, each stored under its own id.
    pub open spec fn wf(&self) -> bool {
        &&& self.entries().dom().finite()
        &&& forall|k: u128| #[trigger] self.entries().dom().contains(k) ==> self.entries()[k].id == k
    }

    /// An empty pool.
    pub fn new(max_queue_time_secs: u64, metrics: MatchmakerMetrics) -> (p: Self)
        ensures
            p.wf(),
            p.entries() == Map::<u128, QueuedPlayer>::empty(),
            p.spec_generation() == 0,
            p.max_queue_time() == max_queue_time_secs,
            p.metrics_view() == metrics@,
    {
        PlayerPool { players: entries_new(), generation: 0, max_queue_time_secs, metrics }
    }

    /// Number of waiting players.
    pub fn len(&self) -> (n: usize)
        ensures
            n == self.entries().len(),
    {
        entries_len(&self.players)
    }

    /// Current generation.
    pub fn generation(&self) -> (g: u64)
        ensures
            g == self.spec_generation(),
    {
        self.generation
    }

    /// The health counters.
    pub fn metrics(&self) -> (m: &MatchmakerMetrics)
        ensures
            m@ == self.metrics_view(),
    {
        &self.metrics
    }

    /// The health counters, for recording scans and matches.
    pub fn metrics_mut(&mut self) -> (m: &mut MatchmakerMetrics)
        ensures
            m@ == old(self).metrics_view(),
            final(self).metrics_view() == final(m)@,
            final(self).entries() == old(self).entries(),
            final(self).spec_generation() == old(self).spec_generation(),
            final(self).max_queue_time() == old(self).max_queue_time(),
    {
        &mut self.metrics
    }

    /// Adds a player; refused when the id is already waiting. On success the
    /// queue-depth counter shows the new size.
    pub fn enqueue(&mut self, player: QueuedPlayer) -> (r: Result<(), MatchmakerError>)
        requires
            old(self).wf(),
        ensures
            final(self).wf(),
            final(self).spec_generation() == old(self).spec_generation(),
            final(self).max_queue_time() == old(self).max_queue_time(),
            old(self).entries().dom().contains(player.id) ==> {
                &&& r == Err::<(), MatchmakerError>(MatchmakerError::AlreadyQueued(player.id))
                &&& final(self).entries() == old(self).entries()
                &&& final(self).metrics_view() == old(self).metrics_view()
            },
            !old(self).entries().dom().contains(player.id) ==> {
                &&& r is Ok
                &&& final(self).entries() == old(self).entries().insert(player.id, player)
                &&& final(self).metrics_view() == (MetricsView {
                    queue_depth: final(self).entries().len() as u64,
                    ..old(self).metrics_view()
                })
            },
    {
        let id = player.id;
        if entries_contains(&self.players, id) {
            return Err(MatchmakerError::AlreadyQueued(id));
        }
        entries_insert(&mut self.players, id, player);
        let n = entries_len(&self.players);
        self.metrics.set_queue_depth(n as u64);
        Ok(())
    }

    /// Removes a waiting player; refused when the id is not waiting. On
    /// success the queue-depth counter shows the new size.
    pub fn dequeue(&mut self, player_id: u128) -> (r: Result<(), MatchmakerError>)
        requires
            old(self).wf(),
        ensures
            final(self).wf(),
            final(self).spec_generation() == old(self).spec_generation(),
            final(self).max_queue_time() == old(self).max_queue_time(),
            !old(self).entries().dom().contains(player_id) ==> {
                &&& r == Err::<(), MatchmakerError>(MatchmakerError::NotInQueue(player_id))
                &&& final(self).entries() == old(self).entries()
                &&& final(self).metrics_view() == old(self).metrics_view()
            },
            old(self).entries().dom().contains(player_id) ==> {
                &&& r is Ok
                &&& final(self).entries() == old(self).entries().remove(player_id)
                &&& final(self).metrics_view() == (MetricsView {
                    queue_depth: final(self).entries().len() as u64,
                    ..old(self).metrics_view()
                })
            },
    {
        let removed = entries_remove(&mut self.players, player_id);
        if removed.is_none() {
            proof {
                assert(self.entries() =~= old(self).entries());
            }
            return Err(MatchmakerError::NotInQueue(player_id));
        }
        let n = entries_len(&self.players);
        self.metrics.set_queue_depth(n as u64);
        Ok(())
    }

    /// Copies of the waiting players of one region, in no promised order.
    pub fn snapshot_by_region(&self, region: &str) -> (s: Vec<QueuedPlayer>)
        requires
            self.wf(),
        ensures
            is_region_snapshot(self.entries(), region@, s@),
    {
        let all = entries_list(&self.players);
        let mut out: Vec<QueuedPlayer> = Vec::new();
        let mut i: usize = 0;
        while i < all.len()
            invariant
                self.wf(),
                i <= all@.len(),
                all@.len() == self.entries().len(),
                forall|a: int|
                    #![trigger all@[a]]
                    0 <= a < all@.len() ==> self.entries().dom().contains(all@[a].0)
                        && self.entries()[all@[a].0] == all@[a].1,
                forall|a: int, b: int| 0 <= a < b < all@.len() ==> all@[a].0 != all@[b].0,
                forall|a: int|
                    0 <= a < out@.len() ==> self.entries().dom().contains(#[trigger] out@[a].id)
                        && self.entries()[out@[a].id] == out@[a] && out@[a].region@ == region@,
                forall|a: int|
                    0 <= a < out@.len() ==> exists|b: int|
                        0 <= b < i && all@[b].0 == #[trigger] out@[a].id,
                forall|a: int, b: int| 0 <= a < b < out@.len() ==> out@[a].id != out@[b].id,
                forall|b: int|
                    0 <= b < i && (#[trigger] all@[b]).1.region@ == region@ ==> exists|a: int|
                        0 <= a < out@.len() && out@[a].id == all@[b].0,
            decreases all@.len() - i,
        {
            let (id, player) = &all[i];
            if same_region(player.region.as_str(), region) {
                let ghost prev = out@;
                out.push(player.clone());
                proof {
                    assert(self.entries().dom().contains(all@[i as int].0));
                    assert(out@[out@.len() - 1].id == all@[i as int].0);
                    assert forall|a: int, b: int| 0 <= a < b < out@.len() implies out@[a].id != out@[b].id by {
                        if b == out@.len() - 1 {
                            let c = choose|c: int| 0 <= c < i && all@[c].0 == #[trigger] prev[a].id;
                            assert(out@[a] == prev[a]);
                        }
                    }
                    assert forall|a: int| 0 <= a < out@.len() implies exists|b: int|
                        0 <= b < i + 1 && all@[b].0 == #[trigger] out@[a].id by {
                        if a < prev.len() {
                            assert(out@[a] == prev[a]);
                            let c = choose|c: int| 0 <= c < i && all@[c].0 == #[trigger] prev[a].id;
                        } else {
                            assert(all@[i as int].0 == out@[a].id);
                        }
                    }
                    assert forall|b: int|
                        0 <= b < i + 1 && (#[trigger] all@[b]).1.region@ == region@ implies exists|a: int|
                        0 <= a < out@.len() && out@[a].id == all@[b].0 by {
                        if b < i {
                            let a = choose|a: int| 0 <= a < prev.len() && prev[a].id == all@[b].0;
                            assert(out@[a] == prev[a]);
                        } else {
                            assert(out@[out@.len() - 1].id == all@[b].0);
                        }
                    }
                }
            }
            i = i + 1;
        }
        proof {
            assert forall|k: u128|
                #[trigger] self.entries().dom().contains(k) && self.entries()[k].region@ == region@
                implies exists|a: int| 0 <= a < out@.len() && out@[a].id == k by {
                let b = choose|b: int| 0 <= b < all@.len() && all@[b].0 == k;
                assert(all@[b].1.region@ == region@);
            }
        }
        out
    }

    /// The distinct regions of the waiting players, in scan order.
    pub fn regions(&self) -> (r: Vec<String>)
        requires
            self.wf(),
        ensures
            is_region_list(self.entries(), r@),
    {
        let all = entries_list(&self.players);
        let mut out: Vec<String> = Vec::new();
        let mut i: usize = 0;
        while i < all.len()
            invariant
                self.wf(),
                i <= all@.len(),
                forall|a: int|
                    #![trigger all@[a]]
                    0 <= a < all@.len() ==> self.entries().dom().contains(all@[a].0)
                        && self.entries()[all@[a].0] == all@[a].1,
                forall|k: u128|
                    #[trigger] self.entries().dom().contains(k) ==> exists|b: int|
                        0 <= b < all@.len() && all@[b].0 == k,
                sorted_regions(out@),
                forall|v: Seq<char>|
                    #[trigger] has_region(out@, v) ==> exists|b: int|
                        0 <= b < i && (#[trigger] all@[b]).1.region@ == v,
                forall|b: int|
                    #![trigger all@[b]]
                    0 <= b < i ==> has_region(out@, all@[b].1.region@),
            decreases all@.len() - i,
        {
            insert_region(&mut out, &all[i].1.region);
            i = i + 1;
        }
        proof {
            assert forall|a: int| 0 <= a < out@.len() implies region_in(self.entries(), #[trigger] out@[a]@) by {
                assert(has_region(out@, out@[a]@));
                let b = choose|b: int| 0 <= b < all@.len() && (#[trigger] all@[b]).1.region@ == out@[a]@;
                assert(self.entries().dom().contains(all@[b].0));
                assert(self.entries()[all@[b].0].region@ == out@[a]@);
            }
            assert forall|k: u128| #[trigger] self.entries().dom().contains(k) implies has_region(
                out@,
                self.entries()[k].region@,
            ) by {
                let b = choose|b: int| 0 <= b < all@.len() && all@[b].0 == k;
                assert(all@[b].1 == self.entries()[k]);
                assert(has_region(out@, all@[b].1.region@));
            }
        }
        out
    }

    /// Removes a formed lobby, all or nothing: when the ids are distinct and
    /// all waiting, every one of them leaves, the answer is `true`, the
    /// generation is bumped and the depth published; otherwise (an id
    /// repeats, or is not waiting) nothing changes and the answer is `false`.
    pub fn try_remove_batch(&mut self, ids: &[u128]) -> (r: bool)
        requires
            old(self).wf(),
        ensures
            final(self).wf(),
            final(self).max_queue_time() == old(self).max_queue_time(),
            r == (ids@.no_duplicates() && forall|i: int|
                0 <= i < ids@.len() ==> old(self).entries().dom().contains(#[trigger] ids@[i])),
            r ==> {
                &&& final(self).entries() == old(self).entries().remove_keys(ids@.to_set())
                &&& final(self).spec_generation() == old(self).spec_generation().wrapping_add(1)
                &&& final(self).metrics_view() == (MetricsView {
                    queue_depth: final(self).entries().len() as u64,
                    ..old(self).metrics_view()
                })
            },
            !r ==> {
                &&& final(self).entries() == old(self).entries()
                &&& final(self).spec_generation() == old(self).spec_generation()
                &&& final(self).metrics_view() == old(self).metrics_view()
            },
    {
        if !ids_distinct(ids) {
            return false;
        }
        let mut i: usize = 0;
        while i < ids.len()
            invariant
                old(self).wf(),
                self.players == old(self).players,
                self.generation == old(self).generation,
                self.max_queue_time_secs == old(self).max_queue_time_secs,
                self.metrics == old(self).metrics,
                i <= ids@.len(),
                forall|j: int| 0 <= j < i ==> self.entries().dom().contains(#[trigger] ids@[j]),
            decreases ids@.len() - i,
        {
            if !entries_contains(&self.players, ids[i]) {
                return false;
            }
            i = i + 1;
        }
        let ghost m = self.entries();
        proof {
            assert(ids@.take(0).to_set() =~= Set::<u128>::empty());
            assert(m.remove_keys(ids@.take(0).to_set()) =~= m);
        }
        let mut i: usize = 0;
        while i < ids.len()
            invariant
                old(self).wf(),
                self.wf(),
                self.generation == old(self).generation,
                self.max_queue_time_secs == old(self).max_queue_time_secs,
                self.metrics@ == old(self).metrics@,
                m == old(self).entries(),
                ids@.no_duplicates(),
                i <= ids@.len(),
                forall|j: int| 0 <= j < ids@.len() ==> m.dom().contains(#[trigger] ids@[j]),
                self.entries() == m.remove_keys(ids@.take(i as int).to_set()),
            decreases ids@.len() - i,
        {
            let id = ids[i];
            proof {
                assert(!ids@.take(i as int).to_set().contains(id)) by {
                    if ids@.take(i as int).to_set().contains(id) {
                        assert(ids@.take(i as int).contains(id));
                        let c = choose|c: int| 0 <= c < i && ids@.take(i as int)[c] == id;
                        assert(ids@[c] == ids@[i as int]);
                    }
                }
            }
            let _ = entries_remove(&mut self.players, id);
            proof {
                assert(ids@.take(i + 1) == ids@.take(i as int).push(id));
                ids@.take(i as int).lemma_push_to_set_commute(id);
                assert(self.entries() =~= m.remove_keys(ids@.take(i + 1).to_set()));
            }
            i = i + 1;
        }
        self.generation = self.generation.wrapping_add(1);
        let n = entries_len(&self.players);
        self.metrics.set_queue_depth(n as u64);
        proof {
            assert(ids@.take(ids@.len() as int) == ids@);
        }
        true
    }

    /// Removes every player who has waited longer than the maximum queue
    /// time at `now`, and answers how many left. When some did, the
    /// generation is bumped and the eviction total and depth are published.
    pub fn evict_expired(&mut self, now: Timestamp) -> (count: usize)
        requires
            old(self).wf(),
            max_wait_representable(old(self).max_queue_time()),
        ensures
            final(self).wf(),
            final(self).max_queue_time() == old(self).max_queue_time(),
            final(self).entries() == unexpired(old(self).entries(), now, old(self).max_queue_time()),
            count == old(self).entries().len() - final(self).entries().len(),
            forall|k: u128| #[trigger]
                final(self).entries().dom().contains(k) <==> (old(self).entries().dom().contains(k) && now
                    - old(self).entries()[k].enqueued_at <= (#[verifier::truncate] (old(
                    self,
                ).max_queue_time() as i64)) * 1_000_000_000),
            forall|k: u128| #[trigger]
                final(self).entries().dom().contains(k) ==> final(self).entries()[k] == old(self).entries()[k],
            count > 0 ==> final(self).spec_generation() == old(self).spec_generation().wrapping_add(1)
                && final(self).metrics_view() == (MetricsView {
                evictions: old(self).metrics_view().evictions.wrapping_add(count as u64),
                queue_depth: final(self).entries().len() as u64,
                ..old(self).metrics_view()
            }),
            count == 0 ==> final(self).spec_generation() == old(self).spec_generation()
                && final(self).metrics_view() == old(self).metrics_view(),
    {
        let limit: i128 = (#[verifier::truncate] (self.max_queue_time_secs as i64)) as i128 * 1_000_000_000;
        let ghost m = self.entries();
        let all = entries_list(&self.players);
        let mut expired: Vec<u128> = Vec::new();
        let mut i: usize = 0;
        while i < all.len()
            invariant
                m == self.entries(),
                self.wf(),
                limit == (#[verifier::truncate] (self.max_queue_time_secs as i64)) * 1_000_000_000,
                i <= all@.len(),
                forall|a: int|
                    #![trigger all@[a]]
                    0 <= a < all@.len() ==> m.dom().contains(all@[a].0) && m[all@[a].0] == all@[a].1,
                forall|a: int, b: int| 0 <= a < b < all@.len() ==> all@[a].0 != all@[b].0,
                forall|a: int|
                    #![trigger expired@[a]]
                    0 <= a < expired@.len() ==> exists|b: int| 0 <= b < i && all@[b].0 == expired@[a],
                forall|a: int|
                    #![trigger expired@[a]]
                    0 <= a < expired@.len() ==> m.dom().contains(expired@[a]) && waited_too_long(
                        m[expired@[a]].enqueued_at,
                        now,
                        self.max_queue_time_secs,
                    ),
                forall|a: int, b: int| 0 <= a < b < expired@.len() ==> expired@[a] != expired@[b],
                forall|b: int|
                    #![trigger all@[b]]
                    0 <= b < i && waited_too_long(all@[b].1.enqueued_at, now, self.max_queue_time_secs)
                        ==> expired@.contains(all@[b].0),
            decreases all@.len() - i,
        {
            let key = all[i].0;
            let since = all[i].1.enqueued_at;
            if now as i128 - since as i128 > limit {
                let ghost prev = expired@;
                expired.push(key);
                proof {
                    assert forall|a: int, b: int| 0 <= a < b < expired@.len() implies expired@[a] != expired@[b] by {
                        if b == expired@.len() - 1 {
                            assert(expired@[a] == prev[a]);
                            let c = choose|c: int| 0 <= c < i && all@[c].0 == prev[a];
                        }
                    }
                    assert forall|b: int|
                        #![trigger all@[b]]
                        0 <= b < i + 1 && waited_too_long(all@[b].1.enqueued_at, now, self.max_queue_time_secs)
                        implies expired@.contains(all@[b].0) by {
                        if b < i {
                            let a = choose|a: int| 0 <= a < prev.len() && prev[a] == all@[b].0;
                            assert(expired@[a] == prev[a]);
                        } else {
                            assert(expired@[expired@.len() - 1] == all@[b].0);
                        }
                    }
                    assert forall|a: int|
                        #![trigger expired@[a]]
                        0 <= a < expired@.len() implies exists|b: int| 0 <= b < i + 1 && all@[b].0 == expired@[a] by {
                        if a < prev.len() {
                            assert(expired@[a] == prev[a]);
                            let c = choose|c: int| 0 <= c < i && all@[c].0 == prev[a];
                        } else {
                            assert(all@[i as int].0 == expired@[a]);
                        }
                    }
                }
            }
            i = i + 1;
        }
        let count = expired.len();
        proof {
            assert forall|k: u128| m.dom().contains(k) && waited_too_long(m[k].enqueued_at, now, self.max_queue_time_secs)
                implies #[trigger] expired@.contains(k) by {
                let b = choose|b: int| 0 <= b < all@.len() && all@[b].0 == k;
                assert(all@[b].1 == m[k]);
            }
            assert(m.remove_keys(expired@.take(0).to_set()) =~= m);
        }
        let mut j: usize = 0;
        while j < expired.len()
            invariant
                old(self).wf(),
                m == old(self).entries(),
                self.wf(),
                self.generation == old(self).generation,
                self.max_queue_time_secs == old(self).max_queue_time_secs,
                self.metrics@ == old(self).metrics@,
                j <= expired@.len(),
                forall|a: int|
                    #![trigger expired@[a]]
                    0 <= a < expired@.len() ==> m.dom().contains(expired@[a]),
                forall|a: int, b: int| 0 <= a < b < expired@.len() ==> expired@[a] != expired@[b],
                self.entries() == m.remove_keys(expired@.take(j as int).to_set()),
                self.entries().len() + j == m.len(),
            decreases expired@.len() - j,
        {
            let id = expired[j];
            proof {
                assert(!expired@.take(j as int).contains(id)) by {
                    if expired@.take(j as int).contains(id) {
                        let a = choose|a: int| 0 <= a < j && expired@.take(j as int)[a] == id;
                        assert(expired@[a] == expired@[j as int]);
                    }
                }
                assert(!expired@.take(j as int).to_set().contains(id));
                assert(self.entries().dom().contains(id));
                self.entries().lemma_remove_key_len(id);
            }
            let _ = entries_remove(&mut self.players, id);
            proof {
                assert(expired@.take(j + 1) == expired@.take(j as int).push(id));
                assert(expired@.take(j + 1).to_set() =~= expired@.take(j as int).to_set().insert(id)) by {
                    expired@.take(j as int).lemma_push_to_set_commute(id);
                }
                assert(self.entries() =~= m.remove_keys(expired@.take(j + 1).to_set()));
            }
            j = j + 1;
        }
        proof {
            assert(expired@.take(expired@.len() as int) == expired@);
            assert forall|k: u128| expired@.to_set().contains(k) <==> #[trigger] expired@.contains(k) by {}
            assert(self.entries() =~= unexpired(m, now, self.max_queue_time_secs));
        }
        if count > 0 {
            self.generation = self.generation.wrapping_add(1);
            self.metrics.record_evictions(count as u64);
            let n = entries_len(&self.players);
            self.metrics.set_queue_depth(n as u64);
        }
        count
    }
}

/// Taking a newly enqueued player back out leaves the waiting players as
/// they were; while they wait, a second enqueue of the same id is refused.
pub proof fn law_dequeue_undoes_enqueue(m: Map<u128, QueuedPlayer>, player: QueuedPlayer)
    requires
        !m.dom().contains(player.id),
    ensures
        m.insert(player.id, player).dom().contains(player.id),
        m.insert(player.id, player).remove(player.id) == m,
{
    assert(m.insert(player.id, player).remove(player.id) =~= m);
}

/// Once a batch has been removed, a batch that shares a player with it is
/// refused: of two scans that race for a player, only one commits.
pub proof fn law_removed_player_cannot_be_taken_again(
    m: Map<u128, QueuedPlayer>,
    ids: Seq<u128>,
    other: Seq<u128>,
    k: int,
)
    requires
        0 <= k < other.len(),
        ids.contains(other[k]),
    ensures
        exists|i: int|
            0 <= i < other.len() && !m.remove_keys(ids.to_set()).dom().contains(#[trigger] other[i]),
{
    assert(ids.to_set().contains(other[k]));
    assert(!m.remove_keys(ids.to_set()).dom().contains(other[k]));
}

/// Eviction keeps exactly the players who have not waited too long, as
/// they were; evicting again at the same time evicts no one.
pub proof fn law_eviction_keeps_exactly_the_fresh(m: Map<u128, QueuedPlayer>, now: Timestamp, max_queue_time_secs: u64)
    ensures
        forall|k: u128|
            #[trigger] unexpired(m, now, max_queue_time_secs).dom().contains(k) <==> (m.dom().contains(k)
                && !waited_too_long(m[k].enqueued_at, now, max_queue_time_secs)),
        forall|k: u128|
            #[trigger] unexpired(m, now, max_queue_time_secs).dom().contains(k) ==> unexpired(
                m,
                now,
                max_queue_time_secs,
            )[k] == m[k],
        unexpired(unexpired(m, now, max_queue_time_secs), now, max_queue_time_secs) == unexpired(
            m,
            now,
            max_queue_time_secs,
        ),
{
    let u = unexpired(m, now, max_queue_time_secs);
    assert(unexpired(u, now, max_queue_time_secs) =~= u);
}

/// The generation after operations that each bumped it (`true`) or left it
/// as it was (`false`), in order, starting from `g`.
pub open spec fn generation_after(g: u64, bumped: Seq<bool>) -> u64
    decreases bumped.len(),
{
    if bumped.len() == 0 {
        g
    } else {
        let h = generation_after(g, bumped.drop_last());
        if bumped.last() {
            h.wrapping_add(1)
        } else {
            h
        }
    }
}

/// How many of the operations bumped the generation.
pub open spec fn bump_count(bumped: Seq<bool>) -> nat
    decreases bumped.len(),
{
    if bumped.len() == 0 {
        0
    } else {
        bump_count(bumped.drop_last()) + if bumped.last() {
            1nat
        } else {
            0nat
        }
    }
}

proof fn lemma_generation_wraps(g: u64, bumped: Seq<bool>)
    ensures
        generation_after(g, bumped) as int == (g + bump_count(bumped)) % 0x1_0000_0000_0000_0000,
    decreases bumped.len(),
{
    let m: int = 0x1_0000_0000_0000_0000;
    if bumped.len() == 0 {
        vstd::arithmetic::div_mod::lemma_small_mod(g as nat, m as nat);
    } else {
        let front = bumped.drop_last();
        lemma_generation_wraps(g, front);
        let h = generation_after(g, front);
        if bumped.last() {
            let a: int = g + bump_count(front);
            vstd::arithmetic::div_mod::lemma_add_mod_noop(a, 1, m);
            vstd::arithmetic::div_mod::lemma_small_mod(1, m as nat);
            if h + 1 < m {
                vstd::arithmetic::div_mod::lemma_small_mod((h + 1) as nat, m as nat);
            } else {
                vstd::arithmetic::div_mod::lemma_mod_self_0(m);
            }
        }
    }
}

proof fn lemma_prefix_bumps(bumped: Seq<bool>, k: int)
    requires
        0 <= k <= bumped.len(),
    ensures
        bump_count(bumped.take(k)) <= bump_count(bumped),
    decreases bumped.len(),
{
    if k < bumped.len() {
        let front = bumped.drop_last();
        assert(front.take(k) == bumped.take(k));
        lemma_prefix_bumps(front, k);
    } else {
        assert(bumped.take(k) == bumped);
    }
}

/// Every operation of the pool bumps the generation by one (wrapping) or
/// leaves it: after any run of operations it has moved by the number of
/// bumps, modulo 2^64, and as long as that does not pass `u64::MAX` it never
/// went below where it started nor above where it ended.
pub proof fn law_generation_counts_bumps(g: u64, bumped: Seq<bool>)
    ensures
        generation_after(g, bumped) as int == (g + bump_count(bumped)) % 0x1_0000_0000_0000_0000,
        g + bump_count(bumped) <= u64::MAX ==> generation_after(g, bumped) == g + bump_count(bumped),
        g + bump_count(bumped) <= u64::MAX ==> forall|k: int|
            0 <= k <= bumped.len() ==> g <= #[trigger] generation_after(g, bumped.take(k)) <= generation_after(
                g,
                bumped,
            ),
{
    lemma_generation_wraps(g, bumped);
    if g + bump_count(bumped) <= u64::MAX {
        vstd::arithmetic::div_mod::lemma_small_mod((g + bump_count(bumped)) as nat, 0x1_0000_0000_0000_0000);
        assert forall|k: int| 0 <= k <= bumped.len() implies g <= #[trigger] generation_after(
            g,
            bumped.take(k),
        ) <= generation_after(g, bumped) by {
            lemma_prefix_bumps(bumped, k);
            lemma_generation_wraps(g, bumped.take(k));
            vstd::arithmetic::div_mod::lemma_small_mod(
                (g + bump_count(bumped.take(k))) as nat,
                0x1_0000_0000_0000_0000,
            );
        }
    }
}

/// Eviction only ever grows with time: a player is kept at `now` exactly
/// when at most the maximum queue time (in nanoseconds) has passed since
/// enqueue, so whoever is evicted at `now` is evicted at every later time,
/// and whoever is kept at a later time was kept at `now`.
pub proof fn law_eviction_is_monotone_in_time(
    m: Map<u128, QueuedPlayer>,
    now: Timestamp,
    later: Timestamp,
    max_queue_time_secs: u64,
)
    requires
        now <= later,
    ensures
        forall|k: u128| #[trigger]
            unexpired(m, now, max_queue_time_secs).dom().contains(k) <==> (m.dom().contains(k) && now
                - m[k].enqueued_at <= (#[verifier::truncate] (max_queue_time_secs as i64)) * 1_000_000_000),
        forall|k: u128| #[trigger]
            unexpired(m, later, max_queue_time_secs).dom().contains(k) ==> unexpired(
                m,
                now,
                max_queue_time_secs,
            ).dom().contains(k),
{
}

/// Whether no id repeats.
pub fn ids_distinct(ids: &[u128]) -> (b: bool)
    ensures
        b == ids@.no_duplicates(),
{
    let mut i: usize = 0;
    while i < ids.len()
        invariant
            i <= ids@.len(),
            forall|a: int, b: int| 0 <= a < b < i ==> ids@[a] != ids@[b],
        decreases ids@.len() - i,
    {
        let mut j: usize = 0;
        while j < i
            invariant
                j <= i < ids@.len(),
                forall|a: int| 0 <= a < j ==> ids@[a] != ids@[i as int],
            decreases i - j,
        {
            if ids[j] == ids[i] {
                return false;
            }
            j = j + 1;
        }
        i = i + 1;
    }
    true
}

/// Names in strictly increasing scan order.
pub open spec fn sorted_regions(s: Seq<String>) -> bool {
    forall|a: int, b: int| 0 <= a < b < s.len() ==> region_lt(s[a]@, s[b]@)
}

/// Whether the list holds the region name `v`.
pub open spec fn has_region(s: Seq<String>, v: Seq<char>) -> bool {
    exists|a: int| 0 <= a < s.len() && s[a]@ == v
}

/// Adds a region name to a sorted list of distinct names, unless present.
fn insert_region(out: &mut Vec<String>, reg: &String)
    requires
        sorted_regions(old(out)@),
    ensures
        sorted_regions(final(out)@),
        forall|v: Seq<char>| #[trigger] has_region(final(out)@, v) <==> (has_region(old(out)@, v) || v == reg@),
{
    let mut pos: usize = 0;
    while pos < out.len() && region_before(out[pos].as_str(), reg.as_str())
        invariant
            pos <= out@.len(),
            forall|a: int| 0 <= a < pos ==> region_lt(#[trigger] out@[a]@, reg@),
        decreases out@.len() - pos,
    {
        pos = pos + 1;
    }
    if pos < out.len() && same_region(out[pos].as_str(), reg.as_str()) {
        proof {
            assert forall|v: Seq<char>| #[trigger] has_region(out@, v) <==> (has_region(out@, v) || v == reg@) by {
                if v == reg@ {
                    assert(out@[pos as int]@ == v);
                }
            }
        }
        return;
    }
    let ghost before = out@;
    proof {
        if pos < before.len() {
            assert(!region_lt(before[pos as int]@, reg@));
            crate::region::lemma_region_lt_total(before[pos as int]@, reg@);
        }
    }
    out.insert(pos, reg.clone());
    proof {
        assert(out@ == before.insert(pos as int, *reg));
        assert forall|a: int, b: int| 0 <= a < b < out@.len() implies region_lt(out@[a]@, out@[b]@) by {
            if b < pos {
                assert(region_lt(before[a]@, before[b]@));
            } else if b == pos {
            } else if a < pos {
                if b - 1 > pos {
                    assert(region_lt(before[pos as int]@, before[b - 1]@));
                    crate::region::lemma_region_lt_transitive(reg@, before[pos as int]@, before[b - 1]@);
                }
                crate::region::lemma_region_lt_transitive(before[a]@, reg@, before[b - 1]@);
            } else if a == pos {
                if b - 1 > pos {
                    assert(region_lt(before[pos as int]@, before[b - 1]@));
                    crate::region::lemma_region_lt_transitive(reg@, before[pos as int]@, before[b - 1]@);
                }
            } else {
                assert(region_lt(before[a - 1]@, before[b - 1]@));
            }
        }
        assert forall|v: Seq<char>| #[trigger] has_region(out@, v) <==> (has_region(before, v) || v == reg@) by {
            if has_region(out@, v) {
                let a = choose|a: int| 0 <= a < out@.len() && out@[a]@ == v;
                if a < pos {
                    assert(before[a]@ == v);
                } else if a > pos {
                    assert(before[a - 1]@ == v);
                }
            }
            if has_region(before, v) {
                let a = choose|a: int| 0 <= a < before.len() && before[a]@ == v;
                if a < pos {
                    assert(out@[a]@ == v);
                } else {
                    assert(out@[a + 1]@ == v);
                }
            }
            if v == reg@ {
                assert(out@[pos as int]@ == v);
            }
        }
    }
}

} // verus!
