//! The 5v5 split of a ten-player lobby: candidate splits are bit masks over
//! the ten players; a set bit puts the player on team A.

use vstd::prelude::*;

verus! {

/// Players per team.
pub const TEAM_SIZE: usize = 5;

/// Players in a lobby, and bits of a split mask that are read.
pub const MASK_BITS: usize = 10;

/// First mask value past the ten low bits.
pub const MASK_LIMIT: u16 = 1024;

/// `m` shifted right by `i` bits.
pub open spec fn shifted(m: nat, i: nat) -> nat
    decreases i,
{
    if i == 0 {
        m
    } else {
        shifted(m, (i - 1) as nat) / 2
    }
}

/// Whether bit `i` of `m` is set.
pub open spec fn bit_set(m: nat, i: nat) -> bool {
    shifted(m, i) % 2 == 1
}

/// Number of set bits among the `n` lowest bits of `m`.
pub open spec fn bits_below(m: nat, n: nat) -> nat
    decreases n,
{
    if n == 0 {
        0
    } else {
        bits_below(m, (n - 1) as nat) + if bit_set(m, (n - 1) as nat) {
            1nat
        } else {
            0nat
        }
    }
}

/// A split of ten players into two teams of five.
pub open spec fn is_team_mask(m: u16) -> bool {
    m < MASK_LIMIT && bits_below(m as nat, MASK_BITS as nat) == TEAM_SIZE
}

/// The players among the first `k` whose bit in `mask` is `on`, in order.
pub open spec fn team_side(ids: Seq<u128>, mask: nat, k: nat, on: bool) -> Seq<u128>
    decreases k,
{
    if k == 0 {
        Seq::empty()
    } else {
        team_side(ids, mask, (k - 1) as nat, on) + if bit_set(mask, (k - 1) as nat) == on {
            seq![ids[k - 1]]
        } else {
            Seq::<u128>::empty()
        }
    }
}

/// Number of set bits among the ten low bits of `mask`.
fn low_bit_count(mask: u16) -> (c: usize)
    ensures
        c == bits_below(mask as nat, MASK_BITS as nat),
{
    let mut cur: u16 = mask;
    let mut c: usize = 0;
    let mut i: usize = 0;
    while i < MASK_BITS
        invariant
            i <= MASK_BITS,
            cur == shifted(mask as nat, i as nat),
            c == bits_below(mask as nat, i as nat),
            c <= i,
        decreases MASK_BITS - i,
    {
        if cur % 2 == 1 {
            c = c + 1;
        }
        cur = cur / 2;
        i = i + 1;
    }
    c
}

/// Every split of ten players into two teams of five, as ascending masks.
pub fn team_masks() -> (r: Vec<u16>)
    ensures
        forall|i: int| 0 <= i < r@.len() ==> is_team_mask(#[trigger] r@[i]),
        forall|i: int, j: int| 0 <= i < j < r@.len() ==> r@[i] < r@[j],
        forall|m: u16| is_team_mask(m) ==> #[trigger] r@.contains(m),
{
    let mut r: Vec<u16> = Vec::new();
    let mut mask: u16 = 0;
    while mask < MASK_LIMIT
        invariant
            mask <= MASK_LIMIT,
            forall|i: int| 0 <= i < r@.len() ==> is_team_mask(#[trigger] r@[i]),
            forall|i: int| 0 <= i < r@.len() ==> #[trigger] r@[i] < mask,
            forall|i: int, j: int| 0 <= i < j < r@.len() ==> r@[i] < r@[j],
            forall|m: u16| m < mask && is_team_mask(m) ==> #[trigger] r@.contains(m),
        decreases MASK_LIMIT - mask,
    {
        if low_bit_count(mask) == TEAM_SIZE {
            let ghost prev = r@;
            r.push(mask);
            proof {
                assert forall|m: u16| m < mask + 1 && is_team_mask(m) implies #[trigger] r@.contains(m) by {
                    if m < mask {
                        assert(prev.contains(m));
                        let k = choose|k: int| 0 <= k < prev.len() && prev[k] == m;
                        assert(r@[k] == m);
                    } else {
                        assert(r@[r@.len() - 1] == m);
                    }
                }
            }
        } else {
            proof {
                assert forall|m: u16| m < mask + 1 && is_team_mask(m) implies #[trigger] r@.contains(m) by {
                    if m == mask {
                        assert(!is_team_mask(m));
                    }
                }
            }
        }
        mask = mask + 1;
    }
    r
}

/// The split stored at the position of the smallest key below `ceiling`
/// (the first such position on ties), or mask 0 when no key is below it.
/// Keys order the candidate splits by imbalance.
pub fn select_team_mask(masks: &Vec<u16>, keys: &Vec<u64>, ceiling: u64) -> (best: u16)
    requires
        masks@.len() == keys@.len(),
    ensures
        (forall|i: int| 0 <= i < keys@.len() ==> #[trigger] keys@[i] >= ceiling) ==> best == 0,
        (exists|i: int| 0 <= i < keys@.len() && #[trigger] keys@[i] < ceiling) ==> exists|j: int|
            {
                &&& 0 <= j < keys@.len()
                &&& best == masks@[j]
                &&& keys@[j] < ceiling
                &&& forall|i: int| 0 <= i < j ==> #[trigger] keys@[i] > keys@[j]
                &&& forall|i: int| 0 <= i < keys@.len() ==> #[trigger] keys@[i] >= keys@[j]
            },
{
    let mut best_key: u64 = ceiling;
    let mut best_mask: u16 = 0;
    let ghost mut best_at: int = -1;
    let mut i: usize = 0;
    while i < keys.len()
        invariant
            masks@.len() == keys@.len(),
            i <= keys@.len(),
            best_at == -1 ==> best_key == ceiling && best_mask == 0,
            best_at != -1 ==> {
                &&& 0 <= best_at < i
                &&& best_key == keys@[best_at]
                &&& best_mask == masks@[best_at]
                &&& best_key < ceiling
                &&& forall|a: int| 0 <= a < best_at ==> #[trigger] keys@[a] > best_key
            },
            forall|a: int| 0 <= a < i ==> #[trigger] keys@[a] >= best_key,
        decreases keys@.len() - i,
    {
        if keys[i] < best_key {
            best_key = keys[i];
            best_mask = masks[i];
            proof {
                best_at = i as int;
            }
        }
        i = i + 1;
    }
    proof {
        if best_at != -1 {
            assert(best_key == keys@[best_at]);
        }
    }
    best_mask
}

/// Splits players by a mask: team A gets those whose bit is set, team B the
/// rest, each in the order given.
pub fn split_by_mask(ids: &Vec<u128>, mask: u16) -> (teams: (Vec<u128>, Vec<u128>))
    ensures
        teams.0@ == team_side(ids@, mask as nat, ids@.len(), true),
        teams.1@ == team_side(ids@, mask as nat, ids@.len(), false),
{
    let mut team_a: Vec<u128> = Vec::new();
    let mut team_b: Vec<u128> = Vec::new();
    let mut cur: u16 = mask;
    let mut i: usize = 0;
    while i < ids.len()
        invariant
            i <= ids@.len(),
            cur == shifted(mask as nat, i as nat),
            team_a@ == team_side(ids@, mask as nat, i as nat, true),
            team_b@ == team_side(ids@, mask as nat, i as nat, false),
        decreases ids@.len() - i,
    {
        if cur % 2 == 1 {
            team_a.push(ids[i]);
        } else {
            team_b.push(ids[i]);
        }
        proof {
            assert(team_side(ids@, mask as nat, (i + 1) as nat, true) =~= team_side(ids@, mask as nat, i as nat, true) + if bit_set(mask as nat, i as nat) {
                seq![ids@[i as int]]
            } else {
                Seq::<u128>::empty()
            });
            assert(team_side(ids@, mask as nat, (i + 1) as nat, false) =~= team_side(ids@, mask as nat, i as nat, false) + if !bit_set(mask as nat, i as nat) {
                seq![ids@[i as int]]
            } else {
                Seq::<u128>::empty()
            });
            assert(team_a@ =~= team_side(ids@, mask as nat, (i + 1) as nat, true));
            assert(team_b@ =~= team_side(ids@, mask as nat, (i + 1) as nat, false));
        }
        cur = cur / 2;
        i = i + 1;
    }
    (team_a, team_b)
}

/// The two sides of the first `k` players hold each of them exactly once,
/// and side A holds as many as there are set bits below `k`.
proof fn lemma_sides_prefix(ids: Seq<u128>, mask: nat, k: nat)
    requires
        k <= ids.len(),
    ensures
        team_side(ids, mask, k, true).to_multiset().add(team_side(ids, mask, k, false).to_multiset())
            =~= ids.take(k as int).to_multiset(),
        team_side(ids, mask, k, true).len() == bits_below(mask, k),
        team_side(ids, mask, k, true).len() + team_side(ids, mask, k, false).len() == k,
    decreases k,
{
    broadcast use vstd::seq_lib::group_to_multiset_ensures;

    if k == 0 {
        assert(ids.take(0) =~= Seq::<u128>::empty());
    } else {
        lemma_sides_prefix(ids, mask, (k - 1) as nat);
        let x = ids[k - 1];
        assert(ids.take(k as int) =~= ids.take(k - 1).push(x));
        let a = team_side(ids, mask, (k - 1) as nat, true);
        let b = team_side(ids, mask, (k - 1) as nat, false);
        if bit_set(mask, (k - 1) as nat) {
            assert(team_side(ids, mask, k, true) =~= a.push(x));
            assert(team_side(ids, mask, k, false) =~= b);
        } else {
            assert(team_side(ids, mask, k, true) =~= a);
            assert(team_side(ids, mask, k, false) =~= b.push(x));
        }
    }
}

/// Splitting by any mask puts every player on exactly one of the two teams.
pub proof fn lemma_split_is_partition(ids: Seq<u128>, mask: u16)
    ensures
        team_side(ids, mask as nat, ids.len(), true).to_multiset().add(
            team_side(ids, mask as nat, ids.len(), false).to_multiset(),
        ) == ids.to_multiset(),
        team_side(ids, mask as nat, ids.len(), true).len() + team_side(ids, mask as nat, ids.len(), false).len()
            == ids.len(),
{
    lemma_sides_prefix(ids, mask as nat, ids.len());
    assert(ids.take(ids.len() as int) =~= ids);
}

/// A 5v5 mask splits ten players into two teams of five.
pub proof fn lemma_team_mask_gives_five_a_side(ids: Seq<u128>, mask: u16)
    requires
        ids.len() == MASK_BITS,
        is_team_mask(mask),
    ensures
        team_side(ids, mask as nat, ids.len(), true).len() == TEAM_SIZE,
        team_side(ids, mask as nat, ids.len(), false).len() == TEAM_SIZE,
{
    lemma_sides_prefix(ids, mask as nat, ids.len());
}

} // verus!
