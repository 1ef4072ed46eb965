//! Region names: equality and the order in which regions are scanned.

use vstd::prelude::*;
use vstd::string::*;

verus! {

/// Strict lexicographic order on region names, character by character
/// (a proper prefix comes first). This is the order of `str`, whose UTF-8
/// bytes sort as their characters do.
pub open spec fn region_lt(a: Seq<char>, b: Seq<char>) -> bool
    decreases a.len(),
{
    if b.len() == 0 {
        false
    } else if a.len() == 0 {
        true
    } else if a[0] != b[0] {
        (a[0] as int) < (b[0] as int)
    } else {
        region_lt(a.drop_first(), b.drop_first())
    }
}

/// No name comes before itself.
pub proof fn lemma_region_lt_irreflexive(a: Seq<char>)
    ensures
        !region_lt(a, a),
    decreases a.len(),
{
    if a.len() > 0 {
        lemma_region_lt_irreflexive(a.drop_first());
    }
}

/// Of two different names, one comes first.
pub proof fn lemma_region_lt_total(a: Seq<char>, b: Seq<char>)
    requires
        a != b,
    ensures
        region_lt(a, b) || region_lt(b, a),
    decreases a.len(),
{
    if a.len() == 0 {
        if b.len() == 0 {
            assert(a =~= b);
        }
    } else if b.len() == 0 {
    } else if a[0] != b[0] {
        assert((a[0] as int) != (b[0] as int));
    } else {
        if a.drop_first() == b.drop_first() {
            assert(a =~= seq![a[0]] + a.drop_first());
            assert(b =~= seq![b[0]] + b.drop_first());
        }
        lemma_region_lt_total(a.drop_first(), b.drop_first());
    }
}

/// The order is transitive.
pub proof fn lemma_region_lt_transitive(a: Seq<char>, b: Seq<char>, c: Seq<char>)
    requires
        region_lt(a, b),
        region_lt(b, c),
    ensures
        region_lt(a, c),
    decreases a.len(),
{
    if a.len() > 0 && b.len() > 0 && c.len() > 0 && a[0] == b[0] && b[0] == c[0] {
        lemma_region_lt_transitive(a.drop_first(), b.drop_first(), c.drop_first());
    }
}

/// The scan order is the order of `str`: `a` comes before `b` exactly when,
/// at the first position where they differ, `a` has the smaller character,
/// or when `a` is a proper prefix of `b`.
pub proof fn law_scan_order_is_str_order(a: Seq<char>, b: Seq<char>)
    ensures
        region_lt(a, b) <==> ((exists|i: int|
            0 <= i < a.len() && i < b.len() && #[trigger] a.take(i) == b.take(i) && (a[i] as int) < (
            b[i] as int)) || (a.len() < b.len() && b.take(a.len() as int) == a)),
    decreases a.len(),
{
    if b.len() == 0 {
    } else if a.len() == 0 {
        assert(b.take(0) =~= a);
    } else if a[0] != b[0] {
        assert(a.take(0) =~= b.take(0));
        if exists|i: int|
            0 <= i < a.len() && i < b.len() && #[trigger] a.take(i) == b.take(i) && (a[i] as int) < (
            b[i] as int) {
            let i = choose|i: int|
                0 <= i < a.len() && i < b.len() && #[trigger] a.take(i) == b.take(i) && (a[i] as int) < (
                b[i] as int);
            if i > 0 {
                assert(a.take(i)[0] == b.take(i)[0]);
            }
        }
        if a.len() < b.len() && b.take(a.len() as int) == a {
            assert(b.take(a.len() as int)[0] == a[0]);
        }
    } else {
        let a1 = a.drop_first();
        let b1 = b.drop_first();
        law_scan_order_is_str_order(a1, b1);
        if exists|i: int|
            0 <= i < a1.len() && i < b1.len() && #[trigger] a1.take(i) == b1.take(i) && (a1[i] as int) < (
            b1[i] as int) {
            let i = choose|i: int|
                0 <= i < a1.len() && i < b1.len() && #[trigger] a1.take(i) == b1.take(i) && (a1[i] as int)
                    < (b1[i] as int);
            assert(a.take(i + 1) =~= seq![a[0]] + a1.take(i));
            assert(b.take(i + 1) =~= seq![b[0]] + b1.take(i));
            assert(a.take(i + 1) == b.take(i + 1));
        }
        if exists|i: int|
            0 <= i < a.len() && i < b.len() && #[trigger] a.take(i) == b.take(i) && (a[i] as int) < (
            b[i] as int) {
            let i = choose|i: int|
                0 <= i < a.len() && i < b.len() && #[trigger] a.take(i) == b.take(i) && (a[i] as int) < (
                b[i] as int);
            assert(i > 0);
            assert(a1.take(i - 1) =~= a.take(i).drop_first());
            assert(b1.take(i - 1) =~= b.take(i).drop_first());
            assert(a1.take(i - 1) == b1.take(i - 1));
        }
        if a1.len() < b1.len() && b1.take(a1.len() as int) == a1 {
            assert(b.take(a.len() as int) =~= a) by {
                assert forall|k: int| 0 <= k < a.len() implies b.take(a.len() as int)[k] == a[k] by {
                    if k > 0 {
                        assert(b1.take(a1.len() as int)[k - 1] == a1[k - 1]);
                    }
                }
            }
        }
        if a.len() < b.len() && b.take(a.len() as int) == a {
            assert(b1.take(a1.len() as int) =~= a1) by {
                assert forall|k: int| 0 <= k < a1.len() implies b1.take(a1.len() as int)[k] == a1[k] by {
                    assert(b.take(a.len() as int)[k + 1] == a[k + 1]);
                }
            }
        }
    }
}

/// A name comes before every longer name that starts with it.
pub proof fn law_prefix_comes_first(a: Seq<char>, s: Seq<char>)
    requires
        s.len() > 0,
    ensures
        region_lt(a, a + s),
        !region_lt(a + s, a),
{
    law_scan_order_is_str_order(a, a + s);
    law_scan_order_is_str_order(a + s, a);
    assert((a + s).take(a.len() as int) =~= a);
    if exists|i: int|
        0 <= i < (a + s).len() && i < a.len() && #[trigger] (a + s).take(i) == a.take(i) && (((a + s)[i])
            as int) < (a[i] as int) {
        let i = choose|i: int|
            0 <= i < (a + s).len() && i < a.len() && #[trigger] (a + s).take(i) == a.take(i) && (((a
                + s)[i]) as int) < (a[i] as int);
        assert((a + s)[i] == a[i]);
    }
}

/// Whether two region names are the same.
pub fn same_region(a: &str, b: &str) -> (r: bool)
    ensures
        r == (a@ == b@),
{
    let n = a.unicode_len();
    let m = b.unicode_len();
    if n != m {
        return false;
    }
    let mut i: usize = 0;
    while i < n
        invariant
            n == a@.len(),
            m == b@.len(),
            n == m,
            i <= n,
            forall|k: int| 0 <= k < i ==> a@[k] == b@[k],
        decreases n - i,
    {
        if a.get_char(i) != b.get_char(i) {
            return false;
        }
        i = i + 1;
    }
    assert(a@ =~= b@);
    true
}

/// Whether region `a` is scanned before region `b`.
pub fn region_before(a: &str, b: &str) -> (r: bool)
    ensures
        r == region_lt(a@, b@),
{
    let n = a.unicode_len();
    let m = b.unicode_len();
    let mut i: usize = 0;
    assert(a@.skip(0) =~= a@);
    assert(b@.skip(0) =~= b@);
    while i < n && i < m
        invariant
            n == a@.len(),
            m == b@.len(),
            i <= n,
            i <= m,
            region_lt(a@, b@) == region_lt(a@.skip(i as int), b@.skip(i as int)),
        decreases n - i,
    {
        let x = a.get_char(i);
        let y = b.get_char(i);
        if x != y {
            proof {
                assert(a@.skip(i as int)[0] == x);
                assert(b@.skip(i as int)[0] == y);
            }
            return (x as u32) < (y as u32);
        }
        proof {
            assert(a@.skip(i as int).drop_first() =~= a@.skip(i + 1));
            assert(b@.skip(i as int).drop_first() =~= b@.skip(i + 1));
        }
        i = i + 1;
    }
    i < m
}

} // verus!
