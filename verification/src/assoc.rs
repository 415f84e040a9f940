//! Association lists: the identifier-keyed tables of the graph store are
//! vectors of `(key, value)` pairs with pairwise-distinct keys.  The spec
//! functions here give such a list its meaning as a finite map, and the
//! lemmas relate the list operations to map operations.

use vstd::prelude::*;

verus! {

/// All keys of the list are pairwise distinct.
pub open spec fn unique_keys<V>(s: Seq<(usize, V)>) -> bool {
    forall|i: int, j: int| 0 <= i < j < s.len() ==> (#[trigger] s[i]).0 != (#[trigger] s[j]).0
}

/// The finite map denoted by an association list (later entries win,
/// which is irrelevant when the keys are unique).
pub open spec fn assoc_map<V>(s: Seq<(usize, V)>) -> Map<usize, V>
    decreases s.len(),
{
    if s.len() == 0 {
        Map::empty()
    } else {
        assoc_map(s.drop_last()).insert(s.last().0, s.last().1)
    }
}

/// A key is in the map exactly when some entry carries it, and the domain
/// is finite.
pub proof fn lemma_assoc_map_dom<V>(s: Seq<(usize, V)>)
    ensures
        forall|k: usize|
            assoc_map(s).contains_key(k) <==> exists|i: int|
                0 <= i < s.len() && (#[trigger] s[i]).0 == k,
        assoc_map(s).dom().finite(),
    decreases s.len(),
{
    if s.len() > 0 {
        lemma_assoc_map_dom(s.drop_last());
        assert forall|k: usize| assoc_map(s).contains_key(k) implies exists|i: int|
            0 <= i < s.len() && (#[trigger] s[i]).0 == k by {
            if k == s.last().0 {
                assert(s[s.len() - 1].0 == k);
            } else {
                let i = choose|i: int| 0 <= i < s.drop_last().len() && (#[trigger] s.drop_last()[i]).0 == k;
                assert(s[i].0 == k);
            }
        }
        assert forall|k: usize|
            (exists|i: int| 0 <= i < s.len() && (#[trigger] s[i]).0 == k) implies assoc_map(
            s,
        ).contains_key(k) by {
            let i = choose|i: int| 0 <= i < s.len() && (#[trigger] s[i]).0 == k;
            if i < s.len() - 1 {
                assert(s.drop_last()[i].0 == k);
            }
        }
    }
}

/// With unique keys, the entry at index `i` gives the map's value at its key.
pub proof fn lemma_assoc_map_index<V>(s: Seq<(usize, V)>, i: int)
    requires
        unique_keys(s),
        0 <= i < s.len(),
    ensures
        assoc_map(s).contains_key(s[i].0),
        assoc_map(s)[s[i].0] == s[i].1,
    decreases s.len(),
{
    if i == s.len() - 1 {
        assert(assoc_map(s) == assoc_map(s.drop_last()).insert(s.last().0, s.last().1));
    } else {
        lemma_assoc_map_index(s.drop_last(), i);
        assert(s.drop_last()[i] == s[i]);
        assert(s[i].0 != s.last().0);
    }
}

/// Appending an entry inserts its pair into the map.
pub proof fn lemma_assoc_map_push<V>(s: Seq<(usize, V)>, k: usize, v: V)
    ensures
        assoc_map(s.push((k, v))) == assoc_map(s).insert(k, v),
{
    assert(s.push((k, v)).drop_last() =~= s);
    assert(s.push((k, v)).last() == (k, v));
}

/// Overwriting the entry at index `i` with the same key updates the map at
/// that key.
pub proof fn lemma_assoc_map_update<V>(s: Seq<(usize, V)>, i: int, v: V)
    requires
        unique_keys(s),
        0 <= i < s.len(),
    ensures
        assoc_map(s.update(i, (s[i].0, v))) == assoc_map(s).insert(s[i].0, v),
        unique_keys(s.update(i, (s[i].0, v))),
    decreases s.len(),
{
    let k = s[i].0;
    let t = s.update(i, (k, v));
    assert(unique_keys(t));
    if i == s.len() - 1 {
        assert(t.drop_last() =~= s.drop_last());
        assert(t.last() == (k, v));
        assert(assoc_map(t) == assoc_map(s.drop_last()).insert(k, v));
        assert(assoc_map(s).insert(k, v) == assoc_map(s.drop_last()).insert(k, s.last().1).insert(
            k,
            v,
        ));
        assert(assoc_map(s.drop_last()).insert(k, s.last().1).insert(k, v) =~= assoc_map(
            s.drop_last(),
        ).insert(k, v));
    } else {
        lemma_assoc_map_update(s.drop_last(), i, v);
        assert(t.drop_last() =~= s.drop_last().update(i, (k, v)));
        assert(t.last() == s.last());
        assert(s.drop_last()[i] == s[i]);
        // the updated key differs from the last key, so insertions commute
        assert(k != s.last().0);
        assert(assoc_map(t) == assoc_map(s.drop_last()).insert(k, v).insert(
            s.last().0,
            s.last().1,
        ));
        assert(assoc_map(s.drop_last()).insert(k, v).insert(s.last().0, s.last().1) =~= assoc_map(
            s.drop_last(),
        ).insert(s.last().0, s.last().1).insert(k, v));
    }
}

/// Removing the entry at index `i` removes its key from the map.
pub proof fn lemma_assoc_map_remove<V>(s: Seq<(usize, V)>, i: int)
    requires
        unique_keys(s),
        0 <= i < s.len(),
    ensures
        assoc_map(s.remove(i)) == assoc_map(s).remove(s[i].0),
        unique_keys(s.remove(i)),
    decreases s.len(),
{
    let k = s[i].0;
    let t = s.remove(i);
    assert(unique_keys(t)) by {
        assert forall|m: int, n: int| 0 <= m < n < t.len() implies (#[trigger] t[m]).0 != (
        #[trigger] t[n]).0 by {
            let m0 = if m < i { m } else { m + 1 };
            let n0 = if n < i { n } else { n + 1 };
            assert(t[m] == s[m0] && t[n] == s[n0]);
        }
    }
    if i == s.len() - 1 {
        assert(t =~= s.drop_last());
        lemma_assoc_map_dom(s.drop_last());
        assert(!assoc_map(s.drop_last()).contains_key(k));
        assert(assoc_map(s).remove(k) =~= assoc_map(s.drop_last()));
    } else {
        lemma_assoc_map_remove(s.drop_last(), i);
        assert(t.drop_last() =~= s.drop_last().remove(i));
        assert(t.last() == s.last());
        assert(s.drop_last()[i] == s[i]);
        assert(k != s.last().0);
        assert(assoc_map(t) == assoc_map(s.drop_last()).remove(k).insert(s.last().0, s.last().1));
        assert(assoc_map(s.drop_last()).remove(k).insert(s.last().0, s.last().1) =~= assoc_map(
            s.drop_last(),
        ).insert(s.last().0, s.last().1).remove(k));
    }
}

/// The entries among the first `j` that satisfy `p`, in order.
pub open spec fn filter_entries<V>(
    s: Seq<(usize, V)>,
    p: spec_fn((usize, V)) -> bool,
    j: int,
) -> Seq<(usize, V)>
    decreases j,
{
    if j <= 0 || j > s.len() {
        Seq::empty()
    } else {
        let rest = filter_entries(s, p, j - 1);
        if p(s[j - 1]) {
            rest.push(s[j - 1])
        } else {
            rest
        }
    }
}

/// The keys of the entries among the first `j` that satisfy `p`, in order.
pub open spec fn filter_ids<V>(s: Seq<(usize, V)>, p: spec_fn((usize, V)) -> bool, j: int) -> Seq<
    usize,
>
    decreases j,
{
    if j <= 0 || j > s.len() {
        Seq::empty()
    } else {
        let rest = filter_ids(s, p, j - 1);
        if p(s[j - 1]) {
            rest.push(s[j - 1].0)
        } else {
            rest
        }
    }
}

/// An entry is kept exactly when it stands among the first `j` and
/// satisfies `p`.
pub proof fn lemma_filter_entries_contains<V>(s: Seq<(usize, V)>, p: spec_fn((usize, V)) -> bool, j: int)
    requires
        0 <= j <= s.len(),
    ensures
        forall|x: (usize, V)|
            #[trigger] filter_entries(s, p, j).contains(x) <==> exists|n: int|
                0 <= n < j && (#[trigger] s[n]) == x && p(x),
    decreases j,
{
    if j > 0 {
        lemma_filter_entries_contains(s, p, j - 1);
        let f = filter_entries(s, p, j);
        let rest = filter_entries(s, p, j - 1);
        assert forall|x: (usize, V)| #[trigger] f.contains(x) implies exists|n: int|
            0 <= n < j && (#[trigger] s[n]) == x && p(x) by {
            if p(s[j - 1]) && x == s[j - 1] {
                assert(s[j - 1] == x);
            } else {
                let m = choose|m: int| 0 <= m < f.len() && f[m] == x;
                if m < rest.len() {
                    assert(rest.contains(x));
                } else {
                    assert(x == s[j - 1]);
                }
            }
        }
        assert forall|x: (usize, V)|
            (exists|n: int| 0 <= n < j && (#[trigger] s[n]) == x && p(x)) implies #[trigger] f
            .contains(x) by {
            let n = choose|n: int| 0 <= n < j && (#[trigger] s[n]) == x && p(x);
            if n < j - 1 {
                assert(rest.contains(x));
                let m = choose|m: int| 0 <= m < rest.len() && rest[m] == x;
                if p(s[j - 1]) {
                    assert(f[m] == x);
                } else {
                    assert(f[m] == x);
                }
            } else {
                assert(f[f.len() - 1] == x);
            }
        }
    }
}

/// A key is kept exactly when some entry among the first `j` carries it and
/// satisfies `p`.
pub proof fn lemma_filter_ids_contains<V>(s: Seq<(usize, V)>, p: spec_fn((usize, V)) -> bool, j: int)
    requires
        0 <= j <= s.len(),
    ensures
        forall|k: usize|
            #[trigger] filter_ids(s, p, j).contains(k) <==> exists|n: int|
                0 <= n < j && (#[trigger] s[n]).0 == k && p(s[n]),
    decreases j,
{
    if j > 0 {
        lemma_filter_ids_contains(s, p, j - 1);
        let f = filter_ids(s, p, j);
        let rest = filter_ids(s, p, j - 1);
        assert forall|k: usize| #[trigger] f.contains(k) implies exists|n: int|
            0 <= n < j && (#[trigger] s[n]).0 == k && p(s[n]) by {
            if p(s[j - 1]) && k == s[j - 1].0 {
                assert(s[j - 1].0 == k);
            } else {
                let m = choose|m: int| 0 <= m < f.len() && f[m] == k;
                if m < rest.len() {
                    assert(rest.contains(k));
                } else {
                    assert(k == s[j - 1].0);
                }
            }
        }
        assert forall|k: usize|
            (exists|n: int| 0 <= n < j && (#[trigger] s[n]).0 == k && p(s[n])) implies #[trigger] f
            .contains(k) by {
            let n = choose|n: int| 0 <= n < j && (#[trigger] s[n]).0 == k && p(s[n]);
            if n < j - 1 {
                assert(rest.contains(k));
                let m = choose|m: int| 0 <= m < rest.len() && rest[m] == k;
                assert(f[m] == k);
            } else {
                assert(f[f.len() - 1] == k);
            }
        }
    }
}

/// With unique keys, the kept keys are pairwise distinct, and so are the
/// kept entries' keys.
pub proof fn lemma_filter_unique<V>(s: Seq<(usize, V)>, p: spec_fn((usize, V)) -> bool, j: int)
    requires
        unique_keys(s),
        0 <= j <= s.len(),
    ensures
        filter_ids(s, p, j).no_duplicates(),
        unique_keys(filter_entries(s, p, j)),
        filter_entries(s, p, j).len() == filter_ids(s, p, j).len(),
        forall|m: int|
            0 <= m < filter_ids(s, p, j).len() ==> (#[trigger] filter_entries(s, p, j)[m]).0
                == filter_ids(s, p, j)[m],
    decreases j,
{
    if j > 0 {
        lemma_filter_unique(s, p, j - 1);
        lemma_filter_ids_contains(s, p, j - 1);
        if p(s[j - 1]) {
            let rest = filter_ids(s, p, j - 1);
            assert(!rest.contains(s[j - 1].0)) by {
                if rest.contains(s[j - 1].0) {
                    let n = choose|n: int|
                        0 <= n < j - 1 && (#[trigger] s[n]).0 == s[j - 1].0 && p(s[n]);
                }
            }
        }
    }
}

/// With unique keys, the map has exactly one entry per list element.
pub proof fn lemma_assoc_map_len<V>(s: Seq<(usize, V)>)
    requires
        unique_keys(s),
    ensures
        assoc_map(s).dom().len() == s.len(),
    decreases s.len(),
{
    lemma_assoc_map_dom(s);
    if s.len() > 0 {
        lemma_assoc_map_len(s.drop_last());
        lemma_assoc_map_dom(s.drop_last());
        assert(!assoc_map(s.drop_last()).contains_key(s.last().0));
        assert(assoc_map(s).dom() =~= assoc_map(s.drop_last()).dom().insert(s.last().0));
    }
}

} // verus!
