//! Whether a string's characters are all distinct, decided three ways:
//! by brute-force pairing, with a set of seen characters, and by sorting.

use vstd::prelude::*;

verus! {

/// All characters pairwise distinct.
pub open spec fn all_chars_unique(s: Seq<char>) -> bool {
    s.no_duplicates()
}

/// Brute force: every pair of positions is compared.
#[verifier::loop_isolation(false)]
pub fn is_unique_brute(s: &str) -> (r: bool)
    ensures
        r == all_chars_unique(s@),
{
    let len = s.unicode_len();
    let mut i: usize = 0;
    while i < len
        invariant
            i <= len,
            forall|a: int, b: int| 0 <= a < b < len && a < i ==> s@[a] != s@[b],
        decreases len - i,
    {
        let ci = s.get_char(i);
        let mut j: usize = i + 1;
        while j < len
            invariant
                i < j <= len,
                forall|b: int| i < b < j ==> s@[i as int] != s@[b],
            decreases len - j,
        {
            if ci == s.get_char(j) {
                return false;
            }
            j = j + 1;
        }
        i = i + 1;
    }
    true
}

/// Whether the vector holds the character.
fn seen_contains(v: &Vec<char>, c: char) -> (r: bool)
    ensures
        r == v@.contains(c),
{
    let mut i: usize = 0;
    while i < v.len()
        invariant
            i <= v@.len(),
            forall|j: int| 0 <= j < i ==> v@[j] != c,
        decreases v@.len() - i,
    {
        if v[i] == c {
            return true;
        }
        i = i + 1;
    }
    false
}

/// With a set of seen characters: each character is checked against all
/// earlier ones.
#[verifier::loop_isolation(false)]
pub fn is_unique_set(s: &str) -> (r: bool)
    ensures
        r == all_chars_unique(s@),
{
    let len = s.unicode_len();
    let mut seen: Vec<char> = Vec::new();
    let mut i: usize = 0;
    while i < len
        invariant
            i <= len,
            seen@ =~= s@.take(i as int),
            s@.take(i as int).no_duplicates(),
        decreases len - i,
    {
        let c = s.get_char(i);
        if seen_contains(&seen, c) {
            proof {
                let j = choose|j: int| 0 <= j < i && s@.take(i as int)[j] == c;
                assert(s@[j] == s@[i as int]);
            }
            return false;
        }
        seen.push(c);
        proof {
            assert(seen@ =~= s@.take(i as int + 1));
            assert forall|a: int, b: int|
                0 <= a < b < i + 1 implies (#[trigger] s@.take(i as int + 1)[a]) != (
            #[trigger] s@.take(i as int + 1)[b]) by {
                if b < i {
                    assert(s@.take(i as int)[a] != s@.take(i as int)[b]);
                } else {
                    assert(!s@.take(i as int).contains(s@[i as int]));
                    assert(s@.take(i as int)[a] == s@[a]);
                }
            }
        }
        i = i + 1;
    }
    proof {
        assert(s@.take(len as int) =~= s@);
    }
    true
}

/// The sequence is sorted when read as code points.
pub open spec fn sorted_chars(v: Seq<char>) -> bool {
    forall|a: int, b: int| 0 <= a <= b < v.len() ==> (#[trigger] v[a]) as u32 <= (#[trigger] v[b]) as u32
}

/// A sorted sequence whose neighbours all differ has no duplicates.
proof fn lemma_sorted_adjacent_distinct(v: Seq<char>)
    requires
        sorted_chars(v),
        forall|a: int| 0 <= a < v.len() - 1 ==> (#[trigger] v[a]) != v[a + 1],
    ensures
        v.no_duplicates(),
{
    assert forall|a: int, b: int| 0 <= a < b < v.len() implies v[a] != v[b] by {
        assert(v[a] as u32 <= v[a + 1] as u32);
        assert(v[a + 1] as u32 <= v[b] as u32);
        assert(v[a] != v[a + 1]);
        assert((v[a] as u32) < (v[a + 1] as u32)) by {
            if v[a] as u32 == v[a + 1] as u32 {
                assert(v[a] == v[a + 1]) by {
                    vstd::utf8::char_u32_cast(v[a], v[a] as u32);
                    vstd::utf8::char_u32_cast(v[a + 1], v[a + 1] as u32);
                }
            }
        }
    }
}

/// Two equal characters at distinct positions put the value twice in the
/// multiset.
proof fn lemma_dup_count_two(v: Seq<char>, a: int, b: int)
    requires
        0 <= a < b < v.len(),
        v[a] == v[b],
    ensures
        v.to_multiset().count(v[a]) >= 2,
{
    broadcast use vstd::seq_lib::group_to_multiset_ensures;

    let w = v.remove(a);
    assert(w.to_multiset() == v.to_multiset().remove(v[a]));
    assert(w[b - 1] == v[b]);
    assert(w.contains(v[a]));
    assert(w.to_multiset().count(v[a]) > 0);
    assert(v.to_multiset().count(v[a]) == w.to_multiset().count(v[a]) + 1);
}

/// Sequences with the same multiset have duplicates together.
proof fn lemma_multiset_nodup(a: Seq<char>, b: Seq<char>)
    requires
        a.to_multiset() == b.to_multiset(),
        a.no_duplicates(),
    ensures
        b.no_duplicates(),
{
    a.lemma_multiset_has_no_duplicates();
    b.lemma_multiset_has_no_duplicates_conv();
}

/// By sorting: the characters are sorted, and any duplicate would then
/// stand beside its twin.
#[verifier::loop_isolation(false)]
pub fn is_unique_sort(s: &str) -> (r: bool)
    ensures
        r == all_chars_unique(s@),
{
    broadcast use vstd::seq_lib::group_to_multiset_ensures;

    let len = s.unicode_len();
    if len == 0 {
        return true;
    }
    // insertion sort into a fresh vector
    let mut sorted: Vec<char> = Vec::new();
    let mut i: usize = 0;
    while i < len
        invariant
            i <= len,
            sorted@.len() == i,
            sorted_chars(sorted@),
            sorted@.to_multiset() == s@.take(i as int).to_multiset(),
        decreases len - i,
    {
        let c = s.get_char(i);
        let mut p: usize = 0;
        while p < sorted.len() && (sorted[p] as u32) <= (c as u32)
            invariant
                p <= sorted@.len(),
                forall|t: int| 0 <= t < p ==> (#[trigger] sorted@[t]) as u32 <= c as u32,
            decreases sorted@.len() - p,
        {
            p = p + 1;
        }
        let ghost before = sorted@;
        sorted.insert(p, c);
        proof {
            assert(sorted@ == before.insert(p as int, c));
            assert(sorted_chars(sorted@)) by {
                assert forall|x: int, y: int|
                    0 <= x <= y < sorted@.len() implies (#[trigger] sorted@[x]) as u32 <= (
                #[trigger] sorted@[y]) as u32 by {
                    if x < p && y < p {
                        assert(sorted@[x] == before[x] && sorted@[y] == before[y]);
                    } else if x < p && y == p {
                        assert(sorted@[x] == before[x]);
                    } else if x < p && y > p {
                        assert(sorted@[x] == before[x] && sorted@[y] == before[y - 1]);
                    } else if x == p && y == p {
                    } else if x == p && y > p {
                        assert(sorted@[y] == before[y - 1]);
                        assert(p < before.len() + 1);
                        assert((before[p as int]) as u32 > c as u32 || p as int == before.len());
                    } else {
                        assert(sorted@[x] == before[x - 1] && sorted@[y] == before[y - 1]);
                    }
                }
            }
            assert(sorted@.remove(p as int) =~= before);
            assert(sorted@.to_multiset().remove(c) == before.to_multiset());
            assert(sorted@.contains(c)) by {
                assert(sorted@[p as int] == c);
            }
            assert(sorted@.to_multiset() == before.to_multiset().insert(c)) by {
                assert(sorted@.to_multiset().contains(c));
                assert(sorted@.to_multiset() =~= sorted@.to_multiset().remove(c).insert(c));
            }
            assert(s@.take(i as int + 1).drop_last() =~= s@.take(i as int));
            assert(s@.take(i as int + 1).to_multiset() =~= s@.take(i as int).to_multiset().insert(
                s@[i as int],
            )) by {
                assert(s@.take(i as int + 1) =~= s@.take(i as int).push(s@[i as int]));
            }
        }
        i = i + 1;
    }
    proof {
        assert(s@.take(len as int) =~= s@);
    }
    // any duplicate now stands beside its twin
    let mut q: usize = 0;
    while q + 1 < sorted.len()
        invariant
            q < sorted@.len(),
            forall|a: int| 0 <= a < q ==> (#[trigger] sorted@[a]) != sorted@[a + 1],
        decreases sorted@.len() - q,
    {
        if sorted[q] == sorted[q + 1] {
            proof {
                lemma_dup_count_two(sorted@, q as int, q as int + 1);
                assert(s@.to_multiset().count(sorted@[q as int]) >= 2);
                if s@.no_duplicates() {
                    s@.lemma_multiset_has_no_duplicates();
                    assert(s@.to_multiset().contains(sorted@[q as int]));
                }
            }
            return false;
        }
        q = q + 1;
    }
    proof {
        lemma_sorted_adjacent_distinct(sorted@);
        lemma_multiset_nodup(sorted@, s@);
    }
    true
}

} // verus!
