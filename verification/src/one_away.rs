//! Whether two strings are at most one edit apart: one insertion, one
//! removal, or one replacement.

use vstd::prelude::*;

verus! {

/// The number of differing positions among the first `n` of both strings.
pub open spec fn mismatches_upto(a: Seq<char>, b: Seq<char>, n: int) -> nat
    decreases n,
{
    if n <= 0 {
        0
    } else {
        mismatches_upto(a, b, n - 1) + if a[n - 1] == b[n - 1] {
            0nat
        } else {
            1nat
        }
    }
}

/// The number of differing positions, compared up to the shorter length.
pub open spec fn mismatches(a: Seq<char>, b: Seq<char>) -> nat {
    mismatches_upto(
        a,
        b,
        if a.len() <= b.len() {
            a.len() as int
        } else {
            b.len() as int
        },
    )
}

/// Mismatches only accumulate.
proof fn lemma_mismatches_monotone(a: Seq<char>, b: Seq<char>, n: int, m: int)
    requires
        n <= m,
    ensures
        mismatches_upto(a, b, n) <= mismatches_upto(a, b, m),
    decreases m - n,
{
    if n < m {
        lemma_mismatches_monotone(a, b, n, m - 1);
    }
}

/// `b` is `a` with exactly one character removed.
pub open spec fn one_del(a: Seq<char>, b: Seq<char>) -> bool {
    a.len() == b.len() + 1 && exists|i: int| 0 <= i < a.len() && #[trigger] a.remove(i) == b
}

/// At most one edit turns one string into the other: equal lengths with at
/// most one replacement, or one string is the other with one character
/// inserted.
pub open spec fn one_edit_away(a: Seq<char>, b: Seq<char>) -> bool {
    if a.len() == b.len() {
        mismatches(a, b) <= 1
    } else if a.len() == b.len() + 1 {
        one_del(a, b)
    } else if b.len() == a.len() + 1 {
        one_del(b, a)
    } else {
        false
    }
}

/// Whether two strings of any lengths differ in at most one of their
/// common positions.
#[verifier::loop_isolation(false)]
pub fn replacement_check(s1: &str, s2: &str) -> (r: bool)
    ensures
        r == (mismatches(s1@, s2@) <= 1),
{
    let l1 = s1.unicode_len();
    let l2 = s2.unicode_len();
    let n = if l1 <= l2 {
        l1
    } else {
        l2
    };
    let mut differences: usize = 0;
    let mut i: usize = 0;
    while i < n
        invariant
            i <= n,
            differences <= 1,
            differences == mismatches_upto(s1@, s2@, i as int),
        decreases n - i,
    {
        if s1.get_char(i) != s2.get_char(i) {
            if differences >= 1 {
                proof {
                    lemma_mismatches_monotone(s1@, s2@, i as int + 1, n as int);
                }
                return false;
            }
            differences = differences + 1;
        }
        i = i + 1;
    }
    true
}

/// When both strings agree before `p` and differ at `p`, the one removal
/// that can work is the removal at `p`.
proof fn lemma_one_del_first_mismatch(a: Seq<char>, b: Seq<char>, p: int)
    requires
        a.len() == b.len() + 1,
        0 <= p < b.len(),
        a.take(p) == b.take(p),
        a[p] != b[p],
    ensures
        one_del(a, b) ==> a.remove(p) == b,
{
    if one_del(a, b) {
        let i = choose|i: int| 0 <= i < a.len() && #[trigger] a.remove(i) == b;
        assert(i <= p) by {
            if i > p {
                assert(a.remove(i)[p] == a[p]);
            }
        }
        assert(a.remove(p) =~= b) by {
            assert forall|j: int| 0 <= j < b.len() implies a.remove(p)[j] == b[j] by {
                if j < p {
                    assert(a.take(p)[j] == b.take(p)[j]);
                    assert(a.remove(p)[j] == a[j]);
                } else {
                    // beyond the removal point the longer string runs one ahead
                    assert(a.remove(i)[j] == a[j + 1]);
                    assert(a.remove(p)[j] == a[j + 1]);
                }
            }
        }
    }
}

/// Whether the longer string becomes the shorter by removing exactly one
/// character: scans both, skipping one mismatch in the longer.
#[verifier::loop_isolation(false)]
pub fn insertion_check(s1: &str, s2: &str) -> (r: bool)
    requires
        s1@.len() == s2@.len() + 1,
    ensures
        r == one_del(s1@, s2@),
{
    let l1 = s1.unicode_len();
    let l2 = s2.unicode_len();
    let mut i1: usize = 0;
    let mut i2: usize = 0;
    let mut skipped = false;
    let ghost mut p: int = 0;
    while i2 < l2
        invariant
            i2 <= l2,
            !skipped ==> i1 == i2 && s1@.take(i2 as int) == s2@.take(i2 as int),
            skipped ==> i1 == i2 + 1 && 0 <= p <= i2 && s1@.take(p) == s2@.take(p) && s1@[p]
                != s2@[p] && forall|m: int| p <= m < i2 ==> s2@[m] == s1@[m + 1],
        decreases l2 - i2 + (if skipped {
            0int
        } else {
            1int
        }),
    {
        let c1 = s1.get_char(i1);
        let c2 = s2.get_char(i2);
        if c1 == c2 {
            proof {
                if !skipped {
                    assert(s1@.take(i2 as int + 1) =~= s2@.take(i2 as int + 1)) by {
                        assert(forall|m: int|
                            0 <= m < i2 ==> s1@.take(i2 as int)[m] == s2@.take(i2 as int)[m]);
                    }
                }
            }
            i1 = i1 + 1;
            i2 = i2 + 1;
        } else {
            if skipped {
                proof {
                    lemma_one_del_first_mismatch(s1@, s2@, p);
                    if one_del(s1@, s2@) {
                        assert(s1@.remove(p)[i2 as int] == s1@[i2 as int + 1]);
                    }
                }
                return false;
            }
            proof {
                p = i2 as int;
            }
            i1 = i1 + 1;
            skipped = true;
        }
    }
    proof {
        if skipped {
            assert(s1@.remove(p) =~= s2@) by {
                assert(forall|m: int| 0 <= m < p ==> s1@.take(p)[m] == s2@.take(p)[m]);
            }
        } else {
            assert(s1@.remove(l2 as int) =~= s2@) by {
                assert(forall|m: int|
                    0 <= m < l2 ==> s1@.take(l2 as int)[m] == s2@.take(l2 as int)[m]);
            }
        }
    }
    true
}

/// Whether the strings are one or zero edits apart: a replacement when the
/// lengths match, an insertion or removal when they differ by one.
pub fn one_away(s1: &str, s2: &str) -> (r: bool)
    ensures
        r == one_edit_away(s1@, s2@),
{
    let l1 = s1.unicode_len();
    let l2 = s2.unicode_len();
    if l1 == l2 {
        return replacement_check(s1, s2);
    }
    if l1 > l2 {
        if l1 - l2 > 1 {
            return false;
        }
        insertion_check(s1, s2)
    } else {
        if l2 - l1 > 1 {
            return false;
        }
        insertion_check(s2, s1)
    }
}

} // verus!
