//! String rotation: whether one string is a rotation of another, decided
//! with a single substring search over the first string doubled.

use vstd::prelude::*;

verus! {

/// `b` is `a` rotated left by some amount: the characters from position
/// `k` onward, followed by those before `k`.
pub open spec fn is_rotation(a: Seq<char>, b: Seq<char>) -> bool {
    a.len() == b.len() && exists|k: int|
        0 <= k <= a.len() && b == #[trigger] a.skip(k) + a.take(k)
}

/// The characters of a string, as a vector.
fn chars_of(s: &str) -> (r: Vec<char>)
    ensures
        r@ == s@,
{
    let len = s.unicode_len();
    let mut r: Vec<char> = Vec::new();
    let mut i: usize = 0;
    #[verifier::loop_isolation(false)]
    while i < len
        invariant
            i <= len,
            r@ =~= s@.take(i as int),
        decreases len - i,
    {
        let c = s.get_char(i);
        r.push(c);
        proof {
            assert(r@ =~= s@.take(i as int + 1));
        }
        i = i + 1;
    }
    proof {
        assert(s@.take(len as int) =~= s@);
    }
    r
}

/// Whether `needle` occurs as a contiguous run inside `hay`.
#[verifier::loop_isolation(false)]
fn contains_sub(hay: &Vec<char>, needle: &Vec<char>) -> (r: bool)
    requires
        needle@.len() <= hay@.len(),
    ensures
        r == exists|k: int|
            0 <= k <= hay@.len() - needle@.len() && (#[trigger] hay@.subrange(k, k + needle@.len()))
                == needle@,
{
    let n = needle.len();
    let h = hay.len();
    if n == 0 {
        proof {
            assert(hay@.subrange(0, 0 + needle@.len() as int) =~= needle@);
        }
        return true;
    }
    let mut k: usize = 0;
    while k <= h - n
        invariant
            k <= h - n + 1,
            forall|k2: int| 0 <= k2 < k ==> (#[trigger] hay@.subrange(k2, k2 + n)) != needle@,
        decreases h - n - k + 1,
    {
        let mut t: usize = 0;
        let mut ok = true;
        while ok && t < n
            invariant
                t <= n,
                k + n <= h,
                ok ==> forall|u: int| 0 <= u < t ==> hay@[k + u] == needle@[u],
                !ok ==> hay@.subrange(k as int, k + n) != needle@,
            decreases n - t + (if ok {
                1int
            } else {
                0int
            }),
        {
            if hay[k + t] != needle[t] {
                proof {
                    assert(hay@.subrange(k as int, k + n)[t as int] == hay@[k + t]);
                }
                ok = false;
            } else {
                t = t + 1;
            }
        }
        if ok {
            proof {
                assert(hay@.subrange(k as int, k + n) =~= needle@);
            }
            return true;
        }
        k = k + 1;
    }
    false
}

/// Doubling a string makes each of its rotations a contiguous run.
proof fn lemma_rotation_substring(a: Seq<char>, b: Seq<char>, k: int)
    requires
        a.len() == b.len(),
        0 <= k <= a.len(),
    ensures
        ((a + a).subrange(k, k + b.len()) == b) <==> (b == a.skip(k) + a.take(k)),
{
    assert((a + a).subrange(k, k + a.len() as int) =~= a.skip(k) + a.take(k)) by {
        assert forall|i: int|
            0 <= i < a.len() implies (a + a).subrange(k, k + a.len() as int)[i] == (a.skip(k)
            + a.take(k))[i] by {
            assert((a + a).subrange(k, k + a.len() as int)[i] == (a + a)[k + i]);
            if i < a.len() - k {
                assert((a + a)[k + i] == a[k + i]);
                assert((a.skip(k) + a.take(k))[i] == a.skip(k)[i]);
            } else {
                assert((a + a)[k + i] == a[k + i - a.len()]);
                assert((a.skip(k) + a.take(k))[i] == a.take(k)[i - (a.len() - k)]);
            }
        }
    }
}

/// Whether `s2` is a rotation of `s1`, using one substring search: `s2` is
/// a rotation of `s1` exactly when it occurs inside `s1` doubled (and the
/// lengths match).
pub fn is_string_rotation(s1: &str, s2: &str) -> (r: bool)
    ensures
        r == is_rotation(s1@, s2@),
{
    let l1 = s1.unicode_len();
    let l2 = s2.unicode_len();
    if l1 != l2 {
        return false;
    }
    if l1 == 0 {
        proof {
            assert(s2@ =~= s1@.skip(0) + s1@.take(0));
        }
        return true;
    }
    let c1 = chars_of(s1);
    let c2 = chars_of(s2);
    let mut doubled = chars_of(s1);
    let mut i: usize = 0;
    #[verifier::loop_isolation(false)]
    while i < l1
        invariant
            i <= l1,
            c1@ == s1@,
            doubled@ =~= s1@ + s1@.take(i as int),
        decreases l1 - i,
    {
        let c = c1[i];
        doubled.push(c);
        proof {
            assert(doubled@ =~= s1@ + s1@.take(i as int + 1));
        }
        i = i + 1;
    }
    proof {
        assert(s1@.take(l1 as int) =~= s1@);
        assert(doubled@ =~= s1@ + s1@);
    }
    let found = contains_sub(&doubled, &c2);
    proof {
        if found {
            let k = choose|k: int|
                0 <= k <= doubled@.len() - c2@.len() && (#[trigger] doubled@.subrange(
                    k,
                    k + c2@.len(),
                )) == c2@;
            if k <= s1@.len() {
                lemma_rotation_substring(s1@, s2@, k);
            } else {
                // a run that starts in the second copy also starts in the first
                assert(doubled@.subrange(k - s1@.len(), k - s1@.len() + s2@.len()) =~= doubled@
                    .subrange(k, k + s2@.len()));
                lemma_rotation_substring(s1@, s2@, k - s1@.len());
            }
            assert(is_rotation(s1@, s2@));
        } else {
            if is_rotation(s1@, s2@) {
                let k = choose|k: int|
                    0 <= k <= s1@.len() && s2@ == #[trigger] s1@.skip(k) + s1@.take(k);
                lemma_rotation_substring(s1@, s2@, k);
                assert(doubled@.subrange(k, k + s2@.len()) == c2@);
            }
        }
    }
    found
}

} // verus!
