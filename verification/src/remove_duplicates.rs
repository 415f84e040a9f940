//! Removing duplicates from a list of integers, keeping the first
//! occurrence of each value in its original position.

use vstd::prelude::*;

verus! {

/// The list with every repeated value removed, first occurrences kept in
/// order.
pub open spec fn dedup_first(s: Seq<i32>) -> Seq<i32>
    decreases s.len(),
{
    if s.len() == 0 {
        Seq::empty()
    } else {
        let d = dedup_first(s.drop_last());
        if s.drop_last().contains(s.last()) {
            d
        } else {
            d.push(s.last())
        }
    }
}

/// Deduplication keeps exactly the values of the original list.
pub proof fn lemma_dedup_contains(s: Seq<i32>)
    ensures
        forall|x: i32|
            #![trigger dedup_first(s).contains(x)]
            #![trigger s.contains(x)]
            dedup_first(s).contains(x) <==> s.contains(x),
    decreases s.len(),
{
    if s.len() > 0 {
        lemma_dedup_contains(s.drop_last());
        let d = dedup_first(s.drop_last());
        assert forall|x: i32| dedup_first(s).contains(x) implies s.contains(x) by {
            if s.drop_last().contains(s.last()) {
                assert(d.contains(x));
                assert(s.drop_last().contains(x));
                let m = choose|m: int| 0 <= m < s.drop_last().len() && s.drop_last()[m] == x;
                assert(s.drop_last()[m] == s[m]);
                assert(s[m] == x);
            } else {
                let m = choose|m: int| 0 <= m < dedup_first(s).len() && dedup_first(s)[m] == x;
                if m < d.len() {
                    assert(d.contains(x));
                    assert(s.drop_last().contains(x));
                    let m2 = choose|m2: int| 0 <= m2 < s.drop_last().len() && s.drop_last()[m2]
                        == x;
                    assert(s.drop_last()[m2] == s[m2]);
                    assert(s[m2] == x);
                } else {
                    assert(s[s.len() - 1] == x);
                }
            }
        }
        assert forall|x: i32| s.contains(x) implies dedup_first(s).contains(x) by {
            let m = choose|m: int| 0 <= m < s.len() && s[m] == x;
            if m < s.len() - 1 {
                assert(s.drop_last()[m] == x);
                assert(d.contains(x));
                let m2 = choose|m2: int| 0 <= m2 < d.len() && d[m2] == x;
                assert(dedup_first(s)[m2] == x);
            } else {
                if s.drop_last().contains(x) {
                    assert(d.contains(x));
                    let m2 = choose|m2: int| 0 <= m2 < d.len() && d[m2] == x;
                    assert(dedup_first(s)[m2] == x);
                } else {
                    assert(dedup_first(s)[dedup_first(s).len() - 1] == x);
                }
            }
        }
    }
}

/// Whether the list holds the given value.
fn list_contains(v: &Vec<i32>, x: i32) -> (r: bool)
    ensures
        r == v@.contains(x),
{
    let mut i: usize = 0;
    while i < v.len()
        invariant
            i <= v@.len(),
            forall|j: int| 0 <= j < i ==> v@[j] != x,
        decreases v@.len() - i,
    {
        if v[i] == x {
            return true;
        }
        i = i + 1;
    }
    false
}

/// Removes every duplicate from the list in place, keeping the first
/// occurrence of each value.
pub fn remove_duplicates_using_hashset(list: &mut Vec<i32>)
    ensures
        final(list)@ == dedup_first(old(list)@),
{
    let ghost l0 = list@;
    let mut out: Vec<i32> = Vec::new();
    let mut i: usize = 0;
    #[verifier::loop_isolation(false)]
    while i < list.len()
        invariant
            i <= l0.len(),
            list@ == l0,
            out@ == dedup_first(l0.take(i as int)),
        decreases l0.len() - i,
    {
        let v = list[i];
        proof {
            lemma_dedup_contains(l0.take(i as int));
            assert(l0.take(i as int + 1).drop_last() =~= l0.take(i as int));
            assert(l0.take(i as int + 1).last() == l0[i as int]);
        }
        if !list_contains(&out, v) {
            out.push(v);
        }
        i = i + 1;
    }
    proof {
        assert(l0.take(l0.len() as int) =~= l0);
    }
    *list = out;
}

} // verus!
