//! Word search in a character matrix: find every path of horizontally or
//! vertically adjacent, pairwise-distinct cells whose characters spell the
//! word, by backtracking over precomputed per-character position lists.

use vstd::prelude::*;

use crate::algo::{lemma_concat_contains, lemma_concat_nodup};

verus! {

pub type Word = Vec<char>;

pub type Vec2d = Vec<Word>;

/// A cell position: row and column.
pub type Pos = [usize; 2];

pub type VecPos = Vec<Pos>;

pub type VecVecPos = Vec<VecPos>;

/// The cell `q` is in bounds and holds the character `c`.
pub open spec fn pos_char(m: Seq<Seq<char>>, c: char, q: Seq<usize>) -> bool {
    &&& q.len() == 2
    &&& (q[0] as int) < m.len()
    &&& (q[1] as int) < m[q[0] as int].len()
    &&& m[q[0] as int][q[1] as int] == c
}

/// The distance between two coordinates.
pub open spec fn coord_dist(a: usize, b: usize) -> int {
    if a >= b {
        a - b
    } else {
        b - a
    }
}

/// Two positions are neighbours: same row and adjacent columns, or same
/// column and adjacent rows.  A sentinel position (row `usize::MAX`)
/// stands for "no previous cell" and neighbours everything.
pub open spec fn ws_neighbors(p1: Seq<usize>, p2: Seq<usize>) -> bool {
    if p1[0] == usize::MAX || p2[0] == usize::MAX {
        true
    } else {
        let d1 = coord_dist(p1[0], p2[0]);
        let d2 = coord_dist(p1[1], p2[1]);
        (d1 == 0 && d2 == 1) || (d1 == 1 && d2 == 0)
    }
}

/// The positions holding `c` in row `i`, from column `j` on, in order.
pub open spec fn row_hits(m: Seq<Seq<char>>, c: char, i: int, j: int) -> Seq<Seq<usize>>
    decreases m[i].len() - j,
{
    if j < 0 || j >= m[i].len() || !(0 <= i < m.len()) {
        Seq::empty()
    } else {
        let rest = row_hits(m, c, i, j + 1);
        if m[i][j] == c {
            seq![seq![i as usize, j as usize]] + rest
        } else {
            rest
        }
    }
}

/// The positions holding `c` in the rows from `i` on, row-major.
pub open spec fn grid_hits(m: Seq<Seq<char>>, c: char, i: int) -> Seq<Seq<usize>>
    decreases m.len() - i,
{
    if i < 0 || i >= m.len() {
        Seq::empty()
    } else {
        row_hits(m, c, i, 0) + grid_hits(m, c, i + 1)
    }
}

/// Row hits are exactly the matching cells of that row at or past `j`.
proof fn lemma_row_hits(m: Seq<Seq<char>>, c: char, i: int, j: int)
    requires
        0 <= i < m.len() <= usize::MAX,
        0 <= j,
        m[i].len() <= usize::MAX,
    ensures
        forall|q: Seq<usize>|
            #[trigger] row_hits(m, c, i, j).contains(q) <==> (pos_char(m, c, q) && q[0] == i && j
                <= q[1]),
        row_hits(m, c, i, j).no_duplicates(),
    decreases m[i].len() - j,
{
    if j < m[i].len() {
        lemma_row_hits(m, c, i, j + 1);
        let rest = row_hits(m, c, i, j + 1);
        if m[i][j] == c {
            let q0: Seq<usize> = seq![i as usize, j as usize];
            assert forall|q: Seq<usize>| #[trigger]
                row_hits(m, c, i, j).contains(q) implies (pos_char(m, c, q) && q[0] == i && j
                <= q[1]) by {
                lemma_concat_contains(seq![q0], rest, q);
                if seq![q0].contains(q) {
                    assert(seq![q0][0] == q0);
                    let t = choose|t: int| 0 <= t < 1 && seq![q0][t] == q;
                    assert(q == q0);
                    assert(q0[0] == i as usize && q0[1] == j as usize);
                    assert(q0[0] as int == i && q0[1] as int == j);
                    assert(pos_char(m, c, q0));
                }
            }
            assert forall|q: Seq<usize>|
                (pos_char(m, c, q) && q[0] == i && j <= q[1]) implies #[trigger] row_hits(
                m,
                c,
                i,
                j,
            ).contains(q) by {
                lemma_concat_contains(seq![q0], rest, q);
                if q[1] == j {
                    assert(q =~= q0);
                    assert(seq![q0][0] == q);
                }
            }
            assert(row_hits(m, c, i, j).no_duplicates()) by {
                assert forall|x: Seq<usize>| seq![q0].contains(x) implies !rest.contains(x) by {
                    assert(seq![q0][0] == q0);
                    let t = choose|t: int| 0 <= t < 1 && seq![q0][t] == x;
                }
                lemma_concat_nodup(seq![q0], rest);
            }
        } else {
            assert forall|q: Seq<usize>|
                (pos_char(m, c, q) && q[0] == i && j <= q[1]) implies #[trigger] row_hits(
                m,
                c,
                i,
                j,
            ).contains(q) by {
                assert(q[1] != j);
            }
        }
    }
}

/// Grid hits are exactly the matching cells in rows at or past `i`.
proof fn lemma_grid_hits(m: Seq<Seq<char>>, c: char, i: int)
    requires
        0 <= i,
        m.len() <= usize::MAX,
        forall|t: int| 0 <= t < m.len() ==> (#[trigger] m[t]).len() <= usize::MAX,
    ensures
        forall|q: Seq<usize>|
            #[trigger] grid_hits(m, c, i).contains(q) <==> (pos_char(m, c, q) && i <= q[0]),
        grid_hits(m, c, i).no_duplicates(),
    decreases m.len() - i,
{
    if i < m.len() {
        lemma_grid_hits(m, c, i + 1);
        lemma_row_hits(m, c, i, 0);
        let a = row_hits(m, c, i, 0);
        let b = grid_hits(m, c, i + 1);
        assert forall|q: Seq<usize>| #[trigger]
            grid_hits(m, c, i).contains(q) implies (pos_char(m, c, q) && i <= q[0]) by {
            lemma_concat_contains(a, b, q);
        }
        assert forall|q: Seq<usize>|
            (pos_char(m, c, q) && i <= q[0]) implies #[trigger] grid_hits(m, c, i).contains(q) by {
            lemma_concat_contains(a, b, q);
        }
        assert(grid_hits(m, c, i).no_duplicates()) by {
            assert forall|x: Seq<usize>| a.contains(x) implies !b.contains(x) by {}
            lemma_concat_nodup(a, b);
        }
    }
}

/// All positions of the matrix holding `c`, row-major.
#[verifier::loop_isolation(false)]
pub fn compute_position_list(c: char, matrix: &Vec2d) -> (r: VecPos)
    ensures
        r.deep_view() == grid_hits(matrix.deep_view(), c, 0),
{
    let ghost m = matrix.deep_view();
    proof {
        assert(forall|t: int| 0 <= t < m.len() ==> #[trigger] m[t] == matrix@[t]@);
        assert(m.len() == matrix@.len());
        assert forall|t: int| 0 <= t < m.len() implies (#[trigger] m[t]).len() <= usize::MAX by {
            assert(m[t].len() == matrix@[t].len());
        }
    }
    let mut r: VecPos = Vec::new();
    let mut i: usize = 0;
    while i < matrix.len()
        invariant
            i <= m.len(),
            r.deep_view() + grid_hits(m, c, i as int) =~~= grid_hits(m, c, 0),
        decreases m.len() - i,
    {
        let row = &matrix[i];
        let mut j: usize = 0;
        while j < row.len()
            invariant
                j <= row@.len(),
                row@ == m[i as int],
                r.deep_view() + row_hits(m, c, i as int, j as int) + grid_hits(m, c, i as int + 1)
                    =~~= grid_hits(m, c, 0),
            decreases row@.len() - j,
        {
            let ghost rv = r.deep_view();
            if row[j] == c {
                r.push([i, j]);
                proof {
                    assert(r.deep_view() =~~= rv.push(seq![i, j]));
                    assert(rv.push(seq![i, j]) =~~= rv + seq![seq![i as usize, j as usize]]);
                    assert(row_hits(m, c, i as int, j as int) == seq![
                        seq![i as usize, j as usize],
                    ] + row_hits(m, c, i as int, j as int + 1));
                    assert(r.deep_view() + row_hits(m, c, i as int, j as int + 1) + grid_hits(
                        m,
                        c,
                        i as int + 1,
                    ) =~~= rv + row_hits(m, c, i as int, j as int) + grid_hits(m, c, i as int + 1));
                }
            }
            j = j + 1;
        }
        proof {
            assert(row_hits(m, c, i as int, row@.len() as int) =~~= Seq::<Seq<usize>>::empty());
            assert(r.deep_view() + grid_hits(m, c, i as int + 1) =~~= r.deep_view() + row_hits(
                m,
                c,
                i as int,
                row@.len() as int,
            ) + grid_hits(m, c, i as int + 1));
        }
        i = i + 1;
    }
    proof {
        assert(grid_hits(m, c, m.len() as int) =~~= Seq::<Seq<usize>>::empty());
        assert(r.deep_view() =~~= r.deep_view() + grid_hits(m, c, i as int));
    }
    r
}

/// One position list per character of the word.
pub fn compute_all_position_lists(word: &Word, matrix: &Vec2d) -> (r: VecVecPos)
    ensures
        r.deep_view().len() == word@.len(),
        forall|t: int|
            0 <= t < word@.len() ==> #[trigger] r.deep_view()[t] == grid_hits(
                matrix.deep_view(),
                word@[t],
                0,
            ),
{
    let mut r: VecVecPos = Vec::new();
    let mut i: usize = 0;
    #[verifier::loop_isolation(false)]
    while i < word.len()
        invariant
            i <= word@.len(),
            r.deep_view().len() == i,
            forall|t: int|
                0 <= t < i ==> #[trigger] r.deep_view()[t] == grid_hits(
                    matrix.deep_view(),
                    word@[t],
                    0,
                ),
        decreases word@.len() - i,
    {
        let ghost rv = r.deep_view();
        let c = word[i];
        let lst = compute_position_list(c, matrix);
        let ghost lv = lst.deep_view();
        r.push(lst);
        proof {
            assert(r.deep_view() =~~= rv.push(lv));
        }
        i = i + 1;
    }
    r
}

/// Whether the two positions are horizontal or vertical neighbours (a
/// sentinel row of `usize::MAX` on either side counts as a neighbour of
/// everything).
pub fn are_neighbors(pos1: &Pos, pos2: &Pos) -> (r: bool)
    ensures
        r == ws_neighbors(pos1@, pos2@),
{
    if pos1[0] == usize::MAX || pos2[0] == usize::MAX {
        return true;
    }
    let d1 = if pos1[0] >= pos2[0] {
        pos1[0] - pos2[0]
    } else {
        pos2[0] - pos1[0]
    };
    let d2 = if pos1[1] >= pos2[1] {
        pos1[1] - pos2[1]
    } else {
        pos2[1] - pos1[1]
    };
    (d1 == 0 && d2 == 1) || (d1 == 1 && d2 == 0)
}

/// Whether the path already visits the position.
fn contains_pos(path: &VecPos, pos: &Pos) -> (r: bool)
    ensures
        r == path.deep_view().contains(pos@),
{
    let mut i: usize = 0;
    #[verifier::loop_isolation(false)]
    while i < path.len()
        invariant
            i <= path@.len(),
            forall|t: int| 0 <= t < i ==> #[trigger] path.deep_view()[t] != pos@,
        decreases path@.len() - i,
    {
        if path[i][0] == pos[0] && path[i][1] == pos[1] {
            proof {
                assert(path.deep_view()[i as int] =~= pos@);
            }
            return true;
        }
        proof {
            assert(path.deep_view()[i as int][0] == path@[i as int]@[0]);
        }
        i = i + 1;
    }
    false
}

/// Copies a position list.
fn clone_positions(v: &VecPos) -> (r: VecPos)
    ensures
        r@ == v@,
{
    let mut r: VecPos = Vec::new();
    let mut i: usize = 0;
    #[verifier::loop_isolation(false)]
    while i < v.len()
        invariant
            i <= v@.len(),
            r@ =~= v@.take(i as int),
        decreases v@.len() - i,
    {
        let p = v[i];
        r.push(p);
        proof {
            assert(r@ =~= v@.take(i as int + 1));
        }
        i = i + 1;
    }
    proof {
        assert(v@.take(v@.len() as int) =~= v@);
    }
    r
}

/// `w` completes the path under construction into a full match of the
/// word: it extends `base`, every later cell is in bounds and spells the
/// word, consecutive later cells are neighbours, and no cell repeats.
pub open spec fn ws_completes(
    m: Seq<Seq<char>>,
    word: Seq<char>,
    base: Seq<Seq<usize>>,
    w: Seq<Seq<usize>>,
) -> bool {
    &&& w.len() == word.len()
    &&& base.len() <= word.len()
    &&& w.take(base.len() as int) == base
    &&& forall|t: int| base.len() <= t < w.len() ==> pos_char(m, word[t], #[trigger] w[t])
    &&& forall|t: int|
        base.len() <= t < w.len() && t >= 1 ==> ws_neighbors(#[trigger] w[t], w[t - 1])
    &&& w.no_duplicates()
}

/// A completion through next cell `q` is exactly a completion of the
/// extended path from the next word position.
proof fn lemma_ws_bridge(
    m: Seq<Seq<char>>,
    word: Seq<char>,
    base: Seq<Seq<usize>>,
    q: Seq<usize>,
    w: Seq<Seq<usize>>,
)
    requires
        base.len() < word.len(),
        pos_char(m, word[base.len() as int], q),
        !base.contains(q),
        base.len() >= 1 ==> ws_neighbors(q, base.last()),
    ensures
        ws_completes(m, word, base.push(q), w) <==> (ws_completes(m, word, base, w) && w[base.len() as int]
            == q),
{
    let n = base.len() as int;
    let base1 = base.push(q);
    if ws_completes(m, word, base, w) && w[n] == q {
        assert(w.take(n + 1) =~= base1) by {
            assert(forall|t: int| 0 <= t < n ==> w[t] == #[trigger] w.take(n)[t]);
        }
        assert(ws_completes(m, word, base1, w));
    }
    if ws_completes(m, word, base1, w) {
        assert(w.take(n) =~= base) by {
            assert(forall|t: int| 0 <= t < n + 1 ==> w[t] == #[trigger] w.take(n + 1)[t]);
        }
        assert(w[n] == base1[n]);
        assert forall|t: int| n <= t < w.len() implies pos_char(m, word[t], #[trigger] w[t]) by {
            if t == n {
                assert(w[t] == q);
            }
        }
        assert forall|t: int|
            n <= t < w.len() && t >= 1 implies ws_neighbors(#[trigger] w[t], w[t - 1]) by {
            if t == n {
                assert(w[t - 1] == base1[n - 1]);
                assert(base1[n - 1] == base.last());
            }
        }
        assert(ws_completes(m, word, base, w) && w[n] == q);
    }
}

/// Backtracking search: appends to `result`, exactly once each, every full
/// match of the word that extends the path under construction.
#[verifier::loop_isolation(false)]
#[verifier::rlimit(60)]
pub fn recursive_search(
    idx: usize,
    path: &mut VecPos,
    word: &Word,
    matrix: &Vec2d,
    all_pos: &VecVecPos,
    result: &mut VecVecPos,
)
    requires
        idx as int == old(path)@.len(),
        idx <= word@.len(),
        all_pos.deep_view().len() == word@.len(),
        forall|t: int|
            0 <= t < word@.len() ==> #[trigger] all_pos.deep_view()[t] == grid_hits(
                matrix.deep_view(),
                word@[t],
                0,
            ),
        old(path).deep_view().no_duplicates(),
    ensures
        final(path)@ == old(path)@,
        final(result)@.len() >= old(result)@.len(),
        final(result).deep_view().take(old(result)@.len() as int) == old(result).deep_view(),
        forall|w: Seq<Seq<usize>>|
            #[trigger] final(result).deep_view().skip(old(result)@.len() as int).contains(w) <==> ws_completes(
                matrix.deep_view(),
                word@,
                old(path).deep_view(),
                w,
            ),
        final(result).deep_view().skip(old(result)@.len() as int).no_duplicates(),
    decreases word@.len() - idx,
{
    let ghost m = matrix.deep_view();
    let ghost base = old(path).deep_view();
    let ghost n0 = old(result)@.len() as int;
    let ghost rb = result.deep_view();
    proof {
        assert(rb.len() == n0);
        assert(rb.take(n0) =~~= rb);
    }
    if idx >= word.len() {
        let w = clone_positions(path);
        let ghost wv = w.deep_view();
        result.push(w);
        proof {
            assert(wv =~~= base);
            assert(result.deep_view() =~~= rb.push(wv));
            let added = result.deep_view().skip(n0);
            assert(added =~~= seq![wv]);
            assert(base.take(base.len() as int) =~= base);
            assert(ws_completes(m, word@, base, base));
            assert forall|w2: Seq<Seq<usize>>|
                ws_completes(m, word@, base, w2) implies w2 == base by {
                assert(w2.take(base.len() as int) =~= w2);
            }
            assert forall|w2: Seq<Seq<usize>>| #[trigger] added.contains(w2) implies ws_completes(
                m,
                word@,
                base,
                w2,
            ) by {
                let t = choose|t: int| 0 <= t < added.len() && added[t] == w2;
                assert(added[0] == wv);
            }
            assert forall|w2: Seq<Seq<usize>>|
                ws_completes(m, word@, base, w2) implies #[trigger] added.contains(w2) by {
                assert(added[0] == wv);
            }
            assert(result.deep_view().take(n0) =~~= rb);
        }
        return ;
    }
    let candidates = &all_pos[idx];
    let ghost cands = all_pos.deep_view()[idx as int];
    proof {
        assert(candidates.deep_view() == cands);
        assert(forall|t: int| 0 <= t < m.len() ==> #[trigger] m[t] == matrix@[t]@);
        assert(m.len() == matrix@.len());
        assert(matrix@.len() <= usize::MAX) by {
            assert(matrix@.len() == matrix.len());
        }
        assert forall|t: int| 0 <= t < m.len() implies (#[trigger] m[t]).len() <= usize::MAX by {
            assert(m[t].len() == matrix@[t].len());
        }
        lemma_grid_hits(m, word@[idx as int], 0);
    }
    let mut k: usize = 0;
    while k < candidates.len()
        invariant
            k <= cands.len(),
            path@ == old(path)@,
            result.deep_view().len() >= n0,
            result.deep_view().take(n0) == rb,
            forall|w: Seq<Seq<usize>>|
                #[trigger] result.deep_view().skip(n0).contains(w) <==> (ws_completes(
                    m,
                    word@,
                    base,
                    w,
                ) && cands.take(k as int).contains(w[idx as int])),
            result.deep_view().skip(n0).no_duplicates(),
        decreases cands.len() - k,
    {
        let pos = candidates[k];
        let ghost q = pos@;
        proof {
            assert(candidates.deep_view()[k as int] == candidates@[k as int]@);
            assert(cands.contains(q)) by {
                assert(cands[k as int] == q);
            }
            assert(pos_char(m, word@[idx as int], q));
        }
        let pos_last: Pos = if path.len() > 0 {
            path[path.len() - 1]
        } else {
            [usize::MAX, usize::MAX]
        };
        let fresh = !contains_pos(path, &pos);
        let nb = are_neighbors(&pos, &pos_last);
        proof {
            if path@.len() > 0 {
                assert(pos_last@ == base[base.len() - 1]);
                assert(base.last() == base[base.len() - 1]);
            }
        }
        if fresh && nb {
            let ghost rpre = result.deep_view();
            path.push(pos);
            proof {
                assert(path.deep_view() =~~= base.push(q));
                crate::algo::lemma_push_nodup(base, q);
            }
            recursive_search(idx + 1, path, word, matrix, all_pos, result);
            path.pop();
            proof {
                assert(path@ =~= old(path)@);
                let dv = result.deep_view();
                let seg = dv.skip(rpre.len() as int);
                assert(dv.take(rpre.len() as int) == rpre);
                assert(dv =~~= rpre + seg);
                assert(dv.skip(n0) =~~= rpre.skip(n0) + seg);
                assert(dv.take(n0) =~~= rb);
                assert forall|w: Seq<Seq<usize>>| #[trigger]
                    dv.skip(n0).contains(w) <==> (ws_completes(m, word@, base, w) && cands.take(
                    k as int + 1,
                ).contains(w[idx as int])) by {
                    lemma_concat_contains(rpre.skip(n0), seg, w);
                    lemma_ws_bridge(m, word@, base, q, w);
                    if rpre.skip(n0).contains(w) {
                        let t = choose|t: int|
                            0 <= t < k && (#[trigger] cands.take(k as int)[t]) == w[idx as int];
                        assert(cands.take(k as int + 1)[t] == w[idx as int]);
                    } else if seg.contains(w) {
                        assert(ws_completes(m, word@, base.push(q), w));
                        assert(cands.take(k as int + 1)[k as int] == q);
                    } else if ws_completes(m, word@, base, w) && cands.take(k as int + 1).contains(
                        w[idx as int],
                    ) {
                        let t = choose|t: int|
                            0 <= t < k + 1 && (#[trigger] cands.take(k as int + 1)[t]) == w[
                                idx as int
                            ];
                        if t < k {
                            assert(cands.take(k as int)[t] == w[idx as int]);
                            assert(rpre.skip(n0).contains(w));
                        } else {
                            assert(w[idx as int] == q);
                            assert(ws_completes(m, word@, base.push(q), w));
                            assert(seg.contains(w));
                        }
                    }
                }
                assert(dv.skip(n0).no_duplicates()) by {
                    assert forall|x: Seq<Seq<usize>>|
                        rpre.skip(n0).contains(x) implies !seg.contains(x) by {
                        if seg.contains(x) {
                            lemma_ws_bridge(m, word@, base, q, x);
                            let t = choose|t: int|
                                0 <= t < k && (#[trigger] cands.take(k as int)[t]) == x[idx as int];
                            assert(cands[t] == cands[k as int]);
                        }
                    }
                    lemma_concat_nodup(rpre.skip(n0), seg);
                }
            }
        } else {
            proof {
                assert forall|w: Seq<Seq<usize>>| #[trigger]
                    result.deep_view().skip(n0).contains(w) <==> (ws_completes(m, word@, base, w)
                    && cands.take(k as int + 1).contains(w[idx as int])) by {
                    if ws_completes(m, word@, base, w) && w[idx as int] == q {
                        if !fresh {
                            // the cell already stands on the path: a repeat
                            let t = choose|t: int| 0 <= t < base.len() && base[t] == q;
                            assert(w[t] == w.take(base.len() as int)[t]);
                            assert(w[t] == w[idx as int]);
                            assert(false);
                        } else {
                            // not a neighbour of the path's last cell
                            assert(idx >= 1);
                            assert(ws_neighbors(w[idx as int], w[idx as int - 1]));
                            assert(w[idx as int - 1] == w.take(base.len() as int)[idx as int - 1]);
                            assert(false);
                        }
                    }
                    if result.deep_view().skip(n0).contains(w) {
                        let t = choose|t: int|
                            0 <= t < k && (#[trigger] cands.take(k as int)[t]) == w[idx as int];
                        assert(cands.take(k as int + 1)[t] == w[idx as int]);
                    } else if ws_completes(m, word@, base, w) && cands.take(k as int + 1).contains(
                        w[idx as int],
                    ) {
                        let t = choose|t: int|
                            0 <= t < k + 1 && (#[trigger] cands.take(k as int + 1)[t]) == w[
                                idx as int
                            ];
                        assert(t < k || w[idx as int] == q);
                        if t < k {
                            assert(cands.take(k as int)[t] == w[idx as int]);
                        }
                    }
                }
            }
        }
        k = k + 1;
    }
    proof {
        assert(cands.take(cands.len() as int) =~~= cands);
        assert forall|w: Seq<Seq<usize>>| #[trigger]
            result.deep_view().skip(n0).contains(w) <==> ws_completes(m, word@, base, w) by {
            if ws_completes(m, word@, base, w) {
                assert(pos_char(m, word@[idx as int], w[idx as int]));
                assert(cands.contains(w[idx as int]));
            }
        }
    }
}

/// Every path of neighbouring, pairwise-distinct cells that spells the
/// word, each found exactly once.
pub fn search_word_in_matrix(word: &Word, matrix: &Vec2d) -> (r: VecVecPos)
    ensures
        forall|w: Seq<Seq<usize>>|
            #[trigger] r.deep_view().contains(w) <==> ws_completes(
                matrix.deep_view(),
                word@,
                Seq::empty(),
                w,
            ),
        r.deep_view().no_duplicates(),
{
    let idx: usize = 0;
    let mut path: VecPos = Vec::new();
    let all_pos = compute_all_position_lists(word, matrix);
    let mut result: VecVecPos = Vec::new();
    let ghost p0 = path.deep_view();
    proof {
        assert(p0 =~~= Seq::<Seq<usize>>::empty());
    }
    recursive_search(idx, &mut path, word, matrix, &all_pos, &mut result);
    proof {
        assert(result.deep_view().skip(0) =~~= result.deep_view());
    }
    result
}

} // verus!
