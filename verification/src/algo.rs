//! Graph traversal: reachability and path discovery over the graph store,
//! by depth-first backtracking with a visited set.  The visited set makes
//! the search terminate on cyclic graphs; the proofs below show that a
//! failed search really means that no walk exists.

use vstd::prelude::*;
use vstd::set_lib::lemma_len_subset;

use crate::graph::Graph;
use crate::graphtraits::{edge_between, is_simple_path, is_walk, reaches, walk_from_to, EdgeId,
    EdgeTriplet, GraphAlgo, GraphCrud, NodeId, Path};

verus! {

/// Every edge leaving `u` has been examined: none leads to `to`, and each
/// destination is already visited or is not a live node.
pub open spec fn fully_expanded(
    live: Set<NodeId>,
    edges: Map<EdgeId, EdgeTriplet>,
    vs: Seq<NodeId>,
    u: NodeId,
    to: NodeId,
) -> bool {
    forall|e: EdgeId| #[trigger]
        edges.contains_key(e) && edges[e].0 == u ==> edges[e].1 != to && (vs.contains(edges[e].1)
            || !live.contains(edges[e].1))
}

/// Membership survives a push.
pub(crate) proof fn lemma_push_contains(s: Seq<NodeId>, x: NodeId, y: NodeId)
    requires
        s.contains(y),
    ensures
        s.push(x).contains(y),
{
    let m = choose|m: int| 0 <= m < s.len() && s[m] == y;
    assert(s.push(x)[m] == y);
}

/// Sequences without duplicates grow in length with set inclusion.
pub(crate) proof fn lemma_nodup_len(a: Seq<NodeId>, b: Seq<NodeId>)
    requires
        a.no_duplicates(),
        b.no_duplicates(),
        forall|k: NodeId| a.contains(k) ==> b.contains(k),
    ensures
        a.len() <= b.len(),
{
    a.unique_seq_to_set();
    b.unique_seq_to_set();
    assert(a.to_set().subset_of(b.to_set()));
    vstd::seq_lib::seq_to_set_is_finite(b);
    lemma_len_subset(a.to_set(), b.to_set());
}

/// A sequence without duplicates whose elements lie in a finite set is no
/// longer than the set's size.
proof fn lemma_nodup_in_set_len(a: Seq<NodeId>, s: Set<NodeId>)
    requires
        a.no_duplicates(),
        s.finite(),
        forall|k: NodeId| a.contains(k) ==> s.contains(k),
    ensures
        a.len() <= s.len(),
{
    a.unique_seq_to_set();
    assert(a.to_set().subset_of(s));
    lemma_len_subset(a.to_set(), s);
}

/// A walk that starts inside a set of fully-expanded nodes never ends at
/// `to`: each step stays inside the set, and no member has an edge to `to`.
proof fn lemma_closed_set_blocks(
    live: Set<NodeId>,
    edges: Map<EdgeId, EdgeTriplet>,
    vs: Seq<NodeId>,
    to: NodeId,
    w: Seq<NodeId>,
)
    requires
        forall|u: NodeId| #[trigger] vs.contains(u) ==> fully_expanded(live, edges, vs, u, to),
        !vs.contains(to),
        is_walk(live, edges, w),
        vs.contains(w.first()),
    ensures
        w.last() != to,
    decreases w.len(),
{
    if w.len() == 1 {
        assert(w.last() == w.first());
    } else {
        assert(live.contains(w[0]) && edge_between(edges, w[0], w[1]));
        let e = choose|e: EdgeId| #[trigger]
            edges.contains_key(e) && edges[e].0 == w[0] && edges[e].1 == w[1];
        assert(fully_expanded(live, edges, vs, w[0], to));
        assert(edges[e].1 != to && (vs.contains(w[1]) || !live.contains(w[1])));
        if w.len() == 2 {
            assert(w.last() == w[1]);
        } else {
            assert(live.contains(w[1]));
            let w2 = w.drop_first();
            assert(is_walk(live, edges, w2)) by {
                assert forall|i: int| 0 <= i < w2.len() - 1 implies live.contains(#[trigger] w2[i])
                    && edge_between(edges, w2[i], w2[i + 1]) by {
                    assert(w2[i] == w[i + 1]);
                    assert(w2[i + 1] == w[i + 2]);
                }
            }
            assert(w2.first() == w[1]);
            assert(w2.last() == w.last());
            lemma_closed_set_blocks(live, edges, vs, to, w2);
        }
    }
}

/// After a failed search whose visited set is fully expanded, the target is
/// unreachable from the start node.
proof fn lemma_search_complete(
    live: Set<NodeId>,
    edges: Map<EdgeId, EdgeTriplet>,
    vs: Seq<NodeId>,
    from: NodeId,
    to: NodeId,
)
    requires
        forall|u: NodeId| #[trigger] vs.contains(u) ==> fully_expanded(live, edges, vs, u, to),
        !vs.contains(to),
        from != to,
        live.contains(from) ==> vs.contains(from),
    ensures
        !reaches(live, edges, from, to),
{
    if reaches(live, edges, from, to) {
        let w = choose|w: Seq<NodeId>| walk_from_to(live, edges, w, from, to);
        if w.len() == 1 {
            assert(w.first() == w.last());
        } else {
            assert(live.contains(w[0]));
            lemma_closed_set_blocks(live, edges, vs, to, w);
        }
    }
}

/// Prepending a live node with an edge into a walk's first node keeps it a
/// walk.
proof fn lemma_walk_prepend(
    live: Set<NodeId>,
    edges: Map<EdgeId, EdgeTriplet>,
    w: Seq<NodeId>,
    c: NodeId,
    a: NodeId,
    b: NodeId,
)
    requires
        walk_from_to(live, edges, w, a, b),
        live.contains(c),
        edge_between(edges, c, a),
    ensures
        walk_from_to(live, edges, seq![c] + w, c, b),
{
    let v = seq![c] + w;
    assert forall|i: int| 0 <= i < v.len() - 1 implies live.contains(#[trigger] v[i])
        && edge_between(edges, v[i], v[i + 1]) by {
        if i == 0 {
            assert(v[0] == c);
            assert(v[1] == w[0]);
        } else {
            assert(v[i] == w[i - 1]);
            assert(v[i + 1] == w[i]);
        }
    }
    assert(v.first() == c);
    assert(v.last() == w.last());
}

/// Concatenation holds an element exactly when one of the parts does.
pub(crate) proof fn lemma_concat_contains<A>(a: Seq<A>, b: Seq<A>, x: A)
    ensures
        (a + b).contains(x) <==> a.contains(x) || b.contains(x),
{
    if a.contains(x) {
        let m = choose|m: int| 0 <= m < a.len() && a[m] == x;
        assert((a + b)[m] == x);
    }
    if b.contains(x) {
        let m = choose|m: int| 0 <= m < b.len() && b[m] == x;
        assert((a + b)[a.len() + m] == x);
    }
    if (a + b).contains(x) {
        let m = choose|m: int| 0 <= m < (a + b).len() && (a + b)[m] == x;
        if m < a.len() {
            assert(a[m] == x);
        } else {
            assert(b[m - a.len()] == x);
        }
    }
}

/// Concatenating duplicate-free sequences with no common element stays
/// duplicate-free.
pub(crate) proof fn lemma_concat_nodup<A>(a: Seq<A>, b: Seq<A>)
    requires
        a.no_duplicates(),
        b.no_duplicates(),
        forall|x: A| a.contains(x) ==> !b.contains(x),
    ensures
        (a + b).no_duplicates(),
{
    assert forall|i: int, j: int| 0 <= i < j < (a + b).len() implies (a + b)[i] != (a + b)[j] by {
        if i < a.len() && j >= a.len() {
            assert(a.contains(a[i]));
            if (a + b)[i] == (a + b)[j] {
                assert(b[j - a.len()] == a[i]);
                assert(b.contains(a[i]));
            }
        }
    }
}

/// Pushing a fresh element keeps a sequence duplicate-free.
pub(crate) proof fn lemma_push_nodup<A>(s: Seq<A>, x: A)
    requires
        s.no_duplicates(),
        !s.contains(x),
    ensures
        s.push(x).no_duplicates(),
{
    assert forall|i: int, j: int| 0 <= i < j < s.push(x).len() implies s.push(x)[i] != s.push(
        x,
    )[j] by {
        if j == s.len() {
            assert(s.contains(s[i]));
        }
    }
}

/// Dropping the first node of a walk of two or more nodes leaves a walk.
proof fn lemma_walk_drop_first(live: Set<NodeId>, edges: Map<EdgeId, EdgeTriplet>, w: Seq<NodeId>)
    requires
        is_walk(live, edges, w),
        w.len() >= 2,
    ensures
        is_walk(live, edges, w.drop_first()),
{
    let w2 = w.drop_first();
    assert forall|i: int| 0 <= i < w2.len() - 1 implies live.contains(#[trigger] w2[i])
        && edge_between(edges, w2[i], w2[i + 1]) by {
        assert(w2[i] == w[i + 1]);
        assert(w2[i + 1] == w[i + 2]);
    }
}

/// `w` completes the path under construction: it extends `base` by a
/// simple walk that starts at `cur` and ends at `to`, and repeats no node.
spec fn completes(
    live: Set<NodeId>,
    edges: Map<EdgeId, EdgeTriplet>,
    base: Seq<NodeId>,
    cur: NodeId,
    to: NodeId,
    w: Seq<NodeId>,
) -> bool {
    &&& w.len() > base.len()
    &&& w.take(base.len() as int) == base
    &&& w[base.len() as int] == cur
    &&& w.last() == to
    &&& is_walk(live, edges, w.skip(base.len() as int))
    &&& w.no_duplicates()
}

/// A completion through a next node `d` is exactly a completion of the
/// extended base from `d`.
proof fn lemma_completes_bridge(
    live: Set<NodeId>,
    edges: Map<EdgeId, EdgeTriplet>,
    base: Seq<NodeId>,
    cur: NodeId,
    d: NodeId,
    to: NodeId,
    w: Seq<NodeId>,
)
    requires
        live.contains(cur),
        edge_between(edges, cur, d),
    ensures
        completes(live, edges, base.push(cur), d, to, w) <==> (completes(
            live,
            edges,
            base,
            cur,
            to,
            w,
        ) && w.len() > base.len() + 1 && w[base.len() as int + 1] == d),
{
    let base1 = base.push(cur);
    let n = base.len() as int;
    if completes(live, edges, base, cur, to, w) && w.len() > base.len() + 1 && w[n + 1] == d {
        assert(w.take(n + 1) =~= base1) by {
            assert(forall|i: int| 0 <= i < n ==> w[i] == #[trigger] w.take(n)[i]);
        }
        let ext = w.skip(n);
        let ext1 = w.skip(n + 1);
        assert(ext1 =~= ext.drop_first());
        assert(ext.len() >= 2);
        lemma_walk_drop_first(live, edges, ext);
        assert(ext1[0] == w[n + 1]);
        assert(completes(live, edges, base1, d, to, w));
    }
    if completes(live, edges, base1, d, to, w) {
        assert(w.take(n) =~= base) by {
            assert(forall|i: int| 0 <= i < n + 1 ==> w[i] == #[trigger] w.take(n + 1)[i]);
        }
        assert(w[n] == base1[n]);
        let ext = w.skip(n);
        let ext1 = w.skip(n + 1);
        assert(ext =~= seq![cur] + ext1);
        assert(is_walk(live, edges, ext)) by {
            assert forall|i: int| 0 <= i < ext.len() - 1 implies live.contains(#[trigger] ext[i])
                && edge_between(edges, ext[i], ext[i + 1]) by {
                if i == 0 {
                    assert(ext[0] == cur);
                    assert(ext[1] == ext1[0]);
                    assert(ext1[0] == d);
                } else {
                    assert(ext[i] == ext1[i - 1]);
                    assert(ext[i + 1] == ext1[i]);
                }
            }
        }
        assert(w.last() == to);
        assert(completes(live, edges, base, cur, to, w) && w.len() > base.len() + 1 && w[n + 1]
            == d);
    }
}

/// Copies a vector of identifiers.
fn clone_ids(v: &Vec<usize>) -> (r: Vec<usize>)
    ensures
        r@ == v@,
{
    let mut r: Vec<usize> = Vec::new();
    let mut i: usize = 0;
    while i < v.len()
        invariant
            i <= v@.len(),
            r@ == v@.take(i as int),
        decreases v@.len() - i,
    {
        let x = v[i];
        r.push(x);
        proof {
            assert(r@ =~= v@.take(i as int + 1));
        }
        i = i + 1;
    }
    proof {
        assert(v@.take(v@.len() as int) =~= v@);
    }
    r
}

/// Whether the vector holds the given identifier.
fn vec_contains(v: &Vec<usize>, x: usize) -> (r: bool)
    ensures
        r == v@.contains(x),
{
    let mut i: usize = 0;
    while i < v.len()
        invariant
            i <= v@.len(),
            forall|j: int| 0 <= j < i ==> v@[j] != x,
        decreases v@.len() - i,
    {
        if v[i] == x {
            return true;
        }
        i = i + 1;
    }
    false
}

impl<T> Graph<T> {
    /// One backtracking depth-first step: returns whether `to` can be
    /// reached from `cur`.  `visited` holds every node already expanded in
    /// this query (it only grows); `trail` accumulates the successful walk,
    /// without its final node.
    #[verifier::loop_isolation(false)]
    fn search_step(
        &self,
        cur: NodeId,
        to: NodeId,
        visited: &mut Vec<NodeId>,
        trail: &mut Vec<NodeId>,
    ) -> (found: bool)
        requires
            self.wf(),
            old(visited)@.no_duplicates(),
            forall|k: NodeId| old(visited)@.contains(k) ==> self.nodes().dom().contains(k),
            !old(visited)@.contains(to),
        ensures
            final(visited)@.no_duplicates(),
            forall|k: NodeId| final(visited)@.contains(k) ==> self.nodes().dom().contains(k),
            !final(visited)@.contains(to),
            forall|k: NodeId| old(visited)@.contains(k) ==> final(visited)@.contains(k),
            !found ==> forall|u: NodeId|
                #[trigger] final(visited)@.contains(u) && !old(visited)@.contains(u)
                    ==> fully_expanded(self.nodes().dom(), self.edges(), final(visited)@, u, to),
            !found ==> cur != to,
            !found ==> (final(visited)@.contains(cur) || !self.nodes().dom().contains(cur)),
            !found ==> final(trail)@ == old(trail)@,
            found ==> final(trail)@.len() >= old(trail)@.len() && final(trail)@.take(
                old(trail)@.len() as int,
            ) == old(trail)@ && walk_from_to(
                self.nodes().dom(),
                self.edges(),
                final(trail)@.skip(old(trail)@.len() as int).push(to),
                cur,
                to,
            ),
        decreases self.nodes().dom().len() - old(visited)@.len(),
    {
        let ghost live = self.nodes().dom();
        let ghost edges = self.edges();
        if cur == to {
            proof {
                let w = trail@.skip(old(trail)@.len() as int).push(to);
                assert(w =~= seq![to]);
                assert(walk_from_to(live, edges, w, cur, to));
            }
            return true;
        }
        if vec_contains(visited, cur) {
            return false;
        }
        let edges_opt = self.find_edges_from(cur);
        match edges_opt {
            None => false,
            Some(eids) => {
                visited.push(cur);
                trail.push(cur);
                let ghost v0 = old(visited)@;
                let ghost v1 = v0.push(cur);
                let ghost t1 = old(trail)@.push(cur);
                proof {
                    assert(visited@ == v1);
                    assert(trail@ == t1);
                    assert forall|x: NodeId| visited@.contains(x) implies live.contains(x) by {
                        let m = choose|m: int| 0 <= m < v1.len() && v1[m] == x;
                        if m < v0.len() {
                            assert(v0.contains(x));
                        }
                    }
                    assert(visited@.no_duplicates());
                    assert(!visited@.contains(to)) by {
                        if visited@.contains(to) {
                            let m = choose|m: int| 0 <= m < v1.len() && v1[m] == to;
                            assert(m < v0.len() ==> v0.contains(to));
                        }
                    }
                }
                let mut k: usize = 0;
                while k < eids.len()
                    invariant
                        k <= eids@.len(),
                        visited@.no_duplicates(),
                        forall|x: NodeId| visited@.contains(x) ==> live.contains(x),
                        !visited@.contains(to),
                        forall|x: NodeId| v1.contains(x) ==> visited@.contains(x),
                        trail@ == t1,
                        forall|u: NodeId|
                            #[trigger] visited@.contains(u) && !v1.contains(u) ==> fully_expanded(
                                live,
                                edges,
                                visited@,
                                u,
                                to,
                            ),
                        forall|m: int|
                            0 <= m < k ==> edges[eids@[m]].1 != to && (visited@.contains(
                                #[trigger] edges[eids@[m]].1,
                            ) || !live.contains(edges[eids@[m]].1)),
                    decreases eids@.len() - k,
                {
                    let eid = eids[k];
                    assert(eids@.contains(eid));
                    let t_opt = self.get_edge(eid);
                    let t = match t_opt {
                        Some(t) => t,
                        None => EdgeTriplet(0, 0, 0),
                    };
                    assert(t == edges[eid]);
                    let dest = t.1;
                    let ghost vb = visited@;
                    proof {
                        self.lemma_node_count();
                        lemma_nodup_in_set_len(vb, live);
                        lemma_nodup_len(v1, vb);
                    }
                    let found = self.search_step(dest, to, visited, trail);
                    if found {
                        proof {
                            let n = old(trail)@.len() as int;
                            let cs = trail@.skip(t1.len() as int);
                            assert(trail@.take(t1.len() as int) == t1);
                            assert(trail@ =~= t1 + cs);
                            assert(trail@.skip(n) =~= seq![cur] + cs);
                            let ours = trail@.skip(n).push(to);
                            assert(ours =~= (seq![cur] + cs).push(to));
                            assert((seq![cur] + cs).push(to) =~= seq![cur] + cs.push(to));
                            assert(live.contains(cur));
                            assert(edge_between(edges, cur, dest)) by {
                                assert(edges.contains_key(eid) && edges[eid].0 == cur
                                    && edges[eid].1 == dest);
                            }
                            lemma_walk_prepend(live, edges, cs.push(to), cur, dest, to);
                            assert(walk_from_to(live, edges, ours, cur, to));
                            assert(trail@.take(n) =~= old(trail)@);
                            assert forall|x: NodeId| old(visited)@.contains(x)
                                implies visited@.contains(x) by {
                                lemma_push_contains(v0, cur, x);
                                assert(v1.contains(x));
                                assert(vb.contains(x));
                            }
                        }
                        return true;
                    }
                    proof {
                        assert forall|u: NodeId|
                            #[trigger] visited@.contains(u) && !v1.contains(u)
                                implies fully_expanded(live, edges, visited@, u, to) by {
                            if vb.contains(u) {
                                assert(fully_expanded(live, edges, vb, u, to));
                                assert forall|e: EdgeId| #[trigger]
                                    edges.contains_key(e) && edges[e].0 == u implies edges[e].1
                                    != to && (visited@.contains(edges[e].1) || !live.contains(
                                    edges[e].1,
                                )) by {
                                    assert(edges[e].1 != to && (vb.contains(edges[e].1)
                                        || !live.contains(edges[e].1)));
                                }
                            }
                        }
                        assert forall|m: int|
                            0 <= m < k + 1 implies edges[eids@[m]].1 != to && (visited@.contains(
                            #[trigger] edges[eids@[m]].1,
                        ) || !live.contains(edges[eids@[m]].1)) by {
                            if m < k {
                                assert(vb.contains(edges[eids@[m]].1) || !live.contains(
                                    edges[eids@[m]].1,
                                ));
                            } else {
                                assert(edges[eids@[m]].1 == dest);
                            }
                        }
                    }
                    k = k + 1;
                }
                trail.pop();
                proof {
                    assert(trail@ =~= old(trail)@);
                    assert(v1[v1.len() - 1] == cur);
                    assert(v1.contains(cur));
                    assert(visited@.contains(cur));
                    assert forall|x: NodeId| old(visited)@.contains(x) implies visited@.contains(
                        x,
                    ) by {
                        lemma_push_contains(v0, cur, x);
                        assert(v1.contains(x));
                    }
                    assert(fully_expanded(live, edges, visited@, cur, to)) by {
                        assert forall|e: EdgeId| #[trigger]
                            edges.contains_key(e) && edges[e].0 == cur implies edges[e].1 != to && (
                        visited@.contains(edges[e].1) || !live.contains(edges[e].1)) by {
                            assert(eids@.contains(e));
                            let m = choose|m: int| 0 <= m < eids@.len() && eids@[m] == e;
                        }
                    }
                    assert forall|u: NodeId|
                        #[trigger] visited@.contains(u) && !v0.contains(u) implies fully_expanded(
                        live,
                        edges,
                        visited@,
                        u,
                        to,
                    ) by {
                        if u != cur {
                            assert(!v1.contains(u) ==> fully_expanded(live, edges, visited@, u, to));
                            if v1.contains(u) {
                                assert(v1[v1.len() - 1] == cur);
                                let m = choose|m: int| 0 <= m < v1.len() && v1[m] == u;
                                assert(v0[m] == u);
                            }
                        }
                    }
                }
                false
            },
        }
    }

    /// Backtracking enumeration: appends to `result`, exactly once each,
    /// every node sequence that extends the path under construction
    /// (`prefix`) by a simple walk from `cur` to `to` repeating no node of
    /// the whole path.
    #[verifier::loop_isolation(false)]
    fn enum_paths(&self, cur: NodeId, to: NodeId, prefix: &mut Vec<NodeId>, result: &mut Vec<Path>)
        requires
            self.wf(),
            old(prefix)@.no_duplicates(),
            !old(prefix)@.contains(cur),
            forall|x: NodeId| old(prefix)@.contains(x) ==> self.nodes().dom().contains(x),
        ensures
            final(prefix)@ == old(prefix)@,
            final(result)@.len() >= old(result)@.len(),
            final(result).deep_view().take(old(result)@.len() as int) == old(result).deep_view(),
            forall|w: Seq<NodeId>|
                #[trigger] final(result).deep_view().skip(old(result)@.len() as int).contains(w)
                    <==> completes(self.nodes().dom(), self.edges(), old(prefix)@, cur, to, w),
            final(result).deep_view().skip(old(result)@.len() as int).no_duplicates(),
        decreases self.nodes().dom().len() - old(prefix)@.len(),
    {
        let ghost live = self.nodes().dom();
        let ghost edges = self.edges();
        let ghost base = old(prefix)@;
        let ghost n0 = old(result)@.len() as int;
        let ghost rb = result.deep_view();
        proof {
            assert(rb.len() == n0);
        }
        if cur == to {
            let mut w = clone_ids(prefix);
            w.push(to);
            let ghost wv = w@;
            result.push(w);
            proof {
                assert(wv == base.push(to));
                assert(result.deep_view() =~~= rb.push(wv)) by {
                    assert(result@.len() == rb.len() + 1);
                    assert(forall|i: int|
                        0 <= i < result@.len() ==> (#[trigger] result.deep_view()[i]) == result@[i]@);
                }
                let added = result.deep_view().skip(n0);
                assert(added =~~= seq![wv]);
                lemma_push_nodup(base, to);
                assert(wv.take(base.len() as int) =~= base);
                assert(wv.skip(base.len() as int) =~= seq![to]);
                assert(completes(live, edges, base, cur, to, wv));
                assert forall|w2: Seq<NodeId>|
                    completes(live, edges, base, cur, to, w2) implies w2 == wv by {
                    let n = base.len() as int;
                    assert(w2[n] == to && w2[w2.len() - 1] == to);
                    assert(w2.len() - 1 == n);
                    assert(w2 =~= base.push(to)) by {
                        assert(forall|i: int| 0 <= i < n ==> w2[i] == #[trigger] w2.take(n)[i]);
                    }
                }
                assert forall|w2: Seq<NodeId>| #[trigger] added.contains(w2) implies completes(
                    live,
                    edges,
                    base,
                    cur,
                    to,
                    w2,
                ) by {
                    let m = choose|m: int| 0 <= m < added.len() && added[m] == w2;
                    assert(added[0] == wv);
                }
                assert forall|w2: Seq<NodeId>|
                    completes(live, edges, base, cur, to, w2) implies #[trigger] added.contains(
                    w2,
                ) by {
                    assert(added[0] == wv);
                }
                assert(result.deep_view().take(n0) =~~= rb);
            }
            return ;
        }
        match self.find_edges_from(cur) {
            None => {
                proof {
                    assert(result.deep_view().skip(n0) =~~= Seq::<Seq<NodeId>>::empty());
                    assert forall|w: Seq<NodeId>| !completes(live, edges, base, cur, to, w) by {
                        if completes(live, edges, base, cur, to, w) {
                            let n = base.len() as int;
                            let ext = w.skip(n);
                            assert(ext[0] == w[n]);
                            if ext.len() == 1 {
                                assert(w.last() == w[n]);
                            } else {
                                assert(live.contains(ext[0]));
                            }
                        }
                    }
                    assert(result.deep_view().take(n0) =~~= rb);
                }
            },
            Some(eids) => {
                prefix.push(cur);
                let ghost base1 = base.push(cur);
                proof {
                    assert(prefix@ == base1);
                    lemma_push_nodup(base, cur);
                }
                // collect the distinct destinations of the outgoing edges
                let mut dests: Vec<NodeId> = Vec::new();
                let mut k: usize = 0;
                while k < eids.len()
                    invariant
                        k <= eids@.len(),
                        dests@.no_duplicates(),
                        forall|d: NodeId| #[trigger]
                            dests@.contains(d) ==> edge_between(edges, cur, d),
                        forall|m: int|
                            0 <= m < k ==> dests@.contains(edges[#[trigger] eids@[m]].1),
                    decreases eids@.len() - k,
                {
                    let eid = eids[k];
                    assert(eids@.contains(eid));
                    let t = match self.get_edge(eid) {
                        Some(t) => t,
                        None => EdgeTriplet(0, 0, 0),
                    };
                    assert(t == edges[eid]);
                    if !vec_contains(&dests, t.1) {
                        let ghost db = dests@;
                        proof {
                            lemma_push_nodup(db, t.1);
                        }
                        dests.push(t.1);
                        proof {
                            assert forall|d: NodeId| #[trigger] dests@.contains(d)
                                implies edge_between(edges, cur, d) by {
                                let m = choose|m: int| 0 <= m < dests@.len() && dests@[m] == d;
                                if m < db.len() {
                                    assert(db.contains(d));
                                } else {
                                    assert(d == t.1);
                                    assert(edges.contains_key(eid) && edges[eid].0 == cur
                                        && edges[eid].1 == d);
                                }
                            }
                            assert forall|m: int| 0 <= m < k + 1 implies dests@.contains(
                                edges[#[trigger] eids@[m]].1,
                            ) by {
                                if m < k {
                                    lemma_push_contains(db, t.1, edges[eids@[m]].1);
                                } else {
                                    assert(dests@[dests@.len() - 1] == t.1);
                                }
                            }
                        }
                    } else {
                        proof {
                            assert forall|m: int| 0 <= m < k + 1 implies dests@.contains(
                                edges[#[trigger] eids@[m]].1,
                            ) by {
                            }
                        }
                    }
                    k = k + 1;
                }
                proof {
                    assert forall|d: NodeId|
                        edge_between(edges, cur, d) implies dests@.contains(d) by {
                        let e = choose|e: EdgeId| #[trigger]
                            edges.contains_key(e) && edges[e].0 == cur && edges[e].1 == d;
                        assert(eids@.contains(e));
                        let m = choose|m: int| 0 <= m < eids@.len() && eids@[m] == e;
                        assert(dests@.contains(edges[eids@[m]].1));
                    }
                    assert(rb.take(n0) =~~= rb);
                }
                let ghost ds = dests@;
                let mut k2: usize = 0;
                while k2 < dests.len()
                    invariant
                        k2 <= ds.len(),
                        dests@ == ds,
                        prefix@ == base1,
                        result.deep_view().len() >= n0,
                        result.deep_view().take(n0) == rb,
                        forall|w: Seq<NodeId>|
                            #[trigger] result.deep_view().skip(n0).contains(w) <==> (completes(
                                live,
                                edges,
                                base,
                                cur,
                                to,
                                w,
                            ) && w.len() > base.len() + 1 && ds.take(k2 as int).contains(
                                w[base.len() as int + 1],
                            )),
                        result.deep_view().skip(n0).no_duplicates(),
                    decreases ds.len() - k2,
                {
                    let ghost n = base.len() as int;
                    let d = dests[k2];
                    assert(ds.contains(d));
                    if !vec_contains(prefix, d) {
                        let ghost rpre = result.deep_view();
                        proof {
                            self.lemma_node_count();
                            assert forall|x: NodeId| base1.contains(x) implies live.contains(
                                x,
                            ) by {
                                let m = choose|m: int| 0 <= m < base1.len() && base1[m] == x;
                                if m < base.len() {
                                    assert(base.contains(x));
                                }
                            }
                            lemma_nodup_in_set_len(base1, live);
                        }
                        self.enum_paths(d, to, prefix, result);
                        proof {
                            let dv = result.deep_view();
                            let seg = dv.skip(rpre.len() as int);
                            assert(dv.take(rpre.len() as int) == rpre);
                            assert(dv =~~= rpre + seg);
                            assert(dv.skip(n0) =~~= rpre.skip(n0) + seg);
                            assert(dv.take(n0) =~~= rb);
                            assert forall|w: Seq<NodeId>| #[trigger]
                                dv.skip(n0).contains(w) <==> (completes(live, edges, base, cur, to, w)
                                    && w.len() > base.len() + 1 && ds.take(k2 as int + 1).contains(
                                    w[n + 1],
                                )) by {
                                lemma_concat_contains(rpre.skip(n0), seg, w);
                                lemma_completes_bridge(live, edges, base, cur, d, to, w);
                                if rpre.skip(n0).contains(w) {
                                    let m = choose|m: int|
                                        0 <= m < k2 && (#[trigger] ds.take(k2 as int)[m]) == w[n + 1];
                                    assert(ds.take(k2 as int + 1)[m] == w[n + 1]);
                                } else if seg.contains(w) {
                                    assert(completes(live, edges, base1, d, to, w));
                                    assert(ds.take(k2 as int + 1)[k2 as int] == d);
                                } else if completes(live, edges, base, cur, to, w) && w.len() > base.len()
                                    + 1 && ds.take(k2 as int + 1).contains(w[n + 1]) {
                                    let m = choose|m: int|
                                        0 <= m < k2 + 1 && (#[trigger] ds.take(k2 as int + 1)[m]) == w[n + 1];
                                    if m < k2 {
                                        assert(ds.take(k2 as int)[m] == w[n + 1]);
                                        assert(rpre.skip(n0).contains(w));
                                    } else {
                                        assert(w[n + 1] == d);
                                        assert(completes(live, edges, base1, d, to, w));
                                        assert(seg.contains(w));
                                    }
                                }
                            }
                            assert(dv.skip(n0).no_duplicates()) by {
                                assert forall|x: Seq<NodeId>|
                                    rpre.skip(n0).contains(x) implies !seg.contains(x) by {
                                    if seg.contains(x) {
                                        lemma_completes_bridge(live, edges, base, cur, d, to, x);
                                        let m = choose|m: int|
                                            0 <= m < k2 && (#[trigger] ds.take(k2 as int)[m]) == x[n + 1];
                                        assert(ds[m] == ds[k2 as int]);
                                    }
                                }
                                lemma_concat_nodup(rpre.skip(n0), seg);
                            }
                        }
                    } else {
                        proof {
                            assert forall|w: Seq<NodeId>| #[trigger]
                                result.deep_view().skip(n0).contains(w) <==> (completes(
                                live,
                                edges,
                                base,
                                cur,
                                to,
                                w,
                            ) && w.len() > base.len() + 1 && ds.take(k2 as int + 1).contains(
                                w[n + 1],
                            )) by {
                                if completes(live, edges, base, cur, to, w) && w.len() > base.len()
                                    + 1 && w[n + 1] == d {
                                    // d already stands on the path: a repeat
                                    let m = choose|m: int| 0 <= m < base1.len() && base1[m] == d;
                                    assert(w[m] == base1[m]) by {
                                        if m < base.len() {
                                            assert(w.take(n)[m] == base[m]);
                                        }
                                    }
                                    assert(w[m] == w[n + 1]);
                                    assert(false);
                                }
                                if result.deep_view().skip(n0).contains(w) {
                                    let m = choose|m: int|
                                        0 <= m < k2 && (#[trigger] ds.take(k2 as int)[m]) == w[n + 1];
                                    assert(ds.take(k2 as int + 1)[m] == w[n + 1]);
                                } else if completes(live, edges, base, cur, to, w) && w.len()
                                    > base.len() + 1 && ds.take(k2 as int + 1).contains(w[n + 1]) {
                                    let m = choose|m: int|
                                        0 <= m < k2 + 1 && (#[trigger] ds.take(k2 as int + 1)[m]) == w[n + 1];
                                    assert(m < k2);
                                    assert(ds.take(k2 as int)[m] == w[n + 1]);
                                }
                            }
                        }
                    }
                    k2 = k2 + 1;
                }
                prefix.pop();
                proof {
                    assert(prefix@ =~= base);
                    assert(ds.take(ds.len() as int) =~= ds);
                    assert forall|w: Seq<NodeId>| #[trigger]
                        result.deep_view().skip(n0).contains(w) <==> completes(
                        live,
                        edges,
                        base,
                        cur,
                        to,
                        w,
                    ) by {
                        if completes(live, edges, base, cur, to, w) {
                            let n = base.len() as int;
                            let ext = w.skip(n);
                            assert(ext[0] == w[n]);
                            assert(ext.len() >= 2) by {
                                if ext.len() == 1 {
                                    assert(w.last() == w[n]);
                                }
                            }
                            assert(live.contains(ext[0]) && edge_between(edges, ext[0], ext[1]));
                            assert(ext[1] == w[n + 1]);
                            assert(ds.contains(w[n + 1]));
                        }
                    }
                }
            },
        }
    }
}

impl<T> GraphAlgo<T> for Graph<T> {
    fn path_exists(&self, from: NodeId, to: NodeId) -> (r: bool) {
        let ghost live = self.nodes().dom();
        let ghost edges = self.edges();
        let mut visited: Vec<NodeId> = Vec::new();
        let mut trail: Vec<NodeId> = Vec::new();
        let found = self.search_step(from, to, &mut visited, &mut trail);
        proof {
            if found {
                let w = trail@.skip(0).push(to);
                assert(walk_from_to(live, edges, w, from, to));
            } else {
                assert forall|u: NodeId| #[trigger] visited@.contains(u) implies fully_expanded(
                    live,
                    edges,
                    visited@,
                    u,
                    to,
                ) by {
                    assert(!Seq::<NodeId>::empty().contains(u));
                }
                lemma_search_complete(live, edges, visited@, from, to);
            }
        }
        found
    }

    fn shortest_path(&self, from: NodeId, to: NodeId) -> (r: Option<Path>) {
        let ghost live = self.nodes().dom();
        let ghost edges = self.edges();
        let mut visited: Vec<NodeId> = Vec::new();
        let mut trail: Vec<NodeId> = Vec::new();
        let found = self.search_step(from, to, &mut visited, &mut trail);
        if found {
            let ghost pre = trail@;
            trail.push(to);
            proof {
                assert(trail@ =~= pre.skip(0).push(to));
            }
            Some(trail)
        } else {
            proof {
                assert forall|u: NodeId| #[trigger] visited@.contains(u) implies fully_expanded(
                    live,
                    edges,
                    visited@,
                    u,
                    to,
                ) by {
                    assert(!Seq::<NodeId>::empty().contains(u));
                }
                lemma_search_complete(live, edges, visited@, from, to);
            }
            None
        }
    }

    fn all_paths(&self, from: NodeId, to: NodeId) -> (r: Option<Vec<Path>>) {
        let ghost live = self.nodes().dom();
        let ghost edges = self.edges();
        let mut prefix: Vec<NodeId> = Vec::new();
        let mut result: Vec<Path> = Vec::new();
        self.enum_paths(from, to, &mut prefix, &mut result);
        proof {
            assert(result.deep_view().skip(0) =~~= result.deep_view());
            assert forall|w: Seq<NodeId>|
                completes(live, edges, Seq::<NodeId>::empty(), from, to, w) == is_simple_path(
                    live,
                    edges,
                    w,
                    from,
                    to,
                ) by {
                assert(w.skip(0) =~= w);
                if completes(live, edges, Seq::<NodeId>::empty(), from, to, w) {
                    assert(w.first() == w[0]);
                }
                if is_simple_path(live, edges, w, from, to) {
                    assert(w.take(0) =~= Seq::<NodeId>::empty());
                    assert(w[0] == w.first());
                }
            }
        }
        if result.len() == 0 {
            proof {
                assert forall|w: Seq<NodeId>| !is_simple_path(live, edges, w, from, to) by {
                    assert(!result.deep_view().skip(0).contains(w));
                }
            }
            None
        } else {
            Some(result)
        }
    }
}

} // verus!
