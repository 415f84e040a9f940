//! An adjacency graph with weighted edges.  Each node owns its outgoing
//! edges; the nodes themselves live in one owning vector and are handled
//! by index, which replaces shared, reference-counted node handles with an
//! arena and removes every ownership cycle.

use vstd::prelude::*;

use crate::graphtraits::lemma_bounded_nodup_len;

verus! {

/// A directed, weighted edge to a destination node.
pub struct Edge {
    weight: i32,
    destination: usize,
}

/// A node: its stable identifier (its index in the arena), its value, and
/// its outgoing edges.
pub struct Node {
    id: usize,
    value: i32,
    edges: Vec<Edge>,
}

/// The graph: an arena of nodes.
pub struct Graph {
    nodes: Vec<Node>,
}

impl Graph {
    /// The number of nodes.
    pub closed spec fn node_count(&self) -> nat {
        self.nodes@.len()
    }

    /// The value stored at an index.
    pub closed spec fn value_at(&self, i: int) -> i32 {
        self.nodes@[i].value
    }

    /// The outgoing edges of a node, as (weight, destination) pairs.
    pub closed spec fn edges_at(&self, i: int) -> Seq<(i32, usize)> {
        self.nodes@[i].edges@.map_values(|e: Edge| (e.weight, e.destination))
    }

    /// Every node carries its index as its identifier, and every edge
    /// destination is a valid index.
    pub closed spec fn wf(&self) -> bool {
        &&& forall|i: int| 0 <= i < self.nodes@.len() ==> (#[trigger] self.nodes@[i]).id == i
        &&& forall|i: int, k: int|
            0 <= i < self.nodes@.len() && 0 <= k < self.nodes@[i].edges@.len() ==> (
            #[trigger] self.nodes@[i].edges@[k]).destination < self.nodes@.len()
    }
}

/// One directed step: `a` is a valid index with an edge to `b`.
pub open spec fn adj_step(g: Graph, a: usize, b: usize) -> bool {
    a < g.node_count() && exists|k: int|
        0 <= k < g.edges_at(a as int).len() && (#[trigger] g.edges_at(a as int)[k]).1 == b
}

/// A walk: a nonempty index sequence where each node steps to the next.
pub open spec fn adj_walk(g: Graph, s: Seq<usize>) -> bool {
    s.len() >= 1 && forall|i: int| 0 <= i < s.len() - 1 ==> adj_step(g, #[trigger] s[i], s[i + 1])
}

/// Some walk leads from `a` to `b`.
pub open spec fn adj_reaches(g: Graph, a: usize, b: usize) -> bool {
    exists|s: Seq<usize>| adj_walk(g, s) && s.first() == a && s.last() == b
}

/// Some walk leads from `a` to `b` while staying outside `avoid` at every
/// node but the final one.
pub open spec fn adj_reaches_avoiding(g: Graph, avoid: Seq<usize>, a: usize, b: usize) -> bool {
    exists|s: Seq<usize>|
        adj_walk(g, s) && s.first() == a && s.last() == b && (forall|t: int|
            0 <= t < s.len() - 1 ==> !avoid.contains(#[trigger] s[t]))
}

/// An empty graph.
pub fn new_graph() -> (g: Graph)
    ensures
        g.wf(),
        g.node_count() == 0,
{
    Graph { nodes: Vec::new() }
}

/// Appends a node with the given value and no edges; the returned index is
/// the node's handle and identifier.
pub fn new_node(g: &mut Graph, value: i32) -> (id: usize)
    requires
        old(g).wf(),
    ensures
        final(g).wf(),
        id == old(g).node_count(),
        final(g).node_count() == old(g).node_count() + 1,
        final(g).value_at(id as int) == value,
        final(g).edges_at(id as int) == Seq::<(i32, usize)>::empty(),
        forall|i: int|
            0 <= i < old(g).node_count() ==> final(g).value_at(i) == old(g).value_at(i)
                && final(g).edges_at(i) == old(g).edges_at(i),
{
    let id = g.nodes.len();
    let n = Node { id, value, edges: Vec::new() };
    g.nodes.push(n);
    proof {
        assert(final(g).edges_at(id as int) =~= Seq::<(i32, usize)>::empty());
    }
    id
}

/// Records a directed edge of the given weight from `node1` to `node2`.
pub fn add_edge(g: &mut Graph, node1: usize, node2: usize, weight: i32)
    requires
        old(g).wf(),
        node1 < old(g).node_count(),
        node2 < old(g).node_count(),
    ensures
        final(g).wf(),
        final(g).node_count() == old(g).node_count(),
        final(g).edges_at(node1 as int) == old(g).edges_at(node1 as int).push((weight, node2)),
        forall|i: int|
            0 <= i < old(g).node_count() ==> final(g).value_at(i) == old(g).value_at(i) && (i
                != node1 ==> final(g).edges_at(i) == old(g).edges_at(i)),
{
    let n1 = vstd::std_specs::vec::vec_index_mut(&mut g.nodes, node1);
    n1.edges.push(Edge { weight, destination: node2 });
    proof {
        assert(final(g).edges_at(node1 as int) =~= old(g).edges_at(node1 as int).push(
            (weight, node2),
        ));
        assert(forall|i: int|
            0 <= i < old(g).node_count() && i != node1 ==> final(g).edges_at(i) =~= old(
                g,
            ).edges_at(i));
    }
}

/// The number of nodes.
pub fn node_count(g: &Graph) -> (r: usize)
    ensures
        r == g.node_count(),
{
    g.nodes.len()
}

/// The value stored at an index.
pub fn node_value(g: &Graph, n: usize) -> (r: i32)
    requires
        n < g.node_count(),
    ensures
        r == g.value_at(n as int),
{
    g.nodes[n].value
}

/// The outgoing edges of a node, as (weight, destination) pairs.
pub fn node_edge_list(g: &Graph, n: usize) -> (r: Vec<(i32, usize)>)
    requires
        n < g.node_count(),
    ensures
        r@ == g.edges_at(n as int),
{
    let node = &g.nodes[n];
    let mut r: Vec<(i32, usize)> = Vec::new();
    let mut k: usize = 0;
    #[verifier::loop_isolation(false)]
    while k < node.edges.len()
        invariant
            k <= node.edges@.len(),
            node == g.nodes@[n as int],
            r@ =~= g.edges_at(n as int).take(k as int),
        decreases node.edges@.len() - k,
    {
        let e = &node.edges[k];
        r.push((e.weight, e.destination));
        proof {
            assert(r@ =~= g.edges_at(n as int).take(k as int + 1));
        }
        k = k + 1;
    }
    proof {
        assert(g.edges_at(n as int).take(node.edges@.len() as int) =~= g.edges_at(n as int));
    }
    r
}

/// Every edge of every member of `vs` leads back into `vs`, and none leads
/// to `to`.
pub open spec fn adj_expanded(g: Graph, vs: Seq<usize>, u: usize, to: usize) -> bool {
    forall|k: int|
        0 <= k < g.edges_at(u as int).len() ==> (#[trigger] g.edges_at(u as int)[k]).1 != to
            && vs.contains(g.edges_at(u as int)[k].1)
}

/// A walk of two or more nodes that starts on a fully-expanded node and
/// stays outside `avoid` before its end never ends at `to`.
proof fn lemma_adj_closed_blocks(
    g: Graph,
    avoid: Seq<usize>,
    vs: Seq<usize>,
    to: usize,
    w: Seq<usize>,
)
    requires
        forall|u: usize|
            #[trigger] vs.contains(u) && !avoid.contains(u) ==> adj_expanded(g, vs, u, to),
        adj_walk(g, w),
        w.len() >= 2,
        vs.contains(w.first()),
        !avoid.contains(w.first()),
        forall|t: int| 0 <= t < w.len() - 1 ==> !avoid.contains(#[trigger] w[t]),
    ensures
        w.last() != to,
    decreases w.len(),
{
    assert(adj_step(g, w[0], w[1]));
    let k = choose|k: int|
        0 <= k < g.edges_at(w[0] as int).len() && (#[trigger] g.edges_at(w[0] as int)[k]).1
            == w[1];
    assert(adj_expanded(g, vs, w[0], to));
    assert(w[1] != to && vs.contains(w[1]));
    if w.len() == 2 {
        assert(w.last() == w[1]);
    } else {
        let w2 = w.drop_first();
        assert(adj_walk(g, w2)) by {
            assert forall|i: int| 0 <= i < w2.len() - 1 implies adj_step(
                g,
                #[trigger] w2[i],
                w2[i + 1],
            ) by {
                assert(w2[i] == w[i + 1]);
                assert(w2[i + 1] == w[i + 2]);
            }
        }
        assert(w2.first() == w[1]);
        assert(w2.last() == w.last());
        assert(!avoid.contains(w2.first())) by {
            assert(w2[0] == w[1]);
        }
        assert forall|t: int| 0 <= t < w2.len() - 1 implies !avoid.contains(
            #[trigger] w2[t],
        ) by {
            assert(w2[t] == w[t + 1]);
        }
        lemma_adj_closed_blocks(g, avoid, vs, to, w2);
    }
}

/// Depth-first backtracking step: succeeds exactly when a directed walk
/// leads from `start_node` to `dest_node` along nodes outside the given
/// visited set (the final node alone may be inside it).  The visited set
/// only grows; the path records the walk found, without its final node; a
/// failed or trivial call leaves the path as it was.
#[verifier::loop_isolation(false)]
#[verifier::rlimit(60)]
pub fn find_recursive_path(
    g: &Graph,
    start_node: usize,
    dest_node: usize,
    visited_nodes: &mut Vec<usize>,
    path: &mut Vec<usize>,
) -> (found: bool)
    requires
        g.wf(),
        start_node < g.node_count(),
        dest_node < g.node_count(),
        old(visited_nodes)@.no_duplicates(),
        forall|k: int|
            0 <= k < old(visited_nodes)@.len() ==> #[trigger] (old(visited_nodes)@[k])
                < g.node_count(),
    ensures
        found == adj_reaches_avoiding(*g, old(visited_nodes)@, start_node, dest_node),
        final(visited_nodes)@.no_duplicates(),
        forall|k: int|
            0 <= k < final(visited_nodes)@.len() ==> #[trigger] (final(visited_nodes)@[k])
                < g.node_count(),
        forall|x: usize| old(visited_nodes)@.contains(x) ==> final(visited_nodes)@.contains(x),
        start_node == dest_node ==> found && final(visited_nodes)@ == old(visited_nodes)@
            && final(path)@ == old(path)@,
        start_node != dest_node && old(visited_nodes)@.contains(start_node) ==> !found
            && final(visited_nodes)@ == old(visited_nodes)@ && final(path)@ == old(path)@,
        !found ==> forall|u: usize|
            #[trigger] final(visited_nodes)@.contains(u) && !old(visited_nodes)@.contains(u)
                ==> adj_expanded(*g, final(visited_nodes)@, u, dest_node),
        !found ==> start_node != dest_node && final(visited_nodes)@.contains(start_node),
        !found ==> final(path)@ == old(path)@,
        found ==> final(path)@.len() >= old(path)@.len() && final(path)@.take(
            old(path)@.len() as int,
        ) == old(path)@ && ({
            let w = final(path)@.skip(old(path)@.len() as int).push(dest_node);
            adj_walk(*g, w) && w.first() == start_node && w.last() == dest_node
        }) && (forall|t: int|
            old(path)@.len() <= t < final(path)@.len() ==> !old(visited_nodes)@.contains(
                #[trigger] final(path)@[t],
            )),
    decreases g.node_count() - old(visited_nodes)@.len(),
{
    let ghost v0 = old(visited_nodes)@;
    if start_node == dest_node {
        proof {
            let w = path@.skip(old(path)@.len() as int).push(dest_node);
            assert(w =~= seq![dest_node]);
            let witness: Seq<usize> = seq![dest_node];
            assert(adj_walk(*g, witness) && witness.first() == start_node && witness.last()
                == dest_node && (forall|t: int|
                0 <= t < witness.len() - 1 ==> !v0.contains(#[trigger] witness[t])));
        }
        return true;
    }
    let start_node_id = g.nodes[start_node].id;
    let mut seen = false;
    let mut t: usize = 0;
    while t < visited_nodes.len() && !seen
        invariant
            t <= visited_nodes@.len(),
            visited_nodes@ == v0,
            start_node_id == start_node,
            seen ==> visited_nodes@.contains(start_node),
            !seen ==> forall|u: int| 0 <= u < t ==> visited_nodes@[u] != start_node,
        decreases visited_nodes@.len() - t,
    {
        if visited_nodes[t] == start_node_id {
            seen = true;
        }
        t = t + 1;
    }
    if seen {
        proof {
            // the walk would have to begin on an avoided node
            if adj_reaches_avoiding(*g, v0, start_node, dest_node) {
                let w = choose|w: Seq<usize>|
                    adj_walk(*g, w) && w.first() == start_node && w.last() == dest_node && (forall|
                        t2: int,
                    |
                        0 <= t2 < w.len() - 1 ==> !v0.contains(#[trigger] w[t2]));
                if w.len() == 1 {
                    assert(w.first() == w.last());
                } else {
                    assert(!v0.contains(w[0]));
                }
            }
        }
        return false;
    }
    proof {
        assert(!visited_nodes@.contains(start_node));
    }
    visited_nodes.push(start_node_id);
    path.push(start_node_id);
    let ghost v1 = v0.push(start_node);
    let ghost t1 = old(path)@.push(start_node);
    proof {
        assert forall|x: usize| visited_nodes@.contains(x) implies x < g.node_count() by {
            let m = choose|m: int| 0 <= m < v1.len() && v1[m] == x;
            if m < v0.len() {
                assert(v0.contains(x));
            }
        }
    }
    let deg = g.nodes[start_node].edges.len();
    let mut k: usize = 0;
    while k < deg
        invariant
            k <= deg,
            deg == g.edges_at(start_node as int).len(),
            visited_nodes@.no_duplicates(),
            forall|x: int|
                0 <= x < visited_nodes@.len() ==> #[trigger] (visited_nodes@[x]) < g.node_count(),
            forall|x: usize| v1.contains(x) ==> visited_nodes@.contains(x),
            path@ == t1,
            forall|u: usize|
                #[trigger] visited_nodes@.contains(u) && !v1.contains(u) ==> adj_expanded(
                    *g,
                    visited_nodes@,
                    u,
                    dest_node,
                ),
            forall|m: int|
                0 <= m < k ==> (#[trigger] g.edges_at(start_node as int)[m]).1 != dest_node
                    && visited_nodes@.contains(g.edges_at(start_node as int)[m].1),
        decreases deg - k,
    {
        let dest = g.nodes[start_node].edges[k].destination;
        proof {
            assert(g.edges_at(start_node as int)[k as int].1 == dest);
        }
        let ghost vb = visited_nodes@;
        proof {
            lemma_bounded_nodup_len(vb, g.node_count());
            crate::algo::lemma_nodup_len(v1, vb);
            assert forall|x: usize| v0.contains(x) implies vb.contains(x) by {
                crate::algo::lemma_push_contains(v0, start_node, x);
                assert(v1.contains(x));
            }
        }
        let found = find_recursive_path(g, dest, dest_node, visited_nodes, path);
        if found {
            proof {
                let n = old(path)@.len() as int;
                let cs = path@.skip(t1.len() as int);
                assert(path@.take(t1.len() as int) == t1);
                assert(path@ =~= t1 + cs);
                assert(path@.skip(n) =~= seq![start_node] + cs);
                let ours = path@.skip(n).push(dest_node);
                assert(ours =~= (seq![start_node] + cs).push(dest_node));
                assert((seq![start_node] + cs).push(dest_node) =~= seq![start_node] + cs.push(
                    dest_node,
                ));
                let w2 = cs.push(dest_node);
                assert(adj_walk(*g, ours)) by {
                    assert(adj_step(*g, start_node, dest));
                    assert forall|i: int| 0 <= i < ours.len() - 1 implies adj_step(
                        *g,
                        #[trigger] ours[i],
                        ours[i + 1],
                    ) by {
                        if i == 0 {
                            assert(ours[0] == start_node);
                            assert(ours[1] == w2[0]);
                            assert(w2.first() == dest);
                        } else {
                            assert(ours[i] == w2[i - 1]);
                            assert(ours[i + 1] == w2[i]);
                        }
                    }
                }
                assert(path@.take(n) =~= old(path)@);
                assert forall|x: usize| old(visited_nodes)@.contains(x)
                    implies visited_nodes@.contains(x) by {
                    crate::algo::lemma_push_contains(v0, start_node, x);
                    assert(v1.contains(x));
                    assert(vb.contains(x));
                }
                // the new part of the path stays outside the given set
                assert forall|t2: int| n <= t2 < path@.len() implies !v0.contains(
                    #[trigger] path@[t2],
                ) by {
                    if t2 == n {
                        assert(path@[t2] == start_node);
                    } else {
                        assert(path@[t2] == cs[t2 - n - 1]);
                        assert(!vb.contains(path@[t2]));
                        if v0.contains(path@[t2]) {
                            assert(vb.contains(path@[t2]));
                        }
                    }
                }
                // and it witnesses reachability avoiding that set
                assert(ours.first() == start_node && ours.last() == dest_node);
                assert forall|t2: int| 0 <= t2 < ours.len() - 1 implies !v0.contains(
                    #[trigger] ours[t2],
                ) by {
                    assert(ours[t2] == path@[n + t2]);
                }
                assert(adj_reaches_avoiding(*g, v0, start_node, dest_node));
            }
            return true;
        }
        proof {
            assert forall|u: usize|
                #[trigger] visited_nodes@.contains(u) && !v1.contains(u) implies adj_expanded(
                *g,
                visited_nodes@,
                u,
                dest_node,
            ) by {
                if vb.contains(u) {
                    assert(adj_expanded(*g, vb, u, dest_node));
                    assert forall|k2: int|
                        0 <= k2 < g.edges_at(u as int).len() implies (#[trigger] g.edges_at(
                        u as int,
                    )[k2]).1 != dest_node && visited_nodes@.contains(g.edges_at(u as int)[k2].1) by {
                        assert(vb.contains(g.edges_at(u as int)[k2].1));
                    }
                }
            }
            assert forall|m: int|
                0 <= m < k + 1 implies (#[trigger] g.edges_at(start_node as int)[m]).1 != dest_node
                && visited_nodes@.contains(g.edges_at(start_node as int)[m].1) by {
                if m < k {
                    assert(vb.contains(g.edges_at(start_node as int)[m].1));
                } else {
                    assert(g.edges_at(start_node as int)[m].1 == dest);
                }
            }
        }
        k = k + 1;
    }
    path.pop();
    proof {
        assert(path@ =~= old(path)@);
        assert(v1[v1.len() - 1] == start_node);
        assert(v1.contains(start_node));
        assert(visited_nodes@.contains(start_node));
        assert(adj_expanded(*g, visited_nodes@, start_node, dest_node));
        assert forall|x: usize| old(visited_nodes)@.contains(x) implies visited_nodes@.contains(
            x,
        ) by {
            crate::algo::lemma_push_contains(v0, start_node, x);
            assert(v1.contains(x));
        }
        assert forall|u: usize|
            #[trigger] visited_nodes@.contains(u) && !v0.contains(u) implies adj_expanded(
            *g,
            visited_nodes@,
            u,
            dest_node,
        ) by {
            if u != start_node {
                if v1.contains(u) {
                    let m = choose|m: int| 0 <= m < v1.len() && v1[m] == u;
                    assert(v0[m] == u);
                }
            }
        }
        // every walk that avoids the given set is blocked
        if adj_reaches_avoiding(*g, v0, start_node, dest_node) {
            let w = choose|w: Seq<usize>|
                adj_walk(*g, w) && w.first() == start_node && w.last() == dest_node && (forall|
                    t2: int,
                |
                    0 <= t2 < w.len() - 1 ==> !v0.contains(#[trigger] w[t2]));
            if w.len() == 1 {
                assert(w.first() == w.last());
            } else {
                assert(!v0.contains(w.first())) by {
                    assert(w[0] == w.first());
                }
                lemma_adj_closed_blocks(*g, v0, visited_nodes@, dest_node, w);
            }
        }
    }
    false
}

/// Whether a directed path from `start_node` to `dest_node` exists.
pub fn find_path(g: &Graph, start_node: usize, dest_node: usize) -> (found: bool)
    requires
        g.wf(),
        start_node < g.node_count(),
        dest_node < g.node_count(),
    ensures
        found == adj_reaches(*g, start_node, dest_node),
{
    let mut visited_nodes: Vec<usize> = Vec::new();
    let mut path: Vec<usize> = Vec::new();
    let ghost v0 = visited_nodes@;
    proof {
        assert(v0 =~= Seq::<usize>::empty());
    }
    let found = find_recursive_path(g, start_node, dest_node, &mut visited_nodes, &mut path);
    proof {
        if found {
            let w = choose|w: Seq<usize>|
                adj_walk(*g, w) && w.first() == start_node && w.last() == dest_node && (forall|
                    t: int,
                |
                    0 <= t < w.len() - 1 ==> !v0.contains(#[trigger] w[t]));
            assert(adj_walk(*g, w) && w.first() == start_node && w.last() == dest_node);
        } else {
            if adj_reaches(*g, start_node, dest_node) {
                let w = choose|w: Seq<usize>|
                    adj_walk(*g, w) && w.first() == start_node && w.last() == dest_node;
                assert(forall|t: int| 0 <= t < w.len() - 1 ==> !v0.contains(#[trigger] w[t]));
                assert(adj_reaches_avoiding(*g, v0, start_node, dest_node));
            }
        }
    }
    found
}

} // verus!
