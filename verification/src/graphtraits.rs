//! The capability interfaces of the graph store: CRUD operations and the
//! traversal queries, together with the spec-level notions of walks and
//! reachability that their contracts are stated over.

use vstd::prelude::*;

use crate::display::{dec_str, dec_str_int, DiagString};

verus! {

/// Identifier of a node.  Node identifiers are assigned by the store or
/// adopted from a caller (upsert); they are never reused while live.
pub type NodeId = usize;

/// Identifier of an edge.  Edge identifiers live in their own space,
/// assigned from a counter independent of the node counter.
pub type EdgeId = usize;

/// A walk through the graph, recorded as the identifiers of the nodes
/// visited, in order.
pub type Path = Vec<NodeId>;

/// An edge as a value: source node id, destination node id, weight.
#[derive(Clone, Copy, PartialEq, Eq, Structural, Debug)]
pub struct EdgeTriplet(pub NodeId, pub NodeId, pub i32);

/// Some edge of the table leads from `a` to `b`.
pub open spec fn edge_between(edges: Map<EdgeId, EdgeTriplet>, a: NodeId, b: NodeId) -> bool {
    exists|e: EdgeId| #[trigger] edges.contains_key(e) && edges[e].0 == a && edges[e].1 == b
}

/// `s` is a walk: a nonempty node sequence in which every node but the last
/// is a live node with an edge to its successor.  The final node need not be
/// live, because an edge may dangle; a dangling destination can end a walk
/// but never continues one.
pub open spec fn is_walk(live: Set<NodeId>, edges: Map<EdgeId, EdgeTriplet>, s: Seq<NodeId>) -> bool {
    &&& s.len() >= 1
    &&& forall|i: int|
        0 <= i < s.len() - 1 ==> live.contains(#[trigger] s[i]) && edge_between(edges, s[i], s[i + 1])
}

/// `s` is a walk from `a` to `b`.
pub open spec fn walk_from_to(
    live: Set<NodeId>,
    edges: Map<EdgeId, EdgeTriplet>,
    s: Seq<NodeId>,
    a: NodeId,
    b: NodeId,
) -> bool {
    is_walk(live, edges, s) && s.first() == a && s.last() == b
}

/// Some walk leads from `a` to `b`.  Every node reaches itself by the
/// one-node walk.
pub open spec fn reaches(
    live: Set<NodeId>,
    edges: Map<EdgeId, EdgeTriplet>,
    a: NodeId,
    b: NodeId,
) -> bool {
    exists|s: Seq<NodeId>| walk_from_to(live, edges, s, a, b)
}

/// `s` is a simple path from `a` to `b`: a walk without a repeated node.
pub open spec fn is_simple_path(
    live: Set<NodeId>,
    edges: Map<EdgeId, EdgeTriplet>,
    s: Seq<NodeId>,
    a: NodeId,
    b: NodeId,
) -> bool {
    walk_from_to(live, edges, s, a, b) && s.no_duplicates()
}

/// For every graph and every node id `a`, `a` reaches `a`: the trivial
/// one-node walk requires nothing of the graph, so `path_exists(a, a)`
/// holds on every store.
pub proof fn lemma_reaches_self(live: Set<NodeId>, edges: Map<EdgeId, EdgeTriplet>, a: NodeId)
    ensures
        reaches(live, edges, a, a),
{
    let s: Seq<NodeId> = seq![a];
    assert(walk_from_to(live, edges, s, a, a));
}

/// In a graph with no edges, no node reaches a distinct node: every walk
/// between distinct endpoints must cross some edge.
pub proof fn lemma_no_edges_no_reach(
    live: Set<NodeId>,
    edges: Map<EdgeId, EdgeTriplet>,
    a: NodeId,
    b: NodeId,
)
    requires
        edges.dom() =~= Set::<EdgeId>::empty(),
        a != b,
    ensures
        !reaches(live, edges, a, b),
{
    if reaches(live, edges, a, b) {
        let s = choose|s: Seq<NodeId>| walk_from_to(live, edges, s, a, b);
        if s.len() == 1 {
            assert(s.first() == s.last());
        } else {
            assert(edge_between(edges, s[0], s[1]));
            let e = choose|e: EdgeId| #[trigger]
                edges.contains_key(e) && edges[e].0 == s[0] && edges[e].1 == s[1];
            assert(edges.dom().contains(e));
        }
    }
}

/// A duplicate-free sequence of identifiers below `n` has at most `n`
/// entries.
pub proof fn lemma_bounded_nodup_len(v: Seq<usize>, n: nat)
    requires
        v.no_duplicates(),
        forall|j: int| 0 <= j < v.len() ==> (#[trigger] v[j]) < n,
    ensures
        v.len() <= n,
    decreases n,
{
    if n == 0 {
        if v.len() > 0 {
            assert(v[0] < 0);
        }
    } else {
        let x = (n - 1) as usize;
        if v.contains(x) {
            let i = choose|i: int| 0 <= i < v.len() && v[i] == x;
            let w = v.remove(i);
            assert(w.no_duplicates()) by {
                assert forall|a: int, b: int| 0 <= a < b < w.len() implies w[a] != w[b] by {
                    let a0 = if a < i {
                        a
                    } else {
                        a + 1
                    };
                    let b0 = if b < i {
                        b
                    } else {
                        b + 1
                    };
                    assert(w[a] == v[a0] && w[b] == v[b0]);
                }
            }
            assert forall|j: int| 0 <= j < w.len() implies (#[trigger] w[j]) < n - 1 by {
                let j0 = if j < i {
                    j
                } else {
                    j + 1
                };
                assert(w[j] == v[j0]);
                assert(v[j0] != v[i]);
            }
            lemma_bounded_nodup_len(w, (n - 1) as nat);
        } else {
            assert forall|j: int| 0 <= j < v.len() implies (#[trigger] v[j]) < n - 1 by {
                assert(v[j] != x);
            }
            lemma_bounded_nodup_len(v, (n - 1) as nat);
        }
    }
}

/// The store's CRUD interface.  All operations signal "absent id" through
/// their return value; none of them panics.
pub trait GraphCrud<T>: Sized {
    /// Well-formedness of the internal tables; constructors establish it
    /// and every operation preserves it.
    spec fn wf(&self) -> bool;

    /// The node table as a map: node id -> payload.
    spec fn nodes(&self) -> Map<NodeId, T>;

    /// The edge table as a map: edge id -> (source, destination, weight).
    spec fn edges(&self) -> Map<EdgeId, EdgeTriplet>;

    /// The highest node identifier assigned or adopted so far.
    spec fn node_counter(&self) -> NodeId;

    /// The highest edge identifier assigned so far.
    spec fn edge_counter(&self) -> EdgeId;

    /// An empty store.
    fn new() -> (g: Self)
        ensures
            g.wf(),
            g.nodes() == Map::<NodeId, T>::empty(),
            g.edges() == Map::<EdgeId, EdgeTriplet>::empty(),
            g.node_counter() == 0,
            g.edge_counter() == 0,
    ;

    /// Inserts a node under a fresh identifier and returns the identifier.
    fn new_node(&mut self, val: T) -> (id: NodeId)
        requires
            old(self).wf(),
            old(self).node_counter() < usize::MAX,
        ensures
            final(self).wf(),
            id == old(self).node_counter() + 1,
            !old(self).nodes().contains_key(id),
            final(self).nodes() == old(self).nodes().insert(id, val),
            final(self).edges() == old(self).edges(),
            final(self).node_counter() == id,
            final(self).edge_counter() == old(self).edge_counter(),
    ;

    /// Upsert: inserts or overwrites the node at the caller-chosen
    /// identifier and returns that identifier unchanged.  The node counter
    /// is raised to the adopted identifier when necessary, so that later
    /// auto-assigned identifiers never collide with it.
    fn set_node(&mut self, val: T, id: NodeId) -> (r: NodeId)
        requires
            old(self).wf(),
        ensures
            final(self).wf(),
            r == id,
            final(self).nodes() == old(self).nodes().insert(id, val),
            final(self).edges() == old(self).edges(),
            final(self).node_counter() == if id > old(self).node_counter() {
                id
            } else {
                old(self).node_counter()
            },
            final(self).edge_counter() == old(self).edge_counter(),
    ;

    /// Removes the node if present, and with it every edge whose source or
    /// destination equals `nodeid`; no orphaned edge survives.  Returns
    /// whether a node was actually removed.
    fn del_node(&mut self, nodeid: NodeId) -> (removed: bool)
        requires
            old(self).wf(),
        ensures
            final(self).wf(),
            removed == old(self).nodes().contains_key(nodeid),
            final(self).nodes() == old(self).nodes().remove(nodeid),
            !removed ==> final(self).edges() == old(self).edges(),
            removed ==> forall|e: EdgeId|
                final(self).edges().contains_key(e) <==> (#[trigger] old(
                    self,
                ).edges().contains_key(e) && old(self).edges()[e].0 != nodeid && old(
                    self,
                ).edges()[e].1 != nodeid),
            removed ==> forall|e: EdgeId|
                final(self).edges().contains_key(e) ==> #[trigger] final(self).edges()[e] == old(
                    self,
                ).edges()[e],
            final(self).node_counter() == old(self).node_counter(),
            final(self).edge_counter() == old(self).edge_counter(),
    ;

    /// Read-only lookup of a node's payload; an absent id yields `None`.
    fn get_node_val(&self, nodeid: NodeId) -> (r: Option<&T>)
        requires
            self.wf(),
        ensures
            match r {
                Some(v) => self.nodes().contains_key(nodeid) && *v == self.nodes()[nodeid],
                None => !self.nodes().contains_key(nodeid),
            },
    ;

    /// Replaces the payload of an existing node; a no-op if the id is
    /// absent.
    fn set_node_val(&mut self, nodeid: NodeId, val: T)
        requires
            old(self).wf(),
        ensures
            final(self).wf(),
            final(self).nodes() == if old(self).nodes().contains_key(nodeid) {
                old(self).nodes().insert(nodeid, val)
            } else {
                old(self).nodes()
            },
            final(self).edges() == old(self).edges(),
            final(self).node_counter() == old(self).node_counter(),
            final(self).edge_counter() == old(self).edge_counter(),
    ;

    /// Inserts an edge under a fresh identifier and returns the identifier.
    /// The endpoints are not required to exist: an edge may reference a
    /// node created later or deleted earlier.
    fn new_edge(&mut self, from: NodeId, to: NodeId, weight: i32) -> (id: EdgeId)
        requires
            old(self).wf(),
            old(self).edge_counter() < usize::MAX,
        ensures
            final(self).wf(),
            id == old(self).edge_counter() + 1,
            !old(self).edges().contains_key(id),
            final(self).edges() == old(self).edges().insert(id, EdgeTriplet(from, to, weight)),
            final(self).nodes() == old(self).nodes(),
            final(self).edge_counter() == id,
            final(self).node_counter() == old(self).node_counter(),
    ;

    /// Removes the edge if present; returns whether one was removed.
    fn del_edge(&mut self, edgeid: EdgeId) -> (removed: bool)
        requires
            old(self).wf(),
        ensures
            final(self).wf(),
            removed == old(self).edges().contains_key(edgeid),
            final(self).edges() == old(self).edges().remove(edgeid),
            final(self).nodes() == old(self).nodes(),
            final(self).node_counter() == old(self).node_counter(),
            final(self).edge_counter() == old(self).edge_counter(),
    ;

    /// Read-only lookup of an edge; an absent id yields `None`.
    fn get_edge(&self, edgeid: EdgeId) -> (r: Option<EdgeTriplet>)
        requires
            self.wf(),
        ensures
            match r {
                Some(t) => self.edges().contains_key(edgeid) && t == self.edges()[edgeid],
                None => !self.edges().contains_key(edgeid),
            },
    ;

    /// Fully replaces an existing edge; a no-op if the id is absent.
    fn set_edge(&mut self, edgeid: EdgeId, edge_data: EdgeTriplet)
        requires
            old(self).wf(),
        ensures
            final(self).wf(),
            final(self).edges() == if old(self).edges().contains_key(edgeid) {
                old(self).edges().insert(edgeid, edge_data)
            } else {
                old(self).edges()
            },
            final(self).nodes() == old(self).nodes(),
            final(self).node_counter() == old(self).node_counter(),
            final(self).edge_counter() == old(self).edge_counter(),
    ;

    /// `None` exactly when `from` is not a live node id; otherwise the
    /// identifiers of exactly those edges whose source equals `from`
    /// (possibly an empty list), each listed once.
    fn find_edges_from(&self, from: NodeId) -> (r: Option<Vec<EdgeId>>)
        requires
            self.wf(),
        ensures
            match r {
                None => !self.nodes().contains_key(from),
                Some(v) => self.nodes().contains_key(from) && v@.no_duplicates() && forall|e: EdgeId|
                    #[trigger] v@.contains(e) <==> (self.edges().contains_key(e) && self.edges()[e].0
                        == from),
            },
    ;

    /// `None` exactly when `to` is not a live node id; otherwise the
    /// identifiers of exactly those edges whose destination equals `to`.
    fn find_edges_to(&self, to: NodeId) -> (r: Option<Vec<EdgeId>>)
        requires
            self.wf(),
        ensures
            match r {
                None => !self.nodes().contains_key(to),
                Some(v) => self.nodes().contains_key(to) && v@.no_duplicates() && forall|e: EdgeId|
                    #[trigger] v@.contains(e) <==> (self.edges().contains_key(e) && self.edges()[e].1
                        == to),
            },
    ;
}

/// The traversal interface: reachability and path discovery by
/// depth-first backtracking with a visited set.
pub trait GraphAlgo<T>: GraphCrud<T> {
    /// Whether some walk leads from `from` to `to`.  `path_exists(a, a)`
    /// holds on every graph.
    fn path_exists(&self, from: NodeId, to: NodeId) -> (r: bool)
        requires
            self.wf(),
        ensures
            r == reaches(self.nodes().dom(), self.edges(), from, to),
    ;

    /// The first walk found from `from` to `to` (not necessarily the
    /// shortest), including both endpoints; `None` exactly when `to` is
    /// unreachable.  For `from == to` the result is the one-node walk.
    fn shortest_path(&self, from: NodeId, to: NodeId) -> (r: Option<Path>)
        requires
            self.wf(),
        ensures
            match r {
                Some(p) => walk_from_to(self.nodes().dom(), self.edges(), p@, from, to),
                None => !reaches(self.nodes().dom(), self.edges(), from, to),
            },
    ;

    /// Every simple path from `from` to `to`, each exactly once; `None`
    /// exactly when there is no simple path.  No returned path repeats a
    /// node.
    fn all_paths(&self, from: NodeId, to: NodeId) -> (r: Option<Vec<Path>>)
        requires
            self.wf(),
        ensures
            match r {
                Some(ps) => ps.len() > 0 && ps.deep_view().no_duplicates() && forall|w: Seq<NodeId>|
                    #[trigger] ps.deep_view().contains(w) <==> is_simple_path(
                        self.nodes().dom(),
                        self.edges(),
                        w,
                        from,
                        to,
                    ),
                None => forall|w: Seq<NodeId>|
                    !is_simple_path(self.nodes().dom(), self.edges(), w, from, to),
            },
    ;
}

/// The diagnostic rendering of one node.
pub open spec fn node_render(id: NodeId, v: Seq<char>) -> Seq<char> {
    "{ \"nodeid\": "@ + dec_str(id as nat) + ", \"value\": "@ + v + " }"@
}

/// The diagnostic rendering of one edge.
pub open spec fn edge_render(id: EdgeId, t: EdgeTriplet) -> Seq<char> {
    "{ \"edge_id\": "@ + dec_str(id as nat) + ", \"from\": \""@ + dec_str(t.0 as nat)
        + "\", \"to\": \""@ + dec_str(t.1 as nat) + "\", \"weight\": "@ + dec_str_int(
        t.2 as int,
    ) + " }"@
}

/// The diagnostic rendering of a path: the renderings of its nodes, in
/// order.
pub open spec fn path_render<T: DiagString>(nodes: Map<NodeId, T>, p: Seq<NodeId>) -> Seq<char>
    decreases p.len(),
{
    if p.len() == 0 {
        Seq::empty()
    } else {
        path_render(nodes, p.drop_last()) + node_render(p.last(), nodes[p.last()].diag_view())
    }
}

/// Diagnostic, human-readable renderings of the store's contents.  These
/// are for inspection only: no stability of the text is promised across
/// versions, so the contracts fix each string only as a function of the
/// store.
pub trait GraphDisplay<T: DiagString>: GraphCrud<T> {
    /// What `to_string` renders: a deterministic function of the store.
    spec fn render(&self) -> Seq<char>;

    /// Renders the whole store.
    fn to_string(&self) -> (r: String)
        requires
            self.wf(),
        ensures
            r@ == self.render(),
    ;

    /// Renders one node, if present.
    fn node_to_string(&self, node_id: NodeId) -> (r: Option<String>)
        requires
            self.wf(),
        ensures
            match r {
                Some(s) => self.nodes().contains_key(node_id) && s@ == node_render(
                    node_id,
                    self.nodes()[node_id].diag_view(),
                ),
                None => !self.nodes().contains_key(node_id),
            },
    ;

    /// Renders one edge, if present.
    fn edge_to_string(&self, edge_id: EdgeId) -> (r: Option<String>)
        requires
            self.wf(),
        ensures
            match r {
                Some(s) => self.edges().contains_key(edge_id) && s@ == edge_render(
                    edge_id,
                    self.edges()[edge_id],
                ),
                None => !self.edges().contains_key(edge_id),
            },
    ;

    /// Renders a path's nodes; `None` when any of them is absent.
    fn path_to_string(&self, path: &Path) -> (r: Option<String>)
        requires
            self.wf(),
        ensures
            match r {
                Some(s) => (forall|i: int|
                    0 <= i < path@.len() ==> self.nodes().contains_key(#[trigger] path@[i])) && s@
                    == path_render(self.nodes(), path@),
                None => exists|i: int|
                    0 <= i < path@.len() && !self.nodes().contains_key(#[trigger] path@[i]),
            },
    ;
}

} // verus!
