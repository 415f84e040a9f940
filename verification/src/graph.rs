//! The graph store: an arena of nodes and edges addressed by stable
//! integer identifiers.  Both tables are association lists with unique
//! keys; node and edge identifiers are assigned from two independent
//! monotone counters, so auto-assigned identifiers are never reused and
//! never collide with an identifier the same table already holds.

use vstd::prelude::*;
use vstd::std_specs::vec::vec_index_mut;

use crate::assoc::{assoc_map, filter_entries, filter_ids, lemma_assoc_map_dom,
    lemma_assoc_map_index, lemma_assoc_map_len, lemma_assoc_map_push, lemma_assoc_map_remove,
    lemma_assoc_map_update, lemma_filter_entries_contains, lemma_filter_ids_contains,
    lemma_filter_unique, unique_keys};
use crate::display::{dec_str, dec_str_int, usize_to_string, i32_to_string, DiagString};
use crate::graphtraits::{edge_render, node_render, path_render, EdgeId, EdgeTriplet, GraphCrud,
    GraphDisplay, NodeId, Path};

verus! {

/// The graph store.  `T` is the node payload type, opaque to the store.
pub struct Graph<T> {
    last_node_id: NodeId,
    last_edge_id: EdgeId,
    node_tbl: Vec<(NodeId, T)>,
    edge_tbl: Vec<(EdgeId, EdgeTriplet)>,
}

impl<T> Graph<T> {
    /// The node table in insertion order (the map view is derived from it).
    pub closed spec fn node_list(&self) -> Seq<(NodeId, T)> {
        self.node_tbl@
    }

}

/// Returns the position of `key` in the table, if any.
fn find_key<V>(tbl: &Vec<(usize, V)>, key: usize) -> (r: Option<usize>)
    ensures
        match r {
            Some(i) => i < tbl@.len() && tbl@[i as int].0 == key,
            None => forall|i: int| 0 <= i < tbl@.len() ==> (#[trigger] tbl@[i]).0 != key,
        },
{
    let mut i: usize = 0;
    while i < tbl.len()
        invariant
            i <= tbl@.len(),
            forall|j: int| 0 <= j < i ==> (#[trigger] tbl@[j]).0 != key,
        decreases tbl@.len() - i,
    {
        if tbl[i].0 == key {
            return Some(i);
        }
        i = i + 1;
    }
    None
}

impl<T> GraphCrud<T> for Graph<T> {
    closed spec fn wf(&self) -> bool {
        &&& unique_keys(self.node_tbl@)
        &&& unique_keys(self.edge_tbl@)
        &&& forall|i: int|
            0 <= i < self.node_tbl@.len() ==> (#[trigger] self.node_tbl@[i]).0 <= self.last_node_id
        &&& forall|i: int|
            0 <= i < self.edge_tbl@.len() ==> (#[trigger] self.edge_tbl@[i]).0 <= self.last_edge_id
    }

    closed spec fn nodes(&self) -> Map<NodeId, T> {
        assoc_map(self.node_tbl@)
    }

    closed spec fn edges(&self) -> Map<EdgeId, EdgeTriplet> {
        assoc_map(self.edge_tbl@)
    }

    closed spec fn node_counter(&self) -> NodeId {
        self.last_node_id
    }

    closed spec fn edge_counter(&self) -> EdgeId {
        self.last_edge_id
    }

    fn new() -> (g: Self) {
        Graph { last_node_id: 0, last_edge_id: 0, node_tbl: Vec::new(), edge_tbl: Vec::new() }
    }

    fn new_node(&mut self, val: T) -> (id: NodeId) {
        let id = self.last_node_id + 1;
        self.last_node_id = id;
        let ghost s = self.node_tbl@;
        proof {
            lemma_assoc_map_dom(s);
            lemma_assoc_map_push(s, id, val);
        }
        self.node_tbl.push((id, val));
        id
    }

    fn set_node(&mut self, val: T, id: NodeId) -> (r: NodeId) {
        if id > self.last_node_id {
            self.last_node_id = id;
        }
        let ghost s = self.node_tbl@;
        match find_key(&self.node_tbl, id) {
            Some(i) => {
                proof {
                    lemma_assoc_map_update(s, i as int, val);
                }
                let slot = vec_index_mut(&mut self.node_tbl, i);
                *slot = (id, val);
            },
            None => {
                proof {
                    lemma_assoc_map_push(s, id, val);
                }
                self.node_tbl.push((id, val));
            },
        }
        id
    }

    #[verifier::loop_isolation(false)]
    fn del_node(&mut self, nodeid: NodeId) -> (removed: bool) {
        let ghost s = self.node_tbl@;
        match find_key(&self.node_tbl, nodeid) {
            None => {
                proof {
                    lemma_assoc_map_dom(s);
                    assert(assoc_map(s).remove(nodeid) =~= assoc_map(s));
                }
                false
            },
            Some(i) => {
                proof {
                    lemma_assoc_map_dom(s);
                    lemma_assoc_map_index(s, i as int);
                    lemma_assoc_map_remove(s, i as int);
                    assert forall|m: int|
                        0 <= m < s.remove(i as int).len() implies (#[trigger] s.remove(
                        i as int,
                    )[m]).0 <= self.last_node_id by {
                        let m0 = if m < i { m } else { m + 1 };
                        assert(s.remove(i as int)[m] == s[m0]);
                    }
                }
                self.node_tbl.remove(i);
                // cascade: drop every edge incident to the node
                let ghost es = self.edge_tbl@;
                let ghost keep = |e: (EdgeId, EdgeTriplet)| e.1.0 != nodeid && e.1.1 != nodeid;
                let mut kept: Vec<(EdgeId, EdgeTriplet)> = Vec::new();
                let mut j: usize = 0;
                while j < self.edge_tbl.len()
                    invariant
                        j <= es.len(),
                        self.edge_tbl@ == es,
                        kept@ == filter_entries(es, keep, j as int),
                    decreases es.len() - j,
                {
                    let e = self.edge_tbl[j];
                    if e.1.0 != nodeid && e.1.1 != nodeid {
                        kept.push(e);
                    }
                    j = j + 1;
                }
                proof {
                    let ks = kept@;
                    lemma_filter_entries_contains(es, keep, es.len() as int);
                    lemma_filter_unique(es, keep, es.len() as int);
                    lemma_assoc_map_dom(ks);
                    lemma_assoc_map_dom(es);
                    assert forall|e: EdgeId| #[trigger]
                        assoc_map(ks).contains_key(e) implies (assoc_map(
                        es,
                    ).contains_key(e) && assoc_map(es)[e].0 != nodeid && assoc_map(es)[e].1
                        != nodeid && assoc_map(ks)[e] == assoc_map(es)[e]) by {
                        let m = choose|m: int| 0 <= m < ks.len() && (#[trigger] ks[m]).0 == e;
                        assert(ks.contains(ks[m]));
                        let n = choose|n: int| 0 <= n < es.len() && (#[trigger] es[n]) == ks[m]
                            && keep(ks[m]);
                        lemma_assoc_map_index(ks, m);
                        lemma_assoc_map_index(es, n);
                    }
                    assert forall|e: EdgeId|
                        (assoc_map(es).contains_key(e) && assoc_map(es)[e].0 != nodeid && assoc_map(
                            es,
                        )[e].1 != nodeid) implies assoc_map(ks).contains_key(e) by {
                        let n = choose|n: int| 0 <= n < es.len() && (#[trigger] es[n]).0 == e;
                        lemma_assoc_map_index(es, n);
                        assert(keep(es[n]));
                        assert(ks.contains(es[n]));
                        let m = choose|m: int| 0 <= m < ks.len() && ks[m] == es[n];
                        assert(ks[m].0 == e);
                    }
                    // the kept entries keep their key bound, so `wf` survives
                    assert forall|m: int| 0 <= m < ks.len() implies (#[trigger] ks[m]).0
                        <= self.last_edge_id by {
                        assert(ks.contains(ks[m]));
                        let n = choose|n: int| 0 <= n < es.len() && (#[trigger] es[n]) == ks[m]
                            && keep(ks[m]);
                    }
                    assert forall|e: EdgeId|
                        #[trigger] assoc_map(ks).contains_key(e) <==> (assoc_map(es).contains_key(e)
                            && assoc_map(es)[e].0 != nodeid && assoc_map(es)[e].1
                            != nodeid) by {
                        if assoc_map(ks).contains_key(e) {
                            assert(assoc_map(es).contains_key(e) && assoc_map(es)[e].0 != nodeid
                                && assoc_map(es)[e].1 != nodeid);
                        } else if assoc_map(es).contains_key(e) && assoc_map(es)[e].0 != nodeid
                            && assoc_map(es)[e].1 != nodeid {
                            assert(assoc_map(ks).contains_key(e));
                        }
                    }
                    assert forall|e: EdgeId|
                        assoc_map(es).contains_key(e) && !(assoc_map(es)[e].0 != nodeid
                            && assoc_map(es)[e].1 != nodeid) implies !(#[trigger] assoc_map(
                        ks,
                    ).contains_key(e)) by {
                        if assoc_map(ks).contains_key(e) {
                            assert(assoc_map(es)[e].0 != nodeid && assoc_map(es)[e].1 != nodeid);
                        }
                    }
                }
                self.edge_tbl = kept;
                true
            },
        }
    }

    fn get_node_val(&self, nodeid: NodeId) -> (r: Option<&T>) {
        proof {
            lemma_assoc_map_dom(self.node_tbl@);
        }
        match find_key(&self.node_tbl, nodeid) {
            Some(i) => {
                proof {
                    lemma_assoc_map_index(self.node_tbl@, i as int);
                }
                Some(&self.node_tbl[i].1)
            },
            None => None,
        }
    }

    fn set_node_val(&mut self, nodeid: NodeId, val: T) {
        let ghost s = self.node_tbl@;
        proof {
            lemma_assoc_map_dom(s);
        }
        match find_key(&self.node_tbl, nodeid) {
            Some(i) => {
                proof {
                    lemma_assoc_map_update(s, i as int, val);
                }
                let slot = vec_index_mut(&mut self.node_tbl, i);
                *slot = (nodeid, val);
            },
            None => {},
        }
    }

    fn new_edge(&mut self, from: NodeId, to: NodeId, weight: i32) -> (id: EdgeId) {
        let id = self.last_edge_id + 1;
        self.last_edge_id = id;
        let ghost s = self.edge_tbl@;
        proof {
            lemma_assoc_map_dom(s);
            lemma_assoc_map_push(s, id, EdgeTriplet(from, to, weight));
        }
        self.edge_tbl.push((id, EdgeTriplet(from, to, weight)));
        id
    }

    fn del_edge(&mut self, edgeid: EdgeId) -> (removed: bool) {
        let ghost s = self.edge_tbl@;
        match find_key(&self.edge_tbl, edgeid) {
            Some(i) => {
                proof {
                    lemma_assoc_map_index(s, i as int);
                    lemma_assoc_map_remove(s, i as int);
                }
                self.edge_tbl.remove(i);
                true
            },
            None => {
                proof {
                    lemma_assoc_map_dom(s);
                    assert(assoc_map(s).remove(edgeid) =~= assoc_map(s));
                }
                false
            },
        }
    }

    fn get_edge(&self, edgeid: EdgeId) -> (r: Option<EdgeTriplet>) {
        proof {
            lemma_assoc_map_dom(self.edge_tbl@);
        }
        match find_key(&self.edge_tbl, edgeid) {
            Some(i) => {
                proof {
                    lemma_assoc_map_index(self.edge_tbl@, i as int);
                }
                Some(self.edge_tbl[i].1)
            },
            None => None,
        }
    }

    fn set_edge(&mut self, edgeid: EdgeId, edge_data: EdgeTriplet) {
        let ghost s = self.edge_tbl@;
        proof {
            lemma_assoc_map_dom(s);
        }
        match find_key(&self.edge_tbl, edgeid) {
            Some(i) => {
                proof {
                    lemma_assoc_map_update(s, i as int, edge_data);
                }
                let slot = vec_index_mut(&mut self.edge_tbl, i);
                *slot = (edgeid, edge_data);
            },
            None => {},
        }
    }

    #[verifier::loop_isolation(false)]
    fn find_edges_from(&self, from: NodeId) -> (r: Option<Vec<EdgeId>>) {
        proof {
            lemma_assoc_map_dom(self.node_tbl@);
        }
        if find_key(&self.node_tbl, from).is_none() {
            return None;
        }
        let ghost es = self.edge_tbl@;
        let ghost p = |e: (EdgeId, EdgeTriplet)| e.1.0 == from;
        let mut out: Vec<EdgeId> = Vec::new();
        let mut j: usize = 0;
        while j < self.edge_tbl.len()
            invariant
                j <= es.len(),
                out@ == filter_ids(es, p, j as int),
            decreases es.len() - j,
        {
            let e = self.edge_tbl[j];
            if e.1.0 == from {
                out.push(e.0);
            }
            j = j + 1;
        }
        proof {
            lemma_filter_ids_contains(es, p, es.len() as int);
            lemma_filter_unique(es, p, es.len() as int);
            lemma_assoc_map_dom(es);
            assert forall|e: EdgeId| #[trigger] out@.contains(e) implies (self.edges().contains_key(
                e,
            ) && self.edges()[e].0 == from) by {
                let n = choose|n: int| 0 <= n < es.len() && (#[trigger] es[n]).0 == e && p(es[n]);
                lemma_assoc_map_index(es, n);
            }
            assert forall|e: EdgeId|
                (self.edges().contains_key(e) && self.edges()[e].0 == from) implies #[trigger] out@
                .contains(e) by {
                let n = choose|n: int| 0 <= n < es.len() && (#[trigger] es[n]).0 == e;
                lemma_assoc_map_index(es, n);
                assert(p(es[n]));
            }
        }
        Some(out)
    }

    #[verifier::loop_isolation(false)]
    fn find_edges_to(&self, to: NodeId) -> (r: Option<Vec<EdgeId>>) {
        proof {
            lemma_assoc_map_dom(self.node_tbl@);
        }
        if find_key(&self.node_tbl, to).is_none() {
            return None;
        }
        let ghost es = self.edge_tbl@;
        let ghost p = |e: (EdgeId, EdgeTriplet)| e.1.1 == to;
        let mut out: Vec<EdgeId> = Vec::new();
        let mut j: usize = 0;
        while j < self.edge_tbl.len()
            invariant
                j <= es.len(),
                out@ == filter_ids(es, p, j as int),
            decreases es.len() - j,
        {
            let e = self.edge_tbl[j];
            if e.1.1 == to {
                out.push(e.0);
            }
            j = j + 1;
        }
        proof {
            lemma_filter_ids_contains(es, p, es.len() as int);
            lemma_filter_unique(es, p, es.len() as int);
            lemma_assoc_map_dom(es);
            assert forall|e: EdgeId| #[trigger] out@.contains(e) implies (self.edges().contains_key(
                e,
            ) && self.edges()[e].1 == to) by {
                let n = choose|n: int| 0 <= n < es.len() && (#[trigger] es[n]).0 == e && p(es[n]);
                lemma_assoc_map_index(es, n);
            }
            assert forall|e: EdgeId|
                (self.edges().contains_key(e) && self.edges()[e].1 == to) implies #[trigger] out@
                .contains(e) by {
                let n = choose|n: int| 0 <= n < es.len() && (#[trigger] es[n]).0 == e;
                lemma_assoc_map_index(es, n);
                assert(p(es[n]));
            }
        }
        Some(out)
    }
}

impl<T> Graph<T> {
    /// The two identifier counters, as values: the highest node identifier
    /// assigned or adopted, and the highest edge identifier assigned.
    pub fn counters(&self) -> (r: (NodeId, EdgeId))
        ensures
            r.0 == self.node_counter(),
            r.1 == self.edge_counter(),
    {
        (self.last_node_id, self.last_edge_id)
    }

    /// The number of live nodes; the node-table map has exactly this many
    /// keys.
    pub proof fn lemma_node_count(&self)
        requires
            self.wf(),
        ensures
            self.nodes().dom().finite(),
            self.nodes().dom().len() == self.node_list().len(),
    {
        lemma_assoc_map_dom(self.node_tbl@);
        lemma_assoc_map_len(self.node_tbl@);
    }
}

/// The rendering of one node entry inside the whole-store string.
pub open spec fn node_item_render<T: DiagString>(e: (NodeId, T)) -> Seq<char> {
    "{\"nodeid\": \""@ + dec_str(e.0 as nat) + "\", \"value\": \""@ + e.1.diag_view()
        + "\"},"@
}

/// The rendering of one edge entry inside the whole-store string.
pub open spec fn edge_item_render(e: (EdgeId, EdgeTriplet)) -> Seq<char> {
    "{\"edgeid\": \""@ + dec_str(e.0 as nat) + "\", \"from\": \""@ + dec_str(e.1.0 as nat)
        + "\", \"to\": \""@ + dec_str(e.1.1 as nat) + "\", \"weight\": \""@ + dec_str_int(
        e.1.2 as int,
    ) + "\"},"@
}

/// The renderings of a table's entries, concatenated in table order.
pub open spec fn nodes_render<T: DiagString>(s: Seq<(NodeId, T)>) -> Seq<char>
    decreases s.len(),
{
    if s.len() == 0 {
        Seq::empty()
    } else {
        nodes_render(s.drop_last()) + node_item_render(s.last())
    }
}

/// The renderings of the edge table's entries, concatenated in table order.
pub open spec fn edges_render(s: Seq<(EdgeId, EdgeTriplet)>) -> Seq<char>
    decreases s.len(),
{
    if s.len() == 0 {
        Seq::empty()
    } else {
        edges_render(s.drop_last()) + edge_item_render(s.last())
    }
}

impl<T: DiagString> GraphDisplay<T> for Graph<T> {
    closed spec fn render(&self) -> Seq<char> {
        "{ \"nodes\": "@ + nodes_render(self.node_tbl@) + ", \"edges\": "@ + edges_render(
            self.edge_tbl@,
        ) + " }"@
    }

    #[verifier::loop_isolation(false)]
    fn to_string(&self) -> (r: String) {
        let mut nodes_s = String::new();
        let mut i: usize = 0;
        while i < self.node_tbl.len()
            invariant
                i <= self.node_tbl@.len(),
                nodes_s@ == nodes_render(self.node_tbl@.take(i as int)),
            decreases self.node_tbl@.len() - i,
        {
            let entry = &self.node_tbl[i];
            let ids = usize_to_string(entry.0);
            let vs = entry.1.diag_string();
            nodes_s.append("{\"nodeid\": \"");
            nodes_s.append(ids.as_str());
            nodes_s.append("\", \"value\": \"");
            nodes_s.append(vs.as_str());
            nodes_s.append("\"},");
            proof {
                assert(self.node_tbl@.take(i as int + 1).drop_last() =~= self.node_tbl@.take(
                    i as int,
                ));
                assert(self.node_tbl@.take(i as int + 1).last() == self.node_tbl@[i as int]);
                assert(nodes_s@ =~= nodes_render(self.node_tbl@.take(i as int + 1)));
            }
            i = i + 1;
        }
        let mut edges_s = String::new();
        let mut j: usize = 0;
        while j < self.edge_tbl.len()
            invariant
                j <= self.edge_tbl@.len(),
                edges_s@ == edges_render(self.edge_tbl@.take(j as int)),
            decreases self.edge_tbl@.len() - j,
        {
            let entry = &self.edge_tbl[j];
            let ids = usize_to_string(entry.0);
            let fs = usize_to_string(entry.1.0);
            let ts = usize_to_string(entry.1.1);
            let ws = i32_to_string(entry.1.2);
            edges_s.append("{\"edgeid\": \"");
            edges_s.append(ids.as_str());
            edges_s.append("\", \"from\": \"");
            edges_s.append(fs.as_str());
            edges_s.append("\", \"to\": \"");
            edges_s.append(ts.as_str());
            edges_s.append("\", \"weight\": \"");
            edges_s.append(ws.as_str());
            edges_s.append("\"},");
            proof {
                assert(self.edge_tbl@.take(j as int + 1).drop_last() =~= self.edge_tbl@.take(
                    j as int,
                ));
                assert(self.edge_tbl@.take(j as int + 1).last() == self.edge_tbl@[j as int]);
                assert(edges_s@ =~= edges_render(self.edge_tbl@.take(j as int + 1)));
            }
            j = j + 1;
        }
        let mut result = String::new();
        result.append("{ \"nodes\": ");
        result.append(nodes_s.as_str());
        result.append(", \"edges\": ");
        result.append(edges_s.as_str());
        result.append(" }");
        proof {
            assert(self.node_tbl@.take(self.node_tbl@.len() as int) =~= self.node_tbl@);
            assert(self.edge_tbl@.take(self.edge_tbl@.len() as int) =~= self.edge_tbl@);
            assert(result@ =~= self.render());
        }
        result
    }

    fn node_to_string(&self, node_id: NodeId) -> (r: Option<String>) {
        proof {
            lemma_assoc_map_dom(self.node_tbl@);
        }
        match find_key(&self.node_tbl, node_id) {
            None => None,
            Some(i) => {
                proof {
                    lemma_assoc_map_index(self.node_tbl@, i as int);
                }
                let ids = usize_to_string(node_id);
                let vs = self.node_tbl[i].1.diag_string();
                let mut s = String::new();
                s.append("{ \"nodeid\": ");
                s.append(ids.as_str());
                s.append(", \"value\": ");
                s.append(vs.as_str());
                s.append(" }");
                proof {
                    assert(s@ =~= node_render(node_id, self.nodes()[node_id].diag_view()));
                }
                Some(s)
            },
        }
    }

    fn edge_to_string(&self, edge_id: EdgeId) -> (r: Option<String>) {
        proof {
            lemma_assoc_map_dom(self.edge_tbl@);
        }
        match find_key(&self.edge_tbl, edge_id) {
            None => None,
            Some(i) => {
                proof {
                    lemma_assoc_map_index(self.edge_tbl@, i as int);
                }
                let t = self.edge_tbl[i].1;
                let ids = usize_to_string(edge_id);
                let fs = usize_to_string(t.0);
                let ts = usize_to_string(t.1);
                let ws = i32_to_string(t.2);
                let mut s = String::new();
                s.append("{ \"edge_id\": ");
                s.append(ids.as_str());
                s.append(", \"from\": \"");
                s.append(fs.as_str());
                s.append("\", \"to\": \"");
                s.append(ts.as_str());
                s.append("\", \"weight\": ");
                s.append(ws.as_str());
                s.append(" }");
                proof {
                    assert(s@ =~= edge_render(edge_id, self.edges()[edge_id]));
                }
                Some(s)
            },
        }
    }

    #[verifier::loop_isolation(false)]
    fn path_to_string(&self, path: &Path) -> (r: Option<String>) {
        let mut result = String::new();
        let mut i: usize = 0;
        while i < path.len()
            invariant
                i <= path@.len(),
                forall|t: int|
                    0 <= t < i ==> self.nodes().contains_key(#[trigger] path@[t]),
                result@ == path_render(self.nodes(), path@.take(i as int)),
            decreases path@.len() - i,
        {
            let n = path[i];
            let piece = match self.node_to_string(n) {
                Some(piece) => piece,
                None => {
                    return None;
                },
            };
            result.append(piece.as_str());
            proof {
                assert(path@.take(i as int + 1).drop_last() =~= path@.take(i as int));
                assert(path@.take(i as int + 1).last() == path@[i as int]);
                assert(result@ =~= path_render(self.nodes(), path@.take(i as int + 1)));
            }
            i = i + 1;
        }
        proof {
            assert(path@.take(path@.len() as int) =~= path@);
        }
        Some(result)
    }
}

} // verus!
