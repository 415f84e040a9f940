//! Map-data ingestion: consumes the streamed sequence of tagged elements
//! of a map dataset and populates the graph store.  Map nodes become graph
//! nodes (upsert keyed by the dataset's own identifier); each way becomes
//! a chain of directed edges of weight one between consecutive node
//! references; every other element is skipped, subtree and all.
//!
//! Policy choices, applied uniformly: a `node` element whose `id`, `lat`,
//! `lon` or `version` attribute is missing or unparsable aborts the whole
//! run with `OsmError::MalformedNode` (nothing of that node is stored;
//! earlier elements remain applied).  A `nd` reference that is missing or
//! unparsable is skipped silently.  A failure of the underlying stream
//! aborts the run with `OsmError::Stream` before anything is applied.
//! Ingestion stops at the end of the stream regardless of how many
//! elements are still open.

use vstd::prelude::*;

use crate::display::{dec_str, dec_str_int, i32_to_string, i64_to_string, usize_to_string,
    DiagString};
use crate::graph::Graph;
use crate::graphtraits::{EdgeId, EdgeTriplet, GraphCrud, NodeId};
use crate::numtext::{parse_i32, parse_i32_spec, parse_nanodeg, parse_nanodeg_spec, parse_usize,
    parse_usize_spec};

verus! {

/// A point of the map dataset: the dataset's own identifier, the
/// coordinates in nanodegrees (degrees scaled by one billion), and the
/// element's version.
#[derive(Clone, Copy, PartialEq, Eq, Structural, Debug)]
pub struct OsmNode {
    pub id: usize,
    pub lat: i64,
    pub lon: i64,
    pub version: i32,
}

/// One event of the streamed dataset, reduced to what ingestion reads: an
/// element opens (with its attributes as key/value pairs), an element
/// closes, the document ends, or something else happened (text, comments,
/// processing instructions).
pub enum OsmEvent {
    StartElement { name: String, attrs: Vec<(String, String)> },
    EndElement { name: String },
    EndDocument,
    Other,
}

/// Why an ingestion run aborted.
#[derive(Clone, Copy, PartialEq, Eq, Structural, Debug)]
pub enum OsmError {
    /// A `node` element lacked a required attribute, or one did not parse.
    MalformedNode,
    /// The underlying byte stream failed.
    Stream,
}

/// The store's state, abstractly: both tables and both identifier
/// counters.
#[verifier::ext_equal]
pub ghost struct IngestModel {
    pub nodes: Map<NodeId, OsmNode>,
    pub edges: Map<EdgeId, EdgeTriplet>,
    pub node_ctr: NodeId,
    pub edge_ctr: EdgeId,
}

/// The abstract state of a graph store of map nodes.
pub open spec fn model_of(g: Graph<OsmNode>) -> IngestModel {
    IngestModel {
        nodes: g.nodes(),
        edges: g.edges(),
        node_ctr: g.node_counter(),
        edge_ctr: g.edge_counter(),
    }
}

/// The value of the first attribute with the given name.
pub open spec fn attr_lookup(attrs: Seq<(String, String)>, key: Seq<char>) -> Option<Seq<char>>
    decreases attrs.len(),
{
    if attrs.len() == 0 {
        None
    } else if attrs[0].0@ == key {
        Some(attrs[0].1@)
    } else {
        attr_lookup(attrs.drop_first(), key)
    }
}

/// The map node described by a `node` element's attributes, if all four
/// required attributes are present and parse.
pub open spec fn node_of_attrs(attrs: Seq<(String, String)>) -> Option<OsmNode> {
    match attr_lookup(attrs, "id"@) {
        None => None,
        Some(id_s) => match parse_usize_spec(id_s) {
            None => None,
            Some(id) => match attr_lookup(attrs, "lat"@) {
                None => None,
                Some(lat_s) => match parse_nanodeg_spec(lat_s) {
                    None => None,
                    Some(lat) => match attr_lookup(attrs, "lon"@) {
                        None => None,
                        Some(lon_s) => match parse_nanodeg_spec(lon_s) {
                            None => None,
                            Some(lon) => match attr_lookup(attrs, "version"@) {
                                None => None,
                                Some(v_s) => match parse_i32_spec(v_s) {
                                    None => None,
                                    Some(version) => Some(OsmNode { id, lat, lon, version }),
                                },
                            },
                        },
                    },
                },
            },
        },
    }
}

/// The node reference carried by a `nd` element, if present and parsable.
pub open spec fn nd_ref(attrs: Seq<(String, String)>) -> Option<usize> {
    match attr_lookup(attrs, "ref"@) {
        None => None,
        Some(v) => parse_usize_spec(v),
    }
}

/// The position just past the current element's subtree: starting inside
/// an element, scan past balanced start/end pairs until the element's own
/// end (or the end of the document, or of the event list — ingestion is
/// defensive about truncated streams).
pub open spec fn skip_scan(s: Seq<OsmEvent>, i: int, depth: int) -> int
    decreases s.len() - i,
{
    if i < 0 || i >= s.len() {
        i
    } else {
        match s[i] {
            OsmEvent::StartElement { .. } => skip_scan(s, i + 1, depth + 1),
            OsmEvent::EndElement { .. } => if depth <= 0 {
                i + 1
            } else {
                skip_scan(s, i + 1, depth - 1)
            },
            OsmEvent::EndDocument => i + 1,
            OsmEvent::Other => skip_scan(s, i + 1, depth),
        }
    }
}

/// Skipping moves forward, consumes at least one event when one is there,
/// and never passes the end.
pub proof fn lemma_skip_scan_range(s: Seq<OsmEvent>, i: int, depth: int)
    requires
        0 <= i <= s.len(),
    ensures
        i <= skip_scan(s, i, depth) <= s.len(),
        i < s.len() ==> i + 1 <= skip_scan(s, i, depth),
    decreases s.len() - i,
{
    if i < s.len() {
        lemma_skip_scan_range(s, i + 1, depth + 1);
        lemma_skip_scan_range(s, i + 1, depth - 1);
        lemma_skip_scan_range(s, i + 1, depth);
    }
}

/// Skips the remainder of the current element: everything up to and
/// including its end, balancing nested elements; a truncated stream stops
/// the skip at its end.
pub fn parse_until_end_element(events: &Vec<OsmEvent>, i: &mut usize)
    requires
        *old(i) <= events@.len(),
    ensures
        *final(i) as int == skip_scan(events@, *old(i) as int, 0),
        *old(i) <= *final(i) <= events@.len(),
{
    let ghost s = events@;
    let ghost i0 = *i as int;
    proof {
        lemma_skip_scan_range(s, i0, 0);
    }
    let mut depth: usize = 0;
    let mut done = false;
    #[verifier::loop_isolation(false)]
    while !done && *i < events.len()
        invariant
            i0 <= *i as int <= s.len(),
            depth as int <= *i as int - i0,
            !done ==> skip_scan(s, i0, 0) == skip_scan(s, *i as int, depth as int),
            done ==> skip_scan(s, i0, 0) == *i as int,
        decreases s.len() - *i as int + (if done {
            0int
        } else {
            1int
        }),
    {
        let ev = &events[*i];
        match ev {
            OsmEvent::StartElement { .. } => {
                depth = depth + 1;
            },
            OsmEvent::EndElement { .. } => {
                if depth == 0 {
                    done = true;
                } else {
                    depth = depth - 1;
                }
            },
            OsmEvent::EndDocument => {
                done = true;
            },
            OsmEvent::Other => {},
        }
        *i = *i + 1;
    }
    proof {
        if !done {
            assert(*i as int == s.len());
            assert(skip_scan(s, *i as int, depth as int) == *i as int);
        }
    }
}

/// Character-by-character string equality.
fn str_eq(a: &str, b: &str) -> (r: bool)
    ensures
        r == (a@ == b@),
{
    let la = a.unicode_len();
    let lb = b.unicode_len();
    if la != lb {
        return false;
    }
    let mut i: usize = 0;
    #[verifier::loop_isolation(false)]
    while i < la
        invariant
            i <= la,
            forall|j: int| 0 <= j < i ==> a@[j] == b@[j],
        decreases la - i,
    {
        if a.get_char(i) != b.get_char(i) {
            return false;
        }
        i = i + 1;
    }
    proof {
        assert(a@ =~= b@);
    }
    true
}

/// The first attribute with the given name, if any.
fn get_attr<'a>(attrs: &'a Vec<(String, String)>, key: &str) -> (r: Option<&'a String>)
    ensures
        match r {
            Some(v) => attr_lookup(attrs@, key@) == Some(v@),
            None => attr_lookup(attrs@, key@) is None,
        },
{
    let mut j: usize = 0;
    proof {
        assert(attrs@.skip(0) =~= attrs@);
    }
    #[verifier::loop_isolation(false)]
    while j < attrs.len()
        invariant
            j <= attrs@.len(),
            attr_lookup(attrs@, key@) == attr_lookup(attrs@.skip(j as int), key@),
        decreases attrs@.len() - j,
    {
        if str_eq(attrs[j].0.as_str(), key) {
            proof {
                assert(attrs@.skip(j as int)[0] == attrs@[j as int]);
            }
            return Some(&attrs[j].1);
        }
        proof {
            assert(attrs@.skip(j as int)[0] == attrs@[j as int]);
            assert(attrs@.skip(j as int).drop_first() =~= attrs@.skip(j as int + 1));
        }
        j = j + 1;
    }
    proof {
        assert(attrs@.skip(attrs@.len() as int).len() == 0);
    }
    None
}

/// Handles one `node` element whose start tag carried `attrs`: parses the
/// required attributes, upserts the map node, and skips the rest of the
/// element; a missing or unparsable attribute aborts with the store
/// untouched and the position unmoved.
pub fn parse_osm_node_event(
    events: &Vec<OsmEvent>,
    i: &mut usize,
    g: &mut Graph<OsmNode>,
    attrs: &Vec<(String, String)>,
) -> (r: Result<(), OsmError>)
    requires
        old(g).wf(),
        *old(i) <= events@.len(),
    ensures
        final(g).wf(),
        match r {
            Ok(()) => node_of_attrs(attrs@) matches Some(n) && model_of(*final(g))
                == upsert_node_model(model_of(*old(g)), n) && *final(i) as int == skip_scan(
                events@,
                *old(i) as int,
                0,
            ) && *old(i) <= *final(i) <= events@.len(),
            Err(e) => e == OsmError::MalformedNode && node_of_attrs(attrs@) is None && model_of(
                *final(g),
            ) == model_of(*old(g)) && *final(i) == *old(i),
        },
{
    let id_s = match get_attr(attrs, "id") {
        Some(v) => v,
        None => {
            return Err(OsmError::MalformedNode);
        },
    };
    let id = match parse_usize(id_s.as_str()) {
        Some(v) => v,
        None => {
            return Err(OsmError::MalformedNode);
        },
    };
    let lat_s = match get_attr(attrs, "lat") {
        Some(v) => v,
        None => {
            return Err(OsmError::MalformedNode);
        },
    };
    let lat = match parse_nanodeg(lat_s.as_str()) {
        Some(v) => v,
        None => {
            return Err(OsmError::MalformedNode);
        },
    };
    let lon_s = match get_attr(attrs, "lon") {
        Some(v) => v,
        None => {
            return Err(OsmError::MalformedNode);
        },
    };
    let lon = match parse_nanodeg(lon_s.as_str()) {
        Some(v) => v,
        None => {
            return Err(OsmError::MalformedNode);
        },
    };
    let ver_s = match get_attr(attrs, "version") {
        Some(v) => v,
        None => {
            return Err(OsmError::MalformedNode);
        },
    };
    let version = match parse_i32(ver_s.as_str()) {
        Some(v) => v,
        None => {
            return Err(OsmError::MalformedNode);
        },
    };
    let node = OsmNode { id, lat, lon, version };
    g.set_node(node, id);
    parse_until_end_element(events, i);
    proof {
        assert(node_of_attrs(attrs@) == Some(node));
        assert(model_of(*g) =~~= upsert_node_model(model_of(*old(g)), node));
    }
    Ok(())
}

/// The model after upserting one map node: the node table gains (or
/// overwrites) the record under the dataset's identifier, and the node
/// counter is raised to it when necessary.
pub open spec fn upsert_node_model(m: IngestModel, n: OsmNode) -> IngestModel {
    IngestModel {
        nodes: m.nodes.insert(n.id, n),
        edges: m.edges,
        node_ctr: if n.id > m.node_ctr {
            n.id
        } else {
            m.node_ctr
        },
        edge_ctr: m.edge_ctr,
    }
}

/// Handles one `nd` element: skips its subtree and yields its parsed
/// `ref` attribute, if any.
pub fn parse_osm_nd_event(events: &Vec<OsmEvent>, i: &mut usize, attrs: &Vec<(String, String)>) -> (r:
    Option<usize>)
    requires
        *old(i) <= events@.len(),
    ensures
        *final(i) as int == skip_scan(events@, *old(i) as int, 0),
        *old(i) <= *final(i) <= events@.len(),
        r == nd_ref(attrs@),
{
    parse_until_end_element(events, i);
    let ref_s = match get_attr(attrs, "ref") {
        Some(v) => v,
        None => {
            return None;
        },
    };
    parse_usize(ref_s.as_str())
}

/// The ordered node references collected by a `way` element's body
/// starting at `i`, and the position just past the body: `nd` children
/// contribute their parsed `ref` (unparsable ones are skipped), other
/// children are skipped whole, and the body ends at the way's end tag, at
/// the end of the document, or at the end of the stream.
pub open spec fn way_scan(s: Seq<OsmEvent>, i: int) -> (Seq<usize>, int)
    decreases s.len() - i,
        when 0 <= i
        via way_scan_dec
{
    if i >= s.len() {
        (Seq::empty(), i)
    } else {
        match s[i] {
            OsmEvent::StartElement { name, attrs } => {
                let j = skip_scan(s, i + 1, 0);
                let rest = way_scan(s, j);
                if name@ == "nd"@ {
                    match nd_ref(attrs@) {
                        Some(r) => (seq![r] + rest.0, rest.1),
                        None => rest,
                    }
                } else {
                    rest
                }
            },
            OsmEvent::EndElement { .. } => (Seq::empty(), i + 1),
            OsmEvent::EndDocument => (Seq::empty(), i + 1),
            OsmEvent::Other => way_scan(s, i + 1),
        }
    }
}

#[via_fn]
proof fn way_scan_dec(s: Seq<OsmEvent>, i: int) {
    if 0 <= i < s.len() {
        lemma_skip_scan_range(s, i + 1, 0);
    }
}

/// A way body always moves forward and never passes the end.
pub proof fn lemma_way_scan_range(s: Seq<OsmEvent>, i: int)
    requires
        0 <= i <= s.len(),
    ensures
        i <= way_scan(s, i).1 <= s.len(),
        i < s.len() ==> i + 1 <= way_scan(s, i).1,
    decreases s.len() - i,
{
    if i < s.len() {
        lemma_skip_scan_range(s, i + 1, 0);
        match s[i] {
            OsmEvent::StartElement { .. } => {
                lemma_way_scan_range(s, skip_scan(s, i + 1, 0));
            },
            OsmEvent::Other => {
                lemma_way_scan_range(s, i + 1);
            },
            _ => {},
        }
    }
}

/// The model after recording one way: one directed edge of weight one
/// between each consecutive pair of references, under fresh identifiers in
/// order; fewer than two references record nothing.  (Should the edge
/// counter ever be exhausted, the remaining pairs are not recorded.)
pub open spec fn add_way_model(m: IngestModel, refs: Seq<usize>) -> IngestModel
    decreases refs.len(),
{
    if refs.len() < 2 {
        m
    } else if m.edge_ctr == usize::MAX {
        m
    } else {
        let id = (m.edge_ctr + 1) as usize;
        let m1 = IngestModel {
            nodes: m.nodes,
            edges: m.edges.insert(id, EdgeTriplet(refs[0], refs[1], 1)),
            node_ctr: m.node_ctr,
            edge_ctr: id,
        };
        add_way_model(m1, refs.drop_first())
    }
}

/// Records one way's chain of edges in the store.
fn add_way_edges(g: &mut Graph<OsmNode>, refs: &Vec<usize>)
    requires
        old(g).wf(),
    ensures
        final(g).wf(),
        model_of(*final(g)) == add_way_model(model_of(*old(g)), refs@),
{
    if refs.len() < 2 {
        return ;
    }
    let mut from = refs[0];
    let mut idx: usize = 1;
    let ghost m0 = model_of(*g);
    proof {
        assert(refs@.skip(0) =~= refs@);
    }
    #[verifier::loop_isolation(false)]
    while idx < refs.len()
        invariant
            1 <= idx <= refs@.len(),
            g.wf(),
            from == refs@[idx - 1],
            add_way_model(m0, refs@) == add_way_model(model_of(*g), refs@.skip(idx - 1)),
        decreases refs@.len() - idx,
    {
        let to = refs[idx];
        let ghost mpre = model_of(*g);
        let ghost tail = refs@.skip(idx - 1);
        proof {
            assert(tail.len() >= 2);
            assert(tail[0] == refs@[idx - 1]);
            assert(tail[1] == refs@[idx as int]);
            assert(tail.drop_first() =~= refs@.skip(idx as int));
        }
        let (_, ec) = g.counters();
        if ec == usize::MAX {
            proof {
                lemma_way_skip_rest(model_of(*g), tail);
            }
            return ;
        }
        g.new_edge(from, to, 1);
        proof {
            assert(model_of(*g) =~~= IngestModel {
                nodes: mpre.nodes,
                edges: mpre.edges.insert((mpre.edge_ctr + 1) as usize, EdgeTriplet(from, to, 1)),
                node_ctr: mpre.node_ctr,
                edge_ctr: (mpre.edge_ctr + 1) as usize,
            });
        }
        from = to;
        idx = idx + 1;
    }
    proof {
        assert(refs@.skip(refs@.len() - 1).len() == 1);
    }
}

/// With the edge counter exhausted, a way records nothing more.
proof fn lemma_way_skip_rest(m: IngestModel, refs: Seq<usize>)
    requires
        m.edge_ctr == usize::MAX,
    ensures
        add_way_model(m, refs) == m,
    decreases refs.len(),
{
}

/// Handles one `way` element's body: collects the ordered `nd` references
/// and records the chain of edges.
pub fn parse_osm_way_event(events: &Vec<OsmEvent>, i: &mut usize, g: &mut Graph<OsmNode>)
    requires
        old(g).wf(),
        *old(i) <= events@.len(),
    ensures
        final(g).wf(),
        model_of(*final(g)) == add_way_model(
            model_of(*old(g)),
            way_scan(events@, *old(i) as int).0,
        ),
        *final(i) as int == way_scan(events@, *old(i) as int).1,
        *old(i) <= *final(i) <= events@.len(),
{
    let ghost s = events@;
    let ghost i0 = *i as int;
    proof {
        lemma_way_scan_range(s, i0);
    }
    let mut refs: Vec<usize> = Vec::new();
    let mut done = false;
    #[verifier::loop_isolation(false)]
    while !done && *i < events.len()
        invariant
            i0 <= *i as int <= s.len(),
            !done ==> way_scan(s, i0) == (refs@ + way_scan(s, *i as int).0, way_scan(
                s,
                *i as int,
            ).1),
            done ==> way_scan(s, i0).0 == refs@ && way_scan(s, i0).1 == *i as int,
        decreases s.len() - *i as int + (if done {
            0int
        } else {
            1int
        }),
    {
        match &events[*i] {
            OsmEvent::StartElement { name, attrs } => {
                let nd = str_eq(name.as_str(), "nd");
                *i = *i + 1;
                if nd {
                    let r = parse_osm_nd_event(events, i, attrs);
                    proof {
                        lemma_way_scan_range(s, *i as int);
                    }
                    if let Some(num) = r {
                        let ghost old_refs = refs@;
                        refs.push(num);
                        proof {
                            assert(refs@ =~= old_refs.push(num));
                            assert(old_refs + (seq![num] + way_scan(s, *i as int).0) =~= refs@
                                + way_scan(s, *i as int).0);
                        }
                    }
                } else {
                    parse_until_end_element(events, i);
                    proof {
                        lemma_way_scan_range(s, *i as int);
                    }
                }
            },
            OsmEvent::EndElement { .. } => {
                *i = *i + 1;
                done = true;
            },
            OsmEvent::EndDocument => {
                *i = *i + 1;
                done = true;
            },
            OsmEvent::Other => {
                *i = *i + 1;
            },
        }
    }
    proof {
        if !done {
            assert(*i as int == s.len());
            assert(way_scan(s, *i as int).0 =~= Seq::<usize>::empty());
            assert(refs@ + way_scan(s, *i as int).0 =~= refs@);
        }
    }
    add_way_edges(g, &refs);
}

/// The model reached by the body of the `osm` element from position `i`,
/// whether the run succeeded, and the position just past the body: `node`
/// elements upsert map nodes (a malformed one aborts the run on the spot),
/// `way` elements record edge chains, unknown elements are skipped whole,
/// and the body runs to the end of the document or of the stream.
pub open spec fn body_scan(s: Seq<OsmEvent>, i: int, m: IngestModel) -> (IngestModel, bool, int)
    decreases s.len() - i,
        when 0 <= i
        via body_scan_dec
{
    if i >= s.len() {
        (m, true, i)
    } else {
        match s[i] {
            OsmEvent::StartElement { name, attrs } => {
                if name@ == "node"@ {
                    match node_of_attrs(attrs@) {
                        None => (m, false, i + 1),
                        Some(n) => body_scan(s, skip_scan(s, i + 1, 0), upsert_node_model(m, n)),
                    }
                } else if name@ == "way"@ {
                    let w = way_scan(s, i + 1);
                    body_scan(s, w.1, add_way_model(m, w.0))
                } else {
                    body_scan(s, skip_scan(s, i + 1, 0), m)
                }
            },
            OsmEvent::EndElement { .. } => body_scan(s, i + 1, m),
            OsmEvent::EndDocument => (m, true, i + 1),
            OsmEvent::Other => body_scan(s, i + 1, m),
        }
    }
}

#[via_fn]
proof fn body_scan_dec(s: Seq<OsmEvent>, i: int, m: IngestModel) {
    if 0 <= i < s.len() {
        lemma_skip_scan_range(s, i + 1, 0);
        lemma_way_scan_range(s, i + 1);
    }
}

/// The body always moves forward and never passes the end.
pub proof fn lemma_body_scan_range(s: Seq<OsmEvent>, i: int, m: IngestModel)
    requires
        0 <= i <= s.len(),
    ensures
        i <= body_scan(s, i, m).2 <= s.len(),
        i < s.len() ==> i + 1 <= body_scan(s, i, m).2,
    decreases s.len() - i,
{
    if i < s.len() {
        lemma_skip_scan_range(s, i + 1, 0);
        lemma_way_scan_range(s, i + 1);
        match s[i] {
            OsmEvent::StartElement { name, attrs } => {
                if name@ == "node"@ {
                    match node_of_attrs(attrs@) {
                        None => {},
                        Some(n) => {
                            lemma_body_scan_range(s, skip_scan(s, i + 1, 0), upsert_node_model(m, n));
                        },
                    }
                } else if name@ == "way"@ {
                    let w = way_scan(s, i + 1);
                    lemma_body_scan_range(s, w.1, add_way_model(m, w.0));
                } else {
                    lemma_body_scan_range(s, skip_scan(s, i + 1, 0), m);
                }
            },
            OsmEvent::EndElement { .. } => {
                lemma_body_scan_range(s, i + 1, m);
            },
            OsmEvent::EndDocument => {},
            OsmEvent::Other => {
                lemma_body_scan_range(s, i + 1, m);
            },
        }
    }
}

/// Processes the body of the `osm` element: `node` and `way` elements
/// mutate the store, everything else is skipped; a malformed `node`
/// aborts the run, with every earlier element still applied.
pub fn parse_osm_body(events: &Vec<OsmEvent>, i: &mut usize, g: &mut Graph<OsmNode>) -> (r: Result<
    (),
    OsmError,
>)
    requires
        old(g).wf(),
        *old(i) <= events@.len(),
    ensures
        final(g).wf(),
        *old(i) <= *final(i) <= events@.len(),
        ({
            let b = body_scan(events@, *old(i) as int, model_of(*old(g)));
            match r {
                Ok(()) => b.1 && model_of(*final(g)) == b.0 && *final(i) as int == b.2,
                Err(e) => e == OsmError::MalformedNode && !b.1 && model_of(*final(g)) == b.0,
            }
        }),
{
    let ghost s = events@;
    let ghost i0 = *i as int;
    let ghost m0 = model_of(*g);
    let mut done = false;
    #[verifier::loop_isolation(false)]
    while !done && *i < events.len()
        invariant
            i0 <= *i as int <= s.len(),
            g.wf(),
            !done ==> body_scan(s, i0, m0) == body_scan(s, *i as int, model_of(*g)),
            done ==> body_scan(s, i0, m0) == (model_of(*g), true, *i as int),
        decreases s.len() - *i as int + (if done {
            0int
        } else {
            1int
        }),
    {
        match &events[*i] {
            OsmEvent::StartElement { name, attrs } => {
                let is_node = str_eq(name.as_str(), "node");
                let is_way = if is_node {
                    false
                } else {
                    str_eq(name.as_str(), "way")
                };
                *i = *i + 1;
                if is_node {
                    let res = parse_osm_node_event(events, i, g, attrs);
                    if res.is_err() {
                        return Err(OsmError::MalformedNode);
                    }
                } else if is_way {
                    parse_osm_way_event(events, i, g);
                } else {
                    parse_until_end_element(events, i);
                }
            },
            OsmEvent::EndElement { .. } => {
                *i = *i + 1;
            },
            OsmEvent::EndDocument => {
                *i = *i + 1;
                done = true;
            },
            OsmEvent::Other => {
                *i = *i + 1;
            },
        }
    }
    proof {
        if !done {
            assert(*i as int == s.len());
        }
    }
    Ok(())
}

/// The model reached by a whole event stream from position `i`: unknown
/// top-level elements are skipped, each `osm` element's body is processed,
/// and the run stops at the end of the document or of the stream.
pub open spec fn osm_scan(s: Seq<OsmEvent>, i: int, m: IngestModel) -> (IngestModel, bool)
    decreases s.len() - i,
        when 0 <= i
        via osm_scan_dec
{
    if i >= s.len() {
        (m, true)
    } else {
        match s[i] {
            OsmEvent::StartElement { name, .. } => {
                if name@ == "osm"@ {
                    let b = body_scan(s, i + 1, m);
                    if !b.1 {
                        (b.0, false)
                    } else {
                        osm_scan(s, b.2, b.0)
                    }
                } else {
                    osm_scan(s, skip_scan(s, i + 1, 0), m)
                }
            },
            OsmEvent::EndElement { .. } => osm_scan(s, i + 1, m),
            OsmEvent::EndDocument => (m, true),
            OsmEvent::Other => osm_scan(s, i + 1, m),
        }
    }
}

#[via_fn]
proof fn osm_scan_dec(s: Seq<OsmEvent>, i: int, m: IngestModel) {
    if 0 <= i < s.len() {
        lemma_skip_scan_range(s, i + 1, 0);
        match s[i] {
            OsmEvent::StartElement { name, .. } => {
                if name@ == "osm"@ {
                    lemma_body_scan_range(s, i + 1, m);
                }
            },
            _ => {},
        }
    }
}

/// Ingests a whole event stream into the store.  The resulting store is
/// the fold of the stream's `node` upserts and `way` edge chains; on
/// `Err(MalformedNode)` everything before the offending node is applied.
pub fn parse_osm_events(events: &Vec<OsmEvent>, g: &mut Graph<OsmNode>) -> (r: Result<
    (),
    OsmError,
>)
    requires
        old(g).wf(),
    ensures
        final(g).wf(),
        ({
            let o = osm_scan(events@, 0, model_of(*old(g)));
            match r {
                Ok(()) => o.1 && model_of(*final(g)) == o.0,
                Err(e) => e == OsmError::MalformedNode && !o.1 && model_of(*final(g)) == o.0,
            }
        }),
{
    let ghost s = events@;
    let ghost m0 = model_of(*g);
    let mut i: usize = 0;
    let mut done = false;
    #[verifier::loop_isolation(false)]
    while !done && i < events.len()
        invariant
            0 <= i as int <= s.len(),
            g.wf(),
            !done ==> osm_scan(s, 0, m0) == osm_scan(s, i as int, model_of(*g)),
            done ==> osm_scan(s, 0, m0) == (model_of(*g), true),
        decreases s.len() - i as int + (if done {
            0int
        } else {
            1int
        }),
    {
        match &events[i] {
            OsmEvent::StartElement { name, .. } => {
                let is_osm = str_eq(name.as_str(), "osm");
                i = i + 1;
                if is_osm {
                    let res = parse_osm_body(events, &mut i, g);
                    if res.is_err() {
                        return Err(OsmError::MalformedNode);
                    }
                } else {
                    parse_until_end_element(events, &mut i);
                }
            },
            OsmEvent::EndElement { .. } => {
                i = i + 1;
            },
            OsmEvent::EndDocument => {
                i = i + 1;
                done = true;
            },
            OsmEvent::Other => {
                i = i + 1;
            },
        }
    }
    proof {
        if !done {
            assert(i as int == s.len());
        }
    }
    Ok(())
}

/// A pull parser over the streamed dataset's bytes.  The inner reader is
/// opaque to verification; everything read through it comes out as an
/// `OsmEvent`, and the verified code handles every value of those.
#[verifier::external_body]
pub struct OsmReader {
    inner: xml::reader::EventReader<std::io::Cursor<Vec<u8>>>,
}

/// Relies on xml::reader::EventReader::new: wraps the dataset's bytes in a
/// pull parser.
#[verifier::external_body]
pub fn osm_reader(data: Vec<u8>) -> OsmReader {
    OsmReader { inner: xml::reader::EventReader::new(std::io::Cursor::new(data)) }
}

/// Relies on xml::reader::EventReader::next: pulls the next event from the
/// stream; after an error or the first EndDocument, further calls return
/// the same again.  Nothing is assumed of an event but its shape; an error
/// of the underlying stream comes back as `Err(Stream)`.
#[verifier::external_body]
fn next_event(parser: &mut OsmReader) -> (r: Result<
    OsmEvent,
    OsmError,
>)
    ensures
        r matches Err(e) ==> e == OsmError::Stream,
{
    let parser = &mut parser.inner;
    match parser.next() {
        Ok(xml::reader::XmlEvent::StartElement { name, attributes, .. }) => Ok(
            OsmEvent::StartElement {
                name: name.local_name,
                attrs: attributes.into_iter().map(|a| (a.name.local_name, a.value)).collect(),
            },
        ),
        Ok(xml::reader::XmlEvent::EndElement { name }) => Ok(OsmEvent::EndElement {
            name: name.local_name,
        }),
        Ok(xml::reader::XmlEvent::EndDocument) => Ok(OsmEvent::EndDocument),
        Ok(_) => Ok(OsmEvent::Other),
        Err(_) => Err(OsmError::Stream),
    }
}

/// Drains the reader into an event list, up to and including the end of
/// the document.  `Err(Stream)` reports a failure of the underlying byte
/// stream; what was read before it is discarded, so an aborted run leaves
/// the store untouched.  Nothing can be promised about the list's
/// contents: whatever they are, `parse_osm_events` is verified for them.
pub fn read_events(parser: &mut OsmReader) -> (r: Result<
    Vec<OsmEvent>,
    OsmError,
>)
    ensures
        r matches Err(e) ==> e == OsmError::Stream,
{
    let mut events: Vec<OsmEvent> = Vec::new();
    let mut budget: usize = usize::MAX;
    while budget > 0
        decreases budget,
    {
        match next_event(parser) {
            Ok(ev) => {
                let at_end = match &ev {
                    OsmEvent::EndDocument => true,
                    _ => false,
                };
                events.push(ev);
                if at_end {
                    return Ok(events);
                }
            },
            Err(e) => {
                return Err(e);
            },
        }
        budget = budget - 1;
    }
    Ok(events)
}

/// An empty store of map nodes.
pub fn create_osm_graph() -> (g: Graph<OsmNode>)
    ensures
        g.wf(),
        g.nodes() == Map::<NodeId, OsmNode>::empty(),
        g.edges() == Map::<EdgeId, EdgeTriplet>::empty(),
        g.node_counter() == 0,
        g.edge_counter() == 0,
{
    Graph::new()
}

/// Reads the whole stream and ingests it.  On `Err(Stream)` the store is
/// untouched; otherwise the store is the fold of the events that the
/// reader yielded, and `Err(MalformedNode)` reports a bad `node` element,
/// with everything before it applied.
pub fn parse_osm(
    parser: &mut OsmReader,
    g: &mut Graph<OsmNode>,
) -> (r: Result<(), OsmError>)
    requires
        old(g).wf(),
    ensures
        final(g).wf(),
        match r {
            Err(OsmError::Stream) => model_of(*final(g)) == model_of(*old(g)),
            _ => exists|evs: Seq<OsmEvent>|
                ({
                    let o = #[trigger] osm_scan(evs, 0, model_of(*old(g)));
                    model_of(*final(g)) == o.0 && ((r is Ok) <==> o.1)
                }),
        },
{
    let events = match read_events(parser) {
        Ok(evs) => evs,
        Err(e) => {
            return Err(e);
        },
    };
    let r = parse_osm_events(&events, g);
    proof {
        let o = osm_scan(events@, 0, model_of(*old(g)));
        assert(model_of(*g) == o.0 && ((r is Ok) <==> o.1));
    }
    r
}

/// Ingesting a way with three node references records exactly two directed
/// edges, one for each consecutive pair, under the next two edge
/// identifiers; the node table is untouched.
pub proof fn lemma_way_two_edges(m: IngestModel, n1: usize, n2: usize, n3: usize)
    requires
        m.edge_ctr < usize::MAX - 1,
    ensures
        ({
            let m2 = add_way_model(m, seq![n1, n2, n3]);
            &&& m2.nodes == m.nodes
            &&& m2.node_ctr == m.node_ctr
            &&& m2.edge_ctr == m.edge_ctr + 2
            &&& m2.edges == m.edges.insert((m.edge_ctr + 1) as usize, EdgeTriplet(n1, n2, 1)).insert(
                (m.edge_ctr + 2) as usize,
                EdgeTriplet(n2, n3, 1),
            )
        }),
{
    let refs = seq![n1, n2, n3];
    let id1 = (m.edge_ctr + 1) as usize;
    let m1 = IngestModel {
        nodes: m.nodes,
        edges: m.edges.insert(id1, EdgeTriplet(n1, n2, 1)),
        node_ctr: m.node_ctr,
        edge_ctr: id1,
    };
    assert(refs.drop_first() =~= seq![n2, n3]);
    assert(add_way_model(m, refs) == add_way_model(m1, seq![n2, n3]));
    let id2 = (m.edge_ctr + 2) as usize;
    let m2 = IngestModel {
        nodes: m.nodes,
        edges: m.edges.insert(id1, EdgeTriplet(n1, n2, 1)).insert(id2, EdgeTriplet(n2, n3, 1)),
        node_ctr: m.node_ctr,
        edge_ctr: id2,
    };
    assert(seq![n2, n3].drop_first() =~= seq![n3]);
    assert(add_way_model(m1, seq![n2, n3]) == add_way_model(m2, seq![n3]));
    assert(add_way_model(m2, seq![n3]) == m2);
}

/// A way with fewer than two node references records no edge at all.
pub proof fn lemma_way_short_no_edges(m: IngestModel, refs: Seq<usize>)
    requires
        refs.len() < 2,
    ensures
        add_way_model(m, refs) == m,
{
}

/// Re-ingesting a map node under an identifier already present overwrites
/// the prior payload in place: the store afterwards is exactly the store
/// that the later record alone would have produced.
pub proof fn lemma_upsert_overwrites(m: IngestModel, a: OsmNode, b: OsmNode)
    requires
        a.id == b.id,
    ensures
        upsert_node_model(upsert_node_model(m, a), b) == upsert_node_model(m, b),
{
    assert(upsert_node_model(upsert_node_model(m, a), b) =~~= upsert_node_model(m, b));
}

impl DiagString for OsmNode {
    open spec fn diag_view(&self) -> Seq<char> {
        "{ \"id\": "@ + dec_str(self.id as nat) + ", \"lat\": "@ + dec_str_int(self.lat as int)
            + ", \"lon\": "@ + dec_str_int(self.lon as int) + ", \"version\": "@ + dec_str_int(
            self.version as int,
        ) + " }"@
    }

    fn diag_string(&self) -> (r: String) {
        let ids = usize_to_string(self.id);
        let lats = i64_to_string(self.lat);
        let lons = i64_to_string(self.lon);
        let vers = i32_to_string(self.version);
        let mut s = String::new();
        s.append("{ \"id\": ");
        s.append(ids.as_str());
        s.append(", \"lat\": ");
        s.append(lats.as_str());
        s.append(", \"lon\": ");
        s.append(lons.as_str());
        s.append(", \"version\": ");
        s.append(vers.as_str());
        s.append(" }");
        proof {
            assert(s@ =~= self.diag_view());
        }
        s
    }
}

} // verus!
