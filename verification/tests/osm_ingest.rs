use ctci::graphtraits::{EdgeTriplet, GraphCrud};
use ctci::numtext::{parse_i32, parse_nanodeg, parse_usize};
use ctci::osm::{
    create_osm_graph, osm_reader, parse_osm, parse_osm_events, read_events, OsmError, OsmEvent,
    OsmNode,
};

fn start(name: &str, attrs: &[(&str, &str)]) -> OsmEvent {
    OsmEvent::StartElement {
        name: name.to_string(),
        attrs: attrs
            .iter()
            .map(|(k, v)| (k.to_string(), v.to_string()))
            .collect(),
    }
}

fn end(name: &str) -> OsmEvent {
    OsmEvent::EndElement { name: name.to_string() }
}

#[test]
fn test_parse_numbers() {
    assert_eq!(parse_usize("8945281129"), Some(8945281129));
    assert_eq!(parse_usize("+42"), Some(42));
    assert_eq!(parse_usize(""), None);
    assert_eq!(parse_usize("12a"), None);
    assert_eq!(parse_i32("-17"), Some(-17));
    assert_eq!(parse_i32("2147483647"), Some(2147483647));
    assert_eq!(parse_i32("2147483648"), None);
    assert_eq!(parse_i32("-2147483648"), Some(-2147483648));
    assert_eq!(parse_nanodeg("48.8566"), Some(48_856_600_000));
    assert_eq!(parse_nanodeg("-2.35"), Some(-2_350_000_000));
    assert_eq!(parse_nanodeg("45"), Some(45_000_000_000));
    assert_eq!(parse_nanodeg("5."), Some(5_000_000_000));
    assert_eq!(parse_nanodeg(".5"), Some(500_000_000));
    assert_eq!(parse_nanodeg("1.0000000019"), Some(1_000_000_001));
    assert_eq!(parse_nanodeg("1e5"), None);
    assert_eq!(parse_nanodeg("."), None);
    assert_eq!(parse_nanodeg(""), None);
}

#[test]
fn test_way_makes_chain_of_edges() {
    // a way with references [n1, n2, n3] produces exactly the two edges
    // n1->n2 and n2->n3
    let mut g = create_osm_graph();
    let events = vec![
        start("osm", &[]),
        start("way", &[]),
        start("nd", &[("ref", "11")]),
        end("nd"),
        start("nd", &[("ref", "22")]),
        end("nd"),
        start("nd", &[("ref", "33")]),
        end("nd"),
        end("way"),
        OsmEvent::EndDocument,
    ];
    assert_eq!(parse_osm_events(&events, &mut g), Ok(()));
    assert_eq!(g.get_edge(1), Some(EdgeTriplet(11, 22, 1)));
    assert_eq!(g.get_edge(2), Some(EdgeTriplet(22, 33, 1)));
    assert_eq!(g.get_edge(3), None);
}

#[test]
fn test_short_way_makes_no_edges() {
    let mut g = create_osm_graph();
    let events = vec![
        start("osm", &[]),
        start("way", &[]),
        start("nd", &[("ref", "11")]),
        end("nd"),
        end("way"),
        start("way", &[]),
        end("way"),
        OsmEvent::EndDocument,
    ];
    assert_eq!(parse_osm_events(&events, &mut g), Ok(()));
    assert_eq!(g.get_edge(1), None);
}

#[test]
fn test_node_upsert_and_reingest() {
    // re-ingesting the same map node id overwrites the payload in place
    let mut g = create_osm_graph();
    let events = vec![
        start("osm", &[]),
        start(
            "node",
            &[("id", "5"), ("lat", "48.8566"), ("lon", "2.3522"), ("version", "1")],
        ),
        end("node"),
        start(
            "node",
            &[("id", "5"), ("lat", "52.5200"), ("lon", "13.4050"), ("version", "2")],
        ),
        end("node"),
        OsmEvent::EndDocument,
    ];
    assert_eq!(parse_osm_events(&events, &mut g), Ok(()));
    let n = g.get_node_val(5).unwrap();
    assert_eq!(
        *n,
        OsmNode { id: 5, lat: 52_520_000_000, lon: 13_405_000_000, version: 2 }
    );
}

#[test]
fn test_malformed_node_aborts() {
    let mut g = create_osm_graph();
    let events = vec![
        start("osm", &[]),
        start(
            "node",
            &[("id", "5"), ("lat", "48.8566"), ("lon", "2.3522"), ("version", "1")],
        ),
        end("node"),
        start("node", &[("id", "6"), ("lat", "not-a-number"), ("lon", "0"), ("version", "1")]),
        end("node"),
        OsmEvent::EndDocument,
    ];
    assert_eq!(parse_osm_events(&events, &mut g), Err(OsmError::MalformedNode));
    // the earlier, well-formed node was applied
    assert!(g.get_node_val(5).is_some());
    assert!(g.get_node_val(6).is_none());
}

#[test]
fn test_unknown_elements_are_skipped() {
    let mut g = create_osm_graph();
    let events = vec![
        start("osm", &[]),
        start("bounds", &[]),
        start("node", &[("id", "9"), ("lat", "0"), ("lon", "0"), ("version", "1")]),
        end("node"),
        end("bounds"),
        start("way", &[]),
        start("tag", &[("k", "highway")]),
        end("tag"),
        start("nd", &[("ref", "1")]),
        end("nd"),
        start("nd", &[("ref", "bogus")]),
        end("nd"),
        start("nd", &[("ref", "2")]),
        end("nd"),
        end("way"),
        OsmEvent::EndDocument,
    ];
    assert_eq!(parse_osm_events(&events, &mut g), Ok(()));
    // the node inside the skipped subtree was not ingested
    assert!(g.get_node_val(9).is_none());
    // the unparsable reference was skipped; the others still chain
    assert_eq!(g.get_edge(1), Some(EdgeTriplet(1, 2, 1)));
    assert_eq!(g.get_edge(2), None);
}

#[test]
fn test_parse_osm_end_to_end() {
    let xml_text = "<?xml version=\"1.0\" encoding=\"UTF-8\"?>\n\
<osm version=\"0.6\">\n\
  <node id=\"8945281129\" lat=\"48.8566\" lon=\"2.3522\" version=\"3\">\n\
    <tag k=\"name\" v=\"somewhere\"/>\n\
  </node>\n\
  <node id=\"17\" lat=\"-1.25\" lon=\"0.5\" version=\"1\"/>\n\
  <way id=\"100\">\n\
    <nd ref=\"8945281129\"/>\n\
    <nd ref=\"17\"/>\n\
    <tag k=\"highway\" v=\"residential\"/>\n\
  </way>\n\
</osm>\n";
    let mut parser = osm_reader(xml_text.as_bytes().to_vec());
    let mut g = create_osm_graph();
    assert_eq!(parse_osm(&mut parser, &mut g), Ok(()));
    let n = g.get_node_val(8945281129).unwrap();
    assert_eq!(n.id, 8945281129);
    assert_eq!(n.lat, 48_856_600_000);
    assert_eq!(n.lon, 2_352_200_000);
    assert_eq!(n.version, 3);
    let n17 = g.get_node_val(17).unwrap();
    assert_eq!(n17.lat, -1_250_000_000);
    assert_eq!(g.get_edge(1), Some(EdgeTriplet(8945281129, 17, 1)));
    assert_eq!(g.get_edge(2), None);
}

#[test]
fn test_broken_stream_is_fatal() {
    // a truncated document fails the read; nothing is ingested
    let xml_text = "<osm><node id=\"1\" lat=\"0\" lon=\"0\" version=\"1\"";
    let mut parser = osm_reader(xml_text.as_bytes().to_vec());
    let mut g = create_osm_graph();
    assert_eq!(parse_osm(&mut parser, &mut g), Err(OsmError::Stream));
    assert!(g.get_node_val(1).is_none());
}

#[test]
fn test_read_events_shapes() {
    let xml_text = "<osm><node id=\"1\"/></osm>";
    let mut parser = osm_reader(xml_text.as_bytes().to_vec());
    let events = read_events(&mut parser).unwrap();
    // document start, start osm, start node, end node, end osm, document end
    assert_eq!(events.len(), 6);
    match &events[0] {
        OsmEvent::Other => {}
        _ => panic!("expected the document start to come through as Other"),
    }
    match &events[2] {
        OsmEvent::StartElement { name, attrs } => {
            assert_eq!(name, "node");
            assert_eq!(attrs.len(), 1);
            assert_eq!(attrs[0], ("id".to_string(), "1".to_string()));
        }
        _ => panic!("expected a start element"),
    }
    match &events[5] {
        OsmEvent::EndDocument => {}
        _ => panic!("expected the end of the document"),
    }
}

#[test]
fn test_way_event_handler_direct() {
    // positioned just inside a way element with three references: exactly
    // the two chain edges are recorded and the subtree is fully consumed
    let events = vec![
        start("nd", &[("ref", "11")]),
        end("nd"),
        start("nd", &[("ref", "22")]),
        end("nd"),
        start("nd", &[("ref", "33")]),
        end("nd"),
        end("way"),
        OsmEvent::EndDocument,
    ];
    let mut g = create_osm_graph();
    let mut i: usize = 0;
    ctci::osm::parse_osm_way_event(&events, &mut i, &mut g);
    assert_eq!(i, 7);
    assert_eq!(g.get_edge(1), Some(EdgeTriplet(11, 22, 1)));
    assert_eq!(g.get_edge(2), Some(EdgeTriplet(22, 33, 1)));
    assert_eq!(g.get_edge(3), None);
    assert!(g.get_node_val(11).is_none());
}

#[test]
fn test_way_event_handler_short() {
    // fewer than two references: the store is untouched, the subtree is
    // still consumed
    let events = vec![
        start("nd", &[("ref", "11")]),
        end("nd"),
        start("tag", &[("k", "name")]),
        end("tag"),
        end("way"),
        OsmEvent::EndDocument,
    ];
    let mut g = create_osm_graph();
    let mut i: usize = 0;
    ctci::osm::parse_osm_way_event(&events, &mut i, &mut g);
    assert_eq!(i, 5);
    assert_eq!(g.get_edge(1), None);
}
