//! Call graphs.

use scry3::callgraph::{
    callees_of, callers_of, callgraph_json, callgraph_lines, decor_refs, definition_bodies, Body,
    CallGraph, Decoration, Direction, Node,
};
use scry3::json::parse_reply;
use scry3::nameindex::NameIndex;
use scry3::query::Filter;

fn texts(list: &[&str]) -> Vec<String> {
    list.iter().map(|s| s.to_string()).collect()
}

#[test]
fn directions() {
    assert_eq!(Direction::parse("up"), Ok(Direction::Up));
    assert_eq!(Direction::parse("down"), Ok(Direction::Down));
    assert_eq!(Direction::parse("both"), Ok(Direction::Both));
    assert!(Direction::parse("Up").is_err());
    assert_eq!(Direction::Both.name(), "both");
    assert!(Direction::Up.asks_callers() && !Direction::Up.asks_callees());
    assert!(!Direction::Down.asks_callers() && Direction::Down.asks_callees());
    assert!(Direction::Both.asks_callers() && Direction::Both.asks_callees());
}

#[test]
fn callers_in_a_reply() {
    let reply = br#"{"cross_references":{
        "a":{"caller":[{"ticket":"x"},{"ticket":"y"},{"ticket":"x"},{}]},
        "b":{"caller":[{"ticket":"z"},{"ticket":"y"}]}}}"#;
    assert_eq!(callers_of(&parse_reply(reply).unwrap()), texts(&["x", "y", "z"]));
    assert_eq!(callers_of(&parse_reply(b"").unwrap()), texts(&[]));
}

#[test]
fn decorations_in_a_reply() {
    let reply = br#"{"reference":[
        {"target_ticket":"t","kind":"/kythe/edge/ref/call","span":{"start":{"byte_offset":12}}},
        {"target_ticket":"","kind":"k"},
        {"target_ticket":"u"}]}"#;
    let d = decor_refs(&parse_reply(reply).unwrap());
    assert_eq!(d.len(), 2);
    assert_eq!((d[0].target.as_str(), d[0].kind.as_str(), d[0].start), ("t", "/kythe/edge/ref/call", 12));
    assert_eq!((d[1].target.as_str(), d[1].kind.as_str(), d[1].start), ("u", "", 0));
}

#[test]
fn bodies_in_a_reply() {
    let reply = br#"{"cross_references":{"t":{"definition":[
        {"anchor":{"parent":"f1","span":{"start":{"byte_offset":5},"end":{"byte_offset":9}}}},
        {"anchor":{"parent":"f2","span":{"start":{"byte_offset":5}}}},
        {"anchor":{"span":{}}},
        {}]}}}"#;
    let b = definition_bodies(&parse_reply(reply).unwrap());
    assert_eq!(b.len(), 2);
    assert_eq!((b[0].file.as_str(), b[0].start, b[0].end), ("f1", 5, 9));
    assert_eq!((b[1].file.as_str(), b[1].start, b[1].end), ("f2", 0, u64::MAX));
}

#[test]
fn callees_within_bodies() {
    let call = |target: &str, start: u64| Decoration {
        target: target.to_string(),
        kind: "/kythe/edge/ref/call/implicit".to_string(),
        start,
    };
    let plain = Decoration { target: "r".into(), kind: "/kythe/edge/ref".into(), start: 6 };
    let bodies = vec![
        (
            Body { file: "f".into(), start: 5, end: 9 },
            vec![call("a", 4), call("b", 5), call("c", 8), call("d", 9), plain, call("b", 6)],
        ),
        (Body { file: "g".into(), start: 0, end: u64::MAX }, vec![call("c", 1), call("e", 1)]),
    ];
    assert_eq!(callees_of(&bodies), texts(&["b", "c", "e"]));
}

/// Walks a graph given by its edges.
fn walk(roots: &[&str], edges: &[(&str, &str)], depth: usize, max: usize, f: &Filter) -> Vec<Node> {
    let mut w = CallGraph::new(&texts(roots), depth, max);
    while let Some(t) = w.next() {
        let found: Vec<String> =
            edges.iter().filter(|e| e.0 == t).map(|e| e.1.to_string()).collect();
        w.give(&found, f);
    }
    w.finish()
}

fn shape(nodes: &[Node]) -> Vec<(&str, Option<usize>, usize)> {
    nodes.iter().map(|n| (n.ticket.as_str(), n.parent, n.depth)).collect()
}

const EDGES: &[(&str, &str)] =
    &[("a", "b"), ("a", "c"), ("b", "c"), ("b", "d"), ("c", "a"), ("d", "e"), ("e", "f")];

#[test]
fn every_symbol_stands_once() {
    let nodes = walk(&["a", "a"], EDGES, 3, 100, &Filter::default());
    assert_eq!(
        shape(&nodes),
        vec![
            ("a", None, 0),
            ("b", Some(0), 1),
            ("c", Some(0), 1),
            ("d", Some(1), 2),
            ("e", Some(3), 3),
        ]
    );
}

#[test]
fn a_walk_is_bounded() {
    let all = Filter::default();
    assert_eq!(walk(&["a"], EDGES, 0, 100, &all).len(), 1);
    assert_eq!(walk(&["a"], EDGES, 9, 2, &all).len(), 2);
    assert_eq!(walk(&["a"], EDGES, 9, 100, &all).len(), 6);
    // Roots are there in any case.
    assert_eq!(walk(&["x", "y", "z"], EDGES, 9, 1, &all).len(), 3);
    assert_eq!(walk(&[], EDGES, 9, 9, &all).len(), 0);
}

#[test]
fn a_walk_is_filtered() {
    let f = Filter { in_: None, not_in: Some("b".to_string()), def_in: None };
    assert_eq!(
        shape(&walk(&["a"], EDGES, 9, 100, &f)),
        vec![("a", None, 0), ("c", Some(0), 1)]
    );
}

#[test]
fn walks_as_text() {
    let idx = NameIndex::parse("main\tkythe://c?path=m.cc#1\n");
    let nodes = vec![
        Node { ticket: "kythe://c?path=m.cc#1".into(), parent: None, depth: 0 },
        Node { ticket: "kythe://c?path=x.cc#two".into(), parent: Some(0), depth: 1 },
    ];
    assert_eq!(
        callgraph_lines("main", Direction::Up, 2, &nodes, Some(&idx)),
        texts(&[
            "callgraph main (up, depth 2) — 2 nodes",
            "[0] parent=- depth=0  main  [m.cc]",
            "[1] parent=0 depth=1  two  [x.cc]",
        ])
    );
    assert_eq!(
        callgraph_json("main", Direction::Down, 2, &nodes, Some(&idx)),
        "{\"depth\":2,\"direction\":\"down\",\"name\":\"main\",\"nodes\":[\
         {\"depth\":0,\"id\":0,\"name\":\"main\",\"parent\":-1,\"path\":\"m.cc\",\
         \"ticket\":\"kythe://c?path=m.cc#1\"},\
         {\"depth\":1,\"id\":1,\"name\":\"two\",\"parent\":0,\"path\":\"x.cc\",\
         \"ticket\":\"kythe://c?path=x.cc#two\"}]}"
    );
}

#[test]
fn depths_never_decrease() {
    for depth in 0..6 {
        let nodes = walk(&["b", "a"], EDGES, depth, 100, &Filter::default());
        assert!(nodes.windows(2).all(|w| w[0].depth <= w[1].depth));
    }
}
