//! The name index.

use scry3::nameindex::{entry_names, parse_rows, write_row, JsonEntry, NameIndex, NameSet};
use scry3::ticket::VName;

fn node(signature: &str) -> VName {
    VName { signature: signature.into(), corpus: "c".into(), ..Default::default() }
}

fn edge(kind: &str, target: Option<VName>) -> JsonEntry {
    JsonEntry {
        source: node("n"),
        target,
        edge_kind: kind.into(),
        fact_name: "".into(),
        fact_value: "".into(),
    }
}

fn row(name: &str, ticket: &str) -> (String, String) {
    (name.to_string(), ticket.to_string())
}

#[test]
fn a_named_edge_names_its_source() {
    let e = edge("/kythe/edge/named", Some(node("pkg.Cls.m()V")));
    assert_eq!(
        entry_names(&e),
        vec![row("pkg.Cls.m", "kythe://c#n"), row("pkg.Cls.m()V", "kythe://c#n")]
    );
    let e = edge("/kythe/edge/named", Some(node("pkg.Cls")));
    assert_eq!(entry_names(&e), vec![row("pkg.Cls", "kythe://c#n")]);
}

#[test]
fn edges_that_name_nothing() {
    assert_eq!(entry_names(&edge("/kythe/edge/named", None)), vec![]);
    assert_eq!(entry_names(&edge("/kythe/edge/named", Some(node("")))), vec![]);
    assert_eq!(entry_names(&edge("/kythe/edge/ref", Some(node("a")))), vec![]);
}

fn fact(name: &str, value: &str) -> JsonEntry {
    JsonEntry {
        source: node("n"),
        target: None,
        edge_kind: "".into(),
        fact_name: name.into(),
        fact_value: value.into(),
    }
}

#[test]
fn a_code_fact_names_its_node() {
    // A marked source whose text is "f": 0x12 0x01 'f'.
    assert_eq!(entry_names(&fact("/kythe/code", "EgFm")), vec![row("f", "kythe://c#n")]);
    assert_eq!(entry_names(&fact("/kythe/code", "")), vec![]);
    assert_eq!(entry_names(&fact("/kythe/code", "*")), vec![]);
    assert_eq!(entry_names(&fact("/kythe/code", "Egk=")), vec![]);
    assert_eq!(entry_names(&fact("/kythe/text", "EgFm")), vec![]);
}

#[test]
fn rows_are_kept_once_and_sorted() {
    let set = NameSet::new();
    assert!(set.is_empty());
    let (set, new) = set.add_all(&vec![row("b", "2"), row("a", "1"), row("b", "2")]);
    assert_eq!(new, vec![row("b", "2"), row("a", "1")]);
    let (set, new) = set.add_all(&vec![row("a", "1"), row("a", "0")]);
    assert_eq!(new, vec![row("a", "0")]);
    assert_eq!(set.len(), 3);
    assert_eq!(set.into_sorted(), vec![row("a", "0"), row("a", "1"), row("b", "2")]);
}

#[test]
fn rows_differ_by_name_and_ticket() {
    let (set, new) =
        NameSet::new().add_all(&vec![row("a", "bc"), row("ab", "c"), row("a\tb", "c")]);
    assert_eq!(new.len(), 3);
    assert_eq!(set.len(), 3);
}

#[test]
fn text_of_an_index_reads_back() {
    let rows = vec![row("a", "kythe://c#1"), row("a b", "kythe://c#2"), row("z", "")];
    let mut text = String::new();
    for r in &rows {
        text.push_str(&write_row(r));
    }
    assert_eq!(text, "a\tkythe://c#1\na b\tkythe://c#2\nz\t\n");
    assert_eq!(parse_rows(&text), rows);
}

#[test]
fn lines_that_are_no_rows() {
    assert_eq!(parse_rows("a\nb\tt\tu\r\n\nc\td"), vec![row("b", "t\tu"), row("c", "d")]);
    assert_eq!(parse_rows(""), vec![]);
}

fn index() -> NameIndex {
    NameIndex::parse("ns::f\tt2\nns::f\tt1\nns::g\tt3\nh\tt1\n")
}

#[test]
fn exact_names() {
    let idx = index();
    assert_eq!(idx.len(), 4);
    assert!(!idx.is_empty());
    // Rows that are not in order are put in order.
    assert_eq!(idx.exact("ns::f"), vec!["t1", "t2"]);
    assert_eq!(idx.exact("h"), vec!["t1"]);
    assert_eq!(idx.exact("ns"), Vec::<String>::new());
    assert_eq!(idx.exact("zz"), Vec::<String>::new());
    assert!(NameIndex::parse("").is_empty());
}

#[test]
fn parts_of_names() {
    let idx = index();
    assert_eq!(
        idx.substr("ns::", 10),
        vec![row("ns::f", "t1"), row("ns::f", "t2"), row("ns::g", "t3")]
    );
    // The limit counts names, not rows.
    assert_eq!(idx.substr("ns::", 1), vec![row("ns::f", "t1"), row("ns::f", "t2")]);
    assert_eq!(idx.substr("", 2).len(), 3);
    assert_eq!(idx.substr("q", 5), vec![]);
    assert_eq!(idx.substr("f", 0), vec![]);
}

#[test]
fn names_of_tickets() {
    let idx = index();
    assert_eq!(idx.name_of("t1"), Some("h"));
    assert_eq!(idx.name_of("t3"), Some("ns::g"));
    assert_eq!(idx.name_of("t9"), None);
}

#[test]
fn an_index_finds_what_was_written() {
    let (set, _) = NameSet::new().add_all(&vec![row("b", "2"), row("a", "1"), row("a", "3")]);
    let text: String = set.into_sorted().iter().map(write_row).collect();
    let idx = NameIndex::parse(&text);
    assert_eq!(idx.exact("a"), vec!["1", "3"]);
    assert_eq!(idx.exact("b"), vec!["2"]);
    assert_eq!(idx.len(), 3);
}

#[test]
fn a_resumed_run_keeps_its_names() {
    let (_, logged) = NameSet::new().add_all(&vec![row("b", "2"), row("a", "1")]);
    let log: String = logged.iter().map(write_row).collect();
    let (set, _) = NameSet::new().add_all(&parse_rows(&log));
    let (set, new) = set.add_all(&vec![row("a", "1"), row("c", "3")]);
    assert_eq!(new, vec![row("c", "3")]);
    assert_eq!(set.into_sorted(), vec![row("a", "1"), row("b", "2"), row("c", "3")]);
}
