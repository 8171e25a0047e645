//! Queries.

use scry3::json::parse_reply;
use scry3::nameindex::NameIndex;
use scry3::query::{
    anchor_line, anchor_lines, anchor_path, cli_caller_kind, cli_def_kind, cli_ref_kind,
    decor_args, decorations_body, default_kythe_bin, default_name_index, definition_path,
    edge_targets, edges_args, edges_body, heading, identifier_lines, inherit_kinds,
    inheritance_lines, label, look_up, ls_args, name_json, nodes_args, resolve, targets_args,
    targets_json, xref_lines, xrefs_args, xrefs_body, Filter, Lookup, ResolveError, XrefVerb,
};

fn texts(list: &[&str]) -> Vec<String> {
    list.iter().map(|s| s.to_string()).collect()
}

fn filter(in_: &str, not_in: &str) -> Filter {
    Filter { in_: Some(in_.to_string()), not_in: Some(not_in.to_string()), def_in: None }
}

#[test]
fn filters_of_results() {
    assert!(Filter::default().keep("x"));
    assert!(filter("a/", "test").keep("a/b"));
    assert!(!filter("a/", "test").keep("b"));
    assert!(!filter("a/", "test").keep("a/test"));
    assert!(filter("", "").keep("b"));
    let f = filter("a", "b").clone();
    assert_eq!((f.in_.as_deref(), f.not_in.as_deref()), (Some("a"), Some("b")));
}

#[test]
fn filters_by_definition() {
    let mut f = Filter::default();
    assert_eq!(f.def_part(), None);
    f.def_in = Some(String::new());
    assert_eq!(f.def_part(), None);
    f.def_in = Some("lib/".to_string());
    assert_eq!(f.def_part(), Some("lib/"));
}

#[test]
fn words_of_the_server() {
    assert_eq!(cli_def_kind("all"), "ALL_DEFINITIONS");
    assert_eq!(cli_def_kind("binding"), "BINDING_DEFINITIONS");
    assert_eq!(cli_def_kind("none"), "NO_DEFINITIONS");
    assert_eq!(cli_ref_kind("all"), "ALL_REFERENCES");
    assert_eq!(cli_ref_kind("call"), "CALL_REFERENCES");
    assert_eq!(cli_ref_kind("noncall"), "NON_CALL_REFERENCES");
    assert_eq!(cli_ref_kind("?"), "NO_REFERENCES");
    assert_eq!(cli_caller_kind("direct"), "DIRECT_CALLERS");
    assert_eq!(cli_caller_kind("overrides"), "OVERRIDE_CALLERS");
    assert_eq!(cli_caller_kind(""), "NO_CALLERS");
}

fn index() -> NameIndex {
    NameIndex::parse("f\tkythe://c#1\nf\tkythe://c#2\ng\tkythe://c#3\n")
}

#[test]
fn a_ticket_stands_for_itself() {
    let found = look_up(None, "kythe://c#9", false, 5).unwrap();
    assert!(matches!(&found, Lookup::Ticket(t) if t == "kythe://c#9"));
    assert_eq!(resolve(found, None, 1).unwrap(), vec!["kythe://c#9"]);
}

#[test]
fn a_name_needs_an_index() {
    assert_eq!(look_up(None, "f", false, 5).unwrap_err(), ResolveError::NoIndex);
}

#[test]
fn names_are_resolved() {
    let idx = index();
    let found = look_up(Some(&idx), "f", false, 5).unwrap();
    assert_eq!(resolve(found, None, 0).unwrap(), vec!["kythe://c#1", "kythe://c#2"]);
    let found = look_up(Some(&idx), "f", false, 5).unwrap();
    assert_eq!(resolve(found, None, 1).unwrap(), vec!["kythe://c#1"]);
    let found = look_up(Some(&idx), "", true, 5).unwrap();
    assert_eq!(resolve(found, None, 0).unwrap().len(), 3);
    let found = look_up(Some(&idx), "zz", false, 5).unwrap();
    assert_eq!(resolve(found, None, 0).unwrap_err(), ResolveError::NoTicket);
}

#[test]
fn names_are_resolved_by_definition() {
    let idx = index();
    let paths = vec![Some("lib/a.cc".to_string()), None];
    let found = look_up(Some(&idx), "f", false, 5).unwrap();
    let by = Some((paths.clone(), "lib/".to_string()));
    assert_eq!(resolve(found, by, 0).unwrap(), vec!["kythe://c#1"]);
    let found = look_up(Some(&idx), "f", false, 5).unwrap();
    let by = Some((paths, "app/".to_string()));
    assert_eq!(resolve(found, by, 0).unwrap_err(), ResolveError::NoTicket);
}

#[test]
fn labels() {
    let idx = index();
    assert_eq!(label(Some(&idx), "kythe://c#2"), "f");
    assert_eq!(label(Some(&idx), "kythe://c#a%2Fb"), "a/b");
    assert_eq!(label(None, "kythe://c#2"), "2");
    assert_eq!(label(None, "kythe://c"), "");
}

#[test]
fn requests() {
    assert_eq!(
        xrefs_body("kythe://c#1", "all", "none", "direct"),
        "{\"caller_kind\":\"DIRECT_CALLERS\",\"declaration_kind\":\"NO_DECLARATIONS\",\
         \"definition_kind\":\"ALL_DEFINITIONS\",\"reference_kind\":\"NO_REFERENCES\",\
         \"snippets\":\"DEFAULT\",\"ticket\":[\"kythe://c#1\"]}"
    );
    assert_eq!(
        edges_body("t", &texts(&["/kythe/edge/extends", "%x"])),
        "{\"kind\":[\"/kythe/edge/extends\",\"%x\"],\"ticket\":[\"t\"]}"
    );
    assert_eq!(
        decorations_body("a\"b"),
        "{\"location\":{\"ticket\":\"a\\\"b\"},\"references\":true}"
    );
}

#[test]
fn arguments() {
    assert_eq!(
        xrefs_args("t", "all", "none", "direct"),
        texts(&[
            "xrefs",
            "--definitions",
            "all",
            "--references",
            "none",
            "--callers",
            "direct",
            "--declarations",
            "none",
            "--related_nodes=false",
            "t",
        ])
    );
    assert_eq!(
        targets_args("t", &texts(&["a", "b"])),
        texts(&["edges", "--kinds", "a,b", "--targets_only", "t"])
    );
    assert_eq!(edges_args("t", None), texts(&["edges", "t"]));
    assert_eq!(edges_args("t", Some("k")), texts(&["edges", "--kinds", "k", "t"]));
    assert_eq!(nodes_args("t"), texts(&["nodes", "t"]));
    assert_eq!(decor_args("f", None), texts(&["decor", "f"]));
    assert_eq!(decor_args("f", Some("c")), texts(&["decor", "--corpus", "c", "f"]));
    assert_eq!(decor_args("kythe://c?path=f", Some("c")), texts(&["decor", "kythe://c?path=f"]));
    assert_eq!(ls_args(None), texts(&["ls", "--uris"]));
    assert_eq!(ls_args(Some("p")), texts(&["ls", "--uris", "p"]));
}

#[test]
fn places_of_tools() {
    assert_eq!(default_kythe_bin("/opt/kythe"), "/opt/kythe/tools/kythe");
    assert_eq!(default_kythe_bin("/opt/kythe/"), "/opt/kythe/tools/kythe");
    assert_eq!(default_name_index("s"), "s/scry3.names.idx");
}

const REPLY: &[u8] = br#"{"cross_references":{"t":{
    "definition":[
        {"anchor":{"parent":"kythe://c?path=lib/a.cc","snippet":"  int f() { ",
                   "span":{"start":{"line_number":3,"column_offset":4}}}},
        {"ticket":"no anchor"},
        {"anchor":{"ticket":"kythe://c?path=lib/b%20c.cc#a","text":"int f();"}}],
    "caller":[{"anchor":{"parent":"kythe://c?path=x.cc","span":{"start":{"line_number":1}}},
               "ticket":"kythe://c#g"}],
    "reference":[{"anchor":{"parent":"kythe://c?path=y.cc","snippet":7,"text":"f"}}]}}}"#;

#[test]
fn anchors_as_lines() {
    let reply = parse_reply(REPLY).unwrap();
    let all = Filter::default();
    assert_eq!(
        anchor_lines(&reply, "definition", &all, 10),
        texts(&["  lib/a.cc:3:4  int f() {", "  lib/b c.cc:0:0  int f();"])
    );
    assert_eq!(anchor_lines(&reply, "definition", &all, 1).len(), 1);
    assert_eq!(anchor_lines(&reply, "definition", &all, 0).len(), 0);
    assert_eq!(
        anchor_lines(&reply, "definition", &filter("b ", ""), 1),
        texts(&["  lib/b c.cc:0:0  int f();"])
    );
    assert_eq!(anchor_lines(&reply, "nothing", &all, 5).len(), 0);
    assert_eq!(anchor_lines(&parse_reply(b"[]").unwrap(), "definition", &all, 5).len(), 0);
}

#[test]
fn one_anchor() {
    let a = parse_reply(br#"{"parent":"","ticket":"kythe://c?path=p#s","snippet":" x "}"#).unwrap();
    assert_eq!(anchor_path(&a), "p");
    assert_eq!(anchor_line(&a, "q"), "q:0:0  x");
    assert_eq!(anchor_path(&parse_reply(b"{}").unwrap()), "");
}

#[test]
fn where_a_symbol_is_defined() {
    let reply = parse_reply(REPLY).unwrap();
    assert_eq!(definition_path(&reply), Some("lib/a.cc".to_string()));
    assert_eq!(definition_path(&parse_reply(b"").unwrap()), None);
    let pathless = br#"{"cross_references":{"t":{"definition":[
        {"anchor":{}},{"anchor":{"parent":"kythe://c?path=z"}}]}}}"#;
    assert_eq!(definition_path(&parse_reply(pathless).unwrap()), Some("z".to_string()));
}

#[test]
fn verbs() {
    let reply = parse_reply(REPLY).unwrap();
    let all = Filter::default();
    let title = heading("def", "f", "f");
    assert_eq!(title, "def f [f]");
    assert_eq!(
        xref_lines(XrefVerb::Def, &title, &reply, &all, 1),
        texts(&["def f [f]", "  lib/a.cc:3:4  int f() {"])
    );
    assert_eq!(
        xref_lines(XrefVerb::Ref, "r", &reply, &all, 9),
        texts(&["r", "  y.cc:0:0  f"])
    );
    assert_eq!(
        xref_lines(XrefVerb::Callers, "c", &reply, &all, 9),
        texts(&["c", "  x.cc:1:0  ", "  (call sites)", "  y.cc:0:0  f"])
    );
    assert_eq!(xref_lines(XrefVerb::Def, "d", &reply, &filter("none", ""), 9), texts(&[]));
    assert_eq!(xref_lines(XrefVerb::Def, "d", &reply, &all, 0), texts(&[]));
    assert_eq!(XrefVerb::Def.kinds(), ("all", "none", "none"));
    assert_eq!(XrefVerb::Ref.kinds(), ("none", "all", "none"));
    assert_eq!(XrefVerb::Callers.kinds(), ("none", "call", "direct"));
    assert_eq!(XrefVerb::Def.name(), "def");
    assert_eq!(XrefVerb::Ref.nothing(), "(no references)");
    assert_eq!(XrefVerb::Callers.nothing(), "(no callers)");
}

#[test]
fn inheritance() {
    assert_eq!(
        inherit_kinds(false),
        texts(&[
            "/kythe/edge/extends",
            "/kythe/edge/extends/public",
            "/kythe/edge/extends/protected",
            "/kythe/edge/extends/private",
            "/kythe/edge/overrides",
            "/kythe/edge/satisfies",
        ])
    );
    assert_eq!(inherit_kinds(true)[5], "%/kythe/edge/satisfies");
    let reply = br#"{"edge_sets":{"t":{"groups":{
        "a":{"edge":[{"target_ticket":"kythe://c?path=p#x"},{"target_ticket":"kythe://c?path=q#y"}]},
        "b":{"edge":[{"target_ticket":"kythe://c?path=p#x"},{}]}}}}}"#;
    let targets = edge_targets(&parse_reply(reply).unwrap());
    assert_eq!(targets, texts(&["kythe://c?path=p#x", "kythe://c?path=q#y"]));
    let all = Filter::default();
    let (lines, total) = inheritance_lines("super f [f]", &targets, None, &all, 0, 10);
    assert_eq!(lines, texts(&["super f [f]", "  x  [p]", "  y  [q]"]));
    assert_eq!(total, 2);
    // The heading stands before the first result of all, and the limit counts
    // all results.
    let (lines, total) = inheritance_lines("super f [f]", &targets, None, &all, 4, 5);
    assert_eq!(lines, texts(&["  x  [p]"]));
    assert_eq!(total, 5);
    let (lines, total) = inheritance_lines("super f [f]", &targets, None, &all, 5, 5);
    assert_eq!(lines, texts(&[]));
    assert_eq!(total, 5);
    assert_eq!(inheritance_lines("t", &targets, None, &all, 0, 0), (texts(&[]), 0));
    let (lines, total) = inheritance_lines("t", &targets, None, &filter("q", ""), 0, 9);
    assert_eq!(lines, texts(&["t", "  y  [q]"]));
    assert_eq!(total, 1);
    assert_eq!(
        targets_json("f", "t", &targets[..1].to_vec()),
        "{\"name\":\"f\",\"targets\":[\"kythe://c?path=p#x\"],\"ticket\":\"t\"}"
    );
}

#[test]
fn identifiers() {
    let idx = index();
    assert_eq!(
        identifier_lines(&idx, "f", false, 9, false),
        texts(&["kythe://c#1", "kythe://c#2"])
    );
    assert_eq!(
        identifier_lines(&idx, "g", true, 9, false),
        texts(&["g\tkythe://c#3"])
    );
    assert_eq!(
        identifier_lines(&idx, "g", false, 9, true),
        texts(&["{\"name\":\"g\",\"ticket\":\"kythe://c#3\"}"])
    );
    // The limit counts lines, also where one name has several tickets.
    assert_eq!(identifier_lines(&idx, "f", true, 1, false), texts(&["f\tkythe://c#1"]));
    assert_eq!(identifier_lines(&idx, "f", true, 0, false), texts(&[]));
    assert_eq!(identifier_lines(&idx, "f", true, 9, false).len(), 2);
    assert_eq!(name_json("n", "t"), "{\"name\":\"n\",\"ticket\":\"t\"}");
}
