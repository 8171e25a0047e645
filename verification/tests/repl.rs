//! Lines of a session.

use scry3::query::XrefVerb;
use scry3::repl::{parse_line, parse_verb, ReplCommand, ReplLine, ReplVerb};

fn command(line: &str) -> ReplCommand {
    match parse_line(line) {
        ReplLine::Command(c) => c,
        other => panic!("{other:?}"),
    }
}

#[test]
fn blank_lines_and_missing_names() {
    assert!(matches!(parse_line(""), ReplLine::Blank));
    assert!(matches!(parse_line(" \t "), ReplLine::Blank));
    assert!(matches!(parse_line("def"), ReplLine::NoName));
    assert!(matches!(parse_line("def --in a --substr"), ReplLine::NoName));
}

#[test]
fn a_plain_question() {
    let c = command("  def  ns::f ");
    assert_eq!(c.word, "def");
    assert_eq!(c.verb, ReplVerb::Xref(XrefVerb::Def));
    assert_eq!(c.name, "ns::f");
    assert!(!c.substr);
    assert_eq!(c.direction, "up");
    assert_eq!(c.depth, 3);
    assert_eq!((c.filter.in_, c.filter.not_in, c.filter.def_in), (None, None, None));
}

#[test]
fn options() {
    let c = command("callgraph --in a/ f --not-in t --def-in d --direction both --depth 7 --substr g");
    assert_eq!(c.verb, ReplVerb::Callgraph);
    assert_eq!(c.name, "f");
    assert!(c.substr);
    assert_eq!(c.filter.in_.as_deref(), Some("a/"));
    assert_eq!(c.filter.not_in.as_deref(), Some("t"));
    assert_eq!(c.filter.def_in.as_deref(), Some("d"));
    assert_eq!(c.direction, "both");
    assert_eq!(c.depth, 7);
}

#[test]
fn options_without_a_value() {
    let c = command("def f --depth x --in");
    assert_eq!(c.depth, 3);
    assert_eq!(c.filter.in_, None);
    let c = command("def f --depth +5 --direction");
    assert_eq!(c.depth, 5);
    assert_eq!(c.direction, "up");
    // The word behind an option is its value, whatever it looks like.
    let c = command("def f --in --substr");
    assert_eq!(c.filter.in_.as_deref(), Some("--substr"));
    assert!(c.substr);
}

#[test]
fn all_the_verbs() {
    assert_eq!(parse_verb("ref"), ReplVerb::Xref(XrefVerb::Ref));
    assert_eq!(parse_verb("callers"), ReplVerb::Xref(XrefVerb::Callers));
    assert_eq!(parse_verb("super"), ReplVerb::Super);
    assert_eq!(parse_verb("sub"), ReplVerb::Sub);
    assert_eq!(parse_verb("identifier"), ReplVerb::Identifier);
    assert_eq!(parse_verb("names"), ReplVerb::Names);
    assert_eq!(parse_verb("edges"), ReplVerb::Edges);
    assert_eq!(parse_verb("nodes"), ReplVerb::Nodes);
    assert_eq!(parse_verb("Def"), ReplVerb::Unknown);
}
