//! Building serving tables.

use scry3::serving::{fold_args, is_entries_file, store_workers, table_args, BadMode, Mode, ToolArg};

#[test]
fn modes() {
    assert_eq!(Mode::parse("sorted"), Ok(Mode::Sorted));
    assert_eq!(Mode::parse("graphstore"), Ok(Mode::Graphstore));
    assert_eq!(Mode::parse("gs"), Ok(Mode::Graphstore));
    assert_eq!(Mode::parse("beam"), Ok(Mode::Beam));
    assert_eq!(Mode::parse("Sorted"), Err(BadMode));
}

fn line(args: Vec<ToolArg>) -> Vec<String> {
    args.into_iter()
        .map(|a| match a {
            ToolArg::Word(w) => w,
            ToolArg::Source => "s".to_string(),
            ToolArg::SourceDir => "s/".to_string(),
            ToolArg::Target => "t".to_string(),
        })
        .collect()
}

#[test]
fn arguments_of_the_tools() {
    assert_eq!(line(table_args(Mode::Sorted)), vec!["--entries", "s", "--out", "t"]);
    assert_eq!(line(table_args(Mode::Graphstore)), vec!["--graphstore", "s", "--out", "t"]);
    assert_eq!(
        line(table_args(Mode::Beam)),
        vec!["--experimental_beam_pipeline", "--entries", "s/", "--out", "t"]
    );
    assert_eq!(line(fold_args(4)), vec!["--graphstore", "t", "--workers", "4"]);
}

#[test]
fn files_with_entries() {
    assert!(is_entries_file("abc.entries"));
    assert!(!is_entries_file("abc.entries.tmp"));
    assert!(!is_entries_file(".entries"));
    assert!(!is_entries_file("entries"));
}

#[test]
fn workers_of_a_store() {
    assert_eq!(store_workers(0), 4);
    assert_eq!(store_workers(9), 9);
}
