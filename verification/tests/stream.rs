//! The streaming pipeline.

use scry3::indexer::{IndexerKind, Outcome, PlanItem};
use scry3::kzip::{IndexedCompilation, Unit};
use scry3::stream::{
    check_start, default_store, done_line, done_log_file, names_log_file, names_output,
    skip_folded, Batch, DoneLog, StartError, StreamStats, BATCH_BYTES, BATCH_FILES,
};

#[test]
fn starting() {
    assert_eq!(check_start(true, false, true), Err(StartError::OutExists));
    assert_eq!(check_start(true, true, false), Err(StartError::OutExists));
    assert_eq!(check_start(false, true, false), Err(StartError::StoreExists));
    assert_eq!(check_start(false, true, true), Ok(true));
    assert_eq!(check_start(false, false, true), Ok(false));
    assert_eq!(check_start(false, false, false), Ok(false));
}

#[test]
fn places() {
    assert_eq!(default_store("aosp.serving"), "aosp.serving.graphstore");
    assert_eq!(default_store("out/"), "out.graphstore");
    assert_eq!(done_log_file("g"), "g.done");
    assert_eq!(names_log_file("g"), "g.names");
    assert_eq!(names_output(None, "out"), Some("out/scry3.names.idx".to_string()));
    assert_eq!(names_output(Some("x"), "out"), Some("x".to_string()));
    assert_eq!(names_output(Some(""), "out"), None);
}

#[test]
fn the_log_is_read() {
    let log = DoneLog::parse(" aa \n\nbb\r\naa\n  \ncc");
    assert_eq!(log.len(), 3);
    assert!(log.holds("aa") && log.holds("bb") && log.holds("cc"));
    assert!(!log.holds(" aa ") && !log.holds(""));
    assert_eq!(DoneLog::new().len(), 0);
}

#[test]
fn what_is_logged_reads_back() {
    let text: String = ["u1", "u2"].iter().map(|s| done_line(s)).collect();
    assert_eq!(text, "u1\nu2\n");
    let log = DoneLog::parse(&text);
    assert_eq!(log.len(), 2);
    assert!(log.holds("u1") && log.holds("u2"));
}

#[test]
fn folded_units_are_skipped() {
    let units: Vec<Unit> = ["a", "b", "c"]
        .iter()
        .map(|s| Unit {
            sha: s.to_string(),
            cu: IndexedCompilation::default(),
            raw_proto: None,
        })
        .collect();
    let item = |unit: usize| PlanItem { unit, kind: IndexerKind::Go };
    let items = vec![item(0), item(1), item(2)];
    let log = DoneLog::parse("b\n");
    assert_eq!(skip_folded(&items, &units, &log), vec![item(0), item(2)]);
    assert_eq!(skip_folded(&items, &units, &DoneLog::new()), items);
}

#[test]
fn a_batch_is_folded_by_count() {
    let mut b = Batch::new();
    for i in 0..BATCH_FILES - 1 {
        assert!(!b.push(format!("{i}"), 1));
    }
    assert_eq!(b.size(), 47);
    assert!(b.push("last".to_string(), 1));
    let shas = b.take();
    assert_eq!(shas.len(), 48);
    assert_eq!(shas[0], "0");
    assert_eq!(shas[47], "last");
    assert_eq!(b.size(), 0);
    assert_eq!(b.take().len(), 0);
}

#[test]
fn a_batch_is_folded_by_size() {
    let mut b = Batch::new();
    assert!(!b.push("a".to_string(), BATCH_BYTES - 1));
    assert!(b.push("b".to_string(), 1));
    assert_eq!(b.take(), vec!["a", "b"]);
    assert!(b.push("c".to_string(), BATCH_BYTES));
}

#[test]
fn outcomes_of_a_run() {
    let mut s = StreamStats::default();
    for i in 0..9 {
        s.record(Outcome::Failed(format!("m{i}")));
    }
    s.record(Outcome::Empty);
    s.record(Outcome::Wrote(5));
    s.record(Outcome::Wrote(5));
    assert_eq!((s.ok, s.empty, s.failed, s.folded), (2, 1, 9, 0));
    assert_eq!(s.fail_tails.len(), 8);
    assert_eq!(s.fail_tails[7], "m7");
}
