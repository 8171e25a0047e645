//! Reading the units of an archive and writing archives of them.

use scry3::archive::{
    carried_files, directories, file_entry, needed_files, normalized_file, normalized_unit, same_unit,
    strip_prefix, sub_unit, unit_entry, unit_files, NoProgress, Phase, Progress, Report,
    UnitReader, Wanted,
};
use scry3::filter::PathFilter;
use scry3::kzip::{
    encode_indexed_compilation, parse_indexed_compilation, CompilationUnit, FileInfo, FileInput,
    IndexedCompilation, Unit, VName,
};

#[test]
fn strip_prefix_rejects_directory_entries() {
    assert_eq!(strip_prefix("root/units/", "root/units/"), None);
    assert_eq!(strip_prefix("root/pbunits/", "root/pbunits/"), None);
    assert_eq!(strip_prefix("root/units/abc123", "root/units/"), Some("abc123"));
    assert_eq!(strip_prefix("root/units/sub/abc", "root/units/"), None);
}

#[test]
fn strip_prefix_needs_the_prefix() {
    assert_eq!(strip_prefix("root/files/abc", "root/units/"), None);
    assert_eq!(strip_prefix("", "root/units/"), None);
    assert_eq!(strip_prefix("ä", ""), Some("ä"));
}

fn unit_with(path: &str, digests: &[&str]) -> IndexedCompilation {
    IndexedCompilation {
        unit: CompilationUnit {
            v_name: VName { language: "c++".into(), ..Default::default() },
            required_input: digests
                .iter()
                .map(|d| FileInput {
                    v_name: VName::default(),
                    info: FileInfo { path: format!("f-{d}.h"), digest: d.to_string() },
                })
                .collect(),
            source_file: vec![path.to_string()],
            ..Default::default()
        },
    }
}

enum Content {
    Proto(Vec<u8>),
    Json(IndexedCompilation),
    Other,
}

/// Reads an archive with these entries; returns the units and the reports.
fn read(entries: Vec<(&str, Content)>, filter: Option<PathFilter>) -> (Vec<Unit>, Vec<Report>) {
    read_by(entries, filter.map(|f| move |p: &str| f.accept(p)))
}

fn read_by<F: Fn(&str) -> bool>(
    entries: Vec<(&str, Content)>,
    accept: Option<F>,
) -> (Vec<Unit>, Vec<Report>) {
    let names: Vec<String> = entries.iter().map(|e| e.0.to_string()).collect();
    let mut reader = UnitReader::new(&names, accept);
    let mut reports = Vec::new();
    loop {
        match reader.next() {
            Wanted::Nothing => return (reader.finish(), reports),
            Wanted::Proto(i) => match &entries[i].1 {
                Content::Proto(bytes) => {
                    let (report, r) = reader.give_proto(bytes.clone());
                    r.unwrap();
                    reports.extend(report);
                }
                _ => panic!("no proto at {i}"),
            },
            Wanted::Json(i) => match &entries[i].1 {
                Content::Json(cu) => {
                    reports.extend(reader.see_json(b"{}"));
                    let (report, r) = reader.give_json(Some(cu.clone()));
                    r.unwrap();
                    reports.extend(report);
                }
                _ => panic!("no json at {i}"),
            },
        }
    }
}

fn mixed() -> Vec<(&'static str, Content)> {
    vec![
        ("root/", Content::Other),
        ("root/units/bbb", Content::Json(unit_with("b.java", &["2"]))),
        ("root/pbunits/", Content::Other),
        ("root/pbunits/aaa", Content::Proto(encode_indexed_compilation(&unit_with("a.cc", &["1"])))),
        ("root/units/aaa", Content::Json(unit_with("twin.cc", &[]))),
        ("root/files/1", Content::Other),
    ]
}

#[test]
fn both_encodings_are_read_and_the_proto_wins() {
    let (units, reports) = read(mixed(), None);
    let shas: Vec<&str> = units.iter().map(|u| u.sha.as_str()).collect();
    assert_eq!(shas, vec!["aaa", "bbb"]);
    assert_eq!(units[0].primary_path(), Some("a.cc"));
    assert!(units[0].raw_proto.is_some());
    assert_eq!(units[1].primary_path(), Some("b.java"));
    assert!(units[1].raw_proto.is_none());
    assert_eq!(
        reports,
        vec![
            Report { phase: Phase::Read, done: 1, total: 3 },
            Report { phase: Phase::Read, done: 2, total: 3 },
        ]
    );
}

#[test]
fn a_filter_keeps_what_it_accepts() {
    let only = |s: &str| Some(PathFilter { in_: vec![s.to_string()], not_in: vec![] });
    let (units, reports) = read(mixed(), only("b."));
    let shas: Vec<&str> = units.iter().map(|u| u.sha.as_str()).collect();
    assert_eq!(shas, vec!["bbb"]);
    assert_eq!(
        reports,
        vec![
            Report { phase: Phase::Scan, done: 1, total: 3 },
            Report { phase: Phase::Scan, done: 2, total: 3 },
        ]
    );
    // The proto wins also where the filter refuses it.
    let (units, _) = read(mixed(), only("twin"));
    assert_eq!(units.len(), 0);
    let (units, reports) = read(mixed(), only("a.cc"));
    assert_eq!(units.len(), 1);
    assert_eq!(reports.len(), 2);
}

#[test]
fn a_unit_that_does_not_decode() {
    let names = vec!["root/pbunits/bad".to_string()];
    let mut reader = UnitReader::new(&names, None::<fn(&str) -> bool>);
    assert_eq!(reader.next(), Wanted::Proto(0));
    let (_, r) = reader.give_proto(vec![0x0a, 9]);
    assert_eq!(r.unwrap_err().sha, "bad");
}

#[test]
fn an_archive_without_units() {
    let names = vec!["root/files/x".to_string()];
    let mut reader = UnitReader::new(&names, None::<fn(&str) -> bool>);
    assert_eq!(reader.next(), Wanted::Nothing);
    assert_eq!(reader.finish().len(), 0);
}

fn read_units() -> Vec<Unit> {
    read(mixed(), None).0
}

#[test]
fn a_normalized_archive_reads_back() {
    let units = read_units();
    let mut entries: Vec<(String, Vec<u8>)> =
        directories().into_iter().map(|d| (d, Vec::new())).collect();
    for i in 0..units.len() {
        let (name, bytes, report) = normalized_unit(&units, i);
        assert_eq!(report, Report { phase: Phase::WriteUnits, done: i + 1, total: 2 });
        entries.push((name, bytes));
    }
    let files = needed_files(&units);
    assert_eq!(files, vec!["1", "2"]);
    for i in 0..files.len() {
        let (name, report) = normalized_file(&files, i);
        assert_eq!(report, Report { phase: Phase::WriteFiles, done: i + 1, total: 2 });
        entries.push((name, Vec::new()));
    }
    let names: Vec<&str> = entries.iter().map(|e| e.0.as_str()).collect();
    assert_eq!(
        names,
        vec![
            "root/",
            "root/pbunits/",
            "root/files/",
            "root/pbunits/aaa",
            "root/pbunits/bbb",
            "root/files/1",
            "root/files/2",
        ]
    );
    let written: Vec<(&str, Content)> =
        entries.iter().map(|e| (e.0.as_str(), Content::Proto(e.1.clone()))).collect();
    let (back, _) = read(written, None);
    assert_eq!(back.len(), 2);
    for (a, b) in units.iter().zip(back.iter()) {
        assert_eq!(a.sha, b.sha);
        assert!(same_unit(&a.cu.unit, &b.cu.unit));
        assert!(b.raw_proto.is_some());
    }
}

#[test]
fn files_are_needed_once() {
    let units = vec![
        Unit { sha: "a".into(), cu: unit_with("a", &["1", "", "2", "1"]), raw_proto: None },
        Unit { sha: "b".into(), cu: unit_with("b", &["2", "3"]), raw_proto: None },
    ];
    assert_eq!(needed_files(&units), vec!["1", "2", "3"]);
    assert_eq!(unit_files(&units[0]), vec!["1", "2"]);
    assert_eq!(unit_files(&units[1]), vec!["2", "3"]);
    assert_eq!(unit_entry("a"), "root/pbunits/a");
    assert_eq!(file_entry("1"), "root/files/1");
}

#[test]
fn a_unit_that_is_not_changed_keeps_its_bytes() {
    let mut raw = encode_indexed_compilation(&unit_with("a.cc", &[]));
    raw.extend_from_slice(&[0x12, 1, b'z']);
    let cu = parse_indexed_compilation(&raw).unwrap();
    let unit = Unit { sha: "a".into(), cu, raw_proto: Some(raw.clone()) };
    assert_eq!(sub_unit(&unit, unit.cu.unit.clone()), raw);
}

#[test]
fn a_unit_that_is_changed_is_encoded_afresh() {
    let raw = encode_indexed_compilation(&unit_with("a.cc", &[]));
    let cu = parse_indexed_compilation(&raw).unwrap();
    let unit = Unit { sha: "a".into(), cu, raw_proto: Some(raw.clone()) };
    let mut args = unit.cu.unit.clone();
    args.argument.push("-x".into());
    let back = parse_indexed_compilation(&sub_unit(&unit, args)).unwrap();
    assert_eq!(back.unit.argument, vec!["-x"]);
    // A change anywhere counts, not in the arguments alone.
    let mut source = unit.cu.unit.clone();
    source.source_file = vec!["b.cc".into()];
    let back = parse_indexed_compilation(&sub_unit(&unit, source)).unwrap();
    assert_eq!(back.unit.source_file, vec!["b.cc"]);
    // Without kept bytes there is always a fresh encoding.
    let json = Unit { sha: "j".into(), cu: unit_with("j.cc", &[]), raw_proto: None };
    assert_eq!(sub_unit(&json, json.cu.unit.clone()), encode_indexed_compilation(&json.cu));
}

#[test]
fn an_extracted_unit_reads_back() {
    let units = read_units();
    let mut changed = units[1].cu.unit.clone();
    changed.argument = vec!["-new".to_string()];
    let mut entries: Vec<(String, Vec<u8>)> =
        directories().into_iter().map(|d| (d, Vec::new())).collect();
    entries.push((unit_entry(&units[1].sha), sub_unit(&units[1], changed)));
    for d in unit_files(&units[1]) {
        entries.push((file_entry(&d), Vec::new()));
    }
    let written: Vec<(&str, Content)> =
        entries.iter().map(|e| (e.0.as_str(), Content::Proto(e.1.clone()))).collect();
    let (back, _) = read(written, None);
    assert_eq!(back.len(), 1);
    assert_eq!(back[0].sha, "bbb");
    assert_eq!(back[0].cu.unit.argument, vec!["-new"]);
    assert_eq!(back[0].primary_path(), Some("b.java"));
}

#[test]
fn units_that_differ() {
    let a = unit_with("a", &["1"]).unit;
    assert!(same_unit(&a, &a.clone()));
    assert!(!same_unit(&a, &unit_with("b", &["1"]).unit));
    assert!(!same_unit(&a, &unit_with("a", &["2"]).unit));
    assert!(!same_unit(&a, &unit_with("a", &[]).unit));
    let mut b = a.clone();
    b.working_directory = "/w".into();
    assert!(!same_unit(&a, &b));
}

#[test]
fn phases_have_names() {
    assert_eq!(Phase::Read.name(), "read");
    assert_eq!(Phase::Scan.name(), "scan");
    assert_eq!(Phase::WriteUnits.name(), "write-units");
    assert_eq!(Phase::WriteFiles.name(), "write-files");
}

struct Counter(usize);

impl Progress for Counter {
    fn report(&mut self, _phase: &str, done: usize, _total: usize) {
        self.0 += done;
    }
}

fn tell<P: Progress>(mut sink: P) {
    sink.report("read", 2, 3);
}

#[test]
fn progress_goes_through_references() {
    let mut c = Counter(0);
    tell(&mut c);
    tell(&mut c);
    tell(NoProgress);
    assert_eq!(c.0, 4);
}

#[test]
fn a_filter_goes_by_the_primary_path() {
    let only = |s: &str| Some(PathFilter { in_: vec![s.to_string()], not_in: vec![] });
    let input = |name: &str, file: &str| FileInput {
        v_name: VName { path: name.into(), ..Default::default() },
        info: FileInfo { path: file.into(), digest: "d".into() },
    };
    let named = |path: &str, first: FileInput| IndexedCompilation {
        unit: CompilationUnit {
            v_name: VName { path: path.into(), ..Default::default() },
            required_input: vec![first, input("z.java", "z.java")],
            ..Default::default()
        },
    };
    // In each the primary path is not the first path that is seen.
    let entries = || {
        vec![
            ("root/units/j", Content::Json(named("b.c", input("", "a.h")))),
            (
                "root/pbunits/p",
                Content::Proto(encode_indexed_compilation(&named("b.c", input("", "a.h")))),
            ),
            (
                "root/pbunits/q",
                Content::Proto(encode_indexed_compilation(&named("b.c", input("n.h", "a.h")))),
            ),
        ]
    };
    let shas = |f: &str| -> Vec<String> {
        read(entries(), only(f)).0.into_iter().map(|u| u.sha).collect()
    };
    assert_eq!(shas("b.c"), vec!["p", "j"]);
    assert_eq!(shas("n.h"), vec!["q"]);
    assert_eq!(shas("a.h"), Vec::<String>::new());
    // What a filtered read gives is what a full one would have kept.
    let full = read(entries(), None).0;
    for f in ["b.c", "n.h", "a.h", "z.java"] {
        let kept: Vec<String> = full
            .iter()
            .filter(|u| u.primary_path().unwrap_or("").contains(f))
            .map(|u| u.sha.clone())
            .collect();
        assert_eq!(shas(f), kept);
    }
}

#[test]
fn every_stored_file_is_carried() {
    let units = read_units();
    let names: Vec<String> = [
        "root/files/",
        "root/files/9",
        "root/pbunits/aaa",
        "root/files/2",
        "root/files/x/y",
        "root/files/9",
        "files/3",
    ]
    .iter()
    .map(|s| s.to_string())
    .collect();
    assert_eq!(carried_files(&units, &names), vec!["1", "2", "9"]);
    assert_eq!(carried_files(&Vec::new(), &names), vec!["9", "2"]);
}

#[test]
fn any_test_of_paths_is_a_filter() {
    let shas = |accept: fn(&str) -> bool| -> Vec<String> {
        read_by(mixed(), Some(accept)).0.into_iter().map(|u| u.sha).collect()
    };
    assert_eq!(shas(|p| p.len() == 4), vec!["aaa"]);
    assert_eq!(shas(|p| p.ends_with("java")), vec!["bbb"]);
    assert_eq!(shas(|_| true), vec!["aaa", "bbb"]);
    assert_eq!(shas(|_| false), Vec::<String>::new());
}

#[test]
fn json_that_does_not_decode() {
    let names = vec!["root/units/j".to_string()];
    let text = br#"{"unit":{"source_file":["out/a.cc"],"argument":7}}"#;
    let read = |accept: Option<fn(&str) -> bool>| {
        let mut reader = UnitReader::new(&names, accept);
        assert_eq!(reader.next(), Wanted::Json(0));
        reader.see_json(text);
        let (report, r) = reader.give_json(None);
        assert_eq!(report, None);
        r.map(|_| {
            assert_eq!(reader.next(), Wanted::Nothing);
            reader.finish().len()
        })
    };
    assert_eq!(read(None).unwrap_err().sha, "j");
    assert_eq!(read(Some(|p| p.starts_with("out/"))).unwrap_err().sha, "j");
    // A path that the filter refuses: the unit is left out.
    assert_eq!(read(Some(|p| p.starts_with("src/"))).unwrap(), 0);
}

#[test]
fn json_that_decodes_goes_by_its_primary_path() {
    let names = vec!["root/units/j".to_string()];
    let mut reader = UnitReader::new(&names, Some(|p: &str| p == "b.c"));
    assert_eq!(reader.next(), Wanted::Json(0));
    reader.see_json(br#"{"unit":{"details":[{"source_file":["x.c"]}],"sourceFile":["b.c"]}}"#);
    reader.give_json(Some(unit_with("b.c", &[]))).1.unwrap();
    assert_eq!(reader.finish()[0].sha, "j");
}
