//! Planning and running indexers.

use scry3::filter::PathFilter;
use scry3::indexer::{
    chosen_langs, drop_done, entries_file, indexer_command, judge_unit, keep_tail, lang_label,
    make_plan, needs_java, outcome_of, parse_inject_rules, prepare_unit, report_due,
    route_language, snippet, worker_count, worker_share, CommandArg, IndexerKind, InjectFault,
    LangStats, Outcome, PlanItem, Verdict, MAX_FAIL_TAILS,
};
use scry3::kzip::{CompilationUnit, IndexedCompilation, Unit, VName};

#[test]
fn languages_have_indexers() {
    assert_eq!(route_language("c++"), Some(IndexerKind::Cxx));
    assert_eq!(route_language("java"), Some(IndexerKind::JavaSource));
    assert_eq!(route_language("jvm"), Some(IndexerKind::JvmBytecode));
    assert_eq!(route_language("go"), Some(IndexerKind::Go));
    assert_eq!(route_language("protobuf"), Some(IndexerKind::Proto));
    assert_eq!(route_language("proto"), Some(IndexerKind::Proto));
    assert_eq!(route_language("textproto"), Some(IndexerKind::TextProto));
    assert_eq!(route_language("kotlin"), None);
    assert_eq!(route_language("C++"), None);
}

#[test]
fn indexers_have_labels() {
    assert_eq!(lang_label(IndexerKind::Cxx), "cxx");
    assert_eq!(lang_label(IndexerKind::JavaSource), "java");
    assert_eq!(lang_label(IndexerKind::JvmBytecode), "jvm");
    assert_eq!(lang_label(IndexerKind::Go), "go");
    assert_eq!(lang_label(IndexerKind::Proto), "proto");
    assert_eq!(lang_label(IndexerKind::TextProto), "textproto");
}

#[test]
fn languages_are_chosen() {
    assert_eq!(chosen_langs("cxx, java ,go"), vec!["cxx", "java", "go"]);
    assert_eq!(chosen_langs(""), vec![""]);
}

fn rules(raw: &[&str]) -> Vec<String> {
    raw.iter().map(|s| s.to_string()).collect()
}

#[test]
fn rules_are_read() {
    let r = parse_inject_rules(&rules(&["libcore/::--patch=a::b", "x::y"])).unwrap();
    assert_eq!(r.len(), 2);
    assert_eq!((r[0].path_prefix.as_str(), r[0].arg.as_str()), ("libcore/", "--patch=a::b"));
    assert_eq!((r[1].path_prefix.as_str(), r[1].arg.as_str()), ("x", "y"));
    assert_eq!(r[1].clone().arg, "y");
    assert_eq!(parse_inject_rules(&[]).unwrap().len(), 0);
}

#[test]
fn rules_that_cannot_be_read() {
    for (raw, fault) in [
        ("a:b", InjectFault::NoSeparator),
        ("::b", InjectFault::NoPrefix),
        ("a::", InjectFault::NoArg),
        ("::", InjectFault::NoPrefix),
    ] {
        let e = parse_inject_rules(&rules(&["ok::ok", raw, "::"])).unwrap_err();
        assert_eq!(e.rule, raw);
        assert_eq!(e.fault, fault);
    }
}

fn unit(sha: &str, language: &str, source: &str, args: &[&str]) -> Unit {
    Unit {
        sha: sha.into(),
        cu: IndexedCompilation {
            unit: CompilationUnit {
                v_name: VName { language: language.into(), ..Default::default() },
                source_file: vec![source.into()],
                argument: args.iter().map(|s| s.to_string()).collect(),
                ..Default::default()
            },
        },
        raw_proto: None,
    }
}

#[test]
fn profiles_are_dropped_and_rules_applied() {
    let r = parse_inject_rules(&rules(&["a/::-one", "b/::-two", "a/b::-three", "a/::-c"])).unwrap();
    let u = unit("u", "c++", "a/b.cc", &["-c", "-fprofile-sample-use=x", "-fprofile-sample-use"]);
    assert_eq!(prepare_unit(&u, &r).argument, vec!["-one", "-three", "-c"]);
    let u = unit("u", "c++", "z.cc", &["-c"]);
    assert_eq!(prepare_unit(&u, &r).argument, vec!["-c"]);
    // Nothing but the arguments changes.
    assert_eq!(prepare_unit(&u, &r).source_file, vec!["z.cc"]);
}

#[test]
fn units_are_judged() {
    let langs = chosen_langs("cxx,go");
    let f = PathFilter { in_: vec!["a/".into()], not_in: vec![] };
    assert_eq!(
        judge_unit(&unit("1", "C++", "a/x", &[]), &langs, &f),
        Verdict::Index(IndexerKind::Cxx)
    );
    assert_eq!(judge_unit(&unit("2", "java", "a/x", &[]), &langs, &f), Verdict::WrongLanguage);
    assert_eq!(judge_unit(&unit("3", "rust", "a/x", &[]), &langs, &f), Verdict::WrongLanguage);
    assert_eq!(judge_unit(&unit("4", "go", "b/x", &[]), &langs, &f), Verdict::WrongPath);
}

#[test]
fn a_plan() {
    let units = vec![
        unit("1", "c++", "a/1", &[]),
        unit("2", "java", "a/2", &[]),
        unit("3", "go", "b/3", &[]),
        unit("4", "go", "a/4", &[]),
    ];
    let f = PathFilter { in_: vec!["a/".into()], not_in: vec![] };
    let plan = make_plan(&units, &chosen_langs("cxx,go"), &f);
    let items = vec![
        PlanItem { unit: 0, kind: IndexerKind::Cxx },
        PlanItem { unit: 3, kind: IndexerKind::Go },
    ];
    assert_eq!(plan.items, items);
    assert_eq!((plan.skipped_lang, plan.skipped_path), (1, 1));
    assert_eq!(drop_done(&items, &vec![true, false]), vec![items[1]]);
    assert_eq!(drop_done(&items, &vec![false, false]), items);
}

#[test]
fn work_is_shared_out() {
    assert_eq!(worker_share(7, 3, 0), vec![0, 3, 6]);
    assert_eq!(worker_share(7, 3, 1), vec![1, 4]);
    assert_eq!(worker_share(7, 3, 2), vec![2, 5]);
    assert_eq!(worker_share(1, 3, 2), Vec::<usize>::new());
    let mut all: Vec<usize> = (0..4).flat_map(|w| worker_share(9, 4, w)).collect();
    all.sort();
    assert_eq!(all, (0..9).collect::<Vec<usize>>());
}

#[test]
fn how_many_workers() {
    assert_eq!(worker_count(5, 64), 5);
    assert_eq!(worker_count(0, 9), 4);
    assert_eq!(worker_count(0, 1), 1);
    assert_eq!(worker_count(0, 0), 1);
}

fn shown(args: &[CommandArg]) -> Vec<String> {
    args.iter()
        .map(|a| match a {
            CommandArg::Text(s) => s.clone(),
            CommandArg::Indexer => "<indexer>".to_string(),
            CommandArg::Kzip(s) => format!("{s}<kzip>"),
            CommandArg::TempDir => "<temp>".to_string(),
        })
        .collect()
}

#[test]
fn commands() {
    let c = indexer_command(IndexerKind::Cxx, "8g");
    assert_eq!(c.indexer, "indexers/cxx_indexer");
    assert!(!c.java);
    assert_eq!(shown(&c.args), vec!["<kzip>"]);
    let c = indexer_command(IndexerKind::JvmBytecode, "12g");
    assert_eq!(c.indexer, "indexers/jvm_indexer.jar");
    assert!(c.java);
    assert_eq!(
        shown(&c.args),
        vec![
            "-Xmx12g",
            "-jar",
            "<indexer>",
            "--ignore_empty_kzip",
            "--temp_directory",
            "<temp>",
            "<kzip>",
        ]
    );
    assert_eq!(indexer_command(IndexerKind::JavaSource, "").indexer, "indexers/java_indexer.jar");
    assert_eq!(indexer_command(IndexerKind::Go, "").indexer, "indexers/go_indexer");
    assert_eq!(
        shown(&indexer_command(IndexerKind::Proto, "").args),
        vec!["-index_file=<kzip>"]
    );
    assert_eq!(
        shown(&indexer_command(IndexerKind::TextProto, "").args),
        vec!["--index_file=<kzip>"]
    );
    assert!(needs_java(IndexerKind::JavaSource));
    assert!(!needs_java(IndexerKind::Proto));
}

#[test]
fn the_tail_of_errors_is_kept() {
    let mut kept = Vec::new();
    keep_tail(&mut kept, b"abc", 4);
    assert_eq!(kept, b"abc");
    keep_tail(&mut kept, b"def", 4);
    assert_eq!(kept, b"cdef");
    keep_tail(&mut kept, b"0123456789", 4);
    assert_eq!(kept, b"6789");
    keep_tail(&mut kept, b"x", 0);
    assert_eq!(kept, b"");
}

#[test]
fn what_is_shown_of_errors() {
    assert_eq!(snippet(b""), "");
    assert_eq!(snippet(b"one"), "one");
    assert_eq!(snippet(b"one\ntwo\r\nthree\n"), "three | two");
    assert_eq!(snippet(b"\xffx\n"), "\u{fffd}x");
}

#[test]
fn outcomes_are_counted() {
    let mut s = LangStats::default();
    for i in 0..10 {
        s.record(outcome_of(false, 5, format!("m{i}")));
    }
    s.record(outcome_of(true, 0, String::new()));
    s.record(outcome_of(true, 7, String::new()));
    s.record(Outcome::Wrote(3));
    assert_eq!((s.cus, s.succeeded, s.empty, s.failed, s.bytes), (13, 2, 1, 10, 10));
    assert_eq!(s.fail_tails.len(), MAX_FAIL_TAILS);
    assert_eq!(s.fail_tails[0], "m0");
    assert_eq!(s.fail_tails[7], "m7");
}

#[test]
fn when_progress_is_shown() {
    assert!(report_due(200, 1000));
    assert!(report_due(5, 5));
    assert!(!report_due(199, 1000));
}

#[test]
fn where_entries_go() {
    assert_eq!(entries_file("abc"), "abc.entries");
}
