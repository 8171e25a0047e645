//! Units and their encoding.

use scry3::kzip::{
    cu_primary_path, encode_compilation_unit, encode_file_info, encode_file_input,
    encode_indexed_compilation, encode_vname, parse_compilation_unit, parse_file_info,
    parse_file_input, parse_indexed_compilation, parse_vname, CompilationUnit, FileInfo, FileInput,
    IndexedCompilation, Unit, VName,
};
use scry3::wire::WireError;

#[test]
fn vname_proto_round_trip() {
    let v = VName {
        signature: "Foo()".into(),
        corpus: "test".into(),
        root: "r".into(),
        path: "foo/bar.cpp".into(),
        language: "c++".into(),
    };
    let mut bytes = Vec::new();
    encode_vname(&v, &mut bytes);
    let parsed = parse_vname(&bytes).unwrap();
    assert_eq!(parsed.signature, v.signature);
    assert_eq!(parsed.corpus, v.corpus);
    assert_eq!(parsed.root, v.root);
    assert_eq!(parsed.path, v.path);
    assert_eq!(parsed.language, v.language);
}

#[test]
fn cu_full_round_trip() {
    let cu = IndexedCompilation {
        unit: CompilationUnit {
            v_name: VName {
                language: "c++".into(),
                corpus: "test".into(),
                ..Default::default()
            },
            required_input: vec![FileInput {
                v_name: VName { path: "foo.h".into(), ..Default::default() },
                info: FileInfo { path: "foo.h".into(), digest: "abc123".into() },
            }],
            argument: vec!["clang++".into(), "-c".into(), "foo.cpp".into()],
            source_file: vec!["foo.cpp".into()],
            output_key: "foo.o".into(),
            working_directory: "/build".into(),
            entry_context: "ctx".into(),
        },
    };
    let bytes = encode_indexed_compilation(&cu);
    let parsed = parse_indexed_compilation(&bytes).unwrap();
    assert_eq!(parsed.unit.v_name.language, "c++");
    assert_eq!(parsed.unit.required_input.len(), 1);
    assert_eq!(parsed.unit.required_input[0].info.digest, "abc123");
    assert_eq!(parsed.unit.argument, vec!["clang++", "-c", "foo.cpp"]);
    assert_eq!(parsed.unit.source_file, vec!["foo.cpp"]);
    assert_eq!(parsed.unit.output_key, "foo.o");
    assert_eq!(parsed.unit.working_directory, "/build");
    assert_eq!(parsed.unit.entry_context, "ctx");
}

#[test]
fn compilation_unit_decodes_real_kythe_wire_bytes() {
    // The field numbers of kythe.proto.CompilationUnit:
    //   field 1 (v_name)         — submessage, tag=0x0a
    //     field 5 (language)     — "c++"      tag=0x2a
    //   field 5 (argument)       — "clang++"  tag=0x2a
    //   field 6 (source_file)    — "foo.cpp"  tag=0x32
    //   field 7 (output_key)     — "foo.o"    tag=0x3a
    //   field 8 (working_dir)    — "/b"       tag=0x42
    //   field 9 (entry_context)  — "ctx"      tag=0x4a
    let mut wire = Vec::new();
    wire.extend_from_slice(&[0x0a, 5, 0x2a, 3, b'c', b'+', b'+']);
    wire.extend_from_slice(&[0x2a, 7, b'c', b'l', b'a', b'n', b'g', b'+', b'+']);
    wire.extend_from_slice(&[0x32, 7, b'f', b'o', b'o', b'.', b'c', b'p', b'p']);
    wire.extend_from_slice(&[0x3a, 5, b'f', b'o', b'o', b'.', b'o']);
    wire.extend_from_slice(&[0x42, 2, b'/', b'b']);
    wire.extend_from_slice(&[0x4a, 3, b'c', b't', b'x']);

    let cu = parse_compilation_unit(&wire).unwrap();
    assert_eq!(cu.v_name.language, "c++");
    assert_eq!(cu.argument, vec!["clang++"]);
    assert_eq!(cu.source_file, vec!["foo.cpp"]);
    assert_eq!(cu.output_key, "foo.o");
    assert_eq!(cu.working_directory, "/b");
    assert_eq!(cu.entry_context, "ctx");

    let mut re = Vec::new();
    encode_compilation_unit(&cu, &mut re);
    assert_eq!(re, wire, "encoder output drifted from canonical wire bytes");
}

#[test]
fn primary_path_prefers_source_file() {
    let cu = IndexedCompilation {
        unit: CompilationUnit {
            source_file: vec!["foo.cpp".into()],
            required_input: vec![FileInput {
                v_name: VName { path: "bar.h".into(), ..Default::default() },
                info: FileInfo { path: "bar.h".into(), digest: "abc".into() },
            }],
            ..Default::default()
        },
    };
    let u = Unit { sha: "x".into(), cu, raw_proto: None };
    assert_eq!(u.primary_path(), Some("foo.cpp"));
}

#[test]
fn primary_path_falls_back_to_first_required_input() {
    let cu = IndexedCompilation {
        unit: CompilationUnit {
            source_file: vec![],
            required_input: vec![FileInput {
                v_name: VName { path: "bar.h".into(), ..Default::default() },
                info: FileInfo { path: "bar.h".into(), digest: "abc".into() },
            }],
            ..Default::default()
        },
    };
    let u = Unit { sha: "x".into(), cu, raw_proto: None };
    assert_eq!(u.primary_path(), Some("bar.h"));
}

#[test]
fn language_normalizes_to_lowercase() {
    let cu = IndexedCompilation {
        unit: CompilationUnit {
            v_name: VName { language: "JAVA".into(), ..Default::default() },
            ..Default::default()
        },
    };
    let u = Unit { sha: "x".into(), cu, raw_proto: None };
    assert_eq!(u.language(), "java");
}

fn plain(cu: CompilationUnit) -> Unit {
    Unit { sha: "x".into(), cu: IndexedCompilation { unit: cu }, raw_proto: None }
}

#[test]
fn primary_path_of_the_file_or_the_unit_itself() {
    let by_file = CompilationUnit {
        required_input: vec![FileInput {
            v_name: VName::default(),
            info: FileInfo { path: "gen/a.h".into(), digest: "d".into() },
        }],
        ..Default::default()
    };
    assert_eq!(cu_primary_path(&by_file), Some("gen/a.h"));
    let own = CompilationUnit {
        v_name: VName { path: "lib.jar".into(), ..Default::default() },
        required_input: vec![FileInput::default()],
        ..Default::default()
    };
    assert_eq!(plain(own).primary_path(), Some("lib.jar"));
    assert_eq!(plain(CompilationUnit::default()).primary_path(), None);
    // The unit's own path comes before that of the first input's file.
    let both = CompilationUnit {
        v_name: VName { path: "u".into(), ..Default::default() },
        required_input: vec![FileInput {
            v_name: VName::default(),
            info: FileInfo { path: "i.h".into(), digest: "d".into() },
        }],
        ..Default::default()
    };
    assert_eq!(cu_primary_path(&both), Some("u"));
    // A first source file counts even when it is empty.
    let blank = CompilationUnit {
        v_name: VName { path: "lib.jar".into(), ..Default::default() },
        source_file: vec!["".into()],
        ..Default::default()
    };
    assert_eq!(plain(blank).primary_path(), Some(""));
}

#[test]
fn language_changes_ascii_letters_only() {
    let u = plain(CompilationUnit {
        v_name: VName { language: "C++ÄZ".into(), ..Default::default() },
        ..Default::default()
    });
    assert_eq!(u.language(), "c++Äz");
}

#[test]
fn kept_bytes_are_written_as_they_are() {
    // An unknown field, which a fresh encoding would drop.
    let raw = vec![0x12, 1, b'z'];
    let cu = parse_indexed_compilation(&raw).unwrap();
    let u = Unit { sha: "x".into(), cu, raw_proto: Some(raw.clone()) };
    assert_eq!(u.to_proto_bytes(), raw);
    let fresh = plain(CompilationUnit::default());
    assert_eq!(fresh.to_proto_bytes(), vec![0x0a, 0]);
}

#[test]
fn written_bytes_decode_to_the_unit() {
    let u = plain(CompilationUnit {
        argument: vec!["-c".into(), "".into()],
        output_key: "o".into(),
        ..Default::default()
    });
    let back = parse_indexed_compilation(&u.to_proto_bytes()).unwrap();
    assert_eq!(back.unit.argument, vec!["-c", ""]);
    assert_eq!(back.unit.output_key, "o");
    assert_eq!(back.unit.required_input.len(), 0);
}

#[test]
fn empty_fields_are_not_written() {
    let mut out = Vec::new();
    encode_vname(&VName { path: "p".into(), ..Default::default() }, &mut out);
    assert_eq!(out, vec![0x22, 1, b'p']);
    let mut out = Vec::new();
    encode_file_info(&FileInfo { path: "".into(), digest: "d".into() }, &mut out);
    assert_eq!(out, vec![0x12, 1, b'd']);
    let mut out = Vec::new();
    encode_file_input(&FileInput::default(), &mut out);
    assert_eq!(out, Vec::<u8>::new());
}

#[test]
fn file_messages_round_trip() {
    let info = FileInfo { path: "a/b.h".into(), digest: "00ff".into() };
    let mut out = Vec::new();
    encode_file_info(&info, &mut out);
    let back = parse_file_info(&out).unwrap();
    assert_eq!((back.path.as_str(), back.digest.as_str()), ("a/b.h", "00ff"));
    let input = FileInput {
        v_name: VName { corpus: "c".into(), path: "a/b.h".into(), ..Default::default() },
        info,
    };
    let mut out = Vec::new();
    encode_file_input(&input, &mut out);
    let back = parse_file_input(&out).unwrap();
    assert_eq!(back.v_name.corpus, "c");
    assert_eq!(back.v_name.path, "a/b.h");
    assert_eq!(back.info.digest, "00ff");
}

#[test]
fn text_that_is_not_utf8_is_replaced() {
    // field 4 (path) holds the byte 0xff.
    let v = parse_vname(&[0x22, 3, b'a', 0xff, b'b']).unwrap();
    assert_eq!(v.path, "a\u{fffd}b");
}

#[test]
fn the_last_of_a_repeated_field_counts() {
    let v = parse_vname(&[0x22, 1, b'a', 0x22, 1, b'b']).unwrap();
    assert_eq!(v.path, "b");
}

#[test]
fn broken_messages_are_refused() {
    assert!(matches!(parse_vname(&[0x80]), Err(WireError::TruncatedVarint { .. })));
    assert!(matches!(parse_vname(&[0x22, 5, b'a']), Err(WireError::TruncatedField { .. })));
    // A group, which no message here can hold.
    assert!(matches!(
        parse_vname(&[0x23]),
        Err(WireError::WireType { wire: 3, field: 4, .. })
    ));
    // A nested message is refused with the whole.
    assert!(parse_indexed_compilation(&[0x0a, 2, 0x0a, 9]).is_err());
}

#[test]
fn clones_and_defaults() {
    let c = CompilationUnit {
        v_name: VName { root: "r".into(), ..Default::default() },
        required_input: vec![FileInput {
            v_name: VName { signature: "s".into(), ..Default::default() },
            info: FileInfo { path: "p".into(), digest: "d".into() },
        }],
        argument: vec!["a".into()],
        ..Default::default()
    };
    let ic = IndexedCompilation { unit: c.clone() }.clone();
    assert_eq!(ic.unit.v_name.root, "r");
    assert_eq!(ic.unit.required_input[0].v_name.signature, "s");
    assert_eq!(ic.unit.required_input[0].info.path, "p");
    assert_eq!(ic.unit.argument, c.argument);
    let d = IndexedCompilation::default();
    assert_eq!(encode_indexed_compilation(&d), vec![0x0a, 0]);
}

#[test]
fn the_bool_of_a_unit_is_passed_over() {
    let unit = parse_compilation_unit(&[0x20, 1]).unwrap();
    assert_eq!(cu_primary_path(&unit), None);
    assert_eq!(unit.argument.len(), 0);
    let cu = parse_indexed_compilation(&[0x0a, 5, 0x20, 1, 0x32, 1, b'a']).unwrap();
    assert_eq!(cu.unit.source_file, vec!["a"]);
}

#[test]
fn other_wire_types_are_refused() {
    let refused = |e: WireError| matches!(e, WireError::WireType { .. });
    // A varint in any other field of a unit, and in any other message.
    assert!(parse_compilation_unit(&[0x28, 1]).is_err_and(refused));
    assert!(parse_vname(&[0x08, 1]).is_err_and(refused));
    assert!(parse_vname(&[0x20, 1]).is_err_and(refused));
    assert!(parse_file_info(&[0x08, 1]).is_err_and(refused));
    assert!(parse_file_input(&[0x20, 1]).is_err_and(refused));
    assert!(parse_indexed_compilation(&[0x20, 1]).is_err_and(refused));
    // Eight and four bytes.
    assert!(parse_compilation_unit(&[0x49, 0, 0, 0, 0, 0, 0, 0, 0]).is_err_and(refused));
    assert!(parse_compilation_unit(&[0x25, 0, 0, 0, 0]).is_err_and(refused));
}
