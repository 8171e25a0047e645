//! Looking ahead for a unit's primary path.

use scry3::kzip::{
    cu_primary_path, encode_indexed_compilation, parse_indexed_compilation, CompilationUnit,
    FileInfo, FileInput, IndexedCompilation, VName,
};
use scry3::peek::peek_primary_path;

fn bytes_of(unit: CompilationUnit) -> Vec<u8> {
    encode_indexed_compilation(&IndexedCompilation { unit })
}

fn input(name_path: &str, file_path: &str) -> FileInput {
    FileInput {
        v_name: VName { corpus: "c".into(), path: name_path.into(), ..Default::default() },
        info: FileInfo { path: file_path.into(), digest: "d".into() },
    }
}

#[test]
fn a_peek_sees_what_decoding_gives() {
    let with_source = CompilationUnit {
        v_name: VName { language: "java".into(), ..Default::default() },
        required_input: vec![input("b.h", "b.h")],
        argument: vec!["javac".into()],
        source_file: vec!["a/A.java".into(), "a/B.java".into()],
        ..Default::default()
    };
    assert_eq!(peek_primary_path(&bytes_of(with_source), true), Some("a/A.java".to_string()));
    let by_name =
        CompilationUnit { required_input: vec![input("n.h", "f.h")], ..Default::default() };
    assert_eq!(peek_primary_path(&bytes_of(by_name), true), Some("n.h".to_string()));
    let by_file =
        CompilationUnit { required_input: vec![input("", "f.h")], ..Default::default() };
    assert_eq!(peek_primary_path(&bytes_of(by_file), true), Some("f.h".to_string()));
}

#[test]
fn a_unit_without_a_path() {
    let none = CompilationUnit { required_input: vec![input("", "")], ..Default::default() };
    assert_eq!(peek_primary_path(&bytes_of(none), true), Some(String::new()));
    assert_eq!(
        peek_primary_path(&bytes_of(CompilationUnit::default()), true),
        Some(String::new())
    );
    assert_eq!(peek_primary_path(&[0x0a, 0], true), Some(String::new()));
    // A unit that cannot be read to its end may have had one.
    assert_eq!(peek_primary_path(&[0x0a, 1, 0xff], true), None);
}

#[test]
fn a_path_in_the_unit_itself() {
    let own = CompilationUnit {
        v_name: VName { path: "lib.jar".into(), ..Default::default() },
        required_input: vec![input("", "f.h")],
        ..Default::default()
    };
    assert_eq!(peek_primary_path(&bytes_of(own), true), Some("lib.jar".to_string()));
}

#[test]
fn an_input_without_a_name() {
    let bytes = [0x0a, 9, 0x1a, 7, 0x12, 5, 0x0a, 3, b'f', b'.', b'h'];
    assert_eq!(peek_primary_path(&bytes, true), Some("f.h".to_string()));
}

#[test]
fn the_last_of_a_repeated_name_counts() {
    // Two units, the second of which has two names.
    let bytes =
        [0x0a, 3, 0x32, 1, b'a', 0x0a, 10, 0x0a, 3, 0x22, 1, b'b', 0x0a, 3, 0x22, 1, b'c'];
    assert_eq!(peek_primary_path(&bytes, true), Some("c".to_string()));
    let cu = parse_indexed_compilation(&bytes).unwrap();
    assert_eq!(cu_primary_path(&cu.unit), Some("c"));
}

#[test]
fn a_unit_that_is_cut_off() {
    // The unit says it has 100 bytes; its source file is there all the same.
    let cut = [0x0a, 100, 0x32, 3, b'a', b'.', b'c'];
    assert_eq!(peek_primary_path(&cut, true), Some("a.c".to_string()));
    assert_eq!(peek_primary_path(&[], true), None);
    assert_eq!(peek_primary_path(&[0x80], true), None);
}

#[test]
fn a_source_file_that_is_not_utf8() {
    let mut unit = vec![0x32, 1, 0xff];
    unit.extend_from_slice(&[0x1a, 5, 0x0a, 3, 0x22, 1, b'p']);
    let mut bytes = vec![0x0a, unit.len() as u8];
    bytes.extend_from_slice(&unit);
    assert_eq!(peek_primary_path(&bytes, true), Some("\u{fffd}".to_string()));
    let cu = parse_indexed_compilation(&bytes).unwrap();
    assert_eq!(cu_primary_path(&cu.unit), Some("\u{fffd}"));
}

#[test]
fn source_files_in_json() {
    let json = br#"{"unit":{"source_file" : [ "a/b.cc", "c.cc"]}}"#;
    assert_eq!(peek_primary_path(json, false), Some("a/b.cc".to_string()));
    let camel = br#"{"unit":{"sourceFile":"x.go"}}"#;
    assert_eq!(peek_primary_path(camel, false), Some("x.go".to_string()));
    // Text is taken as it is written, up to the quote that ends it.
    let quoted = br#"{"source_file":["a\"b.cc"]}"#;
    assert_eq!(peek_primary_path(quoted, false), Some("a\\\"b.cc".to_string()));
}

#[test]
fn paths_in_json() {
    let json = br#"{"requiredInput":[{"info":{"path":"a.h"}},{"info":{"path" :"b/X.java"}}]}"#;
    assert_eq!(peek_primary_path(json, false), Some("b/X.java".to_string()));
    assert_eq!(peek_primary_path(br#"{"path":"a.h"}"#, false), None);
    assert_eq!(peek_primary_path(br#"{"path":3,"path":"x.rs"}"#, false), Some("x.rs".to_string()));
    assert_eq!(peek_primary_path(b"{}", false), None);
    assert_eq!(peek_primary_path(br#"{"source_file":[]}"#, false), None);
    assert_eq!(peek_primary_path(br#"{"path":"x.rs"#, false), None);
}
