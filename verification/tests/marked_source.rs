//! Names of nodes.

use scry3::marked_source::{
    base64_decode, is_named_edge, parse_marked_source_fqn, strip_jvm_method_descriptor,
};
use scry3::wire::write_tag_len;

#[test]
fn base64_roundtrip_known() {
    assert_eq!(base64_decode("bWV0YQ==").unwrap(), b"meta");
}

#[test]
fn jvm_descriptor_stripped() {
    assert_eq!(
        strip_jvm_method_descriptor("android.os.Binder.clearCallingIdentity()J"),
        Some("android.os.Binder.clearCallingIdentity")
    );
    assert_eq!(strip_jvm_method_descriptor("android.os.Binder"), None);
}

#[test]
fn base64_filler_and_bad_characters() {
    assert_eq!(base64_decode(" b W\nV0\tYQ").unwrap(), b"meta");
    assert_eq!(base64_decode("").unwrap(), b"");
    assert_eq!(base64_decode("+/+/").unwrap(), vec![0xfb, 0xff, 0xbf]);
    assert_eq!(base64_decode("bW*0"), None);
    assert_eq!(base64_decode("ä"), None);
    // Bits that do not fill a byte are dropped.
    assert_eq!(base64_decode("b").unwrap(), b"");
}

#[test]
fn base64_of_a_long_text() {
    assert_eq!(base64_decode("aGVsbG8sIHdvcmxk").unwrap(), b"hello, world");
}

#[test]
fn jvm_descriptors() {
    assert_eq!(strip_jvm_method_descriptor("a.B.m(I[Ljava/lang/String;)V"), Some("a.B.m"));
    assert_eq!(strip_jvm_method_descriptor("f(x)g(I)V"), Some("f(x)g"));
    // No return type, an open parenthesis, or what is no type.
    assert_eq!(strip_jvm_method_descriptor("m(I)"), None);
    assert_eq!(strip_jvm_method_descriptor("m(I"), None);
    assert_eq!(strip_jvm_method_descriptor("m(a b)V"), None);
    assert_eq!(strip_jvm_method_descriptor("m()a.b"), None);
    assert_eq!(strip_jvm_method_descriptor("ä()V"), Some("ä"));
}

#[test]
fn named_edges() {
    assert!(is_named_edge("/kythe/edge/named"));
    assert!(is_named_edge("/kythe/edge/named.3"));
    assert!(!is_named_edge("/kythe/edge/named/x"));
    assert!(!is_named_edge(""));
}

fn field(number: u32, data: &[u8], out: &mut Vec<u8>) {
    write_tag_len(number, data, out);
}

/// A node with these children between the joiner.
fn boxed(children: &[Vec<u8>], joiner: &str) -> Vec<u8> {
    let mut out = Vec::new();
    for c in children {
        field(3, c, &mut out);
    }
    field(4, joiner.as_bytes(), &mut out);
    out
}

fn text(s: &str) -> Vec<u8> {
    let mut out = Vec::new();
    field(2, s.as_bytes(), &mut out);
    out
}

#[test]
fn names_are_rendered() {
    let name = boxed(&[text("android"), text("Parcel"), text("writeStrongBinder")], "::");
    assert_eq!(
        parse_marked_source_fqn(&name),
        Some("android::Parcel::writeStrongBinder".to_string())
    );
}

#[test]
fn types_and_parameters_are_cut_off() {
    let name = boxed(&[text("ns"), text("f")], "::");
    let mut params = boxed(&[text("int a"), text("int b")], ", ");
    field(2, b"(", &mut params);
    field(5, b")", &mut params);
    let whole = boxed(&[text("void "), name, params], "");
    assert_eq!(parse_marked_source_fqn(&whole), Some("ns::f".to_string()));
}

#[test]
fn a_final_joiner_is_trimmed() {
    let mut context = boxed(&[text("a"), text("b")], "::");
    // add_final_list_token = true
    context.extend_from_slice(&[0x50, 1]);
    let whole = boxed(&[context.clone(), text("c")], "");
    assert_eq!(parse_marked_source_fqn(&whole), Some("a::b::c".to_string()));
    assert_eq!(parse_marked_source_fqn(&context), Some("a::b".to_string()));
}

#[test]
fn nothing_to_render() {
    assert_eq!(parse_marked_source_fqn(&[]), None);
    assert_eq!(parse_marked_source_fqn(&text("::")), None);
    assert_eq!(parse_marked_source_fqn(&text("(x)")), None);
    // A message that is cut off.
    assert_eq!(parse_marked_source_fqn(&[0x12, 9, b'a']), None);
    // A child that is cut off spoils the whole, at any depth.
    let whole = boxed(&[vec![0x12, 9], text("a")], "::");
    assert_eq!(parse_marked_source_fqn(&whole), None);
    assert_eq!(parse_marked_source_fqn(&boxed(&[whole, text("b")], "::")), None);
    assert_eq!(parse_marked_source_fqn(&[0x12, 1, 0x61, 0x1a, 1, 0x12]), None);
    // A child without text is left out.
    let whole = boxed(&[vec![], text("a"), text("")], "::");
    assert_eq!(parse_marked_source_fqn(&whole), Some("a".to_string()));
}

#[test]
fn other_fields_are_passed_over() {
    let mut m = vec![0x08, 3]; // kind = IDENTIFIER
    m.extend_from_slice(&[0x59, 0, 0, 0, 0, 0, 0, 0, 0]); // field 11, eight bytes
    m.extend_from_slice(&[0x5d, 0, 0, 0, 0]); // field 11, four bytes
    m.extend_from_slice(&text("x y"));
    assert_eq!(parse_marked_source_fqn(&m), Some("y".to_string()));
}

/// The standard encoding, with its padding.
fn base64(b: &[u8]) -> String {
    let alphabet: Vec<char> = ('A'..='Z').chain('a'..='z').chain('0'..='9').chain(['+', '/']).collect();
    let mut out = String::new();
    for g in b.chunks(3) {
        let n = (0..3).fold(0u32, |n, i| n << 8 | *g.get(i).unwrap_or(&0) as u32);
        for i in 0..4u32 {
            if i as usize <= g.len() {
                out.push(alphabet[(n >> (18 - 6 * i) & 63) as usize]);
            } else {
                out.push('=');
            }
        }
    }
    out
}

#[test]
fn decoding_undoes_the_standard_encoding() {
    assert_eq!(base64(b"meta"), "bWV0YQ==");
    let bytes: Vec<u8> = (0..=255).collect();
    for n in 0..=bytes.len() {
        let text = base64(&bytes[..n]);
        assert_eq!(base64_decode(&text).unwrap(), &bytes[..n]);
        assert_eq!(base64_decode(text.trim_end_matches('=')).unwrap(), &bytes[..n]);
        let spaced: String = text.chars().flat_map(|c| ['\n', c, ' ']).collect();
        assert_eq!(base64_decode(&spaced).unwrap(), &bytes[..n]);
    }
}
