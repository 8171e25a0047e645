//! A cheap look at an encoded unit for its primary path, without decoding it.
//!
//! A peek walks only as far as it must and may come back without an answer;
//! whoever asked then has to decode the unit. Of a proto-encoded unit it gives
//! the path that decoding gives; in JSON it goes by the look of the text.

use vstd::prelude::*;
use vstd::utf8::{decode_utf8, encode_utf8, valid_utf8};

use crate::kzip::{
    file_info_step, file_input_of, file_input_step, indexed_of, indexed_step,
    parse_compilation_unit, primary_path_of, unit_of, unit_step, vname_step, CompilationUnitView,
    FileInfoView, FileInputView, VNameView, HAS_COMPILE_ERRORS,
};
use crate::text::{
    ends_with, find_from, lemma_find, lossy_chars, lossy_string, occurs_at, utf8_string,
};
use crate::wire::{
    behind_value, field_at, fold_fields, lemma_field_bounds, lemma_varint_bounds, read_varint_at,
    skip_proto_field, varint_at, WireError, VARINT_MAX,
};

verus! {

// ------------------------------------------------------------------ proto

/// The payload of the first length-delimited field `target`, from `pos` on.
/// One that runs past the buffer is cut off there.
pub open spec fn found_field(buf: Seq<u8>, pos: nat, target: u32) -> Option<Seq<u8>>
    decreases buf.len() - pos,
{
    if pos >= buf.len() {
        None
    } else {
        match varint_at(buf, pos as int) {
            Err(_) => None,
            Ok((tag, p)) => {
                if (tag >> 3) as u32 == target && (tag & 0x7) as u8 == 2 {
                    match varint_at(buf, p) {
                        Err(_) => None,
                        Ok((len, start)) => if start + (len as usize) > usize::MAX {
                            None
                        } else if start + (len as usize) <= buf.len() {
                            Some(buf.subrange(start, start + (len as usize)))
                        } else {
                            Some(buf.skip(start))
                        },
                    }
                } else {
                    match behind_value(buf, p, (tag & 0x7) as u8) {
                        None => None,
                        Some(next) => {
                            proof {
                                lemma_varint_bounds(buf, pos as int, VARINT_MAX as nat);
                                lemma_varint_bounds(buf, p, VARINT_MAX as nat);
                            }
                            found_field(buf, next as nat, target)
                        },
                    }
                }
            },
        }
    }
}

/// The payload of the last length-delimited field `target`, from `pos` on, or
/// `acc` where there is none. One that runs past the buffer is cut off there,
/// and what is malformed ends the search.
pub open spec fn last_field(
    buf: Seq<u8>,
    pos: nat,
    target: u32,
    acc: Option<Seq<u8>>,
) -> Option<Seq<u8>>
    decreases buf.len() - pos,
{
    if pos >= buf.len() {
        acc
    } else {
        match varint_at(buf, pos as int) {
            Err(_) => acc,
            Ok((tag, p)) => {
                proof {
                    lemma_varint_bounds(buf, pos as int, VARINT_MAX as nat);
                    lemma_varint_bounds(buf, p, VARINT_MAX as nat);
                }
                if (tag >> 3) as u32 == target && (tag & 0x7) as u8 == 2 {
                    match varint_at(buf, p) {
                        Err(_) => acc,
                        Ok((len, start)) => {
                            let end = start + (len as usize);
                            if end > usize::MAX {
                                acc
                            } else if end <= buf.len() {
                                last_field(
                                    buf,
                                    end as nat,
                                    target,
                                    Some(buf.subrange(start, end)),
                                )
                            } else {
                                Some(buf.skip(start))
                            }
                        },
                    }
                } else {
                    match behind_value(buf, p, (tag & 0x7) as u8) {
                        None => acc,
                        Some(next) => last_field(buf, next as nat, target, acc),
                    }
                }
            },
        }
    }
}

/// The last field `target` of a message, where there is a message.
pub open spec fn part_of(message: Option<Seq<u8>>, target: u32) -> Option<Seq<u8>> {
    match message {
        Some(buf) => last_field(buf, 0, target, None),
        None => None,
    }
}

/// The text of a payload; empty where there is none.
pub open spec fn payload_text(data: Option<Seq<u8>>) -> Seq<char> {
    match data {
        Some(raw) => lossy_chars(raw),
        None => seq![],
    }
}

/// The primary path of an encoded unit: its first source file; or else the
/// path in the name of its first input, in the unit's own name, or of the
/// first input's file. Where there is none of these, the path is empty, if the
/// unit can be read at all.
pub open spec fn unit_path(unit: Seq<u8>) -> Option<Seq<char>> {
    let input = found_field(unit, 0, 3);
    let by_name = payload_text(part_of(part_of(input, 1), 4));
    let own = payload_text(part_of(part_of(Some(unit), 1), 4));
    let by_file = payload_text(part_of(part_of(input, 2), 1));
    match found_field(unit, 0, 6) {
        Some(source) => Some(lossy_chars(source)),
        None => if by_name.len() > 0 {
            Some(by_name)
        } else if own.len() > 0 {
            Some(own)
        } else if by_file.len() > 0 {
            Some(by_file)
        } else if unit_of(unit) is Ok {
            Some(seq![])
        } else {
            None
        },
    }
}

/// The primary path of a proto-encoded unit. Where no unit is found, or one
/// that cannot be read and shows no path, there is no answer.
pub open spec fn peeked_proto(buf: Seq<u8>) -> Option<Seq<char>> {
    match part_of(Some(buf), 1) {
        None => None,
        Some(unit) => unit_path(unit),
    }
}

/// Finds the payload of the first length-delimited field `target`.
fn find_field_ld_truncating(bytes: &[u8], target: u32) -> (r: Option<&[u8]>)
    ensures
        r matches Some(p) ==> found_field(bytes@, 0, target) == Some(p@),
        r is None ==> found_field(bytes@, 0, target) is None,
{
    let mut cur: usize = 0;
    while cur < bytes.len()
        invariant
            cur <= bytes@.len(),
            found_field(bytes@, cur as nat, target) == found_field(bytes@, 0, target),
        decreases bytes@.len() - cur,
    {
        let (tag, p) = match read_varint_at(bytes, cur) {
            Ok(t) => t,
            Err(_) => return None,
        };
        let field: u32 = (tag >> 3) as u32;
        let wire: u8 = (tag & 0x7) as u8;
        if field == target && wire == 2 {
            let (len, start) = match read_varint_at(bytes, p) {
                Ok(t) => t,
                Err(_) => return None,
            };
            let end: usize = match start.checked_add(len as usize) {
                Some(e) => e,
                None => return None,
            };
            if end <= bytes.len() {
                return Some(vstd::slice::slice_subrange(bytes, start, end));
            }
            let tail: &[u8] = vstd::slice::slice_subrange(bytes, start, bytes.len());
            proof {
                assert(tail@ =~= bytes@.skip(start as int));
            }
            return Some(tail);
        }
        cur = match skip_proto_field(bytes, p, wire) {
            Some(next) => next,
            None => return None,
        };
    }
    None
}

/// The bytes of a slice, where there is one.
spec fn opt_bytes(s: Option<&[u8]>) -> Option<Seq<u8>> {
    match s {
        Some(b) => Some(b@),
        None => None,
    }
}

/// Finds the payload of the last length-delimited field `target` of a message,
/// where there is a message.
fn find_last_field<'a>(message: Option<&'a [u8]>, target: u32) -> (r: Option<&'a [u8]>)
    ensures
        opt_bytes(r) == part_of(opt_bytes(message), target),
{
    let bytes: &'a [u8] = match message {
        Some(b) => b,
        None => return None,
    };
    let mut found: Option<&'a [u8]> = None;
    let mut cur: usize = 0;
    while cur < bytes.len()
        invariant
            cur <= bytes@.len(),
            message == Some(bytes),
            last_field(bytes@, cur as nat, target, opt_bytes(found)) == last_field(
                bytes@,
                0,
                target,
                None,
            ),
        decreases bytes@.len() - cur,
    {
        let (tag, p) = match read_varint_at(bytes, cur) {
            Ok(t) => t,
            Err(_) => return found,
        };
        let field: u32 = (tag >> 3) as u32;
        let wire: u8 = (tag & 0x7) as u8;
        if field == target && wire == 2 {
            let (len, start) = match read_varint_at(bytes, p) {
                Ok(t) => t,
                Err(_) => return found,
            };
            let end: usize = match start.checked_add(len as usize) {
                Some(e) => e,
                None => return found,
            };
            if end > bytes.len() {
                let tail: &'a [u8] = vstd::slice::slice_subrange(bytes, start, bytes.len());
                proof {
                    assert(tail@ =~= bytes@.skip(start as int));
                }
                return Some(tail);
            }
            found = Some(vstd::slice::slice_subrange(bytes, start, end));
            cur = end;
        } else {
            cur = match skip_proto_field(bytes, p, wire) {
                Some(next) => next,
                None => return found,
            };
        }
    }
    found
}

/// The text of a payload; empty where there is none.
fn text_in(data: Option<&[u8]>) -> (r: String)
    ensures
        r@ == payload_text(opt_bytes(data)),
{
    match data {
        Some(raw) => lossy_string(raw),
        None => {
            let r = String::new();
            proof {
                assert(r@ =~= payload_text(None));
            }
            r
        },
    }
}

/// Peeks into a proto-encoded unit.
fn peek_proto_primary_path(bytes: &[u8]) -> (r: Option<String>)
    ensures
        r matches Some(s) ==> peeked_proto(bytes@) == Some(s@),
        r is None ==> peeked_proto(bytes@) is None,
{
    let unit: &[u8] = match find_last_field(Some(bytes), 1) {
        Some(u) => u,
        None => return None,
    };
    if let Some(source) = find_field_ld_truncating(unit, 6) {
        return Some(lossy_string(source));
    }
    let input = find_field_ld_truncating(unit, 3);
    proof {
        assert(opt_bytes(input) == found_field(unit@, 0, 3));
    }
    let by_name = text_in(find_last_field(find_last_field(input, 1), 4));
    if !by_name.as_str().is_empty() {
        return Some(by_name);
    }
    let own = text_in(find_last_field(find_last_field(Some(unit), 1), 4));
    if !own.as_str().is_empty() {
        return Some(own);
    }
    let by_file = text_in(find_last_field(find_last_field(input, 2), 1));
    if !by_file.as_str().is_empty() {
        return Some(by_file);
    }
    match parse_compilation_unit(unit) {
        Ok(_) => {
            let none = String::new();
            proof {
                assert(none@ =~= Seq::<char>::empty());
            }
            Some(none)
        },
        Err(_) => None,
    }
}

// ------------------------------------------------------------------- JSON

/// ASCII white space.
pub open spec fn is_blank(b: u8) -> bool {
    b == 0x20 || b == 0x09 || b == 0x0a || b == 0x0c || b == 0x0d
}

/// The first position, at `p` or behind it, without white space.
pub open spec fn behind_blanks(buf: Seq<u8>, p: int) -> int
    decreases buf.len() - p,
{
    if 0 <= p < buf.len() && is_blank(buf[p]) {
        behind_blanks(buf, p + 1)
    } else {
        p
    }
}

/// The position of the quote that ends the string whose text is at `p`, where
/// a backslash takes the byte behind it along; the buffer's length where there
/// is none.
pub open spec fn closing_quote(buf: Seq<u8>, p: int) -> int
    decreases buf.len() - p,
{
    if p >= buf.len() {
        buf.len() as int
    } else if buf[p] == 0x22 {
        p
    } else if buf[p] == 0x5c && p + 1 < buf.len() {
        closing_quote(buf, p + 2)
    } else {
        closing_quote(buf, p + 1)
    }
}

/// The string that opens at `p`, with its escapes as they are written, and the
/// position behind it.
pub open spec fn quoted(buf: Seq<u8>, p: int) -> Option<(Seq<char>, int)> {
    let end = closing_quote(buf, p + 1);
    if p >= buf.len() || buf[p] != 0x22 || end >= buf.len() || !valid_utf8(
        buf.subrange(p + 1, end),
    ) {
        None
    } else {
        Some((decode_utf8(buf.subrange(p + 1, end)), end + 1))
    }
}

/// The position of the value behind a key that ends at `from`: behind the
/// colon and the white space round it.
pub open spec fn value_at(buf: Seq<u8>, from: int) -> Option<int> {
    let p = behind_blanks(buf, from);
    if p < buf.len() && buf[p] == 0x3a {
        Some(behind_blanks(buf, p + 1))
    } else {
        None
    }
}

/// The string value of a key that ends at `from`.
pub open spec fn string_value(buf: Seq<u8>, from: int) -> Option<(Seq<char>, int)> {
    match value_at(buf, from) {
        None => None,
        Some(p) => quoted(buf, p),
    }
}

/// The string behind the first `key`, or the first string of the list there.
pub open spec fn first_string_value(buf: Seq<u8>, key: Seq<u8>) -> Option<Seq<char>> {
    match find_from(buf, key, 0) {
        None => None,
        Some(at) => match value_at(buf, at + key.len()) {
            None => None,
            Some(p) => {
                let q = if p < buf.len() && buf[p] == 0x5b {
                    behind_blanks(buf, p + 1)
                } else {
                    p
                };
                match quoted(buf, q) {
                    None => None,
                    Some((s, _)) => Some(s),
                }
            },
        },
    }
}

/// The endings of source files.
pub open spec fn source_extensions() -> Seq<Seq<char>> {
    seq![
        ".cc"@,
        ".cpp"@,
        ".cxx"@,
        ".c++"@,
        ".c"@,
        ".m"@,
        ".mm"@,
        ".java"@,
        ".kt"@,
        ".go"@,
        ".rs"@,
        ".proto"@,
        ".textpb"@,
        ".textproto"@,
    ]
}

/// A path that ends as source files do.
pub open spec fn source_like(path: Seq<char>) -> bool {
    exists|i: int|
        0 <= i < source_extensions().len() && (#[trigger] source_extensions()[i]).is_suffix_of(path)
}

/// The key of every path, with its quotes.
pub open spec fn path_key() -> Seq<u8> {
    encode_utf8("\"path\""@)
}

/// The first path, from `cursor` on, that ends as source files do.
pub open spec fn first_source_path(buf: Seq<u8>, cursor: nat) -> Option<Seq<char>>
    decreases buf.len() - cursor,
{
    match find_from(buf, path_key(), cursor as int) {
        None => None,
        Some(at) => {
            let after = at + path_key().len();
            proof {
                lemma_find(buf, path_key(), cursor as int);
                lemma_path_key();
                lemma_string_value(buf, after);
            }
            match string_value(buf, after) {
                Some((path, end)) => if source_like(path) {
                    Some(path)
                } else {
                    first_source_path(buf, end as nat)
                },
                None => first_source_path(buf, after as nat),
            }
        },
    }
}

/// What looks like the primary path of a JSON-encoded unit: its first source
/// file, or else the first path in it that ends as source files do.
pub open spec fn peeked_json(buf: Seq<u8>) -> Option<Seq<char>> {
    match first_string_value(buf, encode_utf8("\"source_file\""@)) {
        Some(s) => Some(s),
        None => match first_string_value(buf, encode_utf8("\"sourceFile\""@)) {
            Some(s) => Some(s),
            None => first_source_path(buf, 0),
        },
    }
}

/// The key of every path is not empty.
pub proof fn lemma_path_key()
    ensures
        path_key().len() > 0,
{
    reveal_strlit("\"path\"");
    vstd::utf8::is_ascii_chars_encode_utf8("\"path\""@);
}

proof fn lemma_behind_blanks(buf: Seq<u8>, p: int)
    requires
        0 <= p,
    ensures
        p <= behind_blanks(buf, p),
        p <= buf.len() ==> behind_blanks(buf, p) <= buf.len(),
    decreases buf.len() - p,
{
    if p < buf.len() && is_blank(buf[p]) {
        lemma_behind_blanks(buf, p + 1);
    }
}

proof fn lemma_closing_quote(buf: Seq<u8>, p: int)
    requires
        0 <= p,
    ensures
        p <= buf.len() ==> p <= closing_quote(buf, p) <= buf.len(),
    decreases buf.len() - p,
{
    if p < buf.len() && buf[p] != 0x22 {
        if buf[p] == 0x5c && p + 1 < buf.len() {
            lemma_closing_quote(buf, p + 2);
        } else {
            lemma_closing_quote(buf, p + 1);
        }
    }
}

/// A string value ends behind its key, inside the buffer.
pub proof fn lemma_string_value(buf: Seq<u8>, from: int)
    requires
        0 <= from,
    ensures
        string_value(buf, from) matches Some((_, end)) ==> from < end <= buf.len(),
{
    lemma_behind_blanks(buf, from);
    let p = behind_blanks(buf, from);
    if p < buf.len() {
        lemma_behind_blanks(buf, p + 1);
        let q = behind_blanks(buf, p + 1);
        if q < buf.len() {
            lemma_closing_quote(buf, q + 1);
        }
    }
}

/// Finds `needle` in `hay`, from `from` on.
fn memmem(hay: &[u8], needle: &[u8], from: usize) -> (r: Option<usize>)
    requires
        from <= hay@.len(),
    ensures
        r matches Some(at) ==> find_from(hay@, needle@, from as int) == Some(at as int) && from
            <= at && at + needle@.len() <= hay@.len(),
        r is None ==> find_from(hay@, needle@, from as int) is None,
{
    if hay.len() < needle.len() {
        return None;
    }
    let last: usize = hay.len() - needle.len();
    let mut at: usize = from;
    while at <= last
        invariant
            from <= at,
            last + needle@.len() == hay@.len(),
            find_from(hay@, needle@, from as int) == find_from(hay@, needle@, at as int),
        decreases hay@.len() - at,
    {
        if bytes_at(hay, needle, at) {
            return Some(at);
        }
        if at == last {
            proof {
                assert(find_from(hay@, needle@, at + 1) is None);
            }
            return None;
        }
        at += 1;
    }
    None
}

/// Whether `needle` stands in `hay` at `at`.
fn bytes_at(hay: &[u8], needle: &[u8], at: usize) -> (r: bool)
    requires
        at + needle@.len() <= hay@.len(),
    ensures
        r == occurs_at(hay@, needle@, at as int),
{
    let end: usize = hay.len();
    let mut i: usize = 0;
    while i < needle.len()
        invariant
            i <= needle@.len(),
            at + needle@.len() <= hay@.len() == end,
            forall|j: int| 0 <= j < i ==> hay@[at + j] == needle@[j],
        decreases needle@.len() - i,
    {
        if hay[at + i] != needle[i] {
            proof {
                assert(hay@.subrange(at as int, at + needle@.len())[i as int] != needle@[i as int]);
            }
            return false;
        }
        i += 1;
    }
    proof {
        assert(hay@.subrange(at as int, at + needle@.len()) =~= needle@);
    }
    true
}

fn skip_blanks(bytes: &[u8], from: usize) -> (r: usize)
    requires
        from <= bytes@.len(),
    ensures
        r == behind_blanks(bytes@, from as int),
        from <= r <= bytes@.len(),
{
    let mut p: usize = from;
    while p < bytes.len() && (bytes[p] == 0x20 || bytes[p] == 0x09 || bytes[p] == 0x0a || bytes[p]
        == 0x0c || bytes[p] == 0x0d)
        invariant
            from <= p <= bytes@.len(),
            behind_blanks(bytes@, p as int) == behind_blanks(bytes@, from as int),
        decreases bytes@.len() - p,
    {
        p += 1;
    }
    p
}

/// Reads the string that opens at `p`.
fn take_quoted(bytes: &[u8], p: usize) -> (r: Option<(String, usize)>)
    requires
        p <= bytes@.len(),
    ensures
        r matches Some((s, end)) ==> quoted(bytes@, p as int) == Some((s@, end as int)) && p < end
            <= bytes@.len(),
        r is None ==> quoted(bytes@, p as int) is None,
{
    if p >= bytes.len() || bytes[p] != 0x22 {
        return None;
    }
    let start: usize = p + 1;
    let mut q: usize = start;
    while q < bytes.len() && bytes[q] != 0x22
        invariant
            start <= q <= bytes@.len(),
            closing_quote(bytes@, q as int) == closing_quote(bytes@, start as int),
        decreases bytes@.len() - q,
    {
        if bytes[q] == 0x5c && bytes.len() - q > 1 {
            q += 2;
        } else {
            q += 1;
        }
    }
    if q >= bytes.len() {
        return None;
    }
    match utf8_string(vstd::slice::slice_subrange(bytes, start, q)) {
        Some(s) => Some((s, q + 1)),
        None => None,
    }
}

/// The position of the value behind a key that ends at `from`.
fn find_value(bytes: &[u8], from: usize) -> (r: Option<usize>)
    requires
        from <= bytes@.len(),
    ensures
        r matches Some(p) ==> value_at(bytes@, from as int) == Some(p as int) && from < p
            <= bytes@.len(),
        r is None ==> value_at(bytes@, from as int) is None,
{
    let p: usize = skip_blanks(bytes, from);
    if p < bytes.len() && bytes[p] == 0x3a {
        Some(skip_blanks(bytes, p + 1))
    } else {
        None
    }
}

/// Reads the string value of a key that ends at `from`.
fn json_take_string_value(bytes: &[u8], from: usize) -> (r: Option<(String, usize)>)
    requires
        from <= bytes@.len(),
    ensures
        r matches Some((s, end)) ==> string_value(bytes@, from as int) == Some((s@, end as int))
            && from < end <= bytes@.len(),
        r is None ==> string_value(bytes@, from as int) is None,
{
    match find_value(bytes, from) {
        Some(p) => take_quoted(bytes, p),
        None => None,
    }
}

/// Reads the string behind the first `key`, or the first string of the list
/// there.
fn json_first_value_string_or_list(bytes: &[u8], key: &[u8]) -> (r: Option<String>)
    ensures
        r matches Some(s) ==> first_string_value(bytes@, key@) == Some(s@),
        r is None ==> first_string_value(bytes@, key@) is None,
{
    let at: usize = match memmem(bytes, key, 0) {
        Some(at) => at,
        None => return None,
    };
    let size: usize = bytes.len();
    proof {
        assert(at + key@.len() <= size);
    }
    let mut p: usize = match find_value(bytes, at + key.len()) {
        Some(p) => p,
        None => return None,
    };
    if p < bytes.len() && bytes[p] == 0x5b {
        p = skip_blanks(bytes, p + 1);
    }
    match take_quoted(bytes, p) {
        Some((s, _)) => Some(s),
        None => None,
    }
}

/// Whether a path ends as source files do.
fn is_source_extension(path: &str) -> (r: bool)
    ensures
        r == source_like(path@),
{
    let exts: [&str; 14] = [
        ".cc",
        ".cpp",
        ".cxx",
        ".c++",
        ".c",
        ".m",
        ".mm",
        ".java",
        ".kt",
        ".go",
        ".rs",
        ".proto",
        ".textpb",
        ".textproto",
    ];
    let mut i: usize = 0;
    proof {
        assert(forall|j: int| 0 <= j < 14 ==> (#[trigger] exts@[j])@ == source_extensions()[j]);
    }
    while i < 14
        invariant
            i <= 14,
            forall|j: int| 0 <= j < 14 ==> (#[trigger] exts@[j])@ == source_extensions()[j],
            forall|j: int| 0 <= j < i ==> !(#[trigger] source_extensions()[j]).is_suffix_of(path@),
        decreases 14 - i,
    {
        if ends_with(path, exts[i]) {
            proof {
                assert(exts@[i as int]@ == source_extensions()[i as int]);
            }
            return true;
        }
        proof {
            assert(exts@[i as int]@ == source_extensions()[i as int]);
        }
        i += 1;
    }
    false
}

/// Peeks into a JSON-encoded unit.
fn peek_json_primary_path(bytes: &[u8]) -> (r: Option<String>)
    ensures
        r matches Some(s) ==> peeked_json(bytes@) == Some(s@),
        r is None ==> peeked_json(bytes@) is None,
{
    if let Some(s) = json_first_value_string_or_list(bytes, "\"source_file\"".as_bytes()) {
        return Some(s);
    }
    if let Some(s) = json_first_value_string_or_list(bytes, "\"sourceFile\"".as_bytes()) {
        return Some(s);
    }
    let key: &[u8] = "\"path\"".as_bytes();
    let size: usize = bytes.len();
    let mut cursor: usize = 0;
    loop
        invariant
            cursor <= bytes@.len() == size,
            key@ == path_key(),
            first_source_path(bytes@, cursor as nat) == first_source_path(bytes@, 0),
            peeked_json(bytes@) == first_source_path(bytes@, 0),
        decreases bytes@.len() - cursor,
    {
        proof {
            lemma_path_key();
        }
        let at: usize = match memmem(bytes, key, cursor) {
            Some(at) => at,
            None => return None,
        };
        proof {
            assert(at + key@.len() <= size);
        }
        let after: usize = at + key.len();
        match json_take_string_value(bytes, after) {
            Some((path, end)) => {
                if is_source_extension(path.as_str()) {
                    return Some(path);
                }
                cursor = end;
            },
            None => {
                cursor = after;
            },
        }
    }
}

/// The primary path that a peek finds in an encoded unit.
pub open spec fn peeked(buf: Seq<u8>, is_proto: bool) -> Option<Seq<char>> {
    if is_proto {
        peeked_proto(buf)
    } else {
        peeked_json(buf)
    }
}

/// Peeks into an encoded unit for its primary path. The empty path stands for
/// a unit that has none; `None` says that the unit has to be decoded.
pub fn peek_primary_path(bytes: &[u8], is_proto: bool) -> (r: Option<String>)
    ensures
        r matches Some(s) ==> peeked(bytes@, is_proto) == Some(s@),
        r is None ==> peeked(bytes@, is_proto) is None,
{
    if is_proto {
        peek_proto_primary_path(bytes)
    } else {
        peek_json_primary_path(bytes)
    }
}

// ------------------------------------------------------------------- laws

/// In a message that reads to its end, a search comes to the same field next
/// as the decoder does.
proof fn lemma_search_step(
    buf: Seq<u8>,
    pos: nat,
    flag: Option<u32>,
    target: u32,
    acc: Option<Seq<u8>>,
)
    requires
        pos < buf.len(),
        field_at(buf, pos as int, flag) is Ok,
    ensures
        ({
            let (field, wire, start, end) = field_at(buf, pos as int, flag)->Ok_0;
            let hit = field == target && wire == 2;
            let data = buf.subrange(start, end);
            &&& pos < end <= buf.len()
            &&& last_field(buf, pos, target, acc) == last_field(
                buf,
                end as nat,
                target,
                if hit {
                    Some(data)
                } else {
                    acc
                },
            )
            &&& found_field(buf, pos, target) == (if hit {
                Some(data)
            } else {
                found_field(buf, end as nat, target)
            })
        }),
{
    lemma_field_bounds(buf, pos as int, flag);
}

/// The path of a decoded name is the text of its last path field.
proof fn lemma_name_path(buf: Seq<u8>, pos: nat, acc: VNameView, seen: Option<Seq<u8>>)
    requires
        fold_fields(buf, pos, None, acc, vname_step()) is Ok,
        acc.path == payload_text(seen),
    ensures
        fold_fields(buf, pos, None, acc, vname_step())->Ok_0.path == payload_text(
            last_field(buf, pos, 4, seen),
        ),
    decreases buf.len() - pos,
{
    if pos < buf.len() {
        let (field, _, start, end) = field_at(buf, pos as int, None)->Ok_0;
        lemma_search_step(buf, pos, None, 4, seen);
        let data = buf.subrange(start, end);
        let next = vname_step()(acc, field, data)->Ok_0;
        lemma_name_path(
            buf,
            end as nat,
            next,
            if field == 4 {
                Some(data)
            } else {
                seen
            },
        );
    }
}

/// The path of a decoded file is the text of its last path field.
proof fn lemma_file_path(buf: Seq<u8>, pos: nat, acc: FileInfoView, seen: Option<Seq<u8>>)
    requires
        fold_fields(buf, pos, None, acc, file_info_step()) is Ok,
        acc.path == payload_text(seen),
    ensures
        fold_fields(buf, pos, None, acc, file_info_step())->Ok_0.path == payload_text(
            last_field(buf, pos, 1, seen),
        ),
    decreases buf.len() - pos,
{
    if pos < buf.len() {
        let (field, _, start, end) = field_at(buf, pos as int, None)->Ok_0;
        lemma_search_step(buf, pos, None, 1, seen);
        let data = buf.subrange(start, end);
        let next = file_info_step()(acc, field, data)->Ok_0;
        lemma_file_path(
            buf,
            end as nat,
            next,
            if field == 1 {
                Some(data)
            } else {
                seen
            },
        );
    }
}

/// The paths of a decoded input are those of its last name and its last file.
proof fn lemma_input_paths(
    buf: Seq<u8>,
    pos: nat,
    acc: FileInputView,
    name: Option<Seq<u8>>,
    info: Option<Seq<u8>>,
)
    requires
        fold_fields(buf, pos, None, acc, file_input_step()) is Ok,
        acc.v_name.path == payload_text(part_of(name, 4)),
        acc.info.path == payload_text(part_of(info, 1)),
    ensures
        fold_fields(buf, pos, None, acc, file_input_step())->Ok_0.v_name.path == payload_text(
            part_of(last_field(buf, pos, 1, name), 4),
        ),
        fold_fields(buf, pos, None, acc, file_input_step())->Ok_0.info.path == payload_text(
            part_of(last_field(buf, pos, 2, info), 1),
        ),
    decreases buf.len() - pos,
{
    if pos < buf.len() {
        let (field, _, start, end) = field_at(buf, pos as int, None)->Ok_0;
        lemma_search_step(buf, pos, None, 1, name);
        lemma_search_step(buf, pos, None, 2, info);
        let data = buf.subrange(start, end);
        let next = file_input_step()(acc, field, data)->Ok_0;
        if field == 1 {
            lemma_name_path(data, 0, VNameView::empty(), None);
            lemma_input_paths(buf, end as nat, next, Some(data), info);
        } else if field == 2 {
            lemma_file_path(data, 0, FileInfoView::empty(), None);
            lemma_input_paths(buf, end as nat, next, name, Some(data));
        } else {
            lemma_input_paths(buf, end as nat, next, name, info);
        }
    }
}

/// The path of a decoded unit's own name is that of its last name.
proof fn lemma_own_path(buf: Seq<u8>, pos: nat, acc: CompilationUnitView, name: Option<Seq<u8>>)
    requires
        fold_fields(buf, pos, Some(HAS_COMPILE_ERRORS), acc, unit_step()) is Ok,
        acc.v_name.path == payload_text(part_of(name, 4)),
    ensures
        fold_fields(buf, pos, Some(HAS_COMPILE_ERRORS), acc, unit_step())->Ok_0.v_name.path
            == payload_text(part_of(last_field(buf, pos, 1, name), 4)),
    decreases buf.len() - pos,
{
    if pos < buf.len() {
        let (field, wire, start, end) = field_at(buf, pos as int, Some(HAS_COMPILE_ERRORS))->Ok_0;
        lemma_search_step(buf, pos, Some(HAS_COMPILE_ERRORS), 1, name);
        let data = buf.subrange(start, end);
        if wire != 2 {
            lemma_own_path(buf, end as nat, acc, name);
        } else {
            let next = unit_step()(acc, field, data)->Ok_0;
            if field == 1 {
                lemma_name_path(data, 0, VNameView::empty(), None);
                lemma_own_path(buf, end as nat, next, Some(data));
            } else {
                lemma_own_path(buf, end as nat, next, name);
            }
        }
    }
}

/// The first source file of a decoded unit is its first such field.
proof fn lemma_first_source(buf: Seq<u8>, pos: nat, acc: CompilationUnitView)
    requires
        fold_fields(buf, pos, Some(HAS_COMPILE_ERRORS), acc, unit_step()) is Ok,
    ensures
        ({
            let unit = fold_fields(buf, pos, Some(HAS_COMPILE_ERRORS), acc, unit_step())->Ok_0;
            let list = unit.source_file;
            &&& acc.source_file.len() > 0 ==> list.len() > 0 && list[0] == acc.source_file[0]
            &&& acc.source_file.len() == 0 ==> match found_field(buf, pos, 6) {
                Some(data) => list.len() > 0 && list[0] == lossy_chars(data),
                None => list.len() == 0,
            }
        }),
    decreases buf.len() - pos,
{
    if pos < buf.len() {
        let (field, wire, start, end) = field_at(buf, pos as int, Some(HAS_COMPILE_ERRORS))->Ok_0;
        lemma_search_step(buf, pos, Some(HAS_COMPILE_ERRORS), 6, None);
        let data = buf.subrange(start, end);
        if wire != 2 {
            lemma_first_source(buf, end as nat, acc);
        } else {
            let next = unit_step()(acc, field, data)->Ok_0;
            lemma_first_source(buf, end as nat, next);
        }
    }
}

/// The first input of a decoded unit is its first such field.
proof fn lemma_first_input(buf: Seq<u8>, pos: nat, acc: CompilationUnitView)
    requires
        fold_fields(buf, pos, Some(HAS_COMPILE_ERRORS), acc, unit_step()) is Ok,
    ensures
        ({
            let unit = fold_fields(buf, pos, Some(HAS_COMPILE_ERRORS), acc, unit_step())->Ok_0;
            let list = unit.required_input;
            &&& acc.required_input.len() > 0 ==> list.len() > 0 && list[0] == acc.required_input[0]
            &&& acc.required_input.len() == 0 ==> match found_field(buf, pos, 3) {
                Some(data) => list.len() > 0 && file_input_of(data) == Ok::<
                    FileInputView,
                    WireError,
                >(list[0]),
                None => list.len() == 0,
            }
        }),
    decreases buf.len() - pos,
{
    if pos < buf.len() {
        let (field, wire, start, end) = field_at(buf, pos as int, Some(HAS_COMPILE_ERRORS))->Ok_0;
        lemma_search_step(buf, pos, Some(HAS_COMPILE_ERRORS), 3, None);
        let data = buf.subrange(start, end);
        if wire != 2 {
            lemma_first_input(buf, end as nat, acc);
        } else {
            let next = unit_step()(acc, field, data)->Ok_0;
            lemma_first_input(buf, end as nat, next);
        }
    }
}

/// The unit that is decoded is the last one.
proof fn lemma_last_unit(buf: Seq<u8>, pos: nat, acc: CompilationUnitView, seen: Option<Seq<u8>>)
    requires
        fold_fields(buf, pos, None, acc, indexed_step()) is Ok,
        seen matches Some(unit) ==> unit_of(unit) == Ok::<CompilationUnitView, WireError>(acc),
    ensures
        last_field(buf, pos, 1, seen) matches Some(unit) ==> unit_of(unit) == fold_fields(
            buf,
            pos,
            None,
            acc,
            indexed_step(),
        ),
    decreases buf.len() - pos,
{
    if pos < buf.len() {
        let (field, _, start, end) = field_at(buf, pos as int, None)->Ok_0;
        lemma_search_step(buf, pos, None, 1, seen);
        let data = buf.subrange(start, end);
        let next = indexed_step()(acc, field, data)->Ok_0;
        lemma_last_unit(
            buf,
            end as nat,
            next,
            if field == 1 {
                Some(data)
            } else {
                seen
            },
        );
    }
}

/// What a peek into a proto-encoded unit finds is the path that decoding the
/// unit gives, whatever bytes they are; where the unit has none, it is empty.
/// A peek finds something wherever it finds a unit.
pub proof fn lemma_peek_agrees(buf: Seq<u8>)
    requires
        indexed_of(buf) is Ok,
    ensures
        peeked(buf, true) matches Some(p) ==> p == (match primary_path_of(indexed_of(buf)->Ok_0) {
            Some(path) => path,
            None => seq![],
        }),
        peeked(buf, true) is Some <==> part_of(Some(buf), 1) is Some,
{
    let empty = CompilationUnitView::empty();
    lemma_last_unit(buf, 0, empty, None);
    if let Some(unit) = part_of(Some(buf), 1) {
        let c = indexed_of(buf)->Ok_0;
        assert(unit_of(unit) == Ok::<CompilationUnitView, WireError>(c));
        lemma_first_source(unit, 0, empty);
        lemma_first_input(unit, 0, empty);
        lemma_own_path(unit, 0, empty, None);
        if let Some(input) = found_field(unit, 0, 3) {
            lemma_input_paths(input, 0, FileInputView::empty(), None, None);
        }
    }
}


// ------------------------------------------- what a peek into JSON is for

/// `buf[lo..hi]` is ASCII white space.
pub open spec fn blanks(buf: Seq<u8>, lo: int, hi: int) -> bool {
    forall|i: int|
        lo <= i < hi ==> (#[trigger] buf[i] == 0x20 || buf[i] == 0x09 || buf[i] == 0x0a || buf[i]
            == 0x0c || buf[i] == 0x0d)
}

/// A string without escapes stands between the quotes at `open` and `close`.
pub open spec fn string_between(buf: Seq<u8>, open: int, close: int) -> bool {
    &&& 0 <= open < close < buf.len()
    &&& buf[open] == 0x22
    &&& buf[close] == 0x22
    &&& forall|i: int| open < i < close ==> #[trigger] buf[i] != 0x22 && buf[i] != 0x5c
    &&& valid_utf8(buf.subrange(open + 1, close))
}

/// `key` stands in `buf` at `at` and nowhere before.
pub open spec fn first_at(buf: Seq<u8>, key: Seq<u8>, at: int) -> bool {
    &&& 0 <= at
    &&& at + key.len() <= buf.len()
    &&& buf.subrange(at, at + key.len()) == key
    &&& forall|j: int|
        0 <= j < at && j + key.len() <= buf.len() ==> #[trigger] buf.subrange(j, j + key.len())
            != key
}

proof fn lemma_blanks_passed(buf: Seq<u8>, lo: int, hi: int)
    requires
        0 <= lo <= hi < buf.len(),
        blanks(buf, lo, hi),
        !is_blank(buf[hi]),
    ensures
        behind_blanks(buf, lo) == hi,
    decreases hi - lo,
{
    if lo < hi {
        assert(is_blank(buf[lo]));
        lemma_blanks_passed(buf, lo + 1, hi);
    }
}

proof fn lemma_quote_closed(buf: Seq<u8>, p: int, close: int)
    requires
        0 <= p <= close < buf.len(),
        buf[close] == 0x22,
        forall|i: int| p <= i < close ==> #[trigger] buf[i] != 0x22 && buf[i] != 0x5c,
    ensures
        closing_quote(buf, p) == close,
    decreases close - p,
{
    if p < close {
        lemma_quote_closed(buf, p + 1, close);
    }
}

/// The value of a key: behind the first place of the key, a colon and white
/// space, a string gives its text, and so does the first string of a list.
pub proof fn lemma_first_string_is(
    buf: Seq<u8>,
    key: Seq<u8>,
    at: int,
    colon: int,
    bracket: int,
    open: int,
    close: int,
)
    requires
        first_at(buf, key, at),
        at + key.len() <= colon < bracket <= open,
        buf[colon] == 0x3a,
        string_between(buf, open, close),
        blanks(buf, (at + key.len()) as int, colon),
        blanks(buf, colon + 1, bracket),
        bracket == open || (buf[bracket] == 0x5b && blanks(buf, bracket + 1, open)),
    ensures
        first_string_value(buf, key) == Some(decode_utf8(buf.subrange(open + 1, close))),
{
    let from = (at + key.len()) as int;
    assert forall|j: int| 0 <= j < at implies !occurs_at(buf, key, j) by {
        if occurs_at(buf, key, j) {
            assert(buf.subrange(j, j + key.len()) != key);
        }
    }
    assert(occurs_at(buf, key, at));
    crate::text::lemma_find_is(buf, key, 0, at);
    lemma_blanks_passed(buf, from, colon);
    lemma_blanks_passed(buf, colon + 1, bracket);
    if bracket < open {
        lemma_blanks_passed(buf, bracket + 1, open);
    }
    lemma_quote_closed(buf, open + 1, close);
}

/// A peek into JSON gives the first source file: the string, or the first
/// string of the list, behind the key `source_file`, or, where that gives
/// nothing, behind `sourceFile`.
pub proof fn lemma_peeked_source_file(buf: Seq<u8>)
    ensures
        first_string_value(buf, encode_utf8("\"source_file\""@)) is Some ==> peeked(buf, false)
            == first_string_value(buf, encode_utf8("\"source_file\""@)),
        first_string_value(buf, encode_utf8("\"source_file\""@)) is None && first_string_value(
            buf,
            encode_utf8("\"sourceFile\""@),
        ) is Some ==> peeked(buf, false) == first_string_value(
            buf,
            encode_utf8("\"sourceFile\""@),
        ),
        first_string_value(buf, encode_utf8("\"source_file\""@)) is None && first_string_value(
            buf,
            encode_utf8("\"sourceFile\""@),
        ) is None ==> peeked(buf, false) == first_source_path(buf, 0),
{
}

/// Without such a key, a peek goes by the values of `path`: from the first
/// place of the key on, the first string that ends as source files do is it.
pub proof fn lemma_peeked_source_path(buf: Seq<u8>, cursor: nat, at: int)
    requires
        cursor <= at,
        occurs_at(buf, encode_utf8("\"path\""@), at),
        forall|j: int| cursor <= j < at ==> !occurs_at(buf, encode_utf8("\"path\""@), j),
    ensures
        ({
            let after = at + encode_utf8("\"path\""@).len();
            &&& string_value(buf, after) matches Some((path, end)) ==> {
                &&& source_like(path) ==> first_source_path(buf, cursor) == Some(path)
                &&& !source_like(path) ==> first_source_path(buf, cursor) == first_source_path(
                    buf,
                    end as nat,
                )
            }
            &&& string_value(buf, after) is None ==> first_source_path(buf, cursor)
                == first_source_path(buf, after as nat)
        }),
{
    crate::text::lemma_find_is(buf, encode_utf8("\"path\""@), cursor as int, at);
}

/// Which paths end as source files do: those with one of these endings.
pub proof fn lemma_source_like_is(path: Seq<char>)
    ensures
        source_like(path) <==> (".cc"@.is_suffix_of(path) || ".cpp"@.is_suffix_of(path)
            || ".cxx"@.is_suffix_of(path) || ".c++"@.is_suffix_of(path) || ".c"@.is_suffix_of(path)
            || ".m"@.is_suffix_of(path) || ".mm"@.is_suffix_of(path) || ".java"@.is_suffix_of(path)
            || ".kt"@.is_suffix_of(path) || ".go"@.is_suffix_of(path) || ".rs"@.is_suffix_of(path)
            || ".proto"@.is_suffix_of(path) || ".textpb"@.is_suffix_of(path)
            || ".textproto"@.is_suffix_of(path)),
{
    let e = source_extensions();
    assert(e.len() == 14);
    assert(e[0] == ".cc"@ && e[1] == ".cpp"@ && e[2] == ".cxx"@ && e[3] == ".c++"@ && e[4]
        == ".c"@ && e[5] == ".m"@ && e[6] == ".mm"@);
    assert(e[7] == ".java"@ && e[8] == ".kt"@ && e[9] == ".go"@ && e[10] == ".rs"@ && e[11]
        == ".proto"@ && e[12] == ".textpb"@ && e[13] == ".textproto"@);
    if source_like(path) {
        let i = choose|i: int| 0 <= i < e.len() && (#[trigger] e[i]).is_suffix_of(path);
        assert(e[i].is_suffix_of(path));
    }
}

/// What a peek does by its kind.
pub proof fn lemma_peeked_is(buf: Seq<u8>)
    ensures
        peeked(buf, true) == (match part_of(Some(buf), 1) {
            Some(unit) => unit_path(unit),
            None => None,
        }),
        peeked(buf, false) == peeked_json(buf),
{
}

} // verus!
