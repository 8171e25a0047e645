//! The names that people type, as Kythe's entries carry them.
//!
//! Java, JVM and Go name a node by a `/kythe/edge/named` edge, whose target's
//! signature is the qualified name, for methods with a JVM descriptor behind
//! it. C++ has a `MarkedSource` message under the fact `/kythe/code`, which is
//! rendered to a name like `android::Parcel::writeStrongBinder`.

use vstd::prelude::*;

use crate::text::{
    behind_last, chars_of, end_without, find_class, find_last_class, first_of, join, join_with,
    lemma_first_of, lemma_texts_push, lossy_chars, lossy_string, same, split_chars, string_of,
    texts, trim_end, Class,
};
use crate::wire::{
    behind_value, lemma_varint_bounds, lemma_varint_bytes_len, lemma_varint_extends,
    lemma_varint_round_trip, read_varint_at, skip_proto_field, varint_at, varint_bytes, WireError,
    VARINT_MAX,
};

verus! {

// ----------------------------------------------------------------- edges

/// An edge kind that names a node: `/kythe/edge/named`, with an ordinal behind
/// a dot or without.
pub open spec fn named_edge(kind: Seq<char>) -> bool {
    kind.take(first_of(kind, Class::Only('.'), 0)) == "/kythe/edge/named"@
}

/// Whether an edge of this kind names a node.
pub fn is_named_edge(kind: &str) -> (r: bool)
    ensures
        r == named_edge(kind@),
{
    let c = chars_of(kind);
    let dot: usize = find_class(c.as_slice(), Class::Only('.'), 0);
    same(split_chars(kind, dot).0, "/kythe/edge/named")
}

// ---------------------------------------------------------- MarkedSource

/// One field of a message, of any wire type: its number, its wire type, and
/// where its value starts and ends.
pub open spec fn any_field(buf: Seq<u8>, pos: int) -> Option<(u32, u8, int, int)> {
    match varint_at(buf, pos) {
        Err(_) => None,
        Ok((tag, p)) => {
            let wire = (tag & 0x7) as u8;
            match behind_value(buf, p, wire) {
                None => None,
                Some(end) => {
                    let start = if wire == 2 {
                        varint_at(buf, p)->Ok_0.1
                    } else {
                        p
                    };
                    Some(((tag >> 3) as u32, wire, start, end))
                },
            }
        },
    }
}

/// A field lies inside the buffer, behind its tag.
pub proof fn lemma_any_field(buf: Seq<u8>, pos: int)
    requires
        0 <= pos <= buf.len(),
    ensures
        any_field(buf, pos) matches Some((_, _, start, end)) ==> pos < start <= end <= buf.len(),
{
    lemma_varint_bounds(buf, pos, VARINT_MAX as nat);
    if let Ok((_, p)) = varint_at(buf, pos) {
        lemma_varint_bounds(buf, p, VARINT_MAX as nat);
    }
}

/// Reads one field of a message, of any wire type.
fn read_proto_field(buf: &[u8], pos: usize) -> (r: Option<(u32, u8, usize, usize)>)
    requires
        pos <= buf@.len(),
    ensures
        r matches Some((field, wire, start, end)) ==> any_field(buf@, pos as int) == Some(
            (field, wire, start as int, end as int),
        ) && pos < start <= end <= buf@.len(),
        r is None ==> any_field(buf@, pos as int) is None,
{
    let (tag, p) = match read_varint_at(buf, pos) {
        Ok(t) => t,
        Err(_) => return None,
    };
    let wire: u8 = (tag & 0x7) as u8;
    let end: usize = match skip_proto_field(buf, p, wire) {
        Some(e) => e,
        None => return None,
    };
    let start: usize = if wire == 2 {
        match read_varint_at(buf, p) {
            Ok((_, s)) => s,
            Err(_) => return None,
        }
    } else {
        p
    };
    proof {
        lemma_any_field(buf@, pos as int);
    }
    Some(((tag >> 3) as u32, wire, start, end))
}

/// What a `MarkedSource` message holds: the texts round its children, the
/// rendered children, and what stands between them.
#[verifier::ext_equal]
pub struct MarkedView {
    pub pre: Seq<char>,
    pub children: Seq<Seq<char>>,
    pub joiner: Seq<char>,
    pub post: Seq<char>,
    pub final_joiner: bool,
}

impl MarkedView {
    /// Nothing yet.
    pub open spec fn empty() -> MarkedView {
        MarkedView {
            pre: seq![],
            children: seq![],
            joiner: seq![],
            post: seq![],
            final_joiner: false,
        }
    }

    /// The message as text.
    pub open spec fn text(self) -> Seq<char> {
        let list = if self.children.len() == 0 {
            seq![]
        } else if self.final_joiner {
            join(self.children, self.joiner) + self.joiner
        } else {
            join(self.children, self.joiner)
        };
        self.pre + list + self.post
    }
}

/// What is left when the fields of a `MarkedSource` message from `pos` on have
/// been taken in. A child without text is passed over; a malformed field, of
/// the message itself or of a child at any depth, leaves nothing.
pub open spec fn marked_from(buf: Seq<u8>, pos: nat, acc: MarkedView) -> Option<MarkedView>
    decreases buf.len(), buf.len() - pos,
{
    if pos >= buf.len() {
        Some(acc)
    } else {
        match any_field(buf, pos as int) {
            None => None,
            Some((field, wire, start, end)) => {
                proof {
                    lemma_any_field(buf, pos as int);
                }
                let data = buf.subrange(start, end);
                if wire == 2 && field == 3 {
                    match marked_text(data) {
                        None => None,
                        Some(child) => {
                            let children = if child.len() == 0 {
                                acc.children
                            } else {
                                acc.children.push(child)
                            };
                            marked_from(buf, end as nat, MarkedView { children, ..acc })
                        },
                    }
                } else {
                    let next = if wire == 2 && field == 2 {
                        MarkedView { pre: lossy_chars(data), ..acc }
                    } else if wire == 2 && field == 4 {
                        MarkedView { joiner: lossy_chars(data), ..acc }
                    } else if wire == 2 && field == 5 {
                        MarkedView { post: lossy_chars(data), ..acc }
                    } else if wire == 0 && field == 10 {
                        MarkedView { final_joiner: varint_at(buf, start)->Ok_0.0 != 0, ..acc }
                    } else {
                        acc
                    };
                    marked_from(buf, end as nat, next)
                }
            },
        }
    }
}

/// A `MarkedSource` message as text, which may be empty; nothing where it is
/// malformed.
pub open spec fn marked_text(buf: Seq<u8>) -> Option<Seq<char>>
    decreases buf.len(), buf.len() + 1,
{
    match marked_from(buf, 0, MarkedView::empty()) {
        None => None,
        Some(m) => Some(m.text()),
    }
}

/// A `MarkedSource` message as text; nothing where it is malformed or empty.
pub open spec fn rendered(buf: Seq<u8>) -> Option<Seq<char>> {
    match marked_text(buf) {
        None => None,
        Some(text) => if text.len() == 0 {
            None
        } else {
            Some(text)
        },
    }
}

/// Renders a `MarkedSource` message.
fn render(buf: &[u8]) -> (r: Option<String>)
    ensures
        r matches Some(s) ==> marked_text(buf@) == Some(s@),
        r is None ==> marked_text(buf@) is None,
    decreases buf@.len(),
{
    let mut pre: String = String::new();
    let mut joiner: String = String::new();
    let mut post: String = String::new();
    let mut final_joiner: bool = false;
    let mut children: Vec<String> = Vec::new();
    let mut pos: usize = 0;
    let ghost mut acc = MarkedView::empty();
    proof {
        assert(texts(children@) =~= seq![]);
    }
    while pos < buf.len()
        invariant
            pos <= buf@.len(),
            acc == (MarkedView {
                pre: pre@,
                children: texts(children@),
                joiner: joiner@,
                post: post@,
                final_joiner,
            }),
            marked_from(buf@, pos as nat, acc) == marked_from(buf@, 0, MarkedView::empty()),
        decreases buf@.len() - pos,
    {
        let (field, wire, start, end) = match read_proto_field(buf, pos) {
            Some(f) => f,
            None => return None,
        };
        let data: &[u8] = vstd::slice::slice_subrange(buf, start, end);
        if wire == 2 && field == 2 {
            pre = lossy_string(data);
        } else if wire == 2 && field == 3 {
            let child = match render(data) {
                Some(c) => c,
                None => return None,
            };
            if !child.as_str().is_empty() {
                proof {
                    lemma_texts_push(children@, child);
                }
                children.push(child);
            }
        } else if wire == 2 && field == 4 {
            joiner = lossy_string(data);
        } else if wire == 2 && field == 5 {
            post = lossy_string(data);
        } else if wire == 0 && field == 10 {
            if let Ok((v, _)) = read_varint_at(buf, start) {
                final_joiner = v != 0;
            }
        }
        proof {
            acc = MarkedView {
                pre: pre@,
                children: texts(children@),
                joiner: joiner@,
                post: post@,
                final_joiner,
            };
        }
        pos = end;
    }
    let mut out: String = pre.clone();
    if children.len() > 0 {
        let list = join_with(&children, joiner.as_str());
        out.append(list.as_str());
        if final_joiner {
            out.append(joiner.as_str());
        }
    }
    out.append(post.as_str());
    proof {
        assert(out@ =~= acc.text());
    }
    Some(out)
}

/// The qualified name in a rendered declaration: its last word before the
/// parameters, without the colons that end it.
pub open spec fn qualified_name(full: Seq<char>) -> Option<Seq<char>> {
    let head = trim_end(full.take(first_of(full, Class::Only('('), 0)), Class::Space);
    let word = head.skip(behind_last(head, Class::Space, head.len() as int));
    let name = trim_end(word, Class::Only(':'));
    if name.len() == 0 {
        None
    } else {
        Some(name)
    }
}

/// The qualified name that a `MarkedSource` message says.
pub open spec fn marked_name(buf: Seq<u8>) -> Option<Seq<char>> {
    match rendered(buf) {
        None => None,
        Some(full) => qualified_name(full),
    }
}

/// Finds the qualified name in a rendered declaration.
fn name_in(full: &str) -> (r: Option<String>)
    ensures
        r matches Some(s) ==> qualified_name(full@) == Some(s@),
        r is None ==> qualified_name(full@) is None,
{
    let c = chars_of(full);
    let cut: usize = find_class(c.as_slice(), Class::Only('('), 0);
    let hi: usize = end_without(c.as_slice(), 0, cut, Class::Space);
    let ghost head = trim_end(full@.take(cut as int), Class::Space);
    proof {
        assert(full@.subrange(0, cut as int) =~= full@.take(cut as int));
        assert(head =~= c@.subrange(0, hi as int));
    }
    let h = string_of(c.as_slice(), 0, hi);
    let hc = chars_of(h.as_str());
    let lo: usize = find_last_class(hc.as_slice(), Class::Space, hc.len());
    let end: usize = end_without(hc.as_slice(), lo, hc.len(), Class::Only(':'));
    proof {
        assert(hc@.subrange(lo as int, hc@.len() as int) =~= head.skip(lo as int));
    }
    if lo == end {
        proof {
            assert(hc@.subrange(lo as int, end as int).len() == 0);
        }
        None
    } else {
        Some(string_of(hc.as_slice(), lo, end))
    }
}

/// Renders a `MarkedSource` message to a qualified name like
/// `android::Parcel::writeStrongBinder`. There is none where the message is
/// malformed, itself or in a child, or has no text.
pub fn parse_marked_source_fqn(buf: &[u8]) -> (r: Option<String>)
    ensures
        r matches Some(s) ==> marked_name(buf@) == Some(s@),
        r is None ==> marked_name(buf@) is None,
{
    match render(buf) {
        None => None,
        Some(full) => if full.as_str().is_empty() {
            None
        } else {
            name_in(full.as_str())
        },
    }
}

// -------------------------------------------------------- JVM descriptors

/// The characters of JVM type descriptors.
pub open spec fn jvm_type_char(c: char) -> bool {
    ||| 'a' <= c <= 'z'
    ||| 'A' <= c <= 'Z'
    ||| '0' <= c <= '9'
    ||| c == ';'
    ||| c == '['
    ||| c == '/'
    ||| c == '$'
    ||| c == '_'
}

/// `sig[lo..hi]` consists of such characters.
pub open spec fn jvm_types(sig: Seq<char>, lo: int, hi: int) -> bool {
    forall|i: int| lo <= i < hi ==> jvm_type_char(#[trigger] sig[i])
}

/// A signature without the method descriptor at its end, where it has one: the
/// last parenthesis that opens, types, the first that closes behind it, and
/// the return type.
pub open spec fn without_descriptor(sig: Seq<char>) -> Option<Seq<char>> {
    let open = behind_last(sig, Class::Only('('), sig.len() as int) - 1;
    let close = first_of(sig, Class::Only(')'), open);
    if open < 0 || close >= sig.len() || !jvm_types(sig, open + 1, close) || close + 1 >= sig.len()
        || !jvm_types(sig, close + 1, sig.len() as int) {
        None
    } else {
        Some(sig.take(open))
    }
}

fn is_jvm_type_char(c: char) -> (r: bool)
    ensures
        r == jvm_type_char(c),
{
    ('a' <= c && c <= 'z') || ('A' <= c && c <= 'Z') || ('0' <= c && c <= '9') || c == ';' || c
        == '[' || c == '/' || c == '$' || c == '_'
}

fn all_jvm_types(sig: &[char], lo: usize, hi: usize) -> (r: bool)
    requires
        hi <= sig@.len(),
    ensures
        r == jvm_types(sig@, lo as int, hi as int),
{
    let mut i: usize = lo;
    while i < hi
        invariant
            lo <= i,
            hi <= sig@.len(),
            forall|j: int| lo <= j < i ==> jvm_type_char(#[trigger] sig@[j]),
        decreases hi - i,
    {
        if !is_jvm_type_char(sig[i]) {
            return false;
        }
        i += 1;
    }
    true
}

/// Strips the method descriptor from the end of a JVM signature, where it has
/// one: `...clearCallingIdentity()J` becomes `...clearCallingIdentity`.
pub fn strip_jvm_method_descriptor(sig: &str) -> (r: Option<&str>)
    ensures
        r matches Some(s) ==> without_descriptor(sig@) == Some(s@),
        r is None ==> without_descriptor(sig@) is None,
{
    let c = chars_of(sig);
    let behind: usize = find_last_class(c.as_slice(), Class::Only('('), c.len());
    if behind == 0 {
        return None;
    }
    let open: usize = behind - 1;
    let close: usize = find_class(c.as_slice(), Class::Only(')'), open);
    if close >= c.len() || !all_jvm_types(c.as_slice(), open + 1, close) {
        return None;
    }
    if close + 1 >= c.len() || !all_jvm_types(c.as_slice(), close + 1, c.len()) {
        return None;
    }
    Some(split_chars(sig, open).0)
}

// ----------------------------------------------------------------- base64

/// The characters that base64 text may hold without meaning anything: padding
/// and white space.
pub open spec fn base64_filler(c: char) -> bool {
    c == '=' || c == '\n' || c == '\r' || c == ' ' || c == '\t'
}

/// The six bits that a base64 character stands for.
pub open spec fn sextet(c: char) -> Option<u8> {
    if 'A' <= c <= 'Z' {
        Some((c as u8 - 'A' as u8) as u8)
    } else if 'a' <= c <= 'z' {
        Some((c as u8 - 'a' as u8 + 26) as u8)
    } else if '0' <= c <= '9' {
        Some((c as u8 - '0' as u8 + 52) as u8)
    } else if c == '+' {
        Some(62)
    } else if c == '/' {
        Some(63)
    } else {
        None
    }
}

/// The sextets of base64 text; nothing where a character is invalid.
pub open spec fn sextets(s: Seq<char>) -> Option<Seq<u8>>
    decreases s.len(),
{
    if s.len() == 0 {
        Some(seq![])
    } else {
        match sextets(s.drop_last()) {
            None => None,
            Some(v) => if base64_filler(s.last()) {
                Some(v)
            } else {
                match sextet(s.last()) {
                    None => None,
                    Some(x) => Some(v.push(x)),
                }
            },
        }
    }
}

/// The whole bytes that sextets hold: four sextets are three bytes. Bits that
/// are left over are dropped.
pub open spec fn sextet_bytes(v: Seq<u8>) -> Seq<u8>
    decreases v.len(),
{
    if v.len() < 2 {
        seq![]
    } else {
        let first = (v[0] * 4 + v[1] / 16) as u8;
        if v.len() == 2 {
            seq![first]
        } else {
            let second = ((v[1] % 16) * 16 + v[2] / 4) as u8;
            if v.len() == 3 {
                seq![first, second]
            } else {
                let third = ((v[2] % 4) * 64 + v[3]) as u8;
                seq![first, second, third] + sextet_bytes(v.skip(4))
            }
        }
    }
}

/// The bytes that base64 text stands for.
pub open spec fn base64_decoded(s: Seq<char>) -> Option<Seq<u8>> {
    match sextets(s) {
        None => None,
        Some(v) => Some(sextet_bytes(v)),
    }
}

fn sextet_of(c: char) -> (r: Option<u8>)
    ensures
        r == sextet(c),
        r matches Some(x) ==> x < 64,
{
    if 'A' <= c && c <= 'Z' {
        Some(c as u8 - 'A' as u8)
    } else if 'a' <= c && c <= 'z' {
        Some(c as u8 - 'a' as u8 + 26)
    } else if '0' <= c && c <= '9' {
        Some(c as u8 - '0' as u8 + 52)
    } else if c == '+' {
        Some(62)
    } else if c == '/' {
        Some(63)
    } else {
        None
    }
}

fn collect_sextets(s: &str) -> (r: Option<Vec<u8>>)
    ensures
        r matches Some(v) ==> sextets(s@) == Some(v@) && forall|i: int|
            0 <= i < v@.len() ==> #[trigger] v@[i] < 64,
        r is None ==> sextets(s@) is None,
{
    let c = chars_of(s);
    let mut v: Vec<u8> = Vec::new();
    let mut ok: bool = true;
    let mut i: usize = 0;
    proof {
        assert(s@.take(0) =~= seq![]);
    }
    while i < c.len()
        invariant
            i <= c@.len(),
            c@ == s@,
            ok ==> sextets(s@.take(i as int)) == Some(v@),
            !ok ==> sextets(s@.take(i as int)) is None,
            forall|j: int| 0 <= j < v@.len() ==> #[trigger] v@[j] < 64,
        decreases c@.len() - i,
    {
        let d: char = c[i];
        proof {
            assert(s@.take(i + 1).drop_last() =~= s@.take(i as int));
            assert(s@.take(i + 1).last() == d);
        }
        if !(d == '=' || d == '\n' || d == '\r' || d == ' ' || d == '\t') {
            match sextet_of(d) {
                Some(x) => {
                    v.push(x);
                },
                None => {
                    ok = false;
                },
            }
        }
        i += 1;
    }
    proof {
        assert(s@.take(s@.len() as int) =~= s@);
    }
    if ok {
        Some(v)
    } else {
        None
    }
}

/// Decodes base64. White space and padding may be missing or stand anywhere;
/// any other character outside the alphabet is refused.
pub fn base64_decode(s: &str) -> (r: Option<Vec<u8>>)
    ensures
        r matches Some(v) ==> base64_decoded(s@) == Some(v@),
        r is None ==> base64_decoded(s@) is None,
{
    let v = match collect_sextets(s) {
        Some(v) => v,
        None => return None,
    };
    let mut out: Vec<u8> = Vec::new();
    let mut i: usize = 0;
    proof {
        assert(v@.skip(0) =~= v@);
        assert(out@ + sextet_bytes(v@) =~= sextet_bytes(v@));
    }
    while v.len() - i >= 4
        invariant
            i <= v@.len(),
            forall|j: int| 0 <= j < v@.len() ==> #[trigger] v@[j] < 64,
            out@ + sextet_bytes(v@.skip(i as int)) == sextet_bytes(v@),
        decreases v@.len() - i,
    {
        let ghost before = out@;
        let ghost here = v@.skip(i as int);
        proof {
            assert(here[0] == v@[i as int] && here[1] == v@[i + 1] && here[2] == v@[i + 2]
                && here[3] == v@[i + 3]);
            assert(here.skip(4) =~= v@.skip(i + 4));
        }
        out.push(v[i] * 4 + v[i + 1] / 16);
        out.push((v[i + 1] % 16) * 16 + v[i + 2] / 4);
        out.push((v[i + 2] % 4) * 64 + v[i + 3]);
        i += 4;
        proof {
            assert(out@ + sextet_bytes(v@.skip(i as int)) =~= before + sextet_bytes(here));
        }
    }
    let ghost here = v@.skip(i as int);
    let ghost before = out@;
    if v.len() - i >= 2 {
        proof {
            assert(here[0] == v@[i as int] && here[1] == v@[i + 1]);
        }
        out.push(v[i] * 4 + v[i + 1] / 16);
    }
    if v.len() - i == 3 {
        proof {
            assert(here[2] == v@[i + 2]);
        }
        out.push((v[i + 1] % 16) * 16 + v[i + 2] / 4);
    }
    proof {
        assert(out@ =~= before + sextet_bytes(here));
    }
    Some(out)
}

// ------------------------------------------------------------------- laws

proof fn lemma_sextets_filler(a: Seq<char>, c: char, b: Seq<char>)
    requires
        base64_filler(c),
    ensures
        sextets(a + seq![c] + b) == sextets(a + b),
    decreases b.len(),
{
    if b.len() == 0 {
        assert((a + seq![c] + b).drop_last() =~= a);
        assert((a + seq![c] + b).last() == c);
        assert(a + b =~= a);
    } else {
        lemma_sextets_filler(a, c, b.drop_last());
        assert((a + seq![c] + b).drop_last() =~= a + seq![c] + b.drop_last());
        assert((a + seq![c] + b).last() == b.last());
        assert((a + b).drop_last() =~= a + b.drop_last());
        assert((a + b).last() == b.last());
    }
}

/// The character that stands for a sextet.
pub open spec fn base64_char(x: int) -> char {
    if x < 26 {
        (x + 65) as char
    } else if x < 52 {
        (x + 71) as char
    } else if x < 62 {
        (x - 4) as char
    } else if x == 62 {
        '+'
    } else {
        '/'
    }
}

/// The standard base64 encoding of bytes: three bytes are four characters, and
/// the last group is padded.
pub open spec fn base64_encoded(b: Seq<u8>) -> Seq<char>
    decreases b.len(),
{
    if b.len() == 0 {
        seq![]
    } else if b.len() == 1 {
        seq![base64_char(b[0] as int / 4), base64_char((b[0] % 4) * 16), '=', '=']
    } else if b.len() == 2 {
        seq![
            base64_char(b[0] as int / 4),
            base64_char((b[0] % 4) * 16 + b[1] / 16),
            base64_char((b[1] % 16) * 4),
            '=',
        ]
    } else {
        seq![
            base64_char(b[0] as int / 4),
            base64_char((b[0] % 4) * 16 + b[1] / 16),
            base64_char((b[1] % 16) * 4 + b[2] / 64),
            base64_char(b[2] as int % 64),
        ] + base64_encoded(b.skip(3))
    }
}

/// Text without its padding and white space.
pub open spec fn unfilled(s: Seq<char>) -> Seq<char> {
    s.filter(|c: char| !base64_filler(c))
}

proof fn lemma_sextets_unfilled(s: Seq<char>)
    ensures
        sextets(s) == sextets(unfilled(s)),
    decreases s.len(),
{
    reveal(Seq::filter);
    if s.len() > 0 {
        lemma_sextets_unfilled(s.drop_last());
        let u = unfilled(s.drop_last());
        if !base64_filler(s.last()) {
            assert(unfilled(s) == u.push(s.last()));
            assert(u.push(s.last()).drop_last() =~= u);
        }
    }
}

/// Text before other text has its sextets before the other's.
proof fn lemma_sextets_add(a: Seq<char>, b: Seq<char>)
    ensures
        sextets(a + b) == (match (sextets(a), sextets(b)) {
            (Some(x), Some(y)) => Some(x + y),
            _ => None,
        }),
    decreases b.len(),
{
    if b.len() == 0 {
        assert(a + b =~= a);
        if let Some(x) = sextets(a) {
            assert(x + Seq::<u8>::empty() =~= x);
        }
    } else {
        let front = b.drop_last();
        lemma_sextets_add(a, front);
        assert((a + b).drop_last() =~= a + front);
        assert((a + b).last() == b.last());
        if let (Some(x), Some(y)) = (sextets(a), sextets(front)) {
            if let Some(z) = sextet(b.last()) {
                assert((x + y).push(z) =~= x + y.push(z));
            }
        }
    }
}

proof fn lemma_base64_char(x: int)
    requires
        0 <= x < 64,
    ensures
        sextet(base64_char(x)) == Some(x as u8),
        !base64_filler(base64_char(x)),
{
}

/// The sextets of one character.
proof fn lemma_sextets_push(s: Seq<char>, c: char)
    ensures
        sextets(s.push(c)) == (match (sextets(s), sextet(c)) {
            (None, _) => None,
            (Some(v), _) if base64_filler(c) => Some(v),
            (Some(v), None) => None,
            (Some(v), Some(x)) => Some(v.push(x)),
        }),
{
    assert(s.push(c).drop_last() =~= s);
}

/// Four characters and the sextets that they stand for.
proof fn lemma_group(c: Seq<char>, x: Seq<u8>)
    requires
        2 <= x.len() <= 4,
        c.len() == 4,
        forall|i: int| 0 <= i < x.len() ==> #[trigger] x[i] < 64 && c[i] == base64_char(x[i] as int),
        forall|i: int| x.len() <= i < 4 ==> #[trigger] c[i] == '=',
    ensures
        sextets(c) == Some(x),
{
    let e = Seq::<char>::empty();
    lemma_base64_char(x[0] as int);
    lemma_base64_char(x[1] as int);
    if x.len() > 2 {
        lemma_base64_char(x[2] as int);
    }
    if x.len() > 3 {
        lemma_base64_char(x[3] as int);
    }
    assert(c[0] == base64_char(x[0] as int) && c[1] == base64_char(x[1] as int));
    assert(x.len() > 2 ==> c[2] == base64_char(x[2] as int));
    assert(x.len() > 3 ==> c[3] == base64_char(x[3] as int));
    assert(x.len() <= 2 ==> c[2] == '=');
    assert(x.len() <= 3 ==> c[3] == '=');
    lemma_sextets_push(e, c[0]);
    lemma_sextets_push(e.push(c[0]), c[1]);
    lemma_sextets_push(e.push(c[0]).push(c[1]), c[2]);
    lemma_sextets_push(e.push(c[0]).push(c[1]).push(c[2]), c[3]);
    assert(c =~= e.push(c[0]).push(c[1]).push(c[2]).push(c[3]));
    let v = sextets(c)->0;
    assert(v =~= x);
}

/// Three bytes as four sextets: nothing is lost.
proof fn lemma_regroup(p: u8, q: u8, r: u8)
    ensures
        p / 4 < 64,
        ((p % 4) * 16 + q / 16) < 64,
        ((q % 16) * 4 + r / 64) < 64,
        (p / 4) * 4 + ((p % 4) * 16 + q / 16) / 16 == p,
        (((p % 4) * 16 + q / 16) % 16) * 16 + ((q % 16) * 4 + r / 64) / 4 == q,
        (((q % 16) * 4 + r / 64) % 4) * 64 + r % 64 == r,
{
    let x = (p % 4) * 16 + q / 16;
    let y = (q % 16) * 4 + r / 64;
    assert(x / 16 == p % 4 && x % 16 == q / 16) by {
        assert(0 <= q / 16 < 16);
    }
    assert(y / 4 == q % 16 && y % 4 == r / 64) by {
        assert(0 <= r / 64 < 4);
    }
}

/// The sextets of one group of bytes.
spec fn group_sextets(b: Seq<u8>) -> Seq<u8> {
    if b.len() == 1 {
        seq![b[0] / 4, ((b[0] % 4) * 16) as u8]
    } else if b.len() == 2 {
        seq![b[0] / 4, ((b[0] % 4) * 16 + b[1] / 16) as u8, ((b[1] % 16) * 4) as u8]
    } else {
        seq![
            b[0] / 4,
            ((b[0] % 4) * 16 + b[1] / 16) as u8,
            ((b[1] % 16) * 4 + b[2] / 64) as u8,
            b[2] % 64,
        ]
    }
}

/// The last group, which is shorter, decodes.
proof fn lemma_short_group(b: Seq<u8>)
    requires
        1 <= b.len() <= 2,
    ensures
        base64_decoded(base64_encoded(b)) == Some(b),
{
    let x = group_sextets(b);
    lemma_regroup(
        b[0],
        if b.len() == 1 {
            0
        } else {
            b[1]
        },
        0,
    );
    lemma_group(base64_encoded(b), x);
    assert(sextet_bytes(x) =~= b);
}

/// A whole group decodes, and what is behind it is decoded on its own.
#[verifier::rlimit(30)]
#[verifier::spinoff_prover]
proof fn lemma_whole_group(b: Seq<u8>, y: Seq<u8>)
    requires
        b.len() >= 3,
        sextets(base64_encoded(b.skip(3))) == Some(y),
    ensures
        base64_decoded(base64_encoded(b)) == Some(b.take(3) + sextet_bytes(y)),
{
    let s = base64_encoded(b);
    let x = group_sextets(b);
    lemma_regroup(b[0], b[1], b[2]);
    lemma_group(s.take(4), x);
    assert(s =~= s.take(4) + base64_encoded(b.skip(3)));
    lemma_sextets_add(s.take(4), base64_encoded(b.skip(3)));
    let v = x + y;
    assert(v[0] == x[0] && v[1] == x[1] && v[2] == x[2] && v[3] == x[3]);
    assert(v.skip(4) =~= y);
    assert(b.take(3) =~= seq![b[0], b[1], b[2]]);
}

proof fn lemma_encoded_decodes(b: Seq<u8>)
    ensures
        base64_decoded(base64_encoded(b)) == Some(b),
    decreases b.len(),
{
    if b.len() == 0 {
        assert(sextet_bytes(seq![]) =~= b);
    } else if b.len() < 3 {
        lemma_short_group(b);
    } else {
        lemma_encoded_decodes(b.skip(3));
        lemma_whole_group(b, sextets(base64_encoded(b.skip(3)))->0);
        assert(b.take(3) + b.skip(3) =~= b);
    }
}

/// Decoding undoes the standard encoding, and what is dropped of the padding
/// or put in of padding and white space makes no difference: text that shows
/// the same characters as the encoding of `b`, apart from those, decodes to
/// `b`.
pub proof fn lemma_base64_round_trip(b: Seq<u8>, s: Seq<char>)
    requires
        unfilled(s) == unfilled(base64_encoded(b)),
    ensures
        base64_decoded(s) == Some(b),
{
    lemma_sextets_unfilled(s);
    lemma_sextets_unfilled(base64_encoded(b));
    lemma_encoded_decodes(b);
}

/// Padding and white space mean nothing, wherever they stand: text with such
/// a character and without it decode alike.
pub proof fn lemma_base64_filler(a: Seq<char>, c: char, b: Seq<char>)
    requires
        base64_filler(c),
    ensures
        base64_decoded(a + seq![c] + b) == base64_decoded(a + b),
{
    lemma_sextets_filler(a, c, b);
}

proof fn lemma_trim_end_prefix(s: Seq<char>, class: Class)
    ensures
        trim_end(s, class).len() <= s.len(),
        trim_end(s, class) == s.take(trim_end(s, class).len() as int),
        trim_end(s, class).len() > 0 ==> !class.holds(trim_end(s, class).last()),
    decreases s.len(),
{
    if s.len() > 0 && class.holds(s.last()) {
        let t = s.drop_last();
        lemma_trim_end_prefix(t, class);
        let n = trim_end(t, class).len() as int;
        assert(t.take(n) =~= s.take(n));
    } else {
        assert(s.take(s.len() as int) =~= s);
    }
}

proof fn lemma_behind_last_clear(s: Seq<char>, class: Class, to: int)
    requires
        0 <= to <= s.len(),
    ensures
        0 <= behind_last(s, class, to) <= to,
        forall|j: int| behind_last(s, class, to) <= j < to ==> !class.holds(#[trigger] s[j]),
    decreases to,
{
    if to > 0 && !class.holds(s[to - 1]) {
        lemma_behind_last_clear(s, class, to - 1);
    }
}

/// A qualified name is one word: it has no parameters and no white space, and
/// it does not end with a colon.
pub proof fn lemma_name_is_word(full: Seq<char>)
    ensures
        qualified_name(full) matches Some(name) ==> {
            &&& name.len() > 0
            &&& name.last() != ':'
            &&& forall|i: int|
                0 <= i < name.len() ==> #[trigger] name[i] != '(' && !Class::Space.holds(name[i])
        },
{
    let open = Class::Only('(');
    lemma_first_of(full, open, 0);
    let cut = full.take(first_of(full, open, 0));
    lemma_trim_end_prefix(cut, Class::Space);
    let head = trim_end(cut, Class::Space);
    lemma_behind_last_clear(head, Class::Space, head.len() as int);
    let at = behind_last(head, Class::Space, head.len() as int);
    let word = head.skip(at);
    lemma_trim_end_prefix(word, Class::Only(':'));
    let name = trim_end(word, Class::Only(':'));
    assert forall|i: int| 0 <= i < name.len() implies #[trigger] name[i] != '('
        && !Class::Space.holds(name[i]) by {
        assert(name[i] == word[i]);
        assert(word[i] == head[at + i]);
        assert(head[at + i] == full[at + i]);
    }
}

// ------------------------------------------- what the operations are for

/// The edges that name a node: `/kythe/edge/named` itself, and the same with a
/// dot and anything behind it.
pub proof fn lemma_named_edge_is(kind: Seq<char>, rest: Seq<char>)
    ensures
        named_edge("/kythe/edge/named"@),
        named_edge("/kythe/edge/named"@ + seq!['.'] + rest),
        named_edge(kind) ==> kind == "/kythe/edge/named"@ || (kind.len() > 17 && kind.subrange(
            0,
            17,
        ) == "/kythe/edge/named"@ && kind[17] == '.'),
{
    let class = Class::Only('.');
    let name = "/kythe/edge/named"@;
    reveal_strlit("/kythe/edge/named");
    assert(name.len() == 17);
    assert forall|j: int| 0 <= j < 17 implies #[trigger] name[j] != '.' by {}
    lemma_first_of(name, class, 0);
    assert(name.take(17) =~= name);
    let dotted = name + seq!['.'] + rest;
    lemma_first_of(dotted, class, 0);
    assert(dotted[17] == '.');
    let at = first_of(dotted, class, 0);
    if at < 17 {
        assert(dotted[at] == name[at]);
    }
    assert(dotted.take(17) =~= name);
    lemma_first_of(kind, class, 0);
    let cut = first_of(kind, class, 0);
    if named_edge(kind) {
        assert(kind.take(cut).len() == 17);
        if cut == kind.len() {
            assert(kind.take(cut) =~= kind);
        } else {
            assert(kind.subrange(0, 17) =~= kind.take(cut));
        }
    }
}

/// The characters of JVM types: ASCII letters and digits, and `;[/$_`.
pub proof fn lemma_jvm_chars_are(c: char)
    ensures
        jvm_type_char(c) <==> (('a' <= c <= 'z') || ('A' <= c <= 'Z') || ('0' <= c <= '9') || c
            == ';' || c == '[' || c == '/' || c == '$' || c == '_'),
        jvm_type_char(c) ==> c != '(' && c != ')',
{
}

/// A signature is stripped of its descriptor: a name with types in parentheses
/// and a return type behind it, which is not empty, gives the name; and only
/// what has that form is stripped.
pub proof fn lemma_descriptor_stripped(
    name: Seq<char>,
    params: Seq<char>,
    result: Seq<char>,
    sig: Seq<char>,
)
    ensures
        (forall|i: int| 0 <= i < params.len() ==> jvm_type_char(#[trigger] params[i])) && (forall|
            i: int,
        |
            0 <= i < result.len() ==> jvm_type_char(#[trigger] result[i])) && result.len() > 0
            ==> without_descriptor(name + seq!['('] + params + seq![')'] + result) == Some(name),
        without_descriptor(sig) matches Some(n) ==> exists|p: Seq<char>, r: Seq<char>|
            {
                &&& sig == #[trigger] (n + seq!['('] + p + seq![')'] + r)
                &&& r.len() > 0
                &&& forall|i: int| 0 <= i < p.len() ==> jvm_type_char(#[trigger] p[i])
                &&& forall|i: int| 0 <= i < r.len() ==> jvm_type_char(#[trigger] r[i])
            },
{
    if (forall|i: int| 0 <= i < params.len() ==> jvm_type_char(#[trigger] params[i])) && (forall|
        i: int,
    |
        0 <= i < result.len() ==> jvm_type_char(#[trigger] result[i])) && result.len() > 0 {
        let s = name + seq!['('] + params + seq![')'] + result;
        let open = name.len() as int;
        let close = open + 1 + params.len();
        assert(s[open] == '(' && s[close] == ')');
        assert forall|j: int| open < j < close implies #[trigger] s[j] == params[j - open - 1] by {}
        assert forall|j: int| close < j < s.len() implies #[trigger] s[j] == result[j - close
            - 1] by {}
        lemma_behind_last_clear(s, Class::Only('('), s.len() as int);
        let b = behind_last(s, Class::Only('('), s.len() as int);
        lemma_behind_last_at(s, Class::Only('('), s.len() as int);
        if b <= open {
            assert(!Class::Only('(').holds(s[open]));
        }
        if b > open + 1 {
            assert(s[b - 1] == '(');
        }
        assert(b == open + 1);
        lemma_first_of(s, Class::Only(')'), open);
        let c = first_of(s, Class::Only(')'), open);
        if c < close {
            assert(s[c] == ')');
        }
        assert(c == close);
        assert(jvm_types(s, open + 1, close));
        assert(jvm_types(s, close + 1, s.len() as int));
        assert(s.take(open) =~= name);
    }
    if let Some(n) = without_descriptor(sig) {
        let open = behind_last(sig, Class::Only('('), sig.len() as int) - 1;
        lemma_behind_last_clear(sig, Class::Only('('), sig.len() as int);
        lemma_behind_last_at(sig, Class::Only('('), sig.len() as int);
        lemma_first_of(sig, Class::Only(')'), open);
        let close = first_of(sig, Class::Only(')'), open);
        assert(sig[open] == '(' && sig[close] == ')');
        let p = sig.subrange(open + 1, close);
        let r = sig.subrange(close + 1, sig.len() as int);
        assert forall|i: int| 0 <= i < p.len() implies jvm_type_char(#[trigger] p[i]) by {
            assert(jvm_type_char(sig[open + 1 + i]));
        }
        assert forall|i: int| 0 <= i < r.len() implies jvm_type_char(#[trigger] r[i]) by {
            assert(jvm_type_char(sig[close + 1 + i]));
        }
        assert(sig =~= n + seq!['('] + p + seq![')'] + r);
    }
}

proof fn lemma_behind_last_at(s: Seq<char>, class: Class, to: int)
    requires
        0 <= to <= s.len(),
    ensures
        behind_last(s, class, to) > 0 ==> class.holds(s[behind_last(s, class, to) - 1]),
    decreases to,
{
    if to > 0 && !class.holds(s[to - 1]) {
        lemma_behind_last_at(s, class, to - 1);
    }
}

/// The qualified name of a declaration: the word before the parameters, without
/// the colons and the white space behind it, whatever words come before it.
pub proof fn lemma_qualified_name_is(
    before: Seq<char>,
    name: Seq<char>,
    colons: Seq<char>,
    spaces: Seq<char>,
    params: Seq<char>,
)
    requires
        before.len() > 0 ==> Class::Space.holds(before.last()),
        !before.contains('('),
        name.len() > 0 && name.last() != ':',
        forall|i: int|
            0 <= i < name.len() ==> !Class::Space.holds(#[trigger] name[i]) && name[i] != '(',
        forall|i: int| 0 <= i < colons.len() ==> #[trigger] colons[i] == ':',
        forall|i: int| 0 <= i < spaces.len() ==> Class::Space.holds(#[trigger] spaces[i]),
        params.len() == 0 || params[0] == '(',
    ensures
        qualified_name(before + name + colons + spaces + params) == Some(name),
{
    let full = before + name + colons + spaces + params;
    let head = before + name + colons + spaces;
    let kept = before + name + colons;
    let space = Class::Space;
    let open = Class::Only('(');
    lemma_first_of(full, open, 0);
    let cut = first_of(full, open, 0);
    assert forall|j: int| 0 <= j < head.len() implies #[trigger] full[j] != '(' by {
        if j < before.len() {
            assert(full[j] == before[j]);
            assert(before.contains(before[j]));
        } else if j < before.len() + name.len() {
            assert(full[j] == name[j - before.len()]);
        } else if j < kept.len() {
            assert(full[j] == colons[j - before.len() - name.len()]);
        } else {
            assert(full[j] == spaces[j - kept.len()]);
            assert(space.holds(full[j]));
        }
    }
    if params.len() > 0 {
        assert(full[head.len() as int] == '(');
    }
    assert(cut == head.len());
    assert(full.take(cut) =~= head);
    // The white space behind the colons goes.
    crate::text::lemma_trim_ends(head, space);
    let t = trim_end(head, space);
    assert(!space.holds(kept.last())) by {
        if colons.len() > 0 {
            assert(kept.last() == colons[colons.len() - 1]);
        } else {
            assert(kept.last() == name[name.len() - 1]);
        }
    }
    if t.len() < kept.len() {
        assert(space.holds(head[kept.len() - 1]));
        assert(head[kept.len() - 1] == kept.last());
    }
    if t.len() > kept.len() {
        assert(t.last() == head[t.len() - 1]);
        assert(head[t.len() - 1] == spaces[t.len() - 1 - kept.len()]);
    }
    assert(t =~= head.subrange(0, t.len() as int));
    assert(t =~= kept);
    // The word begins behind the last white space.
    let at = behind_last(kept, space, kept.len() as int);
    lemma_behind_last_clear(kept, space, kept.len() as int);
    lemma_behind_last_at(kept, space, kept.len() as int);
    let n = before.len() as int;
    if at < n {
        assert(!space.holds(kept[n - 1]));
        assert(kept[n - 1] == before.last());
    }
    if at > n {
        if at - 1 < n + name.len() {
            assert(kept[at - 1] == name[at - 1 - n]);
        } else {
            assert(kept[at - 1] == colons[at - 1 - n - name.len()]);
        }
    }
    assert(at == n);
    let word = kept.skip(n);
    assert(word =~= name + colons);
    crate::text::lemma_trim_ends(word, Class::Only(':'));
    let w = trim_end(word, Class::Only(':'));
    if w.len() < name.len() {
        assert(Class::Only(':').holds(word[name.len() - 1]));
        assert(word[name.len() - 1] == name.last());
    }
    if w.len() > name.len() {
        assert(w.last() == word[w.len() - 1]);
        assert(word[w.len() - 1] == colons[w.len() - 1 - name.len()]);
    }
    assert(w =~= word.subrange(0, w.len() as int));
    assert(w =~= name);
}

/// A message with text is rendered as this, and has no name where it is
/// malformed.
pub proof fn lemma_marked_name_is(buf: Seq<u8>)
    ensures
        marked_text(buf) is None ==> marked_name(buf) is None,
        marked_text(buf) matches Some(t) ==> marked_name(buf) == qualified_name(t),
{
    if let Some(t) = marked_text(buf) {
        if t.len() == 0 {
            let c = t.take(first_of(t, Class::Only('('), 0));
            assert(trim_end(c, Class::Space).len() == 0);
            assert(qualified_name(t) is None);
        }
    }
}

/// What a message renders to: the text before, the children with the joiner
/// between them, the joiner once more where that is asked for and there are
/// children, and the text behind.
pub proof fn lemma_marked_view_text(m: MarkedView, child: Seq<char>)
    ensures
        m.children.len() == 0 ==> m.text() == m.pre + m.post,
        (MarkedView { children: seq![child], final_joiner: false, ..m }).text() == m.pre + child
            + m.post,
        (MarkedView { children: seq![child], final_joiner: true, ..m }).text() == m.pre + child
            + m.joiner + m.post,
        m.children.len() > 0 && !m.final_joiner ==> (MarkedView {
            children: m.children.push(child),
            pre: seq![],
            post: seq![],
            ..m
        }).text() == (MarkedView { pre: seq![], post: seq![], ..m }).text() + m.joiner + child,
        m.children.len() > 0 && m.final_joiner ==> m.text() == m.pre + join(
            m.children,
            m.joiner,
        ) + m.joiner + m.post,
{
    let none = Seq::<char>::empty();
    if m.children.len() == 0 {
        assert(m.text() =~= m.pre + m.post);
    }
    let one = MarkedView { children: seq![child], final_joiner: false, ..m };
    assert(join(seq![child], m.joiner) == child);
    assert(one.text() =~= m.pre + child + m.post);
    let last = MarkedView { children: seq![child], final_joiner: true, ..m };
    assert(last.text() =~= m.pre + child + m.joiner + m.post);
    if m.children.len() > 0 && !m.final_joiner {
        crate::text::lemma_join_is(m.children, child, m.joiner);
        let more = MarkedView {
            children: m.children.push(child),
            pre: none,
            post: none,
            ..m
        };
        let now = MarkedView { pre: none, post: none, ..m };
        assert(more.text() =~= now.text() + m.joiner + child);
    }
    if m.children.len() > 0 && m.final_joiner {
        assert(m.text() =~= m.pre + join(m.children, m.joiner) + m.joiner + m.post);
    }
}

proof fn lemma_any_field_extends(buf: Seq<u8>, more: Seq<u8>, pos: int)
    requires
        0 <= pos,
        any_field(buf, pos) is Some,
    ensures
        any_field(buf + more, pos) == any_field(buf, pos),
{
    lemma_varint_extends(buf, more, pos, VARINT_MAX as nat);
    lemma_varint_bounds(buf, pos, VARINT_MAX as nat);
    let (tag, p) = varint_at(buf, pos)->Ok_0;
    let wire = (tag & 0x7) as u8;
    if wire == 0 || wire == 2 {
        lemma_varint_extends(buf, more, p, VARINT_MAX as nat);
    }
}

proof fn lemma_marked_extends(buf: Seq<u8>, more: Seq<u8>, pos: nat, acc: MarkedView)
    requires
        pos <= buf.len(),
        marked_from(buf, pos, acc) is Some,
    ensures
        marked_from(buf + more, pos, acc) == marked_from(
            buf + more,
            buf.len(),
            marked_from(buf, pos, acc)->0,
        ),
    decreases buf.len() - pos,
{
    if pos < buf.len() {
        let all = buf + more;
        lemma_any_field_extends(buf, more, pos as int);
        lemma_any_field(buf, pos as int);
        let (field, wire, start, end) = any_field(buf, pos as int)->0;
        let data = buf.subrange(start, end);
        assert(all.subrange(start, end) =~= data);
        if wire == 2 && field == 3 {
            let child = marked_text(data)->0;
            let children = if child.len() == 0 {
                acc.children
            } else {
                acc.children.push(child)
            };
            lemma_marked_extends(buf, more, end as nat, MarkedView { children, ..acc });
        } else {
            if wire == 0 {
                lemma_varint_start(buf, pos as int);
                lemma_varint_extends(buf, more, start, VARINT_MAX as nat);
            }
            let next = if wire == 2 && field == 2 {
                MarkedView { pre: lossy_chars(data), ..acc }
            } else if wire == 2 && field == 4 {
                MarkedView { joiner: lossy_chars(data), ..acc }
            } else if wire == 2 && field == 5 {
                MarkedView { post: lossy_chars(data), ..acc }
            } else if wire == 0 && field == 10 {
                MarkedView { final_joiner: varint_at(buf, start)->Ok_0.0 != 0, ..acc }
            } else {
                acc
            };
            lemma_marked_extends(buf, more, end as nat, next);
        }
    }
}

proof fn lemma_varint_start(buf: Seq<u8>, pos: int)
    requires
        0 <= pos <= buf.len(),
    ensures
        any_field(buf, pos) matches Some((_, wire, start, _)) ==> wire == 0 ==> 0 <= start
            && varint_at(buf, start) is Ok,
{
    lemma_varint_bounds(buf, pos, VARINT_MAX as nat);
}

/// The wire numbers of a `MarkedSource`: the text before is two, a child three,
/// the joiner four, the text behind five, and ten says whether the joiner also
/// stands behind the last child. A child without text is passed over, and one
/// that is malformed makes the whole malformed. Other fields are passed over.
pub proof fn lemma_marked_wire(m: Seq<u8>, data: Seq<u8>, v: MarkedView)
    requires
        marked_from(m, 0, MarkedView::empty()) == Some(v),
        m.len() + data.len() + 11 <= usize::MAX,
    ensures
        ({
            let of = |tag: u8|
                marked_from(
                    m + (seq![tag] + varint_bytes(data.len() as u64) + data),
                    0,
                    MarkedView::empty(),
                );
            let t = lossy_chars(data);
            &&& of(0x12) == Some(MarkedView { pre: t, ..v })
            &&& of(0x22) == Some(MarkedView { joiner: t, ..v })
            &&& of(0x2a) == Some(MarkedView { post: t, ..v })
            &&& marked_text(data) is None ==> of(0x1a) is None
            &&& marked_text(data) matches Some(child) ==> of(0x1a) == Some(
                if child.len() == 0 {
                    v
                } else {
                    MarkedView { children: v.children.push(child), ..v }
                },
            )
            &&& of(0x0a) == Some(v)
            &&& of(0x32) == Some(v)
        }),
        forall|b: u8|
            b < 128 ==> #[trigger] marked_from(m + (seq![0x50u8] + seq![b]), 0, MarkedView::empty())
                == Some(MarkedView { final_joiner: b != 0, ..v }),
        forall|b: u8|
            b < 128 ==> #[trigger] marked_from(m + (seq![0x08u8] + seq![b]), 0, MarkedView::empty())
                == Some(v),
        marked_text(m) == Some(v.text()),
        marked_from(seq![], 0, MarkedView::empty()) == Some(
            MarkedView {
                pre: seq![],
                children: seq![],
                joiner: seq![],
                post: seq![],
                final_joiner: false,
            },
        ),
{
    lemma_marked_field(m, 1, data, v);
    lemma_marked_field(m, 2, data, v);
    lemma_marked_field(m, 3, data, v);
    lemma_marked_field(m, 4, data, v);
    lemma_marked_field(m, 5, data, v);
    lemma_marked_field(m, 6, data, v);
    assert forall|b: u8| b < 128 implies #[trigger] marked_from(
        m + (seq![0x50u8] + seq![b]),
        0,
        MarkedView::empty(),
    ) == Some(MarkedView { final_joiner: b != 0, ..v }) by {
        lemma_marked_varint(m, 0x50u8, b, v);
    }
    assert forall|b: u8| b < 128 implies #[trigger] marked_from(
        m + (seq![0x08u8] + seq![b]),
        0,
        MarkedView::empty(),
    ) == Some(v) by {
        lemma_marked_varint(m, 0x08u8, b, v);
    }
}

proof fn lemma_marked_field(m: Seq<u8>, field: u32, data: Seq<u8>, v: MarkedView)
    requires
        1 <= field <= 6,
        marked_from(m, 0, MarkedView::empty()) == Some(v),
        m.len() + data.len() + 11 <= usize::MAX,
    ensures
        ({
            let tag = (8 * field + 2) as u8;
            let all = m + (seq![tag] + varint_bytes(data.len() as u64) + data);
            let t = lossy_chars(data);
            marked_from(all, 0, MarkedView::empty()) == (if field == 2 {
                Some(MarkedView { pre: t, ..v })
            } else if field == 3 {
                match marked_text(data) {
                    None => None,
                    Some(child) => Some(
                        if child.len() == 0 {
                            v
                        } else {
                            MarkedView { children: v.children.push(child), ..v }
                        },
                    ),
                }
            } else if field == 4 {
                Some(MarkedView { joiner: t, ..v })
            } else if field == 5 {
                Some(MarkedView { post: t, ..v })
            } else {
                Some(v)
            })
        }),
{
    let tag = (8 * field + 2) as u8;
    let len = varint_bytes(data.len() as u64);
    let more = seq![tag] + len + data;
    let all = m + more;
    let n = m.len() as int;
    lemma_varint_bytes_len(data.len() as u64);
    lemma_marked_extends(m, more, 0, MarkedView::empty());
    assert(all[n] == tag);
    assert(varint_at(all, n) == Ok::<(u64, int), WireError>((tag as u64, n + 1)));
    let start = n + 1 + len.len();
    assert(all.subrange(n + 1, start) =~= len);
    lemma_varint_round_trip(all, n + 1, data.len() as u64, VARINT_MAX as nat);
    let t: u64 = tag as u64;
    let f: u32 = field;
    assert((t >> 3) as u32 == f && (t & 0x7) as u8 == 2) by (bit_vector)
        requires
            t == 8 * f + 2,
            f <= 6,
    ;
    let end = all.len() as int;
    assert(any_field(all, n) == Some((field, 2u8, start, end)));
    assert(all.subrange(start, end) =~= data);
    let e = if field == 2 {
        MarkedView { pre: lossy_chars(data), ..v }
    } else if field == 4 {
        MarkedView { joiner: lossy_chars(data), ..v }
    } else if field == 5 {
        MarkedView { post: lossy_chars(data), ..v }
    } else if field == 3 && marked_text(data) is Some && marked_text(data)->0.len() > 0 {
        MarkedView { children: v.children.push(marked_text(data)->0), ..v }
    } else {
        v
    };
    assert(marked_from(all, end as nat, e) == Some(e));
    if field == 3 {
        assert(MarkedView { children: v.children, ..v } == v);
    }
}

proof fn lemma_marked_varint(m: Seq<u8>, tag: u8, b: u8, v: MarkedView)
    requires
        tag == 0x50 || tag == 0x08,
        b < 128,
        marked_from(m, 0, MarkedView::empty()) == Some(v),
    ensures
        marked_from(m + (seq![tag] + seq![b]), 0, MarkedView::empty()) == Some(
            if tag == 0x50 {
                MarkedView { final_joiner: b != 0, ..v }
            } else {
                v
            },
        ),
{
    let more = seq![tag] + seq![b];
    let all = m + more;
    let n = m.len() as int;
    lemma_marked_extends(m, more, 0, MarkedView::empty());
    assert(all[n] == tag && all[n + 1] == b);
    assert(varint_at(all, n) == Ok::<(u64, int), WireError>((tag as u64, n + 1)));
    assert(varint_at(all, n + 1) == Ok::<(u64, int), WireError>((b as u64, n + 2)));
    assert(0x50u64 >> 3 == 10 && 0x50u64 & 0x7 == 0 && 0x08u64 >> 3 == 1 && 0x08u64 & 0x7 == 0)
        by (bit_vector);
    let field: u32 = if tag == 0x50 {
        10
    } else {
        1
    };
    assert(any_field(all, n) == Some((field, 0u8, n + 1, n + 2)));
    let e = if tag == 0x50 {
        MarkedView { final_joiner: b != 0, ..v }
    } else {
        v
    };
    assert(marked_from(all, all.len(), e) == Some(e));
}

/// The text that base64 may be written with, and nothing else: the letters, the
/// digits, `+` and `/` stand for sextets, and padding and white space for
/// nothing; any other character is refused, wherever it stands.
pub proof fn lemma_base64_text_is(s: Seq<char>, i: int)
    requires
        0 <= i < s.len(),
    ensures
        base64_filler(s[i]) <==> s[i] == '=' || s[i] == ' ' || s[i] == '\n' || s[i] == '\r' || s[i]
            == '\t',
        sextet(s[i]) is Some <==> (('A' <= s[i] <= 'Z') || ('a' <= s[i] <= 'z') || ('0' <= s[i]
            <= '9') || s[i] == '+' || s[i] == '/'),
        base64_decoded(s) is Some ==> base64_filler(s[i]) || sextet(s[i]) is Some,
    decreases s.len(),
{
    if i < s.len() - 1 {
        lemma_base64_text_is(s.drop_last(), i);
    }
}

/// Text of such characters alone decodes.
pub proof fn lemma_base64_decodes(s: Seq<char>)
    requires
        forall|i: int|
            0 <= i < s.len() ==> base64_filler(#[trigger] s[i]) || sextet(s[i]) is Some,
    ensures
        base64_decoded(s) is Some,
    decreases s.len(),
{
    if s.len() > 0 {
        let t = s.drop_last();
        assert forall|i: int| 0 <= i < t.len() implies base64_filler(#[trigger] t[i]) || sextet(
            t[i],
        ) is Some by {
            assert(t[i] == s[i]);
        }
        lemma_base64_decodes(t);
        assert(base64_filler(s[s.len() - 1]) || sextet(s[s.len() - 1]) is Some);
    }
}

} // verus!
