//! Tickets: the URIs by which Kythe addresses its nodes.
//!
//! A name is written as
//! `kythe://<corpus>?lang=<language>?path=<path>?root=<root>#<signature>`,
//! without the parts that are empty. Corpus, path and root keep their slashes;
//! everything else that is not unreserved is percent-escaped.

use vstd::prelude::*;
use vstd::utf8::{encode_utf8, is_ascii_chars};

use crate::kzip::VNameView;
use crate::text::{
    behind_last, chars_of, find_chars, find_class, find_from, find_last_class, first_of, join,
    join_with, lemma_find_is, lemma_first_of, lemma_split, lemma_split_push_text, lemma_texts_push,
    lossy_chars, lossy_string, occurs_at, push_char, same, split, split_at, starts_with, string_of,
    texts, Class,
};

verus! {

/// The name of a node, as entry streams carry it.
#[derive(Debug, PartialEq, Eq, Hash)]
pub struct VName {
    pub signature: String,
    pub corpus: String,
    pub root: String,
    pub path: String,
    pub language: String,
}

impl View for VName {
    type V = VNameView;

    open spec fn view(&self) -> VNameView {
        VNameView {
            signature: self.signature@,
            corpus: self.corpus@,
            root: self.root@,
            path: self.path@,
            language: self.language@,
        }
    }
}

impl Default for VName {
    fn default() -> (r: Self)
        ensures
            r@ == VNameView::empty(),
    {
        VName {
            signature: String::new(),
            corpus: String::new(),
            root: String::new(),
            path: String::new(),
            language: String::new(),
        }
    }
}

impl Clone for VName {
    fn clone(&self) -> (r: Self)
        ensures
            r@ == self@,
    {
        VName {
            signature: self.signature.clone(),
            corpus: self.corpus.clone(),
            root: self.root.clone(),
            path: self.path.clone(),
            language: self.language.clone(),
        }
    }
}

// --------------------------------------------------------------- escaping

/// The bytes that no escaping touches: ASCII letters and digits, and `-._~`.
pub open spec fn unreserved(b: u8) -> bool {
    ||| 0x41 <= b <= 0x5a
    ||| 0x61 <= b <= 0x7a
    ||| 0x30 <= b <= 0x39
    ||| b == 0x2d
    ||| b == 0x2e
    ||| b == 0x5f
    ||| b == 0x7e
}

/// The upper-case hexadecimal digit of `n`.
pub open spec fn hex_digit(n: int) -> char {
    if n < 10 {
        (0x30 + n) as char
    } else {
        (0x37 + n) as char
    }
}

/// A byte as a ticket writes it.
pub open spec fn escaped_byte(b: u8, keep_slash: bool) -> Seq<char> {
    if unreserved(b) || (keep_slash && b == 0x2f) {
        seq![b as char]
    } else {
        seq!['%', hex_digit((b / 16) as int), hex_digit((b % 16) as int)]
    }
}

/// Bytes as a ticket writes them.
pub open spec fn escaped_bytes(b: Seq<u8>, keep_slash: bool) -> Seq<char>
    decreases b.len(),
{
    if b.len() == 0 {
        seq![]
    } else {
        escaped_byte(b[0], keep_slash) + escaped_bytes(b.skip(1), keep_slash)
    }
}

/// A text as a ticket writes it.
pub open spec fn escaped(s: Seq<char>, keep_slash: bool) -> Seq<char> {
    escaped_bytes(encode_utf8(s), keep_slash)
}

fn hex_char(n: u8) -> (r: char)
    requires
        n < 16,
    ensures
        r == hex_digit(n as int),
{
    if n < 10 {
        (0x30 + n) as char
    } else {
        (0x37 + n) as char
    }
}

/// Percent-escapes every byte of `s` that is not unreserved; with
/// `keep_slash`, slashes stay.
pub fn escape(s: &str, keep_slash: bool) -> (r: String)
    ensures
        r@ == escaped(s@, keep_slash),
{
    let b: &[u8] = s.as_bytes();
    let mut out: String = String::new();
    let mut i: usize = 0;
    proof {
        assert(b@.skip(0) =~= b@);
        assert(out@ + escaped_bytes(b@, keep_slash) =~= escaped_bytes(b@, keep_slash));
    }
    while i < b.len()
        invariant
            i <= b@.len(),
            out@ + escaped_bytes(b@.skip(i as int), keep_slash) == escaped_bytes(b@, keep_slash),
        decreases b@.len() - i,
    {
        let c: u8 = b[i];
        let ghost rest = escaped_bytes(b@.skip(i + 1), keep_slash);
        let ghost before = out@;
        proof {
            assert(b@.skip(i as int).skip(1) =~= b@.skip(i + 1));
            assert(b@.skip(i as int)[0] == c);
        }
        if (0x41 <= c && c <= 0x5a) || (0x61 <= c && c <= 0x7a) || (0x30 <= c && c <= 0x39) || c
            == 0x2d || c == 0x2e || c == 0x5f || c == 0x7e || (keep_slash && c == 0x2f) {
            push_char(&mut out, c as char);
        } else {
            push_char(&mut out, '%');
            push_char(&mut out, hex_char(c / 16));
            push_char(&mut out, hex_char(c % 16));
        }
        proof {
            assert(out@ =~= before + escaped_byte(c, keep_slash));
            assert(out@ + rest =~= before + (escaped_byte(c, keep_slash) + rest));
        }
        i += 1;
    }
    proof {
        assert(out@ + escaped_bytes(b@.skip(b@.len() as int), keep_slash) =~= out@);
    }
    out
}

/// What a hexadecimal digit counts.
pub open spec fn hex_value(b: u8) -> Option<u8> {
    if 0x30 <= b <= 0x39 {
        Some((b - 0x30) as u8)
    } else if 0x41 <= b <= 0x46 {
        Some((b - 0x37) as u8)
    } else if 0x61 <= b <= 0x66 {
        Some((b - 0x57) as u8)
    } else {
        None
    }
}

/// The bytes behind percent escapes: `%` with two hexadecimal digits is a
/// byte, and anything else stands for itself.
pub open spec fn decoded_bytes(b: Seq<u8>) -> Seq<u8>
    decreases b.len(),
{
    if b.len() == 0 {
        seq![]
    } else if b[0] == 0x25 && b.len() > 2 && hex_value(b[1]) is Some && hex_value(b[2]) is Some {
        seq![(hex_value(b[1])->0 * 16 + hex_value(b[2])->0) as u8] + decoded_bytes(b.skip(3))
    } else {
        seq![b[0]] + decoded_bytes(b.skip(1))
    }
}

/// The text behind percent escapes.
pub open spec fn percent_decoded(s: Seq<char>) -> Seq<char> {
    lossy_chars(decoded_bytes(encode_utf8(s)))
}

fn hex_of(b: u8) -> (r: Option<u8>)
    ensures
        r == hex_value(b),
        r matches Some(v) ==> v < 16,
{
    if 0x30 <= b && b <= 0x39 {
        Some(b - 0x30)
    } else if 0x41 <= b && b <= 0x46 {
        Some(b - 0x37)
    } else if 0x61 <= b && b <= 0x66 {
        Some(b - 0x57)
    } else {
        None
    }
}

/// Undoes percent escapes.
pub fn percent_decode(s: &str) -> (r: String)
    ensures
        r@ == percent_decoded(s@),
{
    let b: &[u8] = s.as_bytes();
    let mut out: Vec<u8> = Vec::new();
    let mut i: usize = 0;
    proof {
        assert(b@.skip(0) =~= b@);
        assert(out@ + decoded_bytes(b@) =~= decoded_bytes(b@));
    }
    while i < b.len()
        invariant
            i <= b@.len(),
            out@ + decoded_bytes(b@.skip(i as int)) == decoded_bytes(b@),
        decreases b@.len() - i,
    {
        let ghost here = b@.skip(i as int);
        let ghost before = out@;
        proof {
            assert(here[0] == b@[i as int]);
            assert(here.skip(1) =~= b@.skip(i + 1));
        }
        let mut step: usize = 1;
        let mut byte: u8 = b[i];
        if b[i] == 0x25 && b.len() - i > 2 {
            proof {
                assert(here[1] == b@[i + 1] && here[2] == b@[i + 2]);
                assert(here.skip(3) =~= b@.skip(i + 3));
            }
            if let (Some(h), Some(l)) = (hex_of(b[i + 1]), hex_of(b[i + 2])) {
                byte = h * 16 + l;
                step = 3;
            }
        }
        out.push(byte);
        i += step;
        proof {
            assert(out@ + decoded_bytes(b@.skip(i as int)) =~= before + (seq![byte]
                + decoded_bytes(b@.skip(i as int))));
        }
    }
    proof {
        assert(out@ + decoded_bytes(b@.skip(b@.len() as int)) =~= out@);
    }
    lossy_string(out.as_slice())
}

// ----------------------------------------------------------------- paths

/// A segment taken into a path: empty segments and `.` say nothing, and `..`
/// takes back the segment before it. At the root there is nothing to take
/// back; elsewhere such a `..` stays.
pub open spec fn clean_step(rooted: bool, out: Seq<Seq<char>>, seg: Seq<char>) -> Seq<Seq<char>> {
    if seg.len() == 0 || seg == seq!['.'] {
        out
    } else if seg == seq!['.', '.'] {
        if out.len() > 0 && out.last() != seq!['.', '.'] {
            out.drop_last()
        } else if !rooted {
            out.push(seg)
        } else {
            out
        }
    } else {
        out.push(seg)
    }
}

/// The segments that are left of a path.
pub open spec fn clean_segments(rooted: bool, segs: Seq<Seq<char>>) -> Seq<Seq<char>>
    decreases segs.len(),
{
    if segs.len() == 0 {
        seq![]
    } else {
        clean_step(rooted, clean_segments(rooted, segs.drop_last()), segs.last())
    }
}

/// A path with nothing superfluous in it. The path that goes nowhere is `.`.
pub open spec fn cleaned(p: Seq<char>) -> Seq<char> {
    if p.len() == 0 {
        seq![]
    } else {
        let rooted = p[0] == '/';
        let joined = join(clean_segments(rooted, split(p, Class::Only('/'))), seq!['/']);
        if rooted {
            seq!['/'] + joined
        } else if joined.len() == 0 {
            seq!['.']
        } else {
            joined
        }
    }
}

/// Cleans a path: collapses slashes and resolves `.` and `..`.
pub fn clean_path(p: &str) -> (r: String)
    ensures
        r@ == cleaned(p@),
{
    proof {
        reveal_strlit("/");
        reveal_strlit(".");
        reveal_strlit("..");
        assert("/"@ =~= seq!['/']);
        assert("."@ =~= seq!['.']);
        assert(".."@ =~= seq!['.', '.']);
    }
    if p.is_empty() {
        let r = String::new();
        proof {
            assert(p@.len() == 0);
            assert(r@ =~= cleaned(p@));
        }
        return r;
    }
    let rooted: bool = starts_with(p, "/");
    proof {
        assert(rooted == (p@[0] == '/')) by {
            if p@[0] == '/' {
                assert(p@.subrange(0, 1) =~= seq!['/']);
            } else {
                assert(p@.subrange(0, 1)[0] != '/');
            }
        }
    }
    let segs = split_at(p, Class::Only('/'));
    let ghost all = texts(segs@);
    let mut out: Vec<String> = Vec::new();
    let mut i: usize = 0;
    proof {
        assert(texts(out@) =~= clean_segments(rooted, all.take(0)));
    }
    while i < segs.len()
        invariant
            i <= segs@.len(),
            all == texts(segs@),
            "."@ == seq!['.'],
            ".."@ == seq!['.', '.'],
            texts(out@) == clean_segments(rooted, all.take(i as int)),
        decreases segs@.len() - i,
    {
        let seg: &str = segs[i].as_str();
        proof {
            assert(all.take(i + 1).drop_last() =~= all.take(i as int));
            assert(all.take(i + 1).last() == seg@);
        }
        if !seg.is_empty() && !same(seg, ".") {
            let up: bool = same(seg, "..");
            if up && out.len() > 0 && !same(out[out.len() - 1].as_str(), "..") {
                proof {
                    assert(texts(out@).last() == out@.last()@);
                    assert(texts(out@.drop_last()) =~= texts(out@).drop_last());
                }
                let _ = out.pop();
            } else if !up || !rooted {
                proof {
                    if out@.len() > 0 {
                        assert(texts(out@).last() == out@.last()@);
                    }
                    lemma_texts_push(out@, segs@[i as int]);
                }
                out.push(segs[i].clone());
            } else {
                proof {
                    if out@.len() > 0 {
                        assert(texts(out@).last() == out@.last()@);
                    }
                }
            }
        }
        i += 1;
    }
    proof {
        assert(all.take(all.len() as int) =~= all);
    }
    let joined = join_with(&out, "/");
    if rooted {
        let mut r: String = String::new();
        push_char(&mut r, '/');
        r.append(joined.as_str());
        proof {
            assert(r@ =~= seq!['/'] + joined@);
        }
        r
    } else if joined.as_str().is_empty() {
        let mut r: String = String::new();
        push_char(&mut r, '.');
        proof {
            assert(r@ =~= seq!['.']);
        }
        r
    } else {
        joined
    }
}

// ---------------------------------------------------------------- tickets

/// A part of a ticket, written as `text` behind what marks it. A part that
/// is not given is left out.
pub open spec fn part(given: Seq<char>, mark: Seq<char>, text: Seq<char>) -> Seq<char> {
    if given.len() == 0 {
        seq![]
    } else {
        mark + text
    }
}

/// A ticket up to its language.
pub open spec fn ticket_head(v: VNameView) -> Seq<char> {
    "kythe:"@ + part(v.corpus, "//"@, escaped(v.corpus, true)) + part(
        v.language,
        "?lang="@,
        escaped(v.language, false),
    )
}

/// The ticket of a name.
pub open spec fn ticket_of(v: VNameView) -> Seq<char> {
    ticket_head(v) + part(v.path, "?path="@, escaped(cleaned(v.path), true)) + part(
        v.root,
        "?root="@,
        escaped(v.root, true),
    ) + part(v.signature, "#"@, escaped(v.signature, false))
}

/// Appends a part of a ticket.
fn push_part(out: &mut String, given: &str, mark: &str, text: &str)
    ensures
        final(out)@ == old(out)@ + part(given@, mark@, text@),
{
    if !given.is_empty() {
        out.append(mark);
        out.append(text);
        proof {
            assert(out@ =~= old(out)@ + (mark@ + text@));
        }
    } else {
        proof {
            assert(given@.len() == 0);
            assert(out@ + part(given@, mark@, text@) =~= out@);
        }
    }
}

impl VName {
    /// The ticket of this name.
    pub fn to_ticket(&self) -> (r: String)
        ensures
            r@ == ticket_of(self@),
    {
        let corpus = escape(self.corpus.as_str(), true);
        let language = escape(self.language.as_str(), false);
        let path = escape(clean_path(self.path.as_str()).as_str(), true);
        let root = escape(self.root.as_str(), true);
        let signature = escape(self.signature.as_str(), false);
        let mut s: String = "kythe:".to_string();
        push_part(&mut s, self.corpus.as_str(), "//", corpus.as_str());
        push_part(&mut s, self.language.as_str(), "?lang=", language.as_str());
        push_part(&mut s, self.path.as_str(), "?path=", path.as_str());
        push_part(&mut s, self.root.as_str(), "?root=", root.as_str());
        push_part(&mut s, self.signature.as_str(), "#", signature.as_str());
        s
    }
}

/// A ticket, and not a name.
pub open spec fn ticket_like(s: Seq<char>) -> bool {
    "kythe:"@.is_prefix_of(s)
}

/// Whether `s` is a ticket, and not a name.
pub fn is_ticket(s: &str) -> (r: bool)
    ensures
        r == ticket_like(s@),
{
    starts_with(s, "kythe:")
}

/// The path in a ticket; the ticket itself where it has none.
pub open spec fn ticket_path(t: Seq<char>) -> Seq<char> {
    match find_from(t, "?path="@, 0) {
        None => t,
        Some(at) => percent_decoded(
            t.subrange(at + 6, first_of(t, Class::Either('?', '#'), at + 6)),
        ),
    }
}

/// The path in a ticket; the ticket itself where it has none.
pub fn path_of(ticket: &str) -> (r: String)
    ensures
        r@ == ticket_path(ticket@),
{
    let t = chars_of(ticket);
    let mark = chars_of("?path=");
    let size: usize = t.len();
    proof {
        reveal_strlit("?path=");
        crate::text::lemma_find(ticket@, "?path="@, 0);
    }
    match find_chars(t.as_slice(), mark.as_slice(), 0) {
        None => ticket.to_string(),
        Some(at) => {
            proof {
                assert(at + 6 <= size);
            }
            let lo: usize = at + 6;
            let hi: usize = find_class(t.as_slice(), Class::Either('?', '#'), lo);
            percent_decode(string_of(t.as_slice(), lo, hi).as_str())
        },
    }
}

/// The signature in a ticket: what follows its last `#`.
pub open spec fn ticket_signature(t: Seq<char>) -> Seq<char> {
    let at = behind_last(t, Class::Only('#'), t.len() as int);
    if at == 0 {
        seq![]
    } else {
        percent_decoded(t.skip(at))
    }
}

/// The signature in a ticket; empty where it has none.
pub fn sig_of(ticket: &str) -> (r: String)
    ensures
        r@ == ticket_signature(ticket@),
{
    let t = chars_of(ticket);
    let at: usize = find_last_class(t.as_slice(), Class::Only('#'), t.len());
    if at == 0 {
        String::new()
    } else {
        let s = string_of(t.as_slice(), at, t.len());
        proof {
            assert(s@ =~= ticket@.skip(at as int));
        }
        percent_decode(s.as_str())
    }
}

// ------------------------------------------------------------------- laws

/// Escaped text is ASCII and holds neither of the marks that end a part, nor
/// a tab or what ends a line.
pub proof fn lemma_escaped_plain(b: Seq<u8>, keep_slash: bool)
    ensures
        is_ascii_chars(escaped_bytes(b, keep_slash)),
        forall|i: int|
            0 <= i < escaped_bytes(b, keep_slash).len() ==> {
                let c = #[trigger] escaped_bytes(b, keep_slash)[i];
                c != '?' && c != '#' && c != '\t' && c != '\n' && c != '\r'
            },
    decreases b.len(),
{
    if b.len() > 0 {
        lemma_escaped_plain(b.skip(1), keep_slash);
    }
}

/// The characters as bytes.
spec fn as_bytes(s: Seq<char>) -> Seq<u8> {
    s.map_values(|c: char| c as u8)
}

proof fn lemma_decoded(b: Seq<u8>, keep_slash: bool)
    ensures
        decoded_bytes(as_bytes(escaped_bytes(b, keep_slash))) == b,
    decreases b.len(),
{
    if b.len() == 0 {
        assert(decoded_bytes(as_bytes(escaped_bytes(b, keep_slash))) =~= b);
    } else {
        let rest = b.skip(1);
        lemma_decoded(rest, keep_slash);
        let first = escaped_byte(b[0], keep_slash);
        let e = as_bytes(escaped_bytes(b, keep_slash));
        let tail = as_bytes(escaped_bytes(rest, keep_slash));
        assert(e =~= as_bytes(first) + tail);
        if first.len() == 1 {
            assert(e[0] == b[0]);
            assert(e.skip(1) =~= tail);
        } else {
            let h = b[0] / 16;
            let l = b[0] % 16;
            assert(e[0] == 0x25 && e[1] == hex_digit(h as int) as u8 && e[2] == hex_digit(
                l as int,
            ) as u8);
            assert(hex_value(e[1]) == Some(h) && hex_value(e[2]) == Some(l));
            assert(e.skip(3) =~= tail);
            assert(h * 16 + l == b[0]);
        }
        assert(seq![b[0]] + rest =~= b);
    }
}

/// Escaping loses nothing: undoing it gives the text back.
pub proof fn lemma_escape_round_trip(s: Seq<char>, keep_slash: bool)
    ensures
        percent_decoded(escaped(s, keep_slash)) == s,
{
    let e = escaped(s, keep_slash);
    lemma_escaped_plain(encode_utf8(s), keep_slash);
    vstd::utf8::is_ascii_chars_encode_utf8(e);
    assert(encode_utf8(e) =~= as_bytes(e));
    lemma_decoded(encode_utf8(s), keep_slash);
    crate::kzip::lemma_lossy_round_trip(s);
}

/// The ticket of a name is a ticket.
pub proof fn lemma_ticket_like(v: VNameView)
    ensures
        ticket_like(ticket_of(v)),
{
    let t = ticket_of(v);
    reveal_strlit("kythe:");
    assert(t.subrange(0, 6) =~= "kythe:"@);
}

/// A character that can stand in a line: no tab, and not what ends the line.
pub open spec fn in_line(c: char) -> bool {
    c != '\t' && c != '\n' && c != '\r'
}

proof fn lemma_part_line(given: Seq<char>, mark: Seq<char>, s: Seq<char>, keep_slash: bool)
    requires
        forall|i: int| 0 <= i < mark.len() ==> in_line(#[trigger] mark[i]),
    ensures
        forall|i: int|
            0 <= i < part(given, mark, escaped(s, keep_slash)).len() ==> in_line(
                #[trigger] part(given, mark, escaped(s, keep_slash))[i],
            ),
{
    let e = escaped(s, keep_slash);
    lemma_escaped_plain(encode_utf8(s), keep_slash);
    let p = part(given, mark, e);
    assert forall|i: int| 0 <= i < p.len() implies in_line(#[trigger] p[i]) by {
        if i < mark.len() {
            assert(p[i] == mark[i]);
        } else {
            assert(p[i] == e[i - mark.len()]);
        }
    }
}

/// A ticket holds no tab and stands in one line.
pub proof fn lemma_ticket_line(v: VNameView)
    ensures
        forall|i: int| 0 <= i < ticket_of(v).len() ==> in_line(#[trigger] ticket_of(v)[i]),
{
    reveal_strlit("kythe:");
    reveal_strlit("//");
    reveal_strlit("?lang=");
    reveal_strlit("?path=");
    reveal_strlit("?root=");
    reveal_strlit("#");
    let a = "kythe:"@;
    let b = part(v.corpus, "//"@, escaped(v.corpus, true));
    let c = part(v.language, "?lang="@, escaped(v.language, false));
    let d = part(v.path, "?path="@, escaped(cleaned(v.path), true));
    let e = part(v.root, "?root="@, escaped(v.root, true));
    let f = part(v.signature, "#"@, escaped(v.signature, false));
    lemma_part_line(v.corpus, "//"@, v.corpus, true);
    lemma_part_line(v.language, "?lang="@, v.language, false);
    lemma_part_line(v.path, "?path="@, cleaned(v.path), true);
    lemma_part_line(v.root, "?root="@, v.root, true);
    lemma_part_line(v.signature, "#"@, v.signature, false);
    let t = ticket_of(v);
    assert(t =~= a + b + c + d + e + f);
    assert forall|i: int| 0 <= i < t.len() implies in_line(#[trigger] t[i]) by {
        let n = a.len() as int;
        let n2 = n + b.len();
        let n3 = n2 + c.len();
        let n4 = n3 + d.len();
        let n5 = n4 + e.len();
        if i < n {
            assert(t[i] == a[i]);
        } else if i < n2 {
            assert(t[i] == b[i - n]);
        } else if i < n3 {
            assert(t[i] == c[i - n2]);
        } else if i < n4 {
            assert(t[i] == d[i - n3]);
        } else if i < n5 {
            assert(t[i] == e[i - n4]);
        } else {
            assert(t[i] == f[i - n5]);
        }
    }
}

/// The path of a name can be read from its ticket, in its clean form.
pub proof fn lemma_ticket_path(v: VNameView)
    requires
        v.path.len() > 0,
    ensures
        ticket_path(ticket_of(v)) == cleaned(v.path),
{
    let t = ticket_of(v);
    let head = ticket_head(v);
    let path = escaped(cleaned(v.path), true);
    let tail = part(v.root, "?root="@, escaped(v.root, true)) + part(
        v.signature,
        "#"@,
        escaped(v.signature, false),
    );
    reveal_strlit("kythe:");
    reveal_strlit("//");
    reveal_strlit("?lang=");
    reveal_strlit("?path=");
    reveal_strlit("?root=");
    reveal_strlit("#");
    lemma_escaped_plain(encode_utf8(v.corpus), true);
    lemma_escaped_plain(encode_utf8(v.language), false);
    lemma_escaped_plain(encode_utf8(cleaned(v.path)), true);
    assert(t =~= head + ("?path="@ + path) + tail);
    let at = head.len() as int;
    assert(t.subrange(at, at + 6) =~= "?path="@);
    // The only `?` before the path's is the language's.
    let lang_at = ("kythe:"@ + part(v.corpus, "//"@, escaped(v.corpus, true))).len() as int;
    assert forall|j: int| 0 <= j < at implies !occurs_at(t, "?path="@, j) by {
        if occurs_at(t, "?path="@, j) {
            let here = t.subrange(j, j + 6);
            assert(here[0] == '?' && here[1] == 'p');
            assert(t[j] == '?' && t[j + 1] == 'p');
            assert(t[j] == head[j]);
            if j < lang_at {
                assert(head[j] == ("kythe:"@ + part(v.corpus, "//"@, escaped(v.corpus, true)))[j]);
                assert(false);
            } else if j == lang_at {
                assert(head[j + 1] == 'l');
                assert(t[j + 1] == head[j + 1]);
            } else {
                let lang = part(v.language, "?lang="@, escaped(v.language, false));
                assert(head[j] == lang[j - lang_at]);
            }
        }
    }
    lemma_find_is(t, "?path="@, 0, at);
    let end = at + 6 + path.len();
    let class = Class::Either('?', '#');
    assert forall|j: int| at + 6 <= j < end implies !class.holds(#[trigger] t[j]) by {
        assert(t[j] == path[j - at - 6]);
    }
    assert(end < t.len() ==> class.holds(t[end])) by {
        if end < t.len() {
            assert(t[end] == tail[0]);
        }
    }
    lemma_first_of(t, class, at + 6);
    assert(first_of(t, class, at + 6) == end);
    assert(t.subrange(at + 6, end) =~= path);
    lemma_escape_round_trip(cleaned(v.path), true);
}

/// The place behind the last character of a class, where it is known.
pub proof fn lemma_behind_last(s: Seq<char>, class: Class, to: int, at: int)
    requires
        0 <= at <= to <= s.len(),
        at > 0 ==> class.holds(s[at - 1]),
        forall|j: int| at <= j < to ==> !class.holds(#[trigger] s[j]),
    ensures
        behind_last(s, class, to) == at,
    decreases to,
{
    if to > at {
        assert(!class.holds(s[to - 1]));
        lemma_behind_last(s, class, to - 1, at);
    }
}

/// The signature of a name can be read from its ticket.
pub proof fn lemma_ticket_signature(v: VNameView)
    ensures
        ticket_signature(ticket_of(v)) == v.signature,
{
    let t = ticket_of(v);
    let sig = escaped(v.signature, false);
    let class = Class::Only('#');
    reveal_strlit("kythe:");
    reveal_strlit("//");
    reveal_strlit("?lang=");
    reveal_strlit("?path=");
    reveal_strlit("?root=");
    reveal_strlit("#");
    lemma_escaped_plain(encode_utf8(v.corpus), true);
    lemma_escaped_plain(encode_utf8(v.language), false);
    lemma_escaped_plain(encode_utf8(cleaned(v.path)), true);
    lemma_escaped_plain(encode_utf8(v.root), true);
    lemma_escaped_plain(encode_utf8(v.signature), false);
    let c1 = part(v.corpus, "//"@, escaped(v.corpus, true));
    let c2 = part(v.language, "?lang="@, escaped(v.language, false));
    let c3 = part(v.path, "?path="@, escaped(cleaned(v.path), true));
    let c4 = part(v.root, "?root="@, escaped(v.root, true));
    let front = "kythe:"@ + c1 + c2 + c3 + c4;
    assert forall|j: int| 0 <= j < front.len() implies !class.holds(#[trigger] front[j]) by {
        let n1 = "kythe:"@.len();
        let n2 = n1 + c1.len();
        let n3 = n2 + c2.len();
        let n4 = n3 + c3.len();
        if j < n1 {
            assert(front[j] == "kythe:"@[j]);
        } else if j < n2 {
            assert(front[j] == c1[j - n1]);
        } else if j < n3 {
            assert(front[j] == c2[j - n2]);
        } else if j < n4 {
            assert(front[j] == c3[j - n3]);
        } else {
            assert(front[j] == c4[j - n4]);
        }
    }
    if v.signature.len() == 0 {
        assert(t =~= front);
        lemma_behind_last(t, class, t.len() as int, 0);
        assert(v.signature =~= seq![]);
    } else {
        let at = (front.len() + 1) as int;
        assert(t =~= front + ("#"@ + sig));
        assert(t[at - 1] == '#');
        assert forall|j: int| at <= j < t.len() implies !class.holds(#[trigger] t[j]) by {
            assert(t[j] == sig[j - at]);
        }
        lemma_behind_last(t, class, t.len() as int, at);
        assert(t.skip(at) =~= sig);
        lemma_escape_round_trip(v.signature, false);
    }
}

/// A name without a path has the ticket itself where a path would be read.
pub proof fn lemma_ticket_without_path(v: VNameView)
    requires
        v.path.len() == 0,
    ensures
        ticket_path(ticket_of(v)) == ticket_of(v),
{
    let t = ticket_of(v);
    reveal_strlit("kythe:");
    reveal_strlit("//");
    reveal_strlit("?lang=");
    reveal_strlit("?path=");
    reveal_strlit("?root=");
    reveal_strlit("#");
    lemma_escaped_plain(encode_utf8(v.corpus), true);
    lemma_escaped_plain(encode_utf8(v.language), false);
    lemma_escaped_plain(encode_utf8(v.root), true);
    lemma_escaped_plain(encode_utf8(v.signature), false);
    let a = "kythe:"@ + part(v.corpus, "//"@, escaped(v.corpus, true));
    let b = part(v.language, "?lang="@, escaped(v.language, false));
    let c = part(v.root, "?root="@, escaped(v.root, true));
    let d = part(v.signature, "#"@, escaped(v.signature, false));
    assert(t =~= a + b + c + d);
    assert forall|j: int| 0 <= j implies !occurs_at(t, "?path="@, j) by {
        if occurs_at(t, "?path="@, j) {
            let here = t.subrange(j, j + 6);
            assert(here[0] == '?' && here[1] == 'p');
            assert(t[j] == '?' && t[j + 1] == 'p');
            let n2 = (a.len() + b.len()) as int;
            let n3 = (n2 + c.len()) as int;
            if j < a.len() {
                assert(t[j] == a[j]);
            } else if j < n2 {
                assert(t[j] == b[j - a.len()]);
                assert(j == a.len());
                assert(t[j + 1] == b[1]);
            } else if j < n3 {
                assert(t[j] == c[j - n2]);
                assert(j == n2);
                assert(t[j + 1] == c[1]);
            } else {
                assert(t[j] == d[j - n3]);
            }
        }
    }
    crate::text::lemma_find(t, "?path="@, 0);
}

// ---- tickets tell names apart

/// Text that can stand in a part of a ticket: neither mark that ends it.
spec fn plain(s: Seq<char>) -> bool {
    forall|i: int| 0 <= i < s.len() ==> #[trigger] s[i] != '?' && s[i] != '#'
}

/// What can stand behind a part of a ticket: nothing, or another part.
spec fn is_rest(s: Seq<char>) -> bool {
    s.len() == 0 || s[0] == '?' || s[0] == '#'
}

/// Text and what stands behind it can be told apart.
proof fn lemma_cut(x1: Seq<char>, y1: Seq<char>, x2: Seq<char>, y2: Seq<char>)
    requires
        plain(x1),
        plain(x2),
        is_rest(y1),
        is_rest(y2),
        x1 + y1 == x2 + y2,
    ensures
        x1 == x2,
        y1 == y2,
{
    let t = x1 + y1;
    if x1.len() < x2.len() {
        assert(t[x1.len() as int] == x2[x1.len() as int]);
        assert(t[x1.len() as int] == y1[0]);
    } else if x2.len() < x1.len() {
        assert(t[x2.len() as int] == x1[x2.len() as int]);
        assert(t[x2.len() as int] == y2[0]);
    }
    assert(x1 =~= t.take(x1.len() as int));
    assert(x2 =~= t.take(x1.len() as int));
    assert(y1 =~= t.skip(x1.len() as int));
    assert(y2 =~= t.skip(x1.len() as int));
}

/// A part and what stands behind it can be told apart.
proof fn lemma_part_cut(
    mark: Seq<char>,
    g1: Seq<char>,
    t1: Seq<char>,
    r1: Seq<char>,
    g2: Seq<char>,
    t2: Seq<char>,
    r2: Seq<char>,
)
    requires
        part(g1, mark, t1) + r1 == part(g2, mark, t2) + r2,
        plain(t1),
        plain(t2),
        is_rest(r1),
        is_rest(r2),
        !mark.is_prefix_of(r1),
        !mark.is_prefix_of(r2),
    ensures
        g1.len() == 0 <==> g2.len() == 0,
        g1.len() > 0 ==> t1 == t2,
        r1 == r2,
{
    let n = mark.len() as int;
    if g1.len() == 0 {
        assert(part(g1, mark, t1) + r1 =~= r1);
        if g2.len() == 0 {
            assert(part(g2, mark, t2) + r2 =~= r2);
        } else {
            assert(r1.take(n) =~= mark);
            assert(mark.is_prefix_of(r1));
        }
    } else if g2.len() == 0 {
        assert(part(g2, mark, t2) + r2 =~= r2);
        assert(r2.take(n) =~= mark);
        assert(mark.is_prefix_of(r2));
    } else {
        let all = part(g1, mark, t1) + r1;
        assert(t1 + r1 =~= all.skip(n));
        assert(t2 + r2 =~= all.skip(n));
        lemma_cut(t1, r1, t2, r2);
    }
}

/// The parts of a ticket from its signature, its root, its path and its
/// language on.
spec fn from_signature(v: VNameView) -> Seq<char> {
    part(v.signature, "#"@, escaped(v.signature, false))
}

spec fn from_root(v: VNameView) -> Seq<char> {
    part(v.root, "?root="@, escaped(v.root, true)) + from_signature(v)
}

spec fn from_path(v: VNameView) -> Seq<char> {
    part(v.path, "?path="@, escaped(cleaned(v.path), true)) + from_root(v)
}

spec fn from_language(v: VNameView) -> Seq<char> {
    part(v.language, "?lang="@, escaped(v.language, false)) + from_path(v)
}

/// What stands behind the parts of a ticket is a rest, and does not begin with
/// the mark of the part before it.
proof fn lemma_rests(v: VNameView)
    ensures
        is_rest(from_signature(v)) && !"?root="@.is_prefix_of(from_signature(v)),
        is_rest(from_root(v)) && !"?path="@.is_prefix_of(from_root(v)),
        is_rest(from_path(v)) && !"?lang="@.is_prefix_of(from_path(v)),
        is_rest(from_language(v)),
        plain(escaped(v.signature, false)),
        plain(escaped(v.root, true)),
        plain(escaped(cleaned(v.path), true)),
        plain(escaped(v.language, false)),
        plain(escaped(v.corpus, true)),
{
    reveal_strlit("?lang=");
    reveal_strlit("?path=");
    reveal_strlit("?root=");
    reveal_strlit("#");
    lemma_escaped_plain(encode_utf8(v.corpus), true);
    lemma_escaped_plain(encode_utf8(v.language), false);
    lemma_escaped_plain(encode_utf8(cleaned(v.path)), true);
    lemma_escaped_plain(encode_utf8(v.root), true);
    lemma_escaped_plain(encode_utf8(v.signature), false);
    let s = from_signature(v);
    let r = from_root(v);
    let p = from_path(v);
    assert(s.len() > 0 ==> s[0] == '#');
    assert(r.len() > 0 ==> r[0] == '#' || (r.len() > 1 && r[0] == '?' && r[1] == 'r'));
    assert(p.len() > 0 ==> p[0] == '#' || (p.len() > 1 && p[0] == '?' && (p[1] == 'r' || p[1]
        == 'p')));
    if "?root="@.is_prefix_of(s) {
        assert(s[0] == "?root="@[0]);
    }
    if "?path="@.is_prefix_of(r) {
        assert(r[0] == "?path="@[0] && r[1] == "?path="@[1]);
    }
    if "?lang="@.is_prefix_of(p) {
        assert(p[0] == "?lang="@[0] && p[1] == "?lang="@[1]);
    }
}

/// Escaping tells texts apart.
proof fn lemma_escape_apart(a: Seq<char>, b: Seq<char>, keep_slash: bool)
    requires
        escaped(a, keep_slash) == escaped(b, keep_slash),
    ensures
        a == b,
{
    lemma_escape_round_trip(a, keep_slash);
    lemma_escape_round_trip(b, keep_slash);
}

/// A ticket up to its corpus.
spec fn to_corpus(v: VNameView) -> Seq<char> {
    "kythe:"@ + part(v.corpus, "//"@, escaped(v.corpus, true))
}

proof fn lemma_ticket_parts(v: VNameView)
    ensures
        ticket_of(v) == to_corpus(v) + from_language(v),
{
    let a = to_corpus(v);
    let b = part(v.language, "?lang="@, escaped(v.language, false));
    let c = part(v.path, "?path="@, escaped(cleaned(v.path), true));
    let d = part(v.root, "?root="@, escaped(v.root, true));
    let e = from_signature(v);
    assert(a + b + c + d + e =~= a + (b + (c + (d + e))));
}

proof fn lemma_to_corpus(v: VNameView)
    ensures
        plain(to_corpus(v)),
        v.corpus.len() == 0 ==> to_corpus(v).len() == 6,
        v.corpus.len() > 0 ==> to_corpus(v).len() >= 8 && to_corpus(v).skip(8) == escaped(
            v.corpus,
            true,
        ),
{
    reveal_strlit("kythe:");
    reveal_strlit("//");
    lemma_escaped_plain(encode_utf8(v.corpus), true);
    let e = escaped(v.corpus, true);
    if v.corpus.len() > 0 {
        assert(to_corpus(v).skip(8) =~= e);
    }
    assert forall|i: int| 0 <= i < to_corpus(v).len() implies #[trigger] to_corpus(v)[i] != '?'
        && to_corpus(v)[i] != '#' by {
        if i >= 8 {
            assert(to_corpus(v)[i] == e[i - 8]);
        }
    }
}

proof fn lemma_corpus_apart(a: VNameView, b: VNameView)
    requires
        ticket_of(a) == ticket_of(b),
    ensures
        a.corpus == b.corpus,
        from_language(a) == from_language(b),
{
    lemma_ticket_parts(a);
    lemma_ticket_parts(b);
    lemma_to_corpus(a);
    lemma_to_corpus(b);
    lemma_rests(a);
    lemma_rests(b);
    lemma_cut(to_corpus(a), from_language(a), to_corpus(b), from_language(b));
    if a.corpus.len() > 0 {
        lemma_escape_apart(a.corpus, b.corpus, true);
    } else {
        assert(a.corpus =~= b.corpus);
    }
}

proof fn lemma_language_apart(a: VNameView, b: VNameView)
    requires
        from_language(a) == from_language(b),
    ensures
        a.language == b.language,
        from_path(a) == from_path(b),
{
    lemma_rests(a);
    lemma_rests(b);
    lemma_part_cut(
        "?lang="@,
        a.language,
        escaped(a.language, false),
        from_path(a),
        b.language,
        escaped(b.language, false),
        from_path(b),
    );
    if a.language.len() > 0 {
        lemma_escape_apart(a.language, b.language, false);
    } else {
        assert(a.language =~= b.language);
    }
}

proof fn lemma_path_apart(a: VNameView, b: VNameView)
    requires
        from_path(a) == from_path(b),
    ensures
        cleaned(a.path) == cleaned(b.path),
        from_root(a) == from_root(b),
{
    lemma_rests(a);
    lemma_rests(b);
    lemma_part_cut(
        "?path="@,
        a.path,
        escaped(cleaned(a.path), true),
        from_root(a),
        b.path,
        escaped(cleaned(b.path), true),
        from_root(b),
    );
    if a.path.len() > 0 {
        lemma_escape_apart(cleaned(a.path), cleaned(b.path), true);
    } else {
        assert(a.path =~= b.path);
    }
}

proof fn lemma_root_apart(a: VNameView, b: VNameView)
    requires
        from_root(a) == from_root(b),
    ensures
        a.root == b.root,
        from_signature(a) == from_signature(b),
{
    lemma_rests(a);
    lemma_rests(b);
    lemma_part_cut(
        "?root="@,
        a.root,
        escaped(a.root, true),
        from_signature(a),
        b.root,
        escaped(b.root, true),
        from_signature(b),
    );
    if a.root.len() > 0 {
        lemma_escape_apart(a.root, b.root, true);
    } else {
        assert(a.root =~= b.root);
    }
}

/// Two names have one ticket if and only if they agree in signature, corpus,
/// root and language, and in their paths once these are clean.
pub proof fn lemma_ticket_apart(a: VNameView, b: VNameView)
    ensures
        ticket_of(a) == ticket_of(b) <==> {
            &&& a.signature == b.signature
            &&& a.corpus == b.corpus
            &&& a.root == b.root
            &&& a.language == b.language
            &&& cleaned(a.path) == cleaned(b.path)
        },
{
    if ticket_of(a) == ticket_of(b) {
        lemma_corpus_apart(a, b);
        lemma_language_apart(a, b);
        lemma_path_apart(a, b);
        lemma_root_apart(a, b);
        lemma_ticket_signature(a);
        lemma_ticket_signature(b);
    }
    lemma_clean_shape(a.path);
    lemma_clean_shape(b.path);
}

// ---- clean paths

/// Splitting takes joined pieces apart again.
pub proof fn lemma_split_join(list: Seq<Seq<char>>, sep: char)
    requires
        list.len() > 0,
        forall|i: int, j: int|
            0 <= i < list.len() && 0 <= j < list[i].len() ==> #[trigger] list[i][j] != sep,
    ensures
        split(join(list, seq![sep]), Class::Only(sep)) == list,
    decreases list.len(),
{
    let class = Class::Only(sep);
    if list.len() == 1 {
        let s = list[0];
        let none = Seq::<char>::empty();
        lemma_split_push_text(none, s, class);
        assert(none + s =~= s);
        assert(none + s == s);
        assert(split(none, class).drop_last() =~= seq![]);
        assert(split(s, class) =~= list);
    } else {
        let front = list.drop_last();
        assert forall|i: int, j: int|
            0 <= i < front.len() && 0 <= j < front[i].len() implies #[trigger] front[i][j]
            != sep by {
            assert(front[i][j] == list[i][j]);
        }
        lemma_split_join(front, sep);
        let head = join(front, seq![sep]);
        let mid = head + seq![sep];
        assert(mid.drop_last() =~= head);
        assert(split(mid, class) =~= front.push(seq![]));
        let last = list.last();
        assert forall|i: int| 0 <= i < last.len() implies !class.holds(#[trigger] last[i]) by {
            assert(last[i] == list[list.len() - 1][i]);
        }
        lemma_split_push_text(mid, last, class);
        assert(split(mid, class).drop_last() =~= front);
        assert(Seq::<char>::empty() + last =~= last);
        assert(front.push(last) =~= list);
    }
}

/// A segment that cleaning may leave: it is not empty, not `.`, and holds no
/// slash.
spec fn solid(seg: Seq<char>) -> bool {
    &&& seg.len() > 0
    &&& seg != seq!['.']
    &&& forall|j: int| 0 <= j < seg.len() ==> #[trigger] seg[j] != '/'
}

/// Segments as cleaning leaves them: `..` only stands at the start, and not
/// at all under the root.
spec fn tidy(rooted: bool, segs: Seq<Seq<char>>) -> bool {
    &&& forall|i: int| 0 <= i < segs.len() ==> solid(#[trigger] segs[i])
    &&& forall|i: int|
        0 <= i < segs.len() && #[trigger] segs[i] == seq!['.', '.'] ==> !rooted && forall|k: int|
            0 <= k < i ==> #[trigger] segs[k] == seq!['.', '.']
}

proof fn lemma_clean_tidy(rooted: bool, segs: Seq<Seq<char>>)
    requires
        forall|i: int, j: int|
            0 <= i < segs.len() && 0 <= j < segs[i].len() ==> #[trigger] segs[i][j] != '/',
    ensures
        tidy(rooted, clean_segments(rooted, segs)),
    decreases segs.len(),
{
    if segs.len() > 0 {
        let front = segs.drop_last();
        assert forall|i: int, j: int|
            0 <= i < front.len() && 0 <= j < front[i].len() implies #[trigger] front[i][j]
            != '/' by {
            assert(front[i][j] == segs[i][j]);
        }
        lemma_clean_tidy(rooted, front);
        let out = clean_segments(rooted, front);
        let seg = segs.last();
        let next = clean_step(rooted, out, seg);
        let up = seq!['.', '.'];
        assert forall|j: int| 0 <= j < seg.len() implies #[trigger] seg[j] != '/' by {
            assert(seg[j] == segs[segs.len() - 1][j]);
        }
        if seg.len() > 0 && seg != seq!['.'] {
            assert(up.len() == 2);
            assert(solid(seg));
            if seg == up && !rooted && !(out.len() > 0 && out.last() != up) {
                // Every segment so far goes up.
                if out.len() > 0 {
                    assert(out[out.len() - 1] == up);
                }
                assert forall|k: int| 0 <= k < out.len() implies #[trigger] out[k] == up by {
                    if k < out.len() - 1 {
                        assert(out[out.len() - 1] == up);
                    }
                }
            }
        }
        assert(tidy(rooted, next));
    }
}

proof fn lemma_tidy_stays(rooted: bool, segs: Seq<Seq<char>>)
    requires
        tidy(rooted, segs),
    ensures
        clean_segments(rooted, segs) == segs,
    decreases segs.len(),
{
    if segs.len() > 0 {
        let front = segs.drop_last();
        assert(tidy(rooted, front)) by {
            assert forall|i: int| 0 <= i < front.len() implies solid(#[trigger] front[i]) by {
                assert(front[i] == segs[i]);
            }
            assert forall|i: int|
                0 <= i < front.len() && #[trigger] front[i] == seq!['.', '.'] implies !rooted
                && forall|k: int| 0 <= k < i ==> #[trigger] front[k] == seq!['.', '.'] by {
                assert(front[i] == segs[i]);
                assert forall|k: int| 0 <= k < i implies #[trigger] front[k] == seq![
                    '.',
                    '.',
                ] by {
                    assert(front[k] == segs[k]);
                }
            }
        }
        lemma_tidy_stays(rooted, front);
        let seg = segs.last();
        assert(seg == segs[segs.len() - 1]);
        assert(solid(segs[segs.len() - 1]));
        if seg == seq!['.', '.'] && front.len() > 0 {
            assert(segs[front.len() - 1] == seq!['.', '.']);
            assert(front.last() == segs[front.len() - 1]);
        }
        assert(front.push(seg) =~= segs);
    }
}

/// The segments between the slashes of a path, behind the one that it begins
/// with.
pub open spec fn segments_of(p: Seq<char>) -> Seq<Seq<char>> {
    let rest = if p.len() > 0 && p[0] == '/' {
        p.skip(1)
    } else {
        p
    };
    if rest.len() == 0 {
        seq![]
    } else {
        split(rest, Class::Only('/'))
    }
}

/// What a clean path looks like: it is empty only where the path was, and
/// begins with a slash only where the path did. Unless it is `.`, it has no
/// segment that is empty or `.`, and `..` stands in it only before every other
/// segment, and not at all under the root.
pub proof fn lemma_clean_shape(p: Seq<char>)
    ensures
        ({
            let c = cleaned(p);
            let segs = segments_of(c);
            &&& c.len() == 0 <==> p.len() == 0
            &&& p.len() > 0 ==> (c[0] == '/' <==> p[0] == '/')
            &&& c != seq!['.'] ==> forall|i: int|
                0 <= i < segs.len() ==> (#[trigger] segs[i]).len() > 0 && segs[i] != seq!['.']
            &&& forall|i: int, k: int|
                0 <= k < i < segs.len() && #[trigger] segs[i] == seq!['.', '.'] ==> #[trigger] segs[k]
                    == seq!['.', '.']
            &&& forall|i: int|
                0 <= i < segs.len() && #[trigger] segs[i] == seq!['.', '.'] ==> p[0] != '/'
        }),
{
    if p.len() > 0 {
        let class = Class::Only('/');
        let rooted = p[0] == '/';
        lemma_split(p, class);
        let pieces = split(p, class);
        assert forall|i: int, j: int|
            0 <= i < pieces.len() && 0 <= j < pieces[i].len() implies #[trigger] pieces[i][j]
            != '/' by {
            assert(!class.holds(pieces[i][j]));
        }
        lemma_clean_tidy(rooted, pieces);
        let segs = clean_segments(rooted, pieces);
        let joined = join(segs, seq!['/']);
        let c = cleaned(p);
        lemma_join_start(segs);
        if segs.len() > 0 {
            assert(solid(segs[0]));
            assert(segs[0][0] != '/');
            assert forall|i: int, j: int|
                0 <= i < segs.len() && 0 <= j < segs[i].len() implies #[trigger] segs[i][j]
                != '/' by {
                assert(solid(segs[i]));
            }
            lemma_split_join(segs, '/');
            if rooted {
                assert(c.skip(1) =~= joined);
            }
            assert(segments_of(c) == segs);
            assert forall|i: int| 0 <= i < segs.len() implies (#[trigger] segs[i]).len() > 0
                && segs[i] != seq!['.'] by {
                assert(solid(segs[i]));
            }
        } else if rooted {
            assert(c.skip(1).len() == 0);
        } else {
            assert(c =~= seq!['.']);
            let none = Seq::<char>::empty();
            assert(c.drop_last() =~= none);
            assert(split(none, class) =~= seq![none]);
            assert(none.push('.') =~= seq!['.']);
            assert(split(c, class) =~= seq![seq!['.']]);
            assert(seq!['.'].len() != seq!['.', '.'].len());
        }
    }
}

/// A clean path stays as it is.
pub proof fn lemma_clean_twice(p: Seq<char>)
    ensures
        cleaned(cleaned(p)) == cleaned(p),
{
    if p.len() > 0 {
        let class = Class::Only('/');
        let rooted = p[0] == '/';
        lemma_split(p, class);
        let pieces = split(p, class);
        assert forall|i: int, j: int|
            0 <= i < pieces.len() && 0 <= j < pieces[i].len() implies #[trigger] pieces[i][j]
            != '/' by {
            assert(!class.holds(pieces[i][j]));
        }
        lemma_clean_tidy(rooted, pieces);
        let segs = clean_segments(rooted, pieces);
        lemma_tidy_stays(rooted, segs);
        let joined = join(segs, seq!['/']);
        let q = cleaned(p);
        lemma_join_start(segs);
        if rooted {
            // "/" + joined splits into an empty piece and the segments.
            assert(q[0] == '/');
            let none = Seq::<char>::empty();
            let list = seq![none] + segs;
            if segs.len() == 0 {
                assert(q =~= seq!['/']);
                assert(q.drop_last() =~= none);
                assert(split(none, class) =~= seq![none]);
                assert(split(q, class) =~= seq![none, none]);
                assert(seq![none, none].drop_last() =~= seq![none]);
                assert(seq![none].drop_last() =~= seq![]);
                reveal_with_fuel(clean_segments, 3);
                assert(clean_segments(true, split(q, class)) =~= seq![]);
            } else {
                lemma_join_front(segs);
                assert(q =~= join(list, seq!['/']));
                assert forall|i: int, j: int|
                    0 <= i < list.len() && 0 <= j < list[i].len() implies #[trigger] list[i][j]
                    != '/' by {
                    if i > 0 {
                        assert(list[i] == segs[i - 1]);
                        assert(solid(segs[i - 1]));
                    }
                }
                lemma_split_join(list, '/');
                lemma_clean_skip(rooted, segs);
            }
        } else if joined.len() == 0 {
            assert(q =~= seq!['.']);
            let none = Seq::<char>::empty();
            assert(q.drop_last() =~= none);
            assert(split(none, class) =~= seq![none]);
            assert(seq![none].drop_last() =~= seq![]);
            assert(none.push('.') =~= seq!['.']);
            assert(split(q, class) =~= seq![seq!['.']]);
            assert(seq![seq!['.']].drop_last() =~= seq![]);
            reveal_with_fuel(clean_segments, 2);
            assert(clean_segments(false, split(q, class)) =~= seq![]);
        } else {
            assert(segs.len() > 0);
            assert forall|i: int, j: int|
                0 <= i < segs.len() && 0 <= j < segs[i].len() implies #[trigger] segs[i][j]
                != '/' by {
                assert(solid(segs[i]));
            }
            lemma_split_join(segs, '/');
            assert(solid(segs[0]));
            assert(q[0] == segs[0][0]);
        }
    }
}

/// Joined segments begin as the first of them.
proof fn lemma_join_start(segs: Seq<Seq<char>>)
    ensures
        segs.len() > 0 && segs[0].len() > 0 ==> join(segs, seq!['/']).len() > 0 && join(
            segs,
            seq!['/'],
        )[0] == segs[0][0],
    decreases segs.len(),
{
    if segs.len() > 1 {
        lemma_join_start(segs.drop_last());
    }
}

/// An empty piece in front is a slash in front.
proof fn lemma_join_front(segs: Seq<Seq<char>>)
    requires
        segs.len() > 0,
    ensures
        join(seq![Seq::<char>::empty()] + segs, seq!['/']) == seq!['/'] + join(segs, seq!['/']),
    decreases segs.len(),
{
    let list = seq![Seq::<char>::empty()] + segs;
    assert(list.last() == segs.last());
    assert(list.drop_last() =~= seq![Seq::<char>::empty()] + segs.drop_last());
    if segs.len() == 1 {
        let one = seq![Seq::<char>::empty()];
        assert(list.drop_last() =~= one);
        assert(join(one, seq!['/']) =~= seq![]);
        assert(join(list, seq!['/']) =~= seq!['/'] + join(segs, seq!['/']));
    } else {
        lemma_join_front(segs.drop_last());
        assert(join(list, seq!['/']) =~= seq!['/'] + join(segs, seq!['/']));
    }
}

/// An empty piece in front says nothing.
proof fn lemma_clean_skip(rooted: bool, segs: Seq<Seq<char>>)
    ensures
        clean_segments(rooted, seq![Seq::<char>::empty()] + segs) == clean_segments(rooted, segs),
    decreases segs.len(),
{
    let list = seq![Seq::<char>::empty()] + segs;
    if segs.len() == 0 {
        assert(list.drop_last() =~= seq![]);
        reveal_with_fuel(clean_segments, 2);
        assert(clean_segments(rooted, list) =~= seq![]);
    } else {
        assert(list.drop_last() =~= seq![Seq::<char>::empty()] + segs.drop_last());
        lemma_clean_skip(rooted, segs.drop_last());
    }
}


// ------------------------------------------- what the operations are for

/// A name says what its fields hold.
pub proof fn lemma_name_view_is(v: VName)
    ensures
        v@.signature == v.signature@,
        v@.corpus == v.corpus@,
        v@.root == v.root@,
        v@.path == v.path@,
        v@.language == v.language@,
{
}

/// How bytes are escaped: ASCII letters, digits and `-._~` stay, a slash where
/// it is kept, and any other byte is a percent sign and two hexadecimal digits,
/// in upper case, the high one first.
pub proof fn lemma_escaped_bytes_are(b: u8, rest: Seq<u8>, keep_slash: bool)
    ensures
        escaped_bytes(seq![], keep_slash).len() == 0,
        ({
            let stays = ('a' as u8 <= b <= 'z' as u8) || ('A' as u8 <= b <= 'Z' as u8) || (
            '0' as u8 <= b <= '9' as u8) || b == '-' as u8 || b == '.' as u8 || b == '_' as u8 || b
                == '~' as u8 || (b == '/' as u8 && keep_slash);
            let digit = |n: int|
                if n < 10 {
                    (48 + n) as char
                } else {
                    (55 + n) as char
                };
            let one = if stays {
                seq![b as char]
            } else {
                seq!['%', digit(b as int / 16), digit(b as int % 16)]
            };
            escaped_bytes(seq![b] + rest, keep_slash) == one + escaped_bytes(rest, keep_slash)
        }),
{
    let all = seq![b] + rest;
    assert(all.skip(1) =~= rest);
    assert(all[0] == b);
}

/// How escapes are undone: a percent sign with two hexadecimal digits is the
/// byte that they write, in either case, and any other byte is itself.
pub proof fn lemma_decoded_bytes_are(b: u8, h: u8, l: u8, rest: Seq<u8>)
    ensures
        decoded_bytes(seq![]).len() == 0,
        b != '%' as u8 ==> decoded_bytes(seq![b] + rest) == seq![b] + decoded_bytes(rest),
        hex_value(h) is Some && hex_value(l) is Some ==> decoded_bytes(
            seq!['%' as u8, h, l] + rest,
        ) == seq![(hex_value(h)->0 * 16 + hex_value(l)->0) as u8] + decoded_bytes(rest),
        hex_value(h) is None || hex_value(l) is None ==> decoded_bytes(
            seq!['%' as u8, h, l] + rest,
        ) == seq!['%' as u8] + decoded_bytes(seq![h, l] + rest),
        hex_value(h) is Some <==> (('0' as u8 <= h <= '9' as u8) || ('a' as u8 <= h <= 'f' as u8)
            || ('A' as u8 <= h <= 'F' as u8)),
        '0' as u8 <= h <= '9' as u8 ==> hex_value(h) == Some((h - 48) as u8),
        'a' as u8 <= h <= 'f' as u8 ==> hex_value(h) == Some((h - 87) as u8),
        'A' as u8 <= h <= 'F' as u8 ==> hex_value(h) == Some((h - 55) as u8),
{
    let one = seq![b] + rest;
    assert(one.skip(1) =~= rest);
    assert(one[0] == b);
    let three = seq!['%' as u8, h, l] + rest;
    assert(three[0] == '%' as u8 && three[1] == h && three[2] == l);
    assert(three.skip(3) =~= rest);
    assert(three.skip(1) =~= seq![h, l] + rest);
}

/// How a path is cleaned, segment by segment: empty segments and `.` say
/// nothing, and `..` takes back the segment before it, unless that is `..` too
/// or there is none; then it stays, but not at the root.
pub proof fn lemma_clean_segments_are(rooted: bool, segs: Seq<Seq<char>>, seg: Seq<char>)
    ensures
        clean_segments(rooted, seq![]).len() == 0,
        ({
            let out = clean_segments(rooted, segs);
            let next = clean_segments(rooted, segs.push(seg));
            let up = seq!['.', '.'];
            let back = out.len() > 0 && out.last() != up;
            &&& seg.len() == 0 || seg == seq!['.'] ==> next == out
            &&& seg == up && back ==> next == out.drop_last()
            &&& seg == up && !back && !rooted ==> next == out.push(up)
            &&& seg == up && !back && rooted ==> next == out
            &&& seg.len() > 0 && seg != seq!['.'] && seg != up ==> next == out.push(seg)
        }),
{
    assert(segs.push(seg).drop_last() =~= segs);
    assert(seq!['.'].len() == 1 && seq!['.', '.'].len() == 2);
}

/// What a clean path is: the segments that are left, between slashes; at the
/// root with a slash before them; and `.` where nothing is left of a path that
/// is not at the root.
pub proof fn lemma_cleaned_is(p: Seq<char>)
    ensures
        cleaned(seq![]).len() == 0,
        p.len() > 0 ==> {
            let left = clean_segments(p[0] == '/', split(p, Class::Only('/')));
            &&& p[0] == '/' ==> cleaned(p) == seq!['/'] + join(left, seq!['/'])
            &&& p[0] != '/' && join(left, seq!['/']).len() > 0 ==> cleaned(p) == join(
                left,
                seq!['/'],
            )
            &&& p[0] != '/' && join(left, seq!['/']).len() == 0 ==> cleaned(p) == seq!['.']
        },
{
}

/// The ticket of a name, part by part: the corpus, the language, the clean
/// path, the root and the signature, each behind its mark and escaped, without
/// those that are empty; corpus, path and root keep their slashes.
pub proof fn lemma_ticket_is(v: VNameView)
    ensures
        ({
            let none = Seq::<char>::empty();
            let corpus = if v.corpus.len() > 0 {
                "//"@ + escaped(v.corpus, true)
            } else {
                none
            };
            let language = if v.language.len() > 0 {
                "?lang="@ + escaped(v.language, false)
            } else {
                none
            };
            let path = if v.path.len() > 0 {
                "?path="@ + escaped(cleaned(v.path), true)
            } else {
                none
            };
            let root = if v.root.len() > 0 {
                "?root="@ + escaped(v.root, true)
            } else {
                none
            };
            let signature = if v.signature.len() > 0 {
                "#"@ + escaped(v.signature, false)
            } else {
                none
            };
            ticket_of(v) == "kythe:"@ + corpus + language + path + root + signature
        }),
{
}

/// A text is a ticket just where it begins with `kythe:`.
pub proof fn lemma_ticket_like_is(rest: Seq<char>, s: Seq<char>)
    ensures
        ticket_like("kythe:"@ + rest),
        ticket_like(s) ==> s.len() >= 6 && s.subrange(0, 6) == "kythe:"@,
{
    reveal_strlit("kythe:");
    let t = "kythe:"@ + rest;
    assert(t.subrange(0, 6) =~= "kythe:"@);
}

/// Where a ticket has its path: behind the first `?path=`, up to the next mark;
/// and its signature behind the last `#`.
pub proof fn lemma_ticket_parts_are(a: Seq<char>, path: Seq<char>, b: Seq<char>, sig: Seq<char>)
    requires
        forall|i: int| 0 <= i < path.len() ==> #[trigger] path[i] != '?' && path[i] != '#',
        b.len() == 0 || b[0] == '?' || b[0] == '#',
        !a.contains('?'),
        !sig.contains('#'),
    ensures
        ticket_path(a + "?path="@ + path + b) == percent_decoded(path),
        ticket_signature(a + seq!['#'] + sig) == percent_decoded(sig),
        !a.contains('#') ==> ticket_signature(a).len() == 0,
        ticket_path(a) == a,
{
    let mark = "?path="@;
    reveal_strlit("?path=");
    let t = a + mark + path + b;
    let at = a.len() as int;
    assert(t.subrange(at, at + 6) =~= mark);
    assert forall|j: int| 0 <= j < at implies !occurs_at(t, mark, j) by {
        if occurs_at(t, mark, j) {
            assert(t.subrange(j, j + 6)[0] == '?');
            assert(t[j] == a[j]);
            assert(a.contains(a[j]));
        }
    }
    lemma_find_is(t, mark, 0, at);
    let class = Class::Either('?', '#');
    let end = at + 6 + path.len();
    lemma_first_of(t, class, at + 6);
    let cut = first_of(t, class, at + 6);
    if cut < end {
        assert(t[cut] == path[cut - at - 6]);
    }
    if b.len() > 0 {
        assert(t[end] == b[0]);
    }
    assert(cut == end);
    assert(t.subrange(at + 6, end) =~= path);
    assert forall|j: int| 0 <= j implies !occurs_at(a, mark, j) by {
        if occurs_at(a, mark, j) {
            assert(a.subrange(j, j + 6)[0] == '?');
            assert(a.contains(a[j]));
        }
    }
    crate::text::lemma_find(a, mark, 0);
    let s = a + seq!['#'] + sig;
    let hash = Class::Only('#');
    let n = at + 1;
    assert(s[n - 1] == '#');
    assert forall|j: int| n <= j < s.len() implies !hash.holds(#[trigger] s[j]) by {
        assert(s[j] == sig[j - n]);
        assert(sig.contains(sig[j - n]));
    }
    lemma_behind_last(s, hash, s.len() as int, n);
    assert(s.skip(n) =~= sig);
    if !a.contains('#') {
        assert forall|j: int| 0 <= j < a.len() implies !hash.holds(#[trigger] a[j]) by {
            assert(a.contains(a[j]));
        }
        lemma_behind_last(a, hash, a.len() as int, 0);
    }
}

} // verus!
