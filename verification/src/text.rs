//! Text as sequences of characters: the searches, splits and conversions
//! that the rest of the crate is written with.

use vstd::hash_set::StringHashSet;
use vstd::prelude::*;
use vstd::utf8::{
    decode_utf8, encode_scalar, encode_utf8, is_char_boundary, pop_first_scalar, valid_utf8,
};

verus! {

/// What `String::from_utf8_lossy` gives for bytes that are not valid UTF-8.
pub uninterp spec fn utf8_replaced(bytes: Seq<u8>) -> Seq<char>;

/// The characters of `bytes`: the decoded text where the bytes are valid
/// UTF-8, and the text with replacement characters where they are not.
pub open spec fn lossy_chars(bytes: Seq<u8>) -> Seq<char> {
    if valid_utf8(bytes) {
        decode_utf8(bytes)
    } else {
        utf8_replaced(bytes)
    }
}

/// Calls `String::from_utf8_lossy`. Valid UTF-8 comes back as its characters;
/// of other input only that the result is a function of the bytes is said.
#[verifier::external_body]
pub(crate) fn lossy_string(bytes: &[u8]) -> (r: String)
    ensures
        r@ == (if valid_utf8(bytes@) {
            decode_utf8(bytes@)
        } else {
            utf8_replaced(bytes@)
        }),
{
    String::from_utf8_lossy(bytes).into_owned()
}

/// Calls `std::str::from_utf8`, which accepts exactly the valid UTF-8.
#[verifier::external_body]
pub(crate) fn utf8_string(bytes: &[u8]) -> (r: Option<String>)
    ensures
        r is Some <==> valid_utf8(bytes@),
        r matches Some(s) ==> s@ == decode_utf8(bytes@),
{
    std::str::from_utf8(bytes).ok().map(|s| s.to_string())
}

/// Calls `String::push`, which appends one character.
#[verifier::external_body]
pub(crate) fn push_char(s: &mut String, c: char)
    ensures
        final(s)@ == old(s)@.push(c),
{
    s.push(c)
}

/// The characters of `s`, in order.
pub(crate) fn chars_of(s: &str) -> (r: Vec<char>)
    ensures
        r@ == s@,
{
    let mut r: Vec<char> = Vec::new();
    for c in it: s.chars()
        invariant
            it.seq() == s@,
            r@ == s@.take(it.index()),
    {
        proof {
            assert(s@.take(it.index() + 1) =~= s@.take(it.index()).push(c));
        }
        r.push(c);
    }
    proof {
        assert(s@.take(s@.len() as int) =~= s@);
    }
    r
}

/// The text of `chars[lo..hi]`.
pub(crate) fn string_of(chars: &[char], lo: usize, hi: usize) -> (r: String)
    requires
        lo <= hi <= chars@.len(),
    ensures
        r@ == chars@.subrange(lo as int, hi as int),
{
    let mut r: String = String::new();
    let mut i: usize = lo;
    while i < hi
        invariant
            lo <= i <= hi <= chars@.len(),
            r@ == chars@.subrange(lo as int, i as int),
        decreases hi - i,
    {
        push_char(&mut r, chars[i]);
        proof {
            assert(chars@.subrange(lo as int, i + 1) =~= chars@.subrange(lo as int, i as int).push(
                chars@[i as int],
            ));
        }
        i += 1;
    }
    r
}

/// UTF-8 encodes two texts one behind the other.
pub proof fn lemma_encode_concat(a: Seq<char>, b: Seq<char>)
    ensures
        encode_utf8(a + b) == encode_utf8(a) + encode_utf8(b),
    decreases a.len(),
{
    if a.len() == 0 {
        assert(a + b =~= b);
        assert(encode_utf8(a) + encode_utf8(b) =~= encode_utf8(b));
    } else {
        assert((a + b).drop_first() =~= a.drop_first() + b);
        lemma_encode_concat(a.drop_first(), b);
        assert(encode_utf8(a + b) =~= encode_utf8(a) + encode_utf8(b));
    }
}

/// A character's bytes end at a character boundary.
proof fn lemma_boundary(s: Seq<char>, n: int)
    requires
        0 <= n <= s.len(),
    ensures
        is_char_boundary(encode_utf8(s), encode_utf8(s.take(n)).len() as int),
    decreases n,
{
    let bytes = encode_utf8(s);
    vstd::utf8::encode_utf8_valid_utf8(s);
    if n == 0 {
        assert(s.take(0) =~= seq![]);
    } else {
        vstd::utf8::encode_utf8_first_scalar(s);
        let rest = s.drop_first();
        assert(s.take(n).drop_first() =~= rest.take(n - 1));
        assert(pop_first_scalar(bytes) =~= encode_utf8(rest));
        lemma_boundary(rest, n - 1);
        lemma_encode_concat(s.take(n), s.skip(n));
        assert(s.take(n) + s.skip(n) =~= s);
    }
}

/// `s` before and behind its first `n` characters.
pub(crate) fn split_chars(s: &str, n: usize) -> (r: (&str, &str))
    requires
        n <= s@.len(),
    ensures
        r.0@ == s@.take(n as int),
        r.1@ == s@.skip(n as int),
{
    let c = chars_of(s);
    let size: usize = s.as_bytes().len();
    let mut at: usize = 0;
    let mut i: usize = 0;
    proof {
        assert(s@.take(0) =~= seq![]);
    }
    while i < n
        invariant
            i <= n <= s@.len(),
            c@ == s@,
            size == encode_utf8(s@).len(),
            at == encode_utf8(s@.take(i as int)).len(),
        decreases n - i,
    {
        let u: u32 = c[i] as u32;
        let width: usize = if u < 0x80 {
            1
        } else if u < 0x800 {
            2
        } else if u < 0x10000 {
            3
        } else {
            4
        };
        proof {
            let one = seq![s@[i as int]];
            assert(s@.take(i + 1) =~= s@.take(i as int) + one);
            lemma_encode_concat(s@.take(i as int), one);
            assert(one.drop_first() =~= seq![]);
            assert(encode_utf8(one.drop_first()) =~= seq![]);
            assert(encode_utf8(one) =~= encode_scalar(u));
            vstd::utf8::char_is_scalar(s@[i as int]);
            lemma_encode_concat(s@.take(i + 1), s@.skip(i + 1));
            assert(s@.take(i + 1) + s@.skip(i + 1) =~= s@);
        }
        at += width;
        i += 1;
    }
    proof {
        lemma_boundary(s@, n as int);
        lemma_encode_concat(s@.take(n as int), s@.skip(n as int));
        assert(s@.take(n as int) + s@.skip(n as int) =~= s@);
        let bytes = encode_utf8(s@);
        assert(bytes.subrange(0, at as int) =~= encode_utf8(s@.take(n as int)));
        assert(bytes.subrange(at as int, bytes.len() as int) =~= encode_utf8(s@.skip(n as int)));
    }
    let r = s.split_at(at);
    proof {
        lemma_same_bytes(r.0@, s@.take(n as int));
        lemma_same_bytes(r.1@, s@.skip(n as int));
    }
    r
}

// --------------------------------------------------------------- equality

/// Two texts with the same UTF-8 bytes are the same.
pub proof fn lemma_same_bytes(a: Seq<char>, b: Seq<char>)
    requires
        encode_utf8(a) == encode_utf8(b),
    ensures
        a == b,
{
    vstd::utf8::encode_utf8_decode_utf8(a);
    vstd::utf8::encode_utf8_decode_utf8(b);
}

/// Whether two texts are the same.
pub(crate) fn same(a: &str, b: &str) -> (r: bool)
    ensures
        r == (a@ == b@),
{
    let x: &[u8] = a.as_bytes();
    let y: &[u8] = b.as_bytes();
    if x.len() != y.len() {
        return false;
    }
    let mut i: usize = 0;
    while i < x.len()
        invariant
            x@ == encode_utf8(a@),
            y@ == encode_utf8(b@),
            x@.len() == y@.len(),
            i <= x@.len(),
            forall|j: int| 0 <= j < i ==> x@[j] == y@[j],
        decreases x@.len() - i,
    {
        if x[i] != y[i] {
            return false;
        }
        i += 1;
    }
    proof {
        assert(x@ =~= y@);
        lemma_same_bytes(a@, b@);
    }
    true
}

/// Whether `list` holds `s`.
pub(crate) fn holds_text(list: &Vec<String>, s: &str) -> (r: bool)
    ensures
        r == texts(list@).contains(s@),
{
    let mut i: usize = 0;
    while i < list.len()
        invariant
            i <= list@.len(),
            forall|j: int| 0 <= j < i ==> #[trigger] texts(list@)[j] != s@,
        decreases list@.len() - i,
    {
        if same(list[i].as_str(), s) {
            proof {
                assert(texts(list@)[i as int] == s@);
            }
            return true;
        }
        i += 1;
    }
    false
}

/// The texts of a list of strings.
pub open spec fn texts(v: Seq<String>) -> Seq<Seq<char>> {
    v.map_values(|s: String| s@)
}

/// One string more is one text more.
pub proof fn lemma_texts_push(v: Seq<String>, s: String)
    ensures
        texts(v.push(s)) == texts(v).push(s@),
{
    assert(texts(v.push(s)) =~= texts(v).push(s@));
}

// ---------------------------------------------------------------- searches

/// `needle` stands in `hay` at `at`.
pub open spec fn occurs_at<T>(hay: Seq<T>, needle: Seq<T>, at: int) -> bool {
    &&& 0 <= at
    &&& at + needle.len() <= hay.len()
    &&& hay.subrange(at, at + needle.len()) == needle
}

/// `needle` stands somewhere in `hay`.
pub open spec fn has_part<T>(hay: Seq<T>, needle: Seq<T>) -> bool {
    exists|at: int| occurs_at(hay, needle, at)
}

/// The first place, at `from` or behind it, where `needle` stands in `hay`.
pub open spec fn find_from<T>(hay: Seq<T>, needle: Seq<T>, from: int) -> Option<int>
    decreases hay.len() - from + 1,
{
    if from + needle.len() > hay.len() {
        None
    } else if occurs_at(hay, needle, from) {
        Some(from)
    } else {
        find_from(hay, needle, from + 1)
    }
}

/// What `find_from` finds is there, and nothing stands before it; and it
/// finds what there is.
pub proof fn lemma_find<T>(hay: Seq<T>, needle: Seq<T>, from: int)
    requires
        0 <= from,
    ensures
        find_from(hay, needle, from) matches Some(at) ==> from <= at && occurs_at(hay, needle, at)
            && forall|j: int| from <= j < at ==> !occurs_at(hay, needle, j),
        find_from(hay, needle, from) is None ==> forall|j: int|
            from <= j ==> !occurs_at(hay, needle, j),
    decreases hay.len() - from + 1,
{
    if from + needle.len() <= hay.len() && !occurs_at(hay, needle, from) {
        lemma_find(hay, needle, from + 1);
    }
}

/// A place with nothing before it is the one that is found.
pub proof fn lemma_find_is<T>(hay: Seq<T>, needle: Seq<T>, from: int, at: int)
    requires
        0 <= from <= at,
        occurs_at(hay, needle, at),
        forall|j: int| from <= j < at ==> !occurs_at(hay, needle, j),
    ensures
        find_from(hay, needle, from) == Some(at),
{
    lemma_find(hay, needle, from);
}

/// Whether `needle` stands in `hay` at `at`.
fn chars_at(hay: &[char], needle: &[char], at: usize) -> (r: bool)
    requires
        at + needle@.len() <= hay@.len(),
    ensures
        r == occurs_at(hay@, needle@, at as int),
{
    let end: usize = hay.len();
    let mut i: usize = 0;
    while i < needle.len()
        invariant
            i <= needle@.len(),
            at + needle@.len() <= hay@.len() == end,
            forall|j: int| 0 <= j < i ==> hay@[at + j] == needle@[j],
        decreases needle@.len() - i,
    {
        if hay[at + i] != needle[i] {
            proof {
                assert(hay@.subrange(at as int, at + needle@.len())[i as int] != needle@[i as int]);
            }
            return false;
        }
        i += 1;
    }
    proof {
        assert(hay@.subrange(at as int, at + needle@.len()) =~= needle@);
    }
    true
}

/// Finds `needle` in `hay`, from `from` on.
pub(crate) fn find_chars(hay: &[char], needle: &[char], from: usize) -> (r: Option<usize>)
    requires
        from <= hay@.len(),
    ensures
        r matches Some(at) ==> find_from(hay@, needle@, from as int) == Some(at as int),
        r is None ==> find_from(hay@, needle@, from as int) is None,
{
    if hay.len() < needle.len() {
        return None;
    }
    let last: usize = hay.len() - needle.len();
    let mut at: usize = from;
    while at <= last
        invariant
            from <= at,
            last + needle@.len() == hay@.len(),
            find_from(hay@, needle@, from as int) == find_from(hay@, needle@, at as int),
        decreases hay@.len() - at,
    {
        if chars_at(hay, needle, at) {
            return Some(at);
        }
        if at == last {
            proof {
                assert(find_from(hay@, needle@, at + 1) is None);
            }
            return None;
        }
        at += 1;
    }
    None
}

/// Whether `needle` stands somewhere in `hay`.
pub(crate) fn contains(hay: &str, needle: &str) -> (r: bool)
    ensures
        r == has_part(hay@, needle@),
{
    let h = chars_of(hay);
    let n = chars_of(needle);
    proof {
        lemma_find(hay@, needle@, 0);
    }
    find_chars(h.as_slice(), n.as_slice(), 0).is_some()
}

/// Whether `s` begins with `prefix`.
pub(crate) fn starts_with(s: &str, prefix: &str) -> (r: bool)
    ensures
        r == prefix@.is_prefix_of(s@),
{
    let h = chars_of(s);
    let n = chars_of(prefix);
    if h.len() < n.len() {
        return false;
    }
    chars_at(h.as_slice(), n.as_slice(), 0)
}

/// Whether `s` ends with `suffix`.
pub(crate) fn ends_with(s: &str, suffix: &str) -> (r: bool)
    ensures
        r == suffix@.is_suffix_of(s@),
{
    let h = chars_of(s);
    let n = chars_of(suffix);
    if h.len() < n.len() {
        return false;
    }
    let at: usize = h.len() - n.len();
    chars_at(h.as_slice(), n.as_slice(), at)
}

// ------------------------------------------------------- character classes

/// The characters with Unicode's `White_Space` property.
pub open spec fn is_space(c: char) -> bool {
    let n = c as u32;
    ||| 0x9 <= n <= 0xd
    ||| n == 0x20
    ||| n == 0x85
    ||| n == 0xa0
    ||| n == 0x1680
    ||| 0x2000 <= n <= 0x200a
    ||| n == 0x2028
    ||| n == 0x2029
    ||| n == 0x202f
    ||| n == 0x205f
    ||| n == 0x3000
}

/// The characters that a text is split or trimmed at.
#[derive(Clone, Copy, Debug)]
pub enum Class {
    /// White space.
    Space,
    /// One character.
    Only(char),
    /// One of two characters.
    Either(char, char),
}

impl Class {
    /// Whether `c` belongs to the class.
    pub open spec fn holds(self, c: char) -> bool {
        match self {
            Class::Space => is_space(c),
            Class::Only(d) => c == d,
            Class::Either(d, e) => c == d || c == e,
        }
    }

    pub(crate) fn test(self, c: char) -> (r: bool)
        ensures
            r == self.holds(c),
    {
        match self {
            Class::Space => {
                let n: u32 = c as u32;
                (0x9 <= n && n <= 0xd) || n == 0x20 || n == 0x85 || n == 0xa0 || n == 0x1680
                    || (0x2000 <= n && n <= 0x200a) || n == 0x2028 || n == 0x2029 || n == 0x202f
                    || n == 0x205f || n == 0x3000
            },
            Class::Only(d) => c == d,
            Class::Either(d, e) => c == d || c == e,
        }
    }
}

/// The first place, at `from` or behind it, of a character of the class; the
/// text's length where there is none.
pub open spec fn first_of(s: Seq<char>, class: Class, from: int) -> int
    decreases s.len() - from,
{
    if from >= s.len() {
        s.len() as int
    } else if class.holds(s[from]) {
        from
    } else {
        first_of(s, class, from + 1)
    }
}

/// The place behind the last character of the class before `to`; 0 where
/// there is none.
pub open spec fn behind_last(s: Seq<char>, class: Class, to: int) -> int
    decreases to,
{
    if to <= 0 {
        0
    } else if class.holds(s[to - 1]) {
        to
    } else {
        behind_last(s, class, to - 1)
    }
}

/// The text without the characters of the class at its end.
pub open spec fn trim_end(s: Seq<char>, class: Class) -> Seq<char>
    decreases s.len(),
{
    if s.len() > 0 && class.holds(s.last()) {
        trim_end(s.drop_last(), class)
    } else {
        s
    }
}

/// The text without the characters of the class at its start.
pub open spec fn trim_start(s: Seq<char>, class: Class) -> Seq<char>
    decreases s.len(),
{
    if s.len() > 0 && class.holds(s[0]) {
        trim_start(s.drop_first(), class)
    } else {
        s
    }
}

/// The text without white space at either end.
pub open spec fn trim(s: Seq<char>) -> Seq<char> {
    trim_end(trim_start(s, Class::Space), Class::Space)
}

/// What lies before and after the first character of the class is pinned down.
pub proof fn lemma_first_of(s: Seq<char>, class: Class, from: int)
    requires
        0 <= from <= s.len(),
    ensures
        from <= first_of(s, class, from) <= s.len(),
        forall|j: int| from <= j < first_of(s, class, from) ==> !class.holds(#[trigger] s[j]),
        first_of(s, class, from) < s.len() ==> class.holds(s[first_of(s, class, from)]),
    decreases s.len() - from,
{
    if from < s.len() && !class.holds(s[from]) {
        lemma_first_of(s, class, from + 1);
    }
}

/// Finds the first character of the class, from `from` on.
pub(crate) fn find_class(s: &[char], class: Class, from: usize) -> (r: usize)
    requires
        from <= s@.len(),
    ensures
        r == first_of(s@, class, from as int),
        from <= r <= s@.len(),
{
    let mut i: usize = from;
    while i < s.len() && !class.test(s[i])
        invariant
            from <= i <= s@.len(),
            first_of(s@, class, i as int) == first_of(s@, class, from as int),
        decreases s@.len() - i,
    {
        i += 1;
    }
    i
}

/// Finds the place behind the last character of the class before `to`.
pub(crate) fn find_last_class(s: &[char], class: Class, to: usize) -> (r: usize)
    requires
        to <= s@.len(),
    ensures
        r == behind_last(s@, class, to as int),
        r <= to,
{
    let mut i: usize = to;
    while i > 0 && !class.test(s[i - 1])
        invariant
            i <= to <= s@.len(),
            behind_last(s@, class, i as int) == behind_last(s@, class, to as int),
        decreases i,
    {
        i -= 1;
    }
    i
}

/// Where `s[..hi]` ends without the class.
pub(crate) fn end_without(s: &[char], lo: usize, hi: usize, class: Class) -> (r: usize)
    requires
        lo <= hi <= s@.len(),
    ensures
        lo <= r <= hi,
        s@.subrange(lo as int, r as int) == trim_end(s@.subrange(lo as int, hi as int), class),
{
    let mut i: usize = hi;
    while i > lo && class.test(s[i - 1])
        invariant
            lo <= i <= hi <= s@.len(),
            trim_end(s@.subrange(lo as int, i as int), class) == trim_end(
                s@.subrange(lo as int, hi as int),
                class,
            ),
        decreases i,
    {
        proof {
            assert(s@.subrange(lo as int, i as int).drop_last() =~= s@.subrange(lo as int, i - 1));
        }
        i -= 1;
    }
    i
}

/// Where `s[lo..hi]` starts without the class.
pub(crate) fn start_without(s: &[char], lo: usize, hi: usize, class: Class) -> (r: usize)
    requires
        lo <= hi <= s@.len(),
    ensures
        lo <= r <= hi,
        s@.subrange(r as int, hi as int) == trim_start(s@.subrange(lo as int, hi as int), class),
{
    let mut i: usize = lo;
    while i < hi && class.test(s[i])
        invariant
            lo <= i <= hi <= s@.len(),
            trim_start(s@.subrange(i as int, hi as int), class) == trim_start(
                s@.subrange(lo as int, hi as int),
                class,
            ),
        decreases hi - i,
    {
        proof {
            assert(s@.subrange(i as int, hi as int).drop_first() =~= s@.subrange(i + 1, hi as int));
        }
        i += 1;
    }
    i
}

/// `s` without the class at its end.
pub(crate) fn trimmed_end(s: &str, class: Class) -> (r: String)
    ensures
        r@ == trim_end(s@, class),
{
    let c = chars_of(s);
    let hi: usize = end_without(c.as_slice(), 0, c.len(), class);
    proof {
        assert(s@.subrange(0, s@.len() as int) =~= s@);
    }
    string_of(c.as_slice(), 0, hi)
}

/// `s` without the class at its start.
pub(crate) fn trimmed_start(s: &str, class: Class) -> (r: String)
    ensures
        r@ == trim_start(s@, class),
{
    let c = chars_of(s);
    let lo: usize = start_without(c.as_slice(), 0, c.len(), class);
    proof {
        assert(s@.subrange(0, s@.len() as int) =~= s@);
    }
    string_of(c.as_slice(), lo, c.len())
}

/// `s` without white space at either end.
pub(crate) fn trimmed(s: &str) -> (r: String)
    ensures
        r@ == trim(s@),
{
    let c = chars_of(s);
    let lo: usize = start_without(c.as_slice(), 0, c.len(), Class::Space);
    let hi: usize = end_without(c.as_slice(), lo, c.len(), Class::Space);
    proof {
        assert(s@.subrange(0, s@.len() as int) =~= s@);
    }
    string_of(c.as_slice(), lo, hi)
}

// ---------------------------------------------------------- splits, joins

/// The pieces of `s` between the characters of the class: such a character
/// begins a new piece, and any other joins the last one.
pub open spec fn split(s: Seq<char>, class: Class) -> Seq<Seq<char>>
    decreases s.len(),
{
    if s.len() == 0 {
        seq![seq![]]
    } else {
        let before = split(s.drop_last(), class);
        if class.holds(s.last()) {
            before.push(seq![])
        } else {
            before.drop_last().push(before.last().push(s.last()))
        }
    }
}

/// There is always a piece, and no piece holds a character of the class.
pub proof fn lemma_split(s: Seq<char>, class: Class)
    ensures
        split(s, class).len() > 0,
        forall|i: int, j: int|
            0 <= i < split(s, class).len() && 0 <= j < split(s, class)[i].len() ==> !class.holds(
                #[trigger] split(s, class)[i][j],
            ),
    decreases s.len(),
{
    if s.len() > 0 {
        lemma_split(s.drop_last(), class);
    }
}

/// Text without characters of the class joins the last piece.
pub proof fn lemma_split_push_text(s: Seq<char>, t: Seq<char>, class: Class)
    requires
        forall|i: int| 0 <= i < t.len() ==> !class.holds(#[trigger] t[i]),
    ensures
        split(s + t, class) == split(s, class).drop_last().push(split(s, class).last() + t),
    decreases t.len(),
{
    lemma_split(s, class);
    let before = split(s, class);
    if t.len() == 0 {
        assert(s + t =~= s);
        assert(before.last() + t =~= before.last());
        assert(before.drop_last().push(before.last()) =~= before);
    } else {
        let u = t.drop_last();
        assert forall|i: int| 0 <= i < u.len() implies !class.holds(#[trigger] u[i]) by {
            assert(u[i] == t[i]);
        }
        lemma_split_push_text(s, u, class);
        assert((s + t).drop_last() =~= s + u);
        assert((s + t).last() == t.last());
        let mid = split(s + u, class);
        assert(mid.drop_last() =~= before.drop_last());
        assert(mid.last().push(t.last()) =~= before.last() + t);
    }
}

/// Splits `s` at the class.
pub(crate) fn split_at(s: &str, class: Class) -> (r: Vec<String>)
    ensures
        texts(r@) == split(s@, class),
        r@.len() > 0,
{
    let mut done: Vec<String> = Vec::new();
    let mut cur: String = String::new();
    let ghost mut n: int = 0;
    proof {
        assert(s@.take(0) =~= seq![]);
        assert(texts(done@).push(cur@) =~= seq![Seq::<char>::empty()]);
    }
    for c in it: s.chars()
        invariant
            it.seq() == s@,
            n == it.index(),
            texts(done@).push(cur@) == split(s@.take(n), class),
    {
        proof {
            assert(s@.take(n + 1).drop_last() =~= s@.take(n));
            assert(s@.take(n + 1).last() == c);
            n = n + 1;
        }
        if class.test(c) {
            let ghost before = texts(done@).push(cur@);
            proof {
                lemma_texts_push(done@, cur);
            }
            done.push(cur);
            cur = String::new();
            proof {
                assert(cur@ =~= seq![]);
            }
        } else {
            let ghost before = texts(done@).push(cur@);
            proof {
                assert(before.drop_last() =~= texts(done@));
            }
            push_char(&mut cur, c);
        }
    }
    proof {
        assert(s@.take(s@.len() as int) =~= s@);
        lemma_texts_push(done@, cur);
    }
    done.push(cur);
    done
}

/// The pieces that are not empty, in order.
pub open spec fn filled(list: Seq<Seq<char>>) -> Seq<Seq<char>>
    decreases list.len(),
{
    if list.len() == 0 {
        seq![]
    } else if list.last().len() == 0 {
        filled(list.drop_last())
    } else {
        filled(list.drop_last()).push(list.last())
    }
}

/// The words of `s`: what lies between its white space.
pub open spec fn words(s: Seq<char>) -> Seq<Seq<char>> {
    filled(split(s, Class::Space))
}

/// The words of `s`.
pub(crate) fn words_of(s: &str) -> (r: Vec<String>)
    ensures
        texts(r@) == words(s@),
{
    let pieces = split_at(s, Class::Space);
    let ghost all = texts(pieces@);
    let mut r: Vec<String> = Vec::new();
    let mut i: usize = 0;
    proof {
        assert(texts(r@) =~= filled(all.take(0)));
    }
    while i < pieces.len()
        invariant
            i <= pieces@.len(),
            all == texts(pieces@),
            texts(r@) == filled(all.take(i as int)),
        decreases pieces@.len() - i,
    {
        proof {
            assert(all.take(i + 1).drop_last() =~= all.take(i as int));
            assert(all.take(i + 1).last() == pieces@[i as int]@);
        }
        if !pieces[i].as_str().is_empty() {
            let p = pieces[i].clone();
            proof {
                lemma_texts_push(r@, p);
            }
            r.push(p);
        }
        i += 1;
    }
    proof {
        assert(all.take(all.len() as int) =~= all);
    }
    r
}

/// A line without the carriage return before its line feed.
pub open spec fn without_return(s: Seq<char>) -> Seq<char> {
    if s.len() > 0 && s.last() == '\r' {
        s.drop_last()
    } else {
        s
    }
}

/// The lines of `s`. Each line feed ends one, with the carriage return before
/// it, if there is one; what follows the last line feed is a line only if it
/// is not empty.
pub open spec fn lines(s: Seq<char>) -> Seq<Seq<char>> {
    let pieces = split(s, Class::Only('\n'));
    let ended = pieces.drop_last().map_values(|p: Seq<char>| without_return(p));
    if pieces.last().len() == 0 {
        ended
    } else {
        ended.push(pieces.last())
    }
}

/// The lines of `s`.
pub(crate) fn lines_of(s: &str) -> (r: Vec<String>)
    ensures
        texts(r@) == lines(s@),
{
    let mut pieces = split_at(s, Class::Only('\n'));
    let ghost all = texts(pieces@);
    let last = match pieces.pop() {
        Some(p) => p,
        None => {
            return Vec::new();
        },
    };
    proof {
        assert(all.drop_last() =~= texts(pieces@));
        assert(all.last() == last@);
    }
    let ghost ended = all.drop_last().map_values(|p: Seq<char>| without_return(p));
    let mut r: Vec<String> = Vec::new();
    let mut i: usize = 0;
    while i < pieces.len()
        invariant
            i <= pieces@.len(),
            all.drop_last() == texts(pieces@),
            ended == all.drop_last().map_values(|p: Seq<char>| without_return(p)),
            texts(r@) == ended.take(i as int),
        decreases pieces@.len() - i,
    {
        let c = chars_of(pieces[i].as_str());
        let mut hi: usize = c.len();
        if hi > 0 && c[hi - 1] == '\r' {
            hi -= 1;
        }
        let line = string_of(c.as_slice(), 0, hi);
        proof {
            let p = pieces@[i as int]@;
            assert(texts(pieces@)[i as int] == p);
            assert(line@ =~= without_return(p));
            assert(ended[i as int] == without_return(p));
            assert(ended.take(i + 1) =~= ended.take(i as int).push(line@));
            lemma_texts_push(r@, line);
        }
        r.push(line);
        i += 1;
    }
    proof {
        assert(ended.take(ended.len() as int) =~= ended);
    }
    if !last.as_str().is_empty() {
        proof {
            lemma_texts_push(r@, last);
        }
        r.push(last);
    }
    r
}

/// The text before the first character of the class and the text behind it,
/// where there is one.
pub open spec fn split_first(s: Seq<char>, class: Class) -> Option<(Seq<char>, Seq<char>)> {
    let at = first_of(s, class, 0);
    if at < s.len() {
        Some((s.take(at), s.skip(at + 1)))
    } else {
        None
    }
}

/// Splits `s` at its first character of the class.
pub(crate) fn split_once(s: &str, class: Class) -> (r: Option<(String, String)>)
    ensures
        r matches Some((a, b)) ==> split_first(s@, class) == Some((a@, b@)),
        r is None ==> split_first(s@, class) is None,
{
    let c = chars_of(s);
    let at: usize = find_class(c.as_slice(), class, 0);
    if at < c.len() {
        let a = string_of(c.as_slice(), 0, at);
        let b = string_of(c.as_slice(), at + 1, c.len());
        proof {
            assert(a@ =~= s@.take(at as int));
            assert(b@ =~= s@.skip(at + 1));
        }
        Some((a, b))
    } else {
        None
    }
}

/// The texts one behind the other, with `sep` between them.
pub open spec fn join(list: Seq<Seq<char>>, sep: Seq<char>) -> Seq<char>
    decreases list.len(),
{
    if list.len() == 0 {
        seq![]
    } else if list.len() == 1 {
        list[0]
    } else {
        join(list.drop_last(), sep) + sep + list.last()
    }
}

/// Joins the texts with `sep` between them.
pub(crate) fn join_with(list: &Vec<String>, sep: &str) -> (r: String)
    ensures
        r@ == join(texts(list@), sep@),
{
    let ghost all = texts(list@);
    let mut r: String = String::new();
    let mut i: usize = 0;
    proof {
        assert(r@ =~= join(all.take(0), sep@));
    }
    while i < list.len()
        invariant
            i <= list@.len(),
            all == texts(list@),
            r@ == join(all.take(i as int), sep@),
        decreases list@.len() - i,
    {
        proof {
            assert(all.take(i + 1).drop_last() =~= all.take(i as int));
            assert(all.take(i + 1).last() == list@[i as int]@);
            assert(all.take(i + 1)[0] == all[0]);
        }
        let ghost before = r@;
        if i > 0 {
            r.append(sep);
        }
        r.append(list[i].as_str());
        proof {
            assert(r@ =~= join(all.take(i + 1), sep@));
        }
        i += 1;
    }
    proof {
        assert(all.take(all.len() as int) =~= all);
    }
    r
}

// ------------------------------------------------------------------- case

/// `c` in lower case, where it is an ASCII letter.
pub open spec fn lower(c: char) -> char {
    if 'A' <= c <= 'Z' {
        ((c as u8) + 32) as char
    } else {
        c
    }
}

/// `s` with its ASCII letters in lower case.
pub open spec fn lowercase(s: Seq<char>) -> Seq<char> {
    s.map_values(|c: char| lower(c))
}

/// `s` with its ASCII letters in lower case.
pub(crate) fn lowered(s: &str) -> (r: String)
    ensures
        r@ == lowercase(s@),
{
    let mut r: String = String::new();
    let ghost mut n: int = 0;
    for c in it: s.chars()
        invariant
            it.seq() == s@,
            n == it.index(),
            r@ == lowercase(s@).take(n),
    {
        let l: char = if 'A' <= c && c <= 'Z' {
            ((c as u8) + 32) as char
        } else {
            c
        };
        push_char(&mut r, l);
        proof {
            assert(lowercase(s@).take(n + 1) =~= lowercase(s@).take(n).push(lower(c)));
            n = n + 1;
        }
    }
    proof {
        assert(lowercase(s@).take(s@.len() as int) =~= lowercase(s@));
    }
    r
}

// ---------------------------------------------------------------- numbers

/// The decimal digit of `n`.
pub open spec fn digit(n: nat) -> char {
    (('0' as u8) + n) as char
}

/// `n` in decimal.
pub open spec fn decimal(n: nat) -> Seq<char>
    decreases n,
{
    if n < 10 {
        seq![digit(n)]
    } else {
        decimal(n / 10).push(digit(n % 10))
    }
}

/// `n` in decimal.
pub(crate) fn decimal_of(n: u64) -> (r: String)
    ensures
        r@ == decimal(n as nat),
    decreases n,
{
    if n < 10 {
        let mut r: String = String::new();
        push_char(&mut r, (('0' as u8) + (n as u8)) as char);
        proof {
            assert(r@ =~= decimal(n as nat));
        }
        r
    } else {
        let mut r: String = decimal_of(n / 10);
        push_char(&mut r, (('0' as u8) + ((n % 10) as u8)) as char);
        r
    }
}

/// What the digit `c` counts in `radix`.
pub open spec fn digit_value(c: char, radix: nat) -> Option<nat> {
    let v: int = if '0' <= c <= '9' {
        c as u32 - '0' as u32
    } else if 'a' <= c <= 'z' {
        c as u32 - 'a' as u32 + 10
    } else if 'A' <= c <= 'Z' {
        c as u32 - 'A' as u32 + 10
    } else {
        radix as int
    };
    if v < radix {
        Some(v as nat)
    } else {
        None
    }
}

/// The number that the digits of `s` write.
pub open spec fn value(s: Seq<char>, radix: nat) -> Option<nat>
    decreases s.len(),
{
    if s.len() == 0 {
        Some(0)
    } else {
        match (value(s.drop_last(), radix), digit_value(s.last(), radix)) {
            (Some(high), Some(low)) => Some(high * radix + low),
            _ => None,
        }
    }
}

/// The number that `s` writes, if it does: digits, with a `+` before them or
/// not, of a number that is at most `max`.
pub open spec fn number(s: Seq<char>, radix: nat, max: nat) -> Option<nat> {
    let digits = if s.len() > 0 && s[0] == '+' {
        s.skip(1)
    } else {
        s
    };
    if digits.len() == 0 {
        None
    } else {
        match value(digits, radix) {
            Some(v) => if v <= max {
                Some(v)
            } else {
                None
            },
            None => None,
        }
    }
}

/// More digits write no smaller number.
proof fn lemma_value_grows(s: Seq<char>, n: int, radix: nat)
    requires
        0 <= n <= s.len(),
        radix >= 1,
    ensures
        value(s.take(n), radix) is None ==> value(s, radix) is None,
        value(s, radix) matches Some(v) ==> value(s.take(n), radix)->0 <= v,
    decreases s.len() - n,
{
    if n == s.len() {
        assert(s.take(n) =~= s);
    } else {
        lemma_value_grows(s, n + 1, radix);
        assert(s.take(n + 1).drop_last() =~= s.take(n));
        if let Some(high) = value(s.take(n), radix) {
            assert(high <= high * radix) by (nonlinear_arith)
                requires
                    radix >= 1,
            ;
        }
    }
}

/// What the digit `c` counts in `radix`.
fn digit_of(c: char, radix: u64) -> (r: Option<u64>)
    requires
        radix <= 36,
    ensures
        r matches Some(v) ==> digit_value(c, radix as nat) == Some(v as nat) && v < radix,
        r is None ==> digit_value(c, radix as nat) is None,
{
    let v: u64 = if '0' <= c && c <= '9' {
        (c as u32 - '0' as u32) as u64
    } else if 'a' <= c && c <= 'z' {
        (c as u32 - 'a' as u32) as u64 + 10
    } else if 'A' <= c && c <= 'Z' {
        (c as u32 - 'A' as u32) as u64 + 10
    } else {
        radix
    };
    if v < radix {
        Some(v)
    } else {
        None
    }
}

/// One digit more behind a number, unless it grows past `max`.
fn grown(v: u64, radix: u64, low: u64, max: u64) -> (r: Option<u64>)
    ensures
        r matches Some(n) ==> n == v * radix + low && n <= max,
        r is None ==> v * radix + low > max,
{
    proof {
        assert(v * radix <= 0xffff_ffff_ffff_ffff * 0xffff_ffff_ffff_ffff) by (nonlinear_arith)
            requires
                v <= 0xffff_ffff_ffff_ffff,
                radix <= 0xffff_ffff_ffff_ffff,
        ;
    }
    let wide: u128 = (v as u128) * (radix as u128) + (low as u128);
    if wide <= max as u128 {
        Some(wide as u64)
    } else {
        None
    }
}

/// Reads the number that the digits of `c[from..]` write.
fn parse_digits(c: &[char], from: usize, radix: u64, max: u64) -> (r: Option<u64>)
    requires
        from <= c@.len(),
        2 <= radix <= 36,
    ensures
        r matches Some(v) ==> value(c@.skip(from as int), radix as nat) == Some(v as nat) && v
            <= max,
        r is None ==> (value(c@.skip(from as int), radix as nat) matches Some(v) ==> v > max),
{
    let ghost digits = c@.skip(from as int);
    let mut v: u64 = 0;
    let mut i: usize = from;
    proof {
        assert(digits.take(0) =~= seq![]);
    }
    while i < c.len()
        invariant
            from <= i <= c@.len(),
            digits == c@.skip(from as int),
            2 <= radix <= 36,
            value(digits.take(i - from), radix as nat) == Some(v as nat),
            v <= max,
        decreases c@.len() - i,
    {
        proof {
            assert(digits.take(i - from + 1).drop_last() =~= digits.take(i - from));
            assert(digits.take(i - from + 1).last() == c@[i as int]);
            lemma_value_grows(digits, i - from + 1, radix as nat);
        }
        match digit_of(c[i], radix) {
            None => return None,
            Some(low) => match grown(v, radix, low, max) {
                None => return None,
                Some(n) => {
                    v = n;
                },
            },
        }
        i += 1;
    }
    proof {
        assert(digits.take(digits.len() as int) =~= digits);
    }
    Some(v)
}

/// Reads the number that `s` writes.
pub(crate) fn parse_number(s: &str, radix: u64, max: u64) -> (r: Option<u64>)
    requires
        2 <= radix <= 36,
    ensures
        r matches Some(v) ==> number(s@, radix as nat, max as nat) == Some(v as nat),
        r is None ==> number(s@, radix as nat, max as nat) is None,
{
    let c = chars_of(s);
    let from: usize = if c.len() > 0 && c[0] == '+' {
        1
    } else {
        0
    };
    proof {
        assert(c@.skip(0) =~= c@);
    }
    if c.len() == from {
        return None;
    }
    parse_digits(c.as_slice(), from, radix, max)
}

/// A number written in decimal reads back.
pub proof fn lemma_decimal_value(n: nat)
    ensures
        decimal(n).len() > 0,
        value(decimal(n), 10) == Some(n),
        forall|i: int| 0 <= i < decimal(n).len() ==> '0' <= #[trigger] decimal(n)[i] <= '9',
    decreases n,
{
    if n < 10 {
        assert(decimal(n).drop_last() =~= seq![]);
        assert(value(decimal(n).drop_last(), 10) == Some(0nat));
    } else {
        lemma_decimal_value(n / 10);
        assert(decimal(n).drop_last() =~= decimal(n / 10));
    }
}

// ------------------------------------------------------------------ order

/// `a` comes before `b`: by the first character in which they differ, a text
/// before those that it begins. This is how `str` orders texts.
pub open spec fn before(a: Seq<char>, b: Seq<char>) -> bool
    decreases a.len(),
{
    if b.len() == 0 {
        false
    } else if a.len() == 0 {
        true
    } else if a[0] != b[0] {
        a[0] < b[0]
    } else {
        before(a.skip(1), b.skip(1))
    }
}

/// Of two texts one comes before the other, unless they are the same.
pub proof fn lemma_before_total(a: Seq<char>, b: Seq<char>)
    ensures
        a == b ==> !before(a, b),
        before(a, b) ==> !before(b, a),
        !before(a, b) && !before(b, a) ==> a == b,
    decreases a.len(),
{
    if a.len() > 0 && b.len() > 0 {
        lemma_before_total(a.skip(1), b.skip(1));
        if a[0] == b[0] && a.skip(1) == b.skip(1) {
            assert(a =~= seq![a[0]] + a.skip(1));
            assert(b =~= seq![b[0]] + b.skip(1));
        }
    } else {
        assert(a.len() == 0 && b.len() == 0 ==> a =~= b);
    }
}

/// What comes before a text comes before all that follow it.
pub proof fn lemma_before_chain(a: Seq<char>, b: Seq<char>, c: Seq<char>)
    requires
        before(a, b),
        before(b, c),
    ensures
        before(a, c),
    decreases a.len(),
{
    if a.len() > 0 && a[0] == b[0] && b[0] == c[0] {
        lemma_before_chain(a.skip(1), b.skip(1), c.skip(1));
    }
}

/// Whether `a` comes before `b`.
pub(crate) fn comes_before(a: &str, b: &str) -> (r: bool)
    ensures
        r == before(a@, b@),
{
    let x = chars_of(a);
    let y = chars_of(b);
    let mut i: usize = 0;
    proof {
        assert(a@.skip(0) =~= a@);
        assert(b@.skip(0) =~= b@);
    }
    while i < x.len() && i < y.len()
        invariant
            x@ == a@,
            y@ == b@,
            i <= x@.len(),
            i <= y@.len(),
            before(a@, b@) == before(a@.skip(i as int), b@.skip(i as int)),
        decreases x@.len() - i,
    {
        if x[i] != y[i] {
            return x[i] < y[i];
        }
        proof {
            assert(a@.skip(i as int).skip(1) =~= a@.skip(i + 1));
            assert(b@.skip(i as int).skip(1) =~= b@.skip(i + 1));
        }
        i += 1;
    }
    i < y.len()
}

// ---------------------------------------------------------- distinct texts

/// The texts of a list without repetition, in the order in which they first
/// come.
pub open spec fn distinct(list: Seq<Seq<char>>) -> Seq<Seq<char>>
    decreases list.len(),
{
    if list.len() == 0 {
        seq![]
    } else {
        let front = distinct(list.drop_last());
        if front.contains(list.last()) {
            front
        } else {
            front.push(list.last())
        }
    }
}

/// Nothing occurs twice, and everything that was in the list still is.
pub proof fn lemma_distinct(list: Seq<Seq<char>>)
    ensures
        distinct(list).no_duplicates(),
        forall|s: Seq<char>|
            #![trigger distinct(list).contains(s)]
            #![trigger list.contains(s)]
            distinct(list).contains(s) <==> list.contains(s),
        distinct(list).len() <= list.len(),
    decreases list.len(),
{
    if list.len() > 0 {
        let front = list.drop_last();
        lemma_distinct(front);
        let d = distinct(list);
        assert forall|s: Seq<char>|
            #![trigger d.contains(s)]
            #![trigger list.contains(s)]
            d.contains(s) <==> list.contains(s) by {
            if d.contains(s) {
                let i = d.index_of(s);
                if i < distinct(front).len() {
                    assert(distinct(front)[i] == s);
                    assert(front.contains(s));
                    assert(list[front.index_of(s)] == s);
                } else {
                    assert(list[list.len() - 1] == s);
                }
            }
            if list.contains(s) {
                let i = list.index_of(s);
                if i < front.len() {
                    assert(front[i] == s);
                    assert(front.contains(s));
                    assert(distinct(front).contains(s));
                    assert(d[distinct(front).index_of(s)] == s);
                } else {
                    if !distinct(front).contains(s) {
                        assert(d[d.len() - 1] == s);
                    }
                }
            }
        }
    }
}

/// One text more after the distinct texts of a list.
pub proof fn lemma_distinct_push(list: Seq<Seq<char>>, s: Seq<char>)
    ensures
        distinct(list.push(s)) == (if distinct(list).contains(s) {
            distinct(list)
        } else {
            distinct(list).push(s)
        }),
{
    assert(list.push(s).drop_last() =~= list);
}

/// A list of distinct texts that knows what it holds.
pub struct DistinctList {
    list: Vec<String>,
    seen: StringHashSet,
}

impl View for DistinctList {
    type V = Seq<Seq<char>>;

    closed spec fn view(&self) -> Seq<Seq<char>> {
        texts(self.list@)
    }
}

impl DistinctList {
    #[verifier::type_invariant]
    spec fn consistent(self) -> bool {
        forall|s: Seq<char>| #[trigger]
            self.seen@.contains(s) <==> texts(self.list@).contains(s)
    }

    /// An empty list.
    pub fn new() -> (r: Self)
        ensures
            r@ == Seq::<Seq<char>>::empty(),
    {
        let r = DistinctList { list: Vec::new(), seen: StringHashSet::new() };
        proof {
            assert(texts(r.list@) =~= seq![]);
        }
        r
    }

    /// Whether `s` is in the list.
    pub fn holds(&self, s: &str) -> (r: bool)
        ensures
            r == self@.contains(s@),
    {
        proof {
            use_type_invariant(self);
        }
        self.seen.contains(s)
    }

    /// The list with `s` at its end, unless it is there already; and whether
    /// it was new.
    pub fn with(self, s: &str) -> (r: (Self, bool))
        ensures
            r.0@ == (if self@.contains(s@) {
                self@
            } else {
                self@.push(s@)
            }),
            r.1 == !self@.contains(s@),
    {
        proof {
            use_type_invariant(&self);
        }
        let DistinctList { mut list, mut seen } = self;
        if seen.contains(s) {
            return (DistinctList { list, seen }, false);
        }
        let ghost before = texts(list@);
        let t = s.to_string();
        let _ = seen.insert(s.to_string());
        proof {
            lemma_texts_push(list@, t);
        }
        list.push(t);
        proof {
            let now = texts(list@);
            assert(now == before.push(s@));
            assert forall|x: Seq<char>| #[trigger] seen@.contains(x) <==> now.contains(x) by {
                if now.contains(x) {
                    let i = now.index_of(x);
                    if i < before.len() {
                        assert(before[i] == x);
                    }
                }
                if before.contains(x) {
                    assert(now[before.index_of(x)] == x);
                }
                if x == s@ {
                    assert(now[before.len() as int] == x);
                }
            }
        }
        (DistinctList { list, seen }, true)
    }

    /// The texts, in order.
    pub fn into_list(self) -> (r: Vec<String>)
        ensures
            texts(r@) == self@,
    {
        self.list
    }

    /// How many texts there are.
    pub fn len(&self) -> (r: usize)
        ensures
            r == self@.len(),
    {
        self.list.len()
    }

    /// The text at `i`.
    pub fn at(&self, i: usize) -> (r: &String)
        requires
            i < self@.len(),
        ensures
            r@ == self@[i as int],
    {
        &self.list[i]
    }
}

// ------------------------------------------------------------------- laws

/// One text stands in another just where the other is the text with something
/// before and behind it.
pub proof fn lemma_has_part_is<T>(a: Seq<T>, needle: Seq<T>, b: Seq<T>, hay: Seq<T>)
    ensures
        has_part(a + needle + b, needle),
        occurs_at(a + needle + b, needle, a.len() as int),
        has_part(hay, needle) <==> exists|at: int|
            0 <= at && at + needle.len() <= hay.len() && #[trigger] hay.subrange(
                at,
                at + needle.len(),
            ) == needle,
{
    let h = a + needle + b;
    assert(h.subrange(a.len() as int, (a.len() + needle.len()) as int) =~= needle);
    assert(occurs_at(h, needle, a.len() as int));
    if has_part(hay, needle) {
        let at = choose|at: int| occurs_at(hay, needle, at);
        assert(hay.subrange(at, at + needle.len()) == needle);
    }
    if exists|at: int|
        0 <= at && at + needle.len() <= hay.len() && #[trigger] hay.subrange(
            at,
            at + needle.len(),
        ) == needle {
        let at = choose|at: int|
            0 <= at && at + needle.len() <= hay.len() && #[trigger] hay.subrange(
                at,
                at + needle.len(),
            ) == needle;
        assert(occurs_at(hay, needle, at));
    }
}

/// Which characters are white space, and which belong to a class of one or two.
pub proof fn lemma_classes_are(c: char, d: char, e: char)
    ensures
        Class::Space.holds(c) <==> (c == ' ' || c == '\t' || c == '\n' || c == '\r' || c
            == '\u{b}' || c == '\u{c}' || c == '\u{85}' || c == '\u{a0}' || c == '\u{1680}' || (
        '\u{2000}' <= c <= '\u{200a}') || c == '\u{2028}' || c == '\u{2029}' || c == '\u{202f}' || c
            == '\u{205f}' || c == '\u{3000}'),
        Class::Only(d).holds(c) <==> c == d,
        Class::Either(d, e).holds(c) <==> c == d || c == e,
{
}

/// Trimming takes all of the class from an end, and nothing else.
pub proof fn lemma_trim_ends(s: Seq<char>, class: Class)
    ensures
        ({
            let t = trim_end(s, class);
            &&& t.is_prefix_of(s)
            &&& t.len() > 0 ==> !class.holds(t.last())
            &&& forall|i: int| t.len() <= i < s.len() ==> class.holds(#[trigger] s[i])
        }),
        ({
            let t = trim_start(s, class);
            &&& t.len() <= s.len()
            &&& t == s.skip(s.len() - t.len())
            &&& t.len() > 0 ==> !class.holds(t[0])
            &&& forall|i: int| 0 <= i < s.len() - t.len() ==> class.holds(#[trigger] s[i])
        }),
    decreases s.len(),
{
    if s.len() > 0 && class.holds(s.last()) {
        let r = s.drop_last();
        lemma_trim_ends(r, class);
        let t = trim_end(r, class);
        assert(t =~= s.subrange(0, t.len() as int));
        assert forall|i: int| t.len() <= i < s.len() implies class.holds(#[trigger] s[i]) by {
            if i < r.len() {
                assert(class.holds(r[i]));
            }
        }
    } else {
        assert(s.subrange(0, s.len() as int) =~= s);
    }
    if s.len() > 0 && class.holds(s[0]) {
        let r = s.drop_first();
        lemma_trim_ends(r, class);
        let t = trim_start(r, class);
        assert(t =~= s.skip(s.len() - t.len()));
        assert forall|i: int| 0 <= i < s.len() - t.len() implies class.holds(#[trigger] s[i]) by {
            if i > 0 {
                assert(class.holds(r[i - 1]));
            }
        }
    } else {
        assert(s.skip(0) =~= s);
    }
}

/// A text without the white space round it: text that neither begins nor ends
/// with white space comes back, whatever white space stands round it.
pub proof fn lemma_trim_is(a: Seq<char>, s: Seq<char>, b: Seq<char>)
    requires
        forall|i: int| 0 <= i < a.len() ==> Class::Space.holds(#[trigger] a[i]),
        forall|i: int| 0 <= i < b.len() ==> Class::Space.holds(#[trigger] b[i]),
        s.len() > 0 ==> !Class::Space.holds(s[0]) && !Class::Space.holds(s.last()),
    ensures
        trim(a + s + b) == s,
{
    let w = Class::Space;
    let all = a + s + b;
    lemma_trim_ends(all, w);
    let t = trim_start(all, w);
    let cut = all.len() - t.len();
    lemma_trim_ends(t, w);
    let r = trim_end(t, w);
    if s.len() == 0 {
        assert forall|i: int| 0 <= i < all.len() implies w.holds(#[trigger] all[i]) by {
            if i < a.len() {
                assert(all[i] == a[i]);
            } else {
                assert(all[i] == b[i - a.len()]);
            }
        }
        if t.len() > 0 {
            assert(t[0] == all[cut]);
        }
        assert(r =~= s);
    } else {
        assert(all[a.len() as int] == s[0]);
        if cut < a.len() {
            assert(t[0] == all[cut]);
            assert(all[cut] == a[cut]);
        }
        if cut > a.len() {
            assert(w.holds(all[a.len() as int]));
        }
        assert(t =~= s + b);
        assert(t[s.len() - 1] == s.last());
        if r.len() < s.len() {
            assert(w.holds(t[s.len() - 1]));
        }
        if r.len() > s.len() {
            assert(r.last() == t[r.len() - 1]);
            assert(t[r.len() - 1] == b[r.len() - 1 - s.len()]);
        }
        assert(r =~= t.subrange(0, r.len() as int));
        assert(r =~= s);
    }
}

/// What text is split into, joined again with the character that it was split
/// at, is the text.
pub proof fn lemma_split_joins(s: Seq<char>, sep: char)
    ensures
        join(split(s, Class::Only(sep)), seq![sep]) == s,
    decreases s.len(),
{
    let class = Class::Only(sep);
    let list = split(s, class);
    lemma_split(s, class);
    if s.len() == 0 {
        assert(join(list, seq![sep]) =~= s);
    } else {
        let front = s.drop_last();
        let before = split(front, class);
        lemma_split(front, class);
        lemma_split_joins(front, sep);
        if s.last() == sep {
            assert(list.drop_last() =~= before);
            assert(join(list, seq![sep]) =~= front + seq![sep]);
            assert(front + seq![sep] =~= s);
        } else {
            let last = before.last().push(s.last());
            assert(list.drop_last() =~= before.drop_last());
            assert(list.last() == last);
            if before.len() == 1 {
                assert(join(list, seq![sep]) =~= front.push(s.last()));
            } else {
                assert(join(list, seq![sep]) =~= join(before, seq![sep]).push(s.last()));
            }
            assert(front.push(s.last()) =~= s);
        }
    }
}

/// Texts one behind the other: one text is itself, and one more stands behind
/// the separator.
pub proof fn lemma_join_is(list: Seq<Seq<char>>, s: Seq<char>, sep: Seq<char>)
    ensures
        join(seq![], sep) == Seq::<char>::empty(),
        join(seq![s], sep) == s,
        list.len() > 0 ==> join(list.push(s), sep) == join(list, sep) + sep + s,
{
    if list.len() > 0 {
        assert(list.push(s).drop_last() =~= list);
    }
}

proof fn lemma_filled_push(list: Seq<Seq<char>>, s: Seq<char>)
    ensures
        filled(list.push(s)) == (if s.len() == 0 {
            filled(list)
        } else {
            filled(list).push(s)
        }),
{
    assert(list.push(s).drop_last() =~= list);
}

/// The words of a text: a text without white space is one word, unless it is
/// empty; and one more of those behind white space is one more word.
pub proof fn lemma_words_are(front: Seq<char>, space: char, word: Seq<char>)
    requires
        Class::Space.holds(space),
        forall|i: int| 0 <= i < word.len() ==> !Class::Space.holds(#[trigger] word[i]),
    ensures
        word.len() > 0 ==> words(word) == seq![word],
        word.len() > 0 ==> words(front.push(space) + word) == words(front).push(word),
        words(front.push(space)) == words(front),
        words(seq![]) == Seq::<Seq<char>>::empty(),
{
    let class = Class::Space;
    let none = Seq::<char>::empty();
    let list = Seq::<Seq<char>>::empty();
    assert(split(none, class) =~= seq![none]);
    assert(seq![none] =~= list.push(none));
    lemma_filled_push(list, none);
    lemma_split_push_text(none, word, class);
    assert(none + word =~= word);
    assert(split(none, class).drop_last() =~= list);
    assert(split(none, class).last() + word =~= word);
    lemma_filled_push(list, word);
    assert(list.push(word) =~= seq![word]);
    let mid = front.push(space);
    assert(mid.drop_last() =~= front);
    assert(split(mid, class) == split(front, class).push(none));
    lemma_filled_push(split(front, class), none);
    lemma_split_push_text(mid, word, class);
    assert(split(mid, class).drop_last() =~= split(front, class));
    assert(split(mid, class).last() + word =~= word);
    lemma_filled_push(split(front, class), word);
}

/// The lines of a text: a text without a line feed is one line, unless it is
/// empty; a line feed ends a line, and takes the carriage return before it
/// along; and what stands behind a line feed are lines of their own.
pub proof fn lemma_lines_are(front: Seq<char>, line: Seq<char>)
    requires
        !line.contains('\n'),
        front.len() == 0 || front.last() == '\n',
    ensures
        lines(seq![]) == Seq::<Seq<char>>::empty(),
        line.len() > 0 ==> lines(front + line) == lines(front).push(line),
        line.len() > 0 && line.last() == '\r' ==> lines((front + line).push('\n')) == lines(
            front,
        ).push(line.drop_last()),
        line.len() == 0 || line.last() != '\r' ==> lines((front + line).push('\n')) == lines(
            front,
        ).push(line),
{
    let class = Class::Only('\n');
    let none = Seq::<char>::empty();
    assert(split(none, class) =~= seq![none]);
    assert(lines(none) =~= seq![]);
    assert(lines(seq![]) == lines(none)) by {
        assert(seq![] =~= none);
    }
    assert forall|i: int| 0 <= i < line.len() implies !class.holds(#[trigger] line[i]) by {
        assert(line.contains(line[i]));
    }
    lemma_split(front, class);
    let pieces = split(front, class);
    assert(pieces.last() =~= none) by {
        if front.len() > 0 {
            assert(pieces == split(front.drop_last(), class).push(none));
        } else {
            assert(front =~= none);
        }
    }
    lemma_split_push_text(front, line, class);
    let all = front + line;
    let now = split(all, class);
    assert(pieces.last() + line =~= line);
    assert(now == pieces.drop_last().push(line));
    assert(now.drop_last() =~= pieces.drop_last());
    assert(now.last() == line);
    let ended = pieces.drop_last().map_values(|p: Seq<char>| without_return(p));
    assert(lines(front) == ended);
    let whole = all.push('\n');
    assert(whole.drop_last() =~= all);
    assert(split(whole, class) == now.push(none));
    assert(now.push(none).drop_last() =~= now);
    assert(lines(whole) =~= ended.push(without_return(line)));
}

/// A text is split at its first character of the class: what stands before it
/// has none, and the three together are the text.
pub proof fn lemma_split_first_is(a: Seq<char>, c: char, b: Seq<char>, class: Class)
    requires
        forall|i: int| 0 <= i < a.len() ==> !class.holds(#[trigger] a[i]),
    ensures
        class.holds(c) ==> split_first(a + seq![c] + b, class) == Some((a, b)),
        split_first(a, class) is None,
{
    lemma_first_of(a, class, 0);
    if class.holds(c) {
        let s = a + seq![c] + b;
        lemma_first_of(s, class, 0);
        let at = first_of(s, class, 0);
        assert(s[a.len() as int] == c);
        if at < a.len() {
            assert(s[at] == a[at]);
        }
        assert(at == a.len());
        assert(s.take(at) =~= a);
        assert(s.skip(at + 1) =~= b);
    }
}

/// Lower case: the letters `A` to `Z` become those 32 places on, and every
/// other character stays.
pub proof fn lemma_lowercase_is(s: Seq<char>, i: int)
    requires
        0 <= i < s.len(),
    ensures
        lowercase(s).len() == s.len(),
        'A' <= s[i] <= 'Z' ==> lowercase(s)[i] as u32 == s[i] as u32 + 32,
        !('A' <= s[i] <= 'Z') ==> lowercase(s)[i] == s[i],
{
}

/// What the characters count as digits.
pub proof fn lemma_digit_values_are(n: nat)
    ensures
        n < 10 ==> digit_value((0x30 + n) as char, 10) == Some(n),
        n < 10 ==> digit_value((0x30 + n) as char, 16) == Some(n),
        10 <= n < 16 ==> digit_value((0x57 + n) as char, 16) == Some(n),
        10 <= n < 16 ==> digit_value((0x37 + n) as char, 16) == Some(n),
        forall|c: char| digit_value(c, 10) is Some <==> '0' <= c <= '9',
        forall|c: char|
            digit_value(c, 16) is Some <==> '0' <= c <= '9' || 'a' <= c <= 'f' || 'A' <= c <= 'F',
{
}

/// What digits write: the last one counts once, and those before it count as
/// often as the radix says.
pub proof fn lemma_value_is(s: Seq<char>, c: char, radix: nat)
    ensures
        value(seq![], radix) == Some(0nat),
        value(s, radix) is Some && digit_value(c, radix) is Some ==> value(s.push(c), radix)
            == Some(value(s, radix)->0 * radix + digit_value(c, radix)->0),
        value(s, radix) is None || digit_value(c, radix) is None ==> value(
            s.push(c),
            radix,
        ) is None,
{
    assert(s.push(c).drop_last() =~= s);
}

/// A number is digits that write no more than the limit; a plus sign before
/// them changes nothing, and without digits there is no number.
pub proof fn lemma_number_is(s: Seq<char>, radix: nat, max: nat)
    requires
        s.len() > 0,
        s[0] != '+',
    ensures
        number(s, radix, max) == number(seq!['+'] + s, radix, max),
        number(s, radix, max) is Some <==> value(s, radix) is Some && value(s, radix)->0 <= max,
        number(s, radix, max) is Some ==> number(s, radix, max) == value(s, radix),
        number(seq![], radix, max) is None,
        number(seq!['+'], radix, max) is None,
{
    assert((seq!['+'] + s).skip(1) =~= s);
    assert(seq!['+'].skip(1).len() == 0);
}

/// A number in decimal writes that number, in digits, without a zero before
/// it.
pub proof fn lemma_decimal_is(n: nat)
    ensures
        value(decimal(n), 10) == Some(n),
        decimal(n).len() > 0,
        n > 0 ==> decimal(n)[0] != '0',
        n == 0 ==> decimal(n) == seq!['0'],
        forall|i: int| 0 <= i < decimal(n).len() ==> '0' <= #[trigger] decimal(n)[i] <= '9',
    decreases n,
{
    if n < 10 {
        lemma_value_is(seq![], digit(n), 10);
        assert(Seq::<char>::empty().push(digit(n)) =~= seq![digit(n)]);
    } else {
        lemma_decimal_is(n / 10);
        lemma_value_is(decimal(n / 10), digit(n % 10), 10);
        let d = decimal(n);
        assert forall|i: int| 0 <= i < d.len() implies '0' <= #[trigger] d[i] <= '9' by {
            if i < d.len() - 1 {
                assert(d[i] == decimal(n / 10)[i]);
            }
        }
        assert(d[0] == decimal(n / 10)[0]);
    }
}

/// Which of two texts comes first: the one with the smaller character where
/// they first differ, and a text before those that go on behind it.
pub proof fn lemma_before_is(p: Seq<char>, x: char, a: Seq<char>, y: char, b: Seq<char>)
    ensures
        x < y ==> before(p + seq![x] + a, p + seq![y] + b),
        before(p, p + seq![x] + a),
        !before(p + seq![x] + a, p),
    decreases p.len(),
{
    let s = p + seq![x] + a;
    let t = p + seq![y] + b;
    if p.len() > 0 {
        let q = p.skip(1);
        lemma_before_is(q, x, a, y, b);
        assert(s.skip(1) =~= q + seq![x] + a);
        assert(t.skip(1) =~= q + seq![y] + b);
        assert(s[0] == p[0] && t[0] == p[0]);
    } else {
        assert(s[0] == x && t[0] == y);
    }
}

/// Each text of a list of strings is that of the string in its place.
pub proof fn lemma_texts_are(v: Seq<String>)
    ensures
        texts(v).len() == v.len(),
        forall|i: int| 0 <= i < v.len() ==> #[trigger] texts(v)[i] == v[i]@,
{
}

} // verus!
