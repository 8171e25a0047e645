//! The index from names to tickets, which the open-source serving table of
//! Kythe does not have.
//!
//! The index is text: one row a line, the name, a tab and the ticket, sorted,
//! and each row once.

use vstd::hash_map::StringHashMap;
use vstd::hash_set::StringHashSet;
use vstd::prelude::*;

use crate::kzip::VNameView;
use crate::marked_source::{
    base64_decode, base64_decoded, is_named_edge, lemma_name_is_word, marked_name, named_edge,
    parse_marked_source_fqn, qualified_name, rendered, strip_jvm_method_descriptor,
    without_descriptor,
};
use crate::text::{
    before, comes_before, contains, first_of, has_part, lemma_before_chain, lemma_before_total,
    lemma_first_of, lines, lines_of, push_char, same, split, split_first, split_once, texts,
    without_return, Class,
};
use crate::ticket::{escape, escaped, in_line, lemma_ticket_line, ticket_of, VName};

verus! {

// ---------------------------------------------------------------- entries

/// One entry of Kythe's graph: a fact about a node, or an edge from it.
#[derive(Debug)]
pub struct JsonEntry {
    pub source: VName,
    pub target: Option<VName>,
    pub edge_kind: String,
    pub fact_name: String,
    /// The fact's value in base64.
    pub fact_value: String,
}

/// What a [`JsonEntry`] says.
#[verifier::ext_equal]
pub struct JsonEntryView {
    pub source: VNameView,
    pub target: Option<VNameView>,
    pub edge_kind: Seq<char>,
    pub fact_name: Seq<char>,
    pub fact_value: Seq<char>,
}

impl View for JsonEntry {
    type V = JsonEntryView;

    open spec fn view(&self) -> JsonEntryView {
        JsonEntryView {
            source: self.source@,
            target: match self.target {
                Some(t) => Some(t@),
                None => None,
            },
            edge_kind: self.edge_kind@,
            fact_name: self.fact_name@,
            fact_value: self.fact_value@,
        }
    }
}

/// A name and a ticket that it stands for.
pub type RowView = (Seq<char>, Seq<char>);

/// What each of a list of rows says.
pub open spec fn row_views(rows: Seq<(String, String)>) -> Seq<RowView> {
    rows.map_values(|r: (String, String)| (r.0@, r.1@))
}

proof fn lemma_row_push(rows: Seq<(String, String)>, row: (String, String))
    ensures
        row_views(rows.push(row)) == row_views(rows).push((row.0@, row.1@)),
{
    assert(row_views(rows.push(row)) =~= row_views(rows).push((row.0@, row.1@)));
}

/// The names that an entry gives to its node. An edge that names it gives its
/// target's signature, without the method descriptor and with it; the fact
/// `/kythe/code` gives the name in its `MarkedSource`.
pub open spec fn names_of(e: JsonEntryView) -> Seq<RowView> {
    let ticket = ticket_of(e.source);
    if named_edge(e.edge_kind) {
        match e.target {
            Some(t) if t.signature.len() > 0 => match without_descriptor(t.signature) {
                Some(stripped) => seq![(stripped, ticket), (t.signature, ticket)],
                None => seq![(t.signature, ticket)],
            },
            _ => seq![],
        }
    } else if e.fact_name == "/kythe/code"@ && e.fact_value.len() > 0 {
        match base64_decoded(e.fact_value) {
            Some(bytes) => match marked_name(bytes) {
                Some(name) => seq![(name, ticket)],
                None => seq![],
            },
            None => seq![],
        }
    } else {
        seq![]
    }
}

/// The names that an entry gives to its node, each with the node's ticket.
pub fn entry_names(e: &JsonEntry) -> (r: Vec<(String, String)>)
    ensures
        row_views(r@) == names_of(e@),
{
    let mut out: Vec<(String, String)> = Vec::new();
    if is_named_edge(e.edge_kind.as_str()) {
        if let Some(t) = &e.target {
            if !t.signature.as_str().is_empty() {
                let ticket = e.source.to_ticket();
                if let Some(stripped) = strip_jvm_method_descriptor(t.signature.as_str()) {
                    out.push((stripped.to_string(), ticket.clone()));
                }
                out.push((t.signature.clone(), ticket));
            }
        }
    } else if same(e.fact_name.as_str(), "/kythe/code") && !e.fact_value.as_str().is_empty() {
        if let Some(bytes) = base64_decode(e.fact_value.as_str()) {
            if let Some(name) = parse_marked_source_fqn(bytes.as_slice()) {
                out.push((name, e.source.to_ticket()));
            }
        }
    }
    proof {
        assert(row_views(out@) =~= names_of(e@));
    }
    out
}

// --------------------------------------------------------------- name sets

/// What names a row in a set: the name with everything escaped, a tab, and the
/// ticket.
spec fn row_key(name: Seq<char>, ticket: Seq<char>) -> Seq<char> {
    escaped(name, false).push('\t') + ticket
}

/// Different rows have different keys.
proof fn lemma_row_key(n1: Seq<char>, t1: Seq<char>, n2: Seq<char>, t2: Seq<char>)
    requires
        row_key(n1, t1) == row_key(n2, t2),
    ensures
        n1 == n2,
        t1 == t2,
{
    let e1 = escaped(n1, false);
    let e2 = escaped(n2, false);
    let k = row_key(n1, t1);
    crate::ticket::lemma_escaped_plain(vstd::utf8::encode_utf8(n1), false);
    crate::ticket::lemma_escaped_plain(vstd::utf8::encode_utf8(n2), false);
    assert(k[e1.len() as int] == '\t');
    assert(row_key(n2, t2)[e2.len() as int] == '\t');
    if e1.len() < e2.len() {
        assert(row_key(n2, t2)[e1.len() as int] == e2[e1.len() as int]);
    }
    if e2.len() < e1.len() {
        assert(k[e2.len() as int] == e1[e2.len() as int]);
    }
    assert(k.take(e1.len() as int) =~= e1);
    assert(row_key(n2, t2).take(e2.len() as int) =~= e2);
    assert(k.skip((e1.len() + 1) as int) =~= t1);
    assert(row_key(n2, t2).skip((e2.len() + 1) as int) =~= t2);
    crate::ticket::lemma_escape_round_trip(n1, false);
    crate::ticket::lemma_escape_round_trip(n2, false);
}

fn key_of(name: &str, ticket: &str) -> (r: String)
    ensures
        r@ == row_key(name@, ticket@),
{
    let mut r: String = escape(name, false);
    push_char(&mut r, '\t');
    r.append(ticket);
    r
}

/// Rows that were found, each once, in the order in which they came.
pub struct NameSet {
    rows: Vec<(String, String)>,
    keys: StringHashSet,
}

impl View for NameSet {
    type V = Seq<RowView>;

    closed spec fn view(&self) -> Seq<RowView> {
        row_views(self.rows@)
    }
}

/// The rows with one more, unless it is there already.
pub open spec fn with_row(rows: Seq<RowView>, row: RowView) -> Seq<RowView> {
    if rows.contains(row) {
        rows
    } else {
        rows.push(row)
    }
}

/// The rows with each of a list more.
pub open spec fn with_rows(rows: Seq<RowView>, more: Seq<RowView>) -> Seq<RowView>
    decreases more.len(),
{
    if more.len() == 0 {
        rows
    } else {
        with_row(with_rows(rows, more.drop_last()), more.last())
    }
}

/// The rows of a list that are new to `rows`, in order.
pub open spec fn new_rows(rows: Seq<RowView>, more: Seq<RowView>) -> Seq<RowView> {
    with_rows(rows, more).skip(rows.len() as int)
}

/// Rows that are there stay where they are.
proof fn lemma_with_rows_keep(rows: Seq<RowView>, more: Seq<RowView>)
    ensures
        rows.len() <= with_rows(rows, more).len(),
        with_rows(rows, more).take(rows.len() as int) == rows,
    decreases more.len(),
{
    if more.len() > 0 {
        lemma_with_rows_keep(rows, more.drop_last());
        let w = with_rows(rows, more.drop_last());
        assert(with_row(w, more.last()).take(rows.len() as int) =~= w.take(rows.len() as int));
    } else {
        assert(rows.take(rows.len() as int) =~= rows);
    }
}

impl NameSet {
    #[verifier::type_invariant]
    spec fn consistent(self) -> bool {
        &&& forall|n: Seq<char>, t: Seq<char>| #[trigger]
            self.keys@.contains(row_key(n, t)) <==> row_views(self.rows@).contains((n, t))
        &&& row_views(self.rows@).no_duplicates()
    }

    /// The empty set.
    pub fn new() -> (r: Self)
        ensures
            r@ == Seq::<RowView>::empty(),
    {
        let r = NameSet { rows: Vec::new(), keys: StringHashSet::new() };
        proof {
            assert(row_views(r.rows@) =~= seq![]);
        }
        r
    }

    /// How many rows there are.
    pub fn len(&self) -> (r: usize)
        ensures
            r == self@.len(),
    {
        self.rows.len()
    }

    /// Whether there are no rows.
    pub fn is_empty(&self) -> (r: bool)
        ensures
            r == (self@.len() == 0),
    {
        self.rows.len() == 0
    }

    /// The set with a row more, and whether it was new.
    fn with(self, name: &String, ticket: &String) -> (r: (Self, bool))
        ensures
            r.0@ == with_row(self@, (name@, ticket@)),
            r.1 == !self@.contains((name@, ticket@)),
            r.0@.len() >= self@.len(),
    {
        proof {
            use_type_invariant(&self);
        }
        let NameSet { mut rows, mut keys } = self;
        let key = key_of(name.as_str(), ticket.as_str());
        if keys.contains(key.as_str()) {
            return (NameSet { rows, keys }, false);
        }
        let ghost before = row_views(rows@);
        let ghost old_keys = keys@;
        let _ = keys.insert(key);
        let row = (name.clone(), ticket.clone());
        proof {
            lemma_row_push(rows@, row);
        }
        rows.push(row);
        proof {
            let now = row_views(rows@);
            assert(now == before.push((name@, ticket@)));
            assert forall|n: Seq<char>, t: Seq<char>| #[trigger]
                keys@.contains(row_key(n, t)) <==> now.contains((n, t)) by {
                if row_key(n, t) == row_key(name@, ticket@) {
                    lemma_row_key(n, t, name@, ticket@);
                    assert(now[before.len() as int] == (n, t));
                } else {
                    assert(keys@.contains(row_key(n, t)) == old_keys.contains(row_key(n, t)));
                    if before.contains((n, t)) {
                        assert(now[before.index_of((n, t))] == (n, t));
                    }
                    if now.contains((n, t)) {
                        let i = now.index_of((n, t));
                        if i == before.len() {
                            assert(row_key(n, t) == row_key(name@, ticket@));
                        }
                        assert(before[i] == (n, t));
                    }
                }
            }
        }
        (NameSet { rows, keys }, true)
    }

    /// Adds rows. Returns those that are new, in order.
    pub fn add_all(self, more: &Vec<(String, String)>) -> (r: (Self, Vec<(String, String)>))
        ensures
            r.0@ == with_rows(self@, row_views(more@)),
            row_views(r.1@) == new_rows(self@, row_views(more@)),
    {
        let ghost start = self@;
        let ghost all = row_views(more@);
        let mut set: NameSet = self;
        let mut fresh: Vec<(String, String)> = Vec::new();
        let mut i: usize = 0;
        proof {
            assert(all.take(0) =~= seq![]);
            assert(row_views(fresh@) =~= new_rows(start, all.take(0)));
        }
        while i < more.len()
            invariant
                i <= more@.len(),
                all == row_views(more@),
                set@ == with_rows(start, all.take(i as int)),
                row_views(fresh@) == new_rows(start, all.take(i as int)),
            decreases more@.len() - i,
        {
            let (name, ticket) = &more[i];
            let ghost was = set@;
            proof {
                assert(all.take(i + 1).drop_last() =~= all.take(i as int));
                assert(all.take(i + 1).last() == (name@, ticket@));
                lemma_with_rows_keep(start, all.take(i as int));
            }
            let (next, new) = set.with(name, ticket);
            set = next;
            if new {
                let row = (name.clone(), ticket.clone());
                proof {
                    lemma_row_push(fresh@, row);
                    assert(new_rows(start, all.take(i + 1)) =~= new_rows(
                        start,
                        all.take(i as int),
                    ).push((name@, ticket@)));
                }
                fresh.push(row);
            }
            i += 1;
        }
        proof {
            assert(all.take(all.len() as int) =~= all);
        }
        (set, fresh)
    }

    /// The rows, sorted.
    pub fn into_sorted(self) -> (r: Vec<(String, String)>)
        ensures
            rows_sorted(row_views(r@)),
            row_views(r@).to_multiset() == self@.to_multiset(),
            self@.no_duplicates(),
    {
        proof {
            use_type_invariant(&self);
        }
        let mut rows: Vec<(String, String)> = self.rows;
        sort_rows(&mut rows);
        rows
    }
}

// ------------------------------------------------------------------ order

/// One row comes before another: by name, and then by ticket.
pub open spec fn row_before(a: RowView, b: RowView) -> bool {
    before(a.0, b.0) || (a.0 == b.0 && before(a.1, b.1))
}

/// No row comes before one that stands in front of it.
pub open spec fn rows_sorted(rows: Seq<RowView>) -> bool {
    forall|i: int, j: int|
        0 <= i < j < rows.len() ==> !row_before(#[trigger] rows[j], #[trigger] rows[i])
}

/// Calls `slice::sort` on pairs of strings, which it orders by the first and
/// then by the second, as `str` orders texts. The rows stay the same.
#[verifier::external_body]
fn sort_rows(rows: &mut Vec<(String, String)>)
    ensures
        rows_sorted(row_views(final(rows)@)),
        row_views(final(rows)@).to_multiset() == row_views(old(rows)@).to_multiset(),
{
    rows.sort();
}

// ------------------------------------------------------------------- text

/// The row that a line writes, if it has a tab.
pub open spec fn line_row(line: Seq<char>) -> Option<RowView> {
    split_first(line, Class::Only('\t'))
}

/// The rows that lines write; lines without a tab are passed over.
pub open spec fn line_rows(list: Seq<Seq<char>>) -> Seq<RowView>
    decreases list.len(),
{
    if list.len() == 0 {
        seq![]
    } else {
        match line_row(list.last()) {
            Some(row) => line_rows(list.drop_last()).push(row),
            None => line_rows(list.drop_last()),
        }
    }
}

/// The rows that a text writes.
pub open spec fn text_rows(text: Seq<char>) -> Seq<RowView> {
    line_rows(lines(text))
}

/// Reads the rows of a text.
pub fn parse_rows(text: &str) -> (r: Vec<(String, String)>)
    ensures
        row_views(r@) == text_rows(text@),
{
    let list = lines_of(text);
    let ghost all = texts(list@);
    let mut rows: Vec<(String, String)> = Vec::new();
    let mut i: usize = 0;
    proof {
        assert(row_views(rows@) =~= line_rows(all.take(0)));
    }
    while i < list.len()
        invariant
            i <= list@.len(),
            all == texts(list@),
            row_views(rows@) == line_rows(all.take(i as int)),
        decreases list@.len() - i,
    {
        proof {
            assert(all.take(i + 1).drop_last() =~= all.take(i as int));
            assert(all.take(i + 1).last() == list@[i as int]@);
        }
        if let Some(row) = split_once(list[i].as_str(), Class::Only('\t')) {
            proof {
                lemma_row_push(rows@, row);
            }
            rows.push(row);
        }
        i += 1;
    }
    proof {
        assert(all.take(all.len() as int) =~= all);
    }
    rows
}

/// A row as a line of the index, with its line feed.
pub open spec fn row_line(row: RowView) -> Seq<char> {
    (row.0.push('\t') + row.1).push('\n')
}

/// Rows as the text of an index.
pub open spec fn index_text(rows: Seq<RowView>) -> Seq<char>
    decreases rows.len(),
{
    if rows.len() == 0 {
        seq![]
    } else {
        index_text(rows.drop_last()) + row_line(rows.last())
    }
}

/// Writes a row as a line of the index.
pub fn write_row(row: &(String, String)) -> (r: String)
    ensures
        r@ == row_line((row.0@, row.1@)),
{
    let mut r: String = row.0.clone();
    push_char(&mut r, '\t');
    r.append(row.1.as_str());
    push_char(&mut r, '\n');
    r
}

// ------------------------------------------------------------------ index

/// The tickets of the rows with this name, in order.
pub open spec fn tickets_named(rows: Seq<RowView>, name: Seq<char>) -> Seq<Seq<char>>
    decreases rows.len(),
{
    if rows.len() == 0 {
        seq![]
    } else if rows.last().0 == name {
        tickets_named(rows.drop_last(), name).push(rows.last().1)
    } else {
        tickets_named(rows.drop_last(), name)
    }
}

/// The rows whose name contains `needle`, in order.
pub open spec fn rows_matching(rows: Seq<RowView>, needle: Seq<char>) -> Seq<RowView>
    decreases rows.len(),
{
    if rows.len() == 0 {
        seq![]
    } else if has_part(rows.last().0, needle) {
        rows_matching(rows.drop_last(), needle).push(rows.last())
    } else {
        rows_matching(rows.drop_last(), needle)
    }
}

/// How many names rows have, where the rows of a name stand together.
pub open spec fn name_count(rows: Seq<RowView>) -> nat
    decreases rows.len(),
{
    if rows.len() == 0 {
        0
    } else if rows.len() > 1 && rows[rows.len() - 2].0 == rows.last().0 {
        name_count(rows.drop_last())
    } else {
        name_count(rows.drop_last()) + 1
    }
}

/// The rows of the first `limit` names.
pub open spec fn first_names(rows: Seq<RowView>, limit: nat) -> Seq<RowView>
    decreases rows.len(),
{
    if name_count(rows) <= limit {
        rows
    } else {
        first_names(rows.drop_last(), limit)
    }
}

/// The first row, at `from` or behind it, with this ticket.
pub open spec fn row_with_ticket(rows: Seq<RowView>, ticket: Seq<char>, from: int) -> Option<int>
    decreases rows.len() - from,
{
    if from >= rows.len() {
        None
    } else if rows[from].1 == ticket {
        Some(from)
    } else {
        row_with_ticket(rows, ticket, from + 1)
    }
}

/// A name index in memory.
pub struct NameIndex {
    rows: Vec<(String, String)>,
    /// Where each ticket first stands.
    by_ticket: StringHashMap<usize>,
}

impl View for NameIndex {
    type V = Seq<RowView>;

    closed spec fn view(&self) -> Seq<RowView> {
        row_views(self.rows@)
    }
}

spec fn tickets_mapped(rows: Seq<RowView>, map: Map<Seq<char>, usize>, from: int) -> bool {
    forall|t: Seq<char>| #[trigger]
        map.contains_key(t) == (row_with_ticket(rows, t, from) is Some) && (map.contains_key(t)
            ==> row_with_ticket(rows, t, from) == Some(map[t] as int))
}

impl NameIndex {
    #[verifier::type_invariant]
    spec fn consistent(self) -> bool {
        &&& rows_sorted(row_views(self.rows@))
        &&& tickets_mapped(row_views(self.rows@), self.by_ticket@, 0)
    }

    /// The index that a text writes. Rows that are out of order are sorted.
    pub fn parse(text: &str) -> (r: Self)
        ensures
            rows_sorted(r@),
            r@.to_multiset() == text_rows(text@).to_multiset(),
    {
        let mut rows = parse_rows(text);
        sort_rows(&mut rows);
        let ghost all = row_views(rows@);
        let mut by_ticket: StringHashMap<usize> = StringHashMap::new();
        let mut i: usize = rows.len();
        while i > 0
            invariant
                i <= rows@.len(),
                all == row_views(rows@),
                tickets_mapped(all, by_ticket@, i as int),
            decreases i,
        {
            let ghost old_map = by_ticket@;
            i -= 1;
            by_ticket.insert(rows[i].1.clone(), i);
            proof {
                assert(all[i as int].1 == rows@[i as int].1@);
                assert forall|t: Seq<char>| #[trigger]
                    by_ticket@.contains_key(t) == (row_with_ticket(all, t, i as int) is Some) && (
                    by_ticket@.contains_key(t) ==> row_with_ticket(all, t, i as int) == Some(
                        by_ticket@[t] as int,
                    )) by {
                    assert(old_map.contains_key(t) == (row_with_ticket(all, t, i + 1) is Some));
                }
            }
        }
        NameIndex { rows, by_ticket }
    }

    /// How many rows there are.
    pub fn len(&self) -> (r: usize)
        ensures
            r == self@.len(),
    {
        self.rows.len()
    }

    /// Whether there are no rows.
    pub fn is_empty(&self) -> (r: bool)
        ensures
            r == (self@.len() == 0),
    {
        self.rows.len() == 0
    }

    /// The tickets of the rows with this name.
    pub fn exact(&self, name: &str) -> (r: Vec<String>)
        ensures
            texts(r@) == tickets_named(self@, name@),
    {
        proof {
            use_type_invariant(self);
        }
        let ghost all = self@;
        let lo: usize = self.first_not_before(name);
        let mut out: Vec<String> = Vec::new();
        let mut i: usize = lo;
        proof {
            lemma_none_named(all.take(lo as int), name@);
            assert(texts(out@) =~= tickets_named(all.take(lo as int), name@));
        }
        while i < self.rows.len() && same(self.rows[i].0.as_str(), name)
            invariant
                lo <= i <= self.rows@.len(),
                all == row_views(self.rows@),
                texts(out@) == tickets_named(all.take(i as int), name@),
            decreases self.rows@.len() - i,
        {
            let t = self.rows[i].1.clone();
            proof {
                assert(all.take(i + 1).drop_last() =~= all.take(i as int));
                assert(all.take(i + 1).last() == (self.rows@[i as int].0@, t@));
                crate::text::lemma_texts_push(out@, t);
            }
            out.push(t);
            i += 1;
        }
        proof {
            assert forall|j: int| i <= j < all.len() implies (#[trigger] all[j]).0 != name@ by {
                assert(all[i as int].0 == self.rows@[i as int].0@);
                if i > lo {
                }
                lemma_behind_named(all, lo as int, i as int, j, name@);
            }
            lemma_named_prefix(all, i as int, name@);
        }
        out
    }

    /// The first row whose name does not come before `name`.
    fn first_not_before(&self, name: &str) -> (r: usize)
        ensures
            r <= self@.len(),
            forall|j: int| 0 <= j < r ==> before((#[trigger] self@[j]).0, name@),
            forall|j: int| r <= j < self@.len() ==> !before((#[trigger] self@[j]).0, name@),
    {
        proof {
            use_type_invariant(self);
        }
        let ghost all = self@;
        let mut lo: usize = 0;
        let mut hi: usize = self.rows.len();
        while lo < hi
            invariant
                lo <= hi <= self.rows@.len(),
                all == row_views(self.rows@),
                rows_sorted(all),
                forall|j: int| 0 <= j < lo ==> before((#[trigger] all[j]).0, name@),
                forall|j: int| hi <= j < all.len() ==> !before((#[trigger] all[j]).0, name@),
            decreases hi - lo,
        {
            let mid: usize = lo + (hi - lo) / 2;
            proof {
                assert(all[mid as int].0 == self.rows@[mid as int].0@);
            }
            if comes_before(self.rows[mid].0.as_str(), name) {
                proof {
                    assert forall|j: int| 0 <= j < mid + 1 implies before(
                        (#[trigger] all[j]).0,
                        name@,
                    ) by {
                        if j < mid {
                            lemma_name_order(all, j, mid as int);
                            if before(all[j].0, all[mid as int].0) {
                                lemma_before_chain(all[j].0, all[mid as int].0, name@);
                            }
                        }
                    }
                }
                lo = mid + 1;
            } else {
                proof {
                    assert forall|j: int| mid <= j < all.len() implies !before(
                        (#[trigger] all[j]).0,
                        name@,
                    ) by {
                        if j > mid {
                            lemma_name_order(all, mid as int, j);
                            if before(all[j].0, name@) && before(all[mid as int].0, all[j].0) {
                                lemma_before_chain(all[mid as int].0, all[j].0, name@);
                            }
                        }
                    }
                }
                hi = mid;
            }
        }
        lo
    }

    /// The rows whose name contains `needle`, up to those of the first `limit`
    /// names.
    pub fn substr(&self, needle: &str, limit: usize) -> (r: Vec<(String, String)>)
        ensures
            row_views(r@) == first_names(rows_matching(self@, needle@), limit as nat),
    {
        let ghost all = self@;
        let mut out: Vec<(String, String)> = Vec::new();
        let mut names: usize = 0;
        let mut i: usize = 0;
        proof {
            assert(row_views(out@) =~= rows_matching(all.take(0), needle@));
        }
        while i < self.rows.len()
            invariant
                i <= self.rows@.len(),
                all == row_views(self.rows@),
                row_views(out@) == rows_matching(all.take(i as int), needle@),
                names == name_count(row_views(out@)),
                names <= limit,
                names <= i,
            decreases self.rows@.len() - i,
        {
            proof {
                assert(all.take(i + 1).drop_last() =~= all.take(i as int));
                assert(all.take(i + 1).last() == (
                    self.rows@[i as int].0@,
                    self.rows@[i as int].1@,
                ));
            }
            let (name, ticket) = &self.rows[i];
            if contains(name.as_str(), needle) {
                let fresh: bool = out.len() == 0 || !same(
                    out[out.len() - 1].0.as_str(),
                    name.as_str(),
                );
                let row = (name.clone(), ticket.clone());
                let ghost was = row_views(out@);
                proof {
                    lemma_row_push(out@, row);
                    let now = was.push((name@, ticket@));
                    assert(now.drop_last() =~= was);
                    if was.len() > 0 {
                        assert(now[now.len() - 2] == was.last());
                        assert(was.last().0 == out@.last().0@);
                    }
                }
                if fresh && names == limit {
                    proof {
                        lemma_first_names_stop(all, i as int, needle@, limit as nat);
                    }
                    return out;
                }
                if fresh {
                    names += 1;
                }
                out.push(row);
            }
            i += 1;
        }
        proof {
            assert(all.take(all.len() as int) =~= all);
        }
        out
    }

    /// The name of the first row with this ticket.
    pub fn name_of(&self, ticket: &str) -> (r: Option<&str>)
        ensures
            r matches Some(n) ==> row_with_ticket(self@, ticket@, 0) is Some && n@
                == self@[row_with_ticket(self@, ticket@, 0)->0].0,
            r is None ==> row_with_ticket(self@, ticket@, 0) is None,
    {
        proof {
            use_type_invariant(self);
        }
        match self.by_ticket.get(ticket) {
            Some(i) => {
                proof {
                    assert(self.by_ticket@.contains_key(ticket@));
                    lemma_row_with_ticket(self@, ticket@, 0);
                }
                Some(self.rows[*i].0.as_str())
            },
            None => {
                proof {
                    assert(!self.by_ticket@.contains_key(ticket@));
                }
                None
            },
        }
    }
}

proof fn lemma_row_with_ticket(rows: Seq<RowView>, ticket: Seq<char>, from: int)
    requires
        0 <= from,
    ensures
        row_with_ticket(rows, ticket, from) matches Some(i) ==> from <= i < rows.len()
            && rows[i].1 == ticket,
    decreases rows.len() - from,
{
    if from < rows.len() && rows[from].1 != ticket {
        lemma_row_with_ticket(rows, ticket, from + 1);
    }
}

/// In sorted rows, the names are in order.
proof fn lemma_name_order(rows: Seq<RowView>, i: int, j: int)
    requires
        rows_sorted(rows),
        0 <= i <= j < rows.len(),
    ensures
        before(rows[i].0, rows[j].0) || rows[i].0 == rows[j].0,
{
    lemma_before_total(rows[i].0, rows[j].0);
    if i < j {
        assert(!row_before(rows[j], rows[i]));
    }
}

proof fn lemma_none_named(rows: Seq<RowView>, name: Seq<char>)
    requires
        forall|j: int| 0 <= j < rows.len() ==> before((#[trigger] rows[j]).0, name),
    ensures
        tickets_named(rows, name) == Seq::<Seq<char>>::empty(),
    decreases rows.len(),
{
    if rows.len() > 0 {
        assert(before(rows[rows.len() - 1].0, name));
        lemma_before_total(rows.last().0, name);
        assert forall|j: int| 0 <= j < rows.drop_last().len() implies before(
            (#[trigger] rows.drop_last()[j]).0,
            name,
        ) by {
            assert(rows.drop_last()[j] == rows[j]);
        }
        lemma_none_named(rows.drop_last(), name);
    }
}

/// Behind the rows of a name there are only rows of later names.
proof fn lemma_behind_named(rows: Seq<RowView>, lo: int, i: int, j: int, name: Seq<char>)
    requires
        rows_sorted(rows),
        0 <= lo <= i <= j < rows.len(),
        rows[i].0 != name,
        !before(rows[i].0, name),
    ensures
        rows[j].0 != name,
{
    lemma_name_order(rows, i, j);
    lemma_before_total(rows[i].0, name);
    if rows[j].0 == name {
        assert(before(rows[i].0, name));
    }
}

/// Rows with other names do not matter.
proof fn lemma_named_prefix(rows: Seq<RowView>, n: int, name: Seq<char>)
    requires
        0 <= n <= rows.len(),
        forall|j: int| n <= j < rows.len() ==> (#[trigger] rows[j]).0 != name,
    ensures
        tickets_named(rows, name) == tickets_named(rows.take(n), name),
    decreases rows.len() - n,
{
    if n == rows.len() {
        assert(rows.take(n) =~= rows);
    } else {
        let front = rows.drop_last();
        assert(rows[rows.len() - 1].0 != name);
        assert forall|j: int| n <= j < front.len() implies (#[trigger] front[j]).0 != name by {
            assert(front[j] == rows[j]);
        }
        lemma_named_prefix(front, n, name);
        assert(front.take(n) =~= rows.take(n));
    }
}

/// Once there are `limit` names and another one follows, nothing more counts.
proof fn lemma_first_names_stop(rows: Seq<RowView>, i: int, needle: Seq<char>, limit: nat)
    requires
        0 <= i < rows.len(),
        name_count(rows_matching(rows.take(i), needle)) <= limit,
        name_count(rows_matching(rows.take(i + 1), needle)) > limit,
    ensures
        first_names(rows_matching(rows, needle), limit) == rows_matching(rows.take(i), needle),
{
    lemma_matching_stop(rows, i, rows.len() as int, needle, limit);
    assert(rows.take(rows.len() as int) =~= rows);
}

proof fn lemma_matching_stop(rows: Seq<RowView>, i: int, n: int, needle: Seq<char>, limit: nat)
    requires
        0 <= i < n <= rows.len(),
        name_count(rows_matching(rows.take(i), needle)) <= limit,
        name_count(rows_matching(rows.take(i + 1), needle)) > limit,
    ensures
        first_names(rows_matching(rows.take(n), needle), limit) == rows_matching(
            rows.take(i),
            needle,
        ),
        name_count(rows_matching(rows.take(n), needle)) > limit,
    decreases n,
{
    let here = rows_matching(rows.take(n), needle);
    let prev = rows_matching(rows.take(n - 1), needle);
    assert(rows.take(n).drop_last() =~= rows.take(n - 1));
    if n > i + 1 {
        lemma_matching_stop(rows, i, n - 1, needle, limit);
    } else {
        assert(first_names(prev, limit) == prev);
    }
    if here != prev {
        assert(here.drop_last() =~= prev);
    }
}

// ------------------------------------------------------------------- laws

/// A row that a line can hold: no line feed in it, no tab in the name, and no
/// carriage return at the end of the ticket.
pub open spec fn writable(row: RowView) -> bool {
    &&& forall|i: int| 0 <= i < row.0.len() ==> #[trigger] row.0[i] != '\n' && row.0[i] != '\t'
    &&& forall|i: int| 0 <= i < row.1.len() ==> #[trigger] row.1[i] != '\n'
    &&& row.1.len() > 0 ==> row.1.last() != '\r'
}

/// The line of a row without its line feed.
spec fn row_body(row: RowView) -> Seq<char> {
    row.0.push('\t') + row.1
}

proof fn lemma_row_body(row: RowView)
    requires
        writable(row),
    ensures
        line_row(row_body(row)) == Some(row),
        without_return(row_body(row)) == row_body(row),
        forall|i: int| 0 <= i < row_body(row).len() ==> #[trigger] row_body(row)[i] != '\n',
{
    let body = row_body(row);
    let tab = Class::Only('\t');
    let n = row.0.len() as int;
    assert(body[n] == '\t');
    assert forall|i: int| 0 <= i < n implies !tab.holds(#[trigger] body[i]) by {
        assert(body[i] == row.0[i]);
    }
    lemma_first_of(body, tab, 0);
    assert(first_of(body, tab, 0) == n) by {
        if first_of(body, tab, 0) < n {
            assert(tab.holds(body[first_of(body, tab, 0)]));
        }
        if first_of(body, tab, 0) > n {
            assert(!tab.holds(body[n]));
        }
    }
    assert(body.take(n) =~= row.0);
    assert(body.skip(n + 1) =~= row.1);
    assert forall|i: int| 0 <= i < body.len() implies #[trigger] body[i] != '\n' by {
        if i < n {
            assert(body[i] == row.0[i]);
        } else if i > n {
            assert(body[i] == row.1[i - n - 1]);
        }
    }
    if row.1.len() > 0 {
        assert(body.last() == row.1.last());
    } else {
        assert(body.last() == '\t');
    }
}

proof fn lemma_split_index(rows: Seq<RowView>)
    requires
        forall|i: int| 0 <= i < rows.len() ==> writable(#[trigger] rows[i]),
    ensures
        split(index_text(rows), Class::Only('\n')) == rows.map_values(
            |r: RowView| row_body(r),
        ).push(seq![]),
    decreases rows.len(),
{
    let feed = Class::Only('\n');
    let bodies = rows.map_values(|r: RowView| row_body(r));
    if rows.len() == 0 {
        assert(split(index_text(rows), feed) =~= bodies.push(seq![]));
    } else {
        let front = rows.drop_last();
        let row = rows.last();
        assert(row == rows[rows.len() - 1]);
        lemma_row_body(row);
        assert forall|i: int| 0 <= i < front.len() implies writable(#[trigger] front[i]) by {
            assert(front[i] == rows[i]);
        }
        lemma_split_index(front);
        let head = index_text(front);
        let body = row_body(row);
        let fb = front.map_values(|r: RowView| row_body(r));
        crate::text::lemma_split_push_text(head, body, feed);
        assert(fb.push(seq![]).drop_last() =~= fb);
        assert(Seq::<char>::empty() + body =~= body);
        assert(split(head + body, feed) =~= fb.push(body));
        let whole = index_text(rows);
        assert(whole.drop_last() =~= head + body);
        assert(whole.last() == '\n');
        assert(fb.push(body) =~= bodies);
    }
}

proof fn lemma_line_rows(rows: Seq<RowView>)
    requires
        forall|i: int| 0 <= i < rows.len() ==> writable(#[trigger] rows[i]),
    ensures
        line_rows(rows.map_values(|r: RowView| row_body(r))) == rows,
    decreases rows.len(),
{
    let bodies = rows.map_values(|r: RowView| row_body(r));
    if rows.len() == 0 {
        assert(line_rows(bodies) =~= rows);
    } else {
        let front = rows.drop_last();
        assert forall|i: int| 0 <= i < front.len() implies writable(#[trigger] front[i]) by {
            assert(front[i] == rows[i]);
        }
        lemma_line_rows(front);
        assert(bodies.drop_last() =~= front.map_values(|r: RowView| row_body(r)));
        assert(bodies.last() == row_body(rows.last()));
        assert(writable(rows[rows.len() - 1]));
        lemma_row_body(rows.last());
        assert(front.push(rows.last()) =~= rows);
    }
}

/// The text of an index reads back as the rows it was written from.
pub proof fn lemma_index_text_round_trip(rows: Seq<RowView>)
    requires
        forall|i: int| 0 <= i < rows.len() ==> writable(#[trigger] rows[i]),
    ensures
        text_rows(index_text(rows)) == rows,
{
    lemma_split_index(rows);
    lemma_line_rows(rows);
    let bodies = rows.map_values(|r: RowView| row_body(r));
    assert(bodies.push(seq![]).drop_last() =~= bodies);
    assert(bodies.map_values(|p: Seq<char>| without_return(p)) =~= bodies) by {
        assert forall|i: int| 0 <= i < bodies.len() implies without_return(
            #[trigger] bodies[i],
        ) == bodies[i] by {
            assert(writable(rows[i]));
            lemma_row_body(rows[i]);
        }
    }
    assert(lines(index_text(rows)) =~= bodies);
}

/// No row before another, in the form of an order.
spec fn row_at_most() -> spec_fn(RowView, RowView) -> bool {
    |a: RowView, b: RowView| !row_before(b, a)
}

proof fn lemma_row_chain(a: RowView, b: RowView, c: RowView)
    requires
        !row_before(b, a),
        !row_before(c, b),
    ensures
        !row_before(c, a),
{
    lemma_before_total(a.0, b.0);
    lemma_before_total(b.0, c.0);
    lemma_before_total(a.0, c.0);
    lemma_before_total(a.1, b.1);
    lemma_before_total(b.1, c.1);
    lemma_before_total(a.1, c.1);
    if before(a.0, b.0) && before(b.0, c.0) {
        lemma_before_chain(a.0, b.0, c.0);
    }
    if before(a.1, b.1) && before(b.1, c.1) {
        lemma_before_chain(a.1, b.1, c.1);
    }
}

/// Rows can be sorted in one way only.
pub proof fn lemma_sorted_once(a: Seq<RowView>, b: Seq<RowView>)
    requires
        rows_sorted(a),
        rows_sorted(b),
        a.to_multiset() == b.to_multiset(),
    ensures
        a == b,
{
    let leq = row_at_most();
    assert(vstd::relations::total_ordering(leq)) by {
        assert forall|x: RowView, y: RowView| #[trigger] leq(x, y) && #[trigger] leq(y, x) implies x
            == y by {
            lemma_before_total(x.0, y.0);
            lemma_before_total(x.1, y.1);
        }
        assert forall|x: RowView| #[trigger] leq(x, x) by {
            lemma_before_total(x.0, x.0);
            lemma_before_total(x.1, x.1);
        }
        assert forall|x: RowView, y: RowView, z: RowView| #[trigger]
            leq(x, y) && #[trigger] leq(y, z) implies leq(x, z) by {
            lemma_row_chain(x, y, z);
        }
        assert forall|x: RowView, y: RowView| #[trigger] leq(x, y) || #[trigger] leq(y, x) by {
            lemma_before_total(x.0, y.0);
            lemma_before_total(x.1, y.1);
        }
    }
    assert(vstd::relations::sorted_by(a, leq));
    assert(vstd::relations::sorted_by(b, leq));
    vstd::seq_lib::lemma_sorted_unique(a, b, leq);
}

/// An index that is written and read again holds the same rows in the same
/// order: whatever sorted rows have the rows of the text, they are those that
/// were written.
pub proof fn lemma_index_round_trip(rows: Seq<RowView>, read: Seq<RowView>)
    requires
        forall|i: int| 0 <= i < rows.len() ==> writable(#[trigger] rows[i]),
        rows_sorted(rows),
        rows_sorted(read),
        read.to_multiset() == text_rows(index_text(rows)).to_multiset(),
    ensures
        read == rows,
{
    lemma_index_text_round_trip(rows);
    lemma_sorted_once(rows, read);
}

/// Looking a name up finds the tickets of its rows, all of them and no others.
pub proof fn lemma_exact(rows: Seq<RowView>, name: Seq<char>, ticket: Seq<char>)
    ensures
        tickets_named(rows, name).contains(ticket) <==> rows.contains((name, ticket)),
    decreases rows.len(),
{
    if rows.len() > 0 {
        let front = rows.drop_last();
        lemma_exact(front, name, ticket);
        let here = tickets_named(rows, name);
        let prev = tickets_named(front, name);
        if here.contains(ticket) {
            let i = here.index_of(ticket);
            if i < prev.len() {
                assert(prev[i] == ticket);
                assert(prev.contains(ticket));
                assert(front.contains((name, ticket)));
                assert(rows[front.index_of((name, ticket))] == (name, ticket));
            } else {
                assert(rows[rows.len() - 1] == (name, ticket));
            }
        }
        if rows.contains((name, ticket)) {
            let i = rows.index_of((name, ticket));
            if i < front.len() {
                assert(front[i] == (name, ticket));
                assert(front.contains((name, ticket)));
                assert(prev.contains(ticket));
                assert(here[prev.index_of(ticket)] == ticket);
            } else {
                assert(here[here.len() - 1] == ticket);
            }
        }
    }
}

/// The rows that a set ends with are those that were added, each once.
pub proof fn lemma_with_rows(rows: Seq<RowView>, more: Seq<RowView>)
    requires
        rows.no_duplicates(),
    ensures
        with_rows(rows, more).no_duplicates(),
        forall|r: RowView| #[trigger]
            with_rows(rows, more).contains(r) <==> rows.contains(r) || more.contains(r),
    decreases more.len(),
{
    if more.len() > 0 {
        let front = more.drop_last();
        lemma_with_rows(rows, front);
        let w = with_rows(rows, front);
        let now = with_rows(rows, more);
        assert forall|r: RowView| #[trigger] now.contains(r) <==> rows.contains(r)
            || more.contains(r) by {
            if now.contains(r) {
                let i = now.index_of(r);
                if i < w.len() {
                    assert(w[i] == r);
                    assert(w.contains(r));
                    if front.contains(r) {
                        assert(more[front.index_of(r)] == r);
                    }
                } else {
                    assert(more[more.len() - 1] == r);
                }
            }
            if rows.contains(r) || more.contains(r) {
                if more.contains(r) && !rows.contains(r) {
                    let i = more.index_of(r);
                    if i < front.len() {
                        assert(front[i] == r);
                        assert(front.contains(r));
                    }
                }
                if w.contains(r) {
                    assert(now[w.index_of(r)] == r);
                } else {
                    assert(r == more.last());
                    assert(now[now.len() - 1] == r);
                }
            }
        }
    }
}

/// The rows of an entry can be written, where the name that an edge gives has
/// no tab and no line feed. A name out of a `MarkedSource` never has.
pub proof fn lemma_names_writable(e: JsonEntryView)
    requires
        named_edge(e.edge_kind) && e.target is Some ==> forall|i: int|
            0 <= i < e.target->0.signature.len() ==> #[trigger] e.target->0.signature[i] != '\n'
                && e.target->0.signature[i] != '\t',
    ensures
        forall|i: int| 0 <= i < names_of(e).len() ==> writable(#[trigger] names_of(e)[i]),
{
    let ticket = ticket_of(e.source);
    lemma_ticket_line(e.source);
    assert forall|i: int| 0 <= i < ticket.len() implies #[trigger] ticket[i] != '\n' && ticket[i]
        != '\r' by {
        assert(in_line(ticket[i]));
    }
    if named_edge(e.edge_kind) {
        if let Some(t) = e.target {
            if let Some(stripped) = without_descriptor(t.signature) {
                assert forall|i: int| 0 <= i < stripped.len() implies #[trigger] stripped[i] != '\n'
                    && stripped[i] != '\t' by {
                    assert(stripped[i] == t.signature[i]);
                }
            }
        }
    } else if let Some(bytes) = base64_decoded(e.fact_value) {
        if let Some(full) = rendered(bytes) {
            lemma_name_is_word(full);
            if let Some(name) = qualified_name(full) {
                assert forall|i: int| 0 <= i < name.len() implies #[trigger] name[i] != '\n'
                    && name[i] != '\t' by {
                    assert(!Class::Space.holds(name[i]));
                }
            }
        }
    }
}

/// A name that was found leads to its ticket, and only such a name: where the
/// rows that were found are kept once, sorted, written as an index and read
/// again, looking a name up finds exactly the tickets that it was found with.
pub proof fn lemma_found_is_looked_up(
    found: Seq<RowView>,
    sorted: Seq<RowView>,
    read: Seq<RowView>,
    name: Seq<char>,
    ticket: Seq<char>,
)
    requires
        forall|i: int| 0 <= i < found.len() ==> writable(#[trigger] found[i]),
        rows_sorted(sorted),
        sorted.to_multiset() == with_rows(seq![], found).to_multiset(),
        rows_sorted(read),
        read.to_multiset() == text_rows(index_text(sorted)).to_multiset(),
    ensures
        tickets_named(read, name).contains(ticket) <==> found.contains((name, ticket)),
{
    let set = with_rows(seq![], found);
    lemma_with_rows(seq![], found);
    vstd::seq_lib::to_multiset_contains(sorted, (name, ticket));
    vstd::seq_lib::to_multiset_contains(set, (name, ticket));
    assert forall|i: int| 0 <= i < sorted.len() implies writable(#[trigger] sorted[i]) by {
        let r = sorted[i];
        vstd::seq_lib::to_multiset_contains(sorted, r);
        vstd::seq_lib::to_multiset_contains(set, r);
        assert(sorted.contains(r));
        assert(set.contains(r));
        assert(found.contains(r));
        assert(writable(found[found.index_of(r)]));
    }
    lemma_index_round_trip(sorted, read);
    lemma_exact(read, name, ticket);
    assert(!Seq::<RowView>::empty().contains((name, ticket)));
}

/// A run that was cut short loses no names: the rows that it logged, read back,
/// and those that are found after it make up the rows of the whole run.
pub proof fn lemma_names_resume(logged: Seq<RowView>, more: Seq<RowView>, row: RowView)
    requires
        forall|i: int| 0 <= i < logged.len() ==> writable(#[trigger] logged[i]),
    ensures
        with_rows(with_rows(seq![], text_rows(index_text(logged))), more).contains(row)
            <==> logged.contains(row) || more.contains(row),
{
    lemma_index_text_round_trip(logged);
    let preloaded = with_rows(seq![], logged);
    lemma_with_rows(seq![], logged);
    lemma_with_rows(preloaded, more);
    assert(!Seq::<RowView>::empty().contains(row));
    assert(with_rows(preloaded, more).contains(row) <==> preloaded.contains(row) || more.contains(
        row,
    ));
}

// ------------------------------------------- what the operations are for

/// What an entry says, part by part.
pub proof fn lemma_entry_view_is(e: JsonEntry)
    ensures
        e@.source == e.source@,
        e.target matches Some(t) ==> e@.target == Some(t@),
        e.target is None ==> e@.target is None,
        e@.edge_kind == e.edge_kind@,
        e@.fact_name == e.fact_name@,
        e@.fact_value == e.fact_value@,
{
}

/// The names that an edge gives: one that names its node gives the signature
/// of its target, and before it the same without the method descriptor, where
/// it has one, both with the ticket of its source; and whatever fact it has
/// with it does not count.
pub proof fn lemma_edge_names_are(e: JsonEntryView, t: VNameView)
    requires
        named_edge(e.edge_kind),
    ensures
        e.target is None ==> names_of(e).len() == 0,
        e.target == Some(t) && t.signature.len() == 0 ==> names_of(e).len() == 0,
        e.target == Some(t) && t.signature.len() > 0 && without_descriptor(t.signature) is None
            ==> names_of(e) == seq![(t.signature, ticket_of(e.source))],
        e.target == Some(t) && t.signature.len() > 0 && without_descriptor(t.signature) is Some
            ==> names_of(e) == seq![
            (without_descriptor(t.signature)->0, ticket_of(e.source)),
            (t.signature, ticket_of(e.source)),
        ],
{
}

/// The name that a fact gives: the fact `/kythe/code` gives the one that its
/// value, which is base64 of a `MarkedSource`, says; any other fact gives none.
pub proof fn lemma_fact_names_are(e: JsonEntryView, bytes: Seq<u8>, name: Seq<char>)
    requires
        !named_edge(e.edge_kind),
    ensures
        e.fact_name != "/kythe/code"@ ==> names_of(e).len() == 0,
        e.fact_value.len() == 0 ==> names_of(e).len() == 0,
        base64_decoded(e.fact_value) is None ==> names_of(e).len() == 0,
        base64_decoded(e.fact_value) == Some(bytes) && marked_name(bytes) is None ==> names_of(
            e,
        ).len() == 0,
        e.fact_name == "/kythe/code"@ && e.fact_value.len() > 0 && base64_decoded(e.fact_value)
            == Some(bytes) && marked_name(bytes) == Some(name) ==> names_of(e) == seq![
            (name, ticket_of(e.source)),
        ],
{
}

/// Rows that are added: everything that was there stays in front, everything
/// that is added is there, nothing else is, and nothing is there twice that was
/// not before.
pub proof fn lemma_with_rows_are(rows: Seq<RowView>, more: Seq<RowView>)
    ensures
        rows.is_prefix_of(with_rows(rows, more)),
        forall|r: RowView| #[trigger]
            with_rows(rows, more).contains(r) <==> rows.contains(r) || more.contains(r),
        rows.no_duplicates() ==> with_rows(rows, more).no_duplicates(),
        with_rows(rows, more) == rows + new_rows(rows, more),
    decreases more.len(),
{
    lemma_with_rows_keep(rows, more);
    let all = with_rows(rows, more);
    assert(all.subrange(0, rows.len() as int) =~= rows);
    assert(all =~= rows + new_rows(rows, more)) by {
        assert(all.take(rows.len() as int) == rows);
        assert forall|i: int| 0 <= i < rows.len() implies all[i] == rows[i] by {
            assert(all.take(rows.len() as int)[i] == all[i]);
        }
    }
    if more.len() > 0 {
        let front = more.drop_last();
        let last = more.last();
        let w = with_rows(rows, front);
        lemma_with_rows_are(rows, front);
        assert forall|r: RowView| #[trigger] all.contains(r) <==> rows.contains(r)
            || more.contains(r) by {
            if all.contains(r) {
                let i = all.index_of(r);
                if i < w.len() {
                    assert(w[i] == r);
                    assert(w.contains(r));
                    if front.contains(r) {
                        assert(more[front.index_of(r)] == r);
                    }
                } else {
                    assert(more[more.len() - 1] == r);
                }
            }
            if rows.contains(r) || front.contains(r) {
                assert(w.contains(r));
                assert(all[w.index_of(r)] == r);
            }
            if more.contains(r) && !front.contains(r) {
                let k = more.index_of(r);
                if k < front.len() {
                    assert(front[k] == r);
                }
                assert(r == last);
                if !w.contains(last) {
                    assert(all[w.len() as int] == last);
                } else {
                    assert(all == w);
                }
            }
        }
    }
}

/// Rows are in order by their names, and those of a name by their tickets.
pub proof fn lemma_row_order_is(a: RowView, b: RowView)
    ensures
        before(a.0, b.0) ==> row_before(a, b),
        a.0 == b.0 && before(a.1, b.1) ==> row_before(a, b),
        row_before(a, b) ==> !row_before(b, a) && a != b,
        a == b || row_before(a, b) || row_before(b, a),
{
    lemma_before_total(a.0, b.0);
    lemma_before_total(b.0, a.0);
    lemma_before_total(a.1, b.1);
    lemma_before_total(b.1, a.1);
}

/// A line writes a row just where it has a tab: the name stands before the
/// first one, and everything behind it is the ticket.
pub proof fn lemma_line_row_is(name: Seq<char>, ticket: Seq<char>)
    requires
        !name.contains('\t'),
    ensures
        line_row(name + seq!['\t'] + ticket) == Some((name, ticket)),
        line_row(name) is None,
{
    assert forall|i: int| 0 <= i < name.len() implies !Class::Only('\t').holds(
        #[trigger] name[i],
    ) by {
        assert(name.contains(name[i]));
    }
    crate::text::lemma_split_first_is(name, '\t', ticket, Class::Only('\t'));
}

/// The rows of lines: one for each line that has one, in their order; the rows
/// of a text are those of its lines.
pub proof fn lemma_line_rows_are(list: Seq<Seq<char>>, line: Seq<char>, text: Seq<char>)
    ensures
        line_rows(seq![]).len() == 0,
        line_row(line) matches Some(row) ==> line_rows(list.push(line)) == line_rows(list).push(row),
        line_row(line) is None ==> line_rows(list.push(line)) == line_rows(list),
        text_rows(text) == line_rows(lines(text)),
{
    assert(list.push(line).drop_last() =~= list);
}

/// A row as a line: name, tab, ticket and line feed; and the text of an index
/// is the lines of its rows.
pub proof fn lemma_row_line_is(rows: Seq<RowView>, row: RowView)
    ensures
        row_line(row) == row.0 + seq!['\t'] + row.1 + seq!['\n'],
        index_text(seq![]).len() == 0,
        index_text(rows.push(row)) == index_text(rows) + row_line(row),
{
    assert(row_line(row) =~= row.0 + seq!['\t'] + row.1 + seq!['\n']);
    assert(rows.push(row).drop_last() =~= rows);
}

/// The tickets of a name: those of just the rows that have the name, in their
/// order.
pub proof fn lemma_tickets_named_are(rows: Seq<RowView>, name: Seq<char>)
    ensures
        tickets_named(rows, name) == rows.filter(|r: RowView| r.0 == name).map_values(
            |r: RowView| r.1,
        ),
    decreases rows.len(),
{
    reveal(Seq::filter);
    let kept = rows.filter(|r: RowView| r.0 == name);
    if rows.len() > 0 {
        lemma_tickets_named_are(rows.drop_last(), name);
        let front = rows.drop_last().filter(|r: RowView| r.0 == name);
        if rows.last().0 == name {
            assert(kept.map_values(|r: RowView| r.1) =~= front.map_values(|r: RowView| r.1).push(
                rows.last().1,
            ));
        }
    } else {
        assert(tickets_named(rows, name) =~= kept.map_values(|r: RowView| r.1));
    }
}

/// The rows that match: just those whose name holds the text, in their order.
pub proof fn lemma_rows_matching_are(rows: Seq<RowView>, needle: Seq<char>)
    ensures
        rows_matching(rows, needle) == rows.filter(|r: RowView| has_part(r.0, needle)),
    decreases rows.len(),
{
    reveal(Seq::filter);
    if rows.len() > 0 {
        lemma_rows_matching_are(rows.drop_last(), needle);
    }
}

/// How many names rows have: one more with each row whose name is not that of
/// the row before it.
pub proof fn lemma_name_count_is(rows: Seq<RowView>, row: RowView)
    ensures
        name_count(seq![]) == 0,
        rows.len() == 0 || rows.last().0 != row.0 ==> name_count(rows.push(row)) == name_count(rows)
            + 1,
        rows.len() > 0 && rows.last().0 == row.0 ==> name_count(rows.push(row)) == name_count(rows),
{
    let all = rows.push(row);
    assert(all.drop_last() =~= rows);
    if rows.len() > 0 {
        assert(all[all.len() - 2] == rows.last());
    }
}

/// The rows of the first names: the rows from the first on, with no more names
/// than the limit says, and as many rows as that allows.
pub proof fn lemma_first_names_are(rows: Seq<RowView>, limit: nat)
    ensures
        ({
            let r = first_names(rows, limit);
            &&& r.is_prefix_of(rows)
            &&& name_count(r) <= limit
            &&& r.len() < rows.len() ==> name_count(rows.take(r.len() as int + 1)) > limit
        }),
    decreases rows.len(),
{
    let r = first_names(rows, limit);
    if name_count(rows) <= limit {
        assert(rows.subrange(0, rows.len() as int) =~= rows);
    } else {
        let front = rows.drop_last();
        lemma_first_names_are(front, limit);
        assert(r =~= rows.subrange(0, r.len() as int));
        if r.len() < front.len() {
            assert(front.take(r.len() as int + 1) =~= rows.take(r.len() as int + 1));
        } else {
            assert(rows.take(rows.len() as int) =~= rows);
        }
    }
}

/// The row of a ticket is the first that has it.
pub proof fn lemma_row_with_ticket_is(
    rows: Seq<RowView>,
    ticket: Seq<char>,
    from: int,
    i: int,
)
    requires
        0 <= from <= i <= rows.len(),
        forall|k: int| from <= k < i ==> (#[trigger] rows[k]).1 != ticket,
    ensures
        i < rows.len() && rows[i].1 == ticket ==> row_with_ticket(rows, ticket, from) == Some(i),
        i == rows.len() ==> row_with_ticket(rows, ticket, from) is None,
    decreases i - from,
{
    if from < i {
        assert(rows[from].1 != ticket);
        lemma_row_with_ticket_is(rows, ticket, from + 1, i);
    }
}

} // verus!
