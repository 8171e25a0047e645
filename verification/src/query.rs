//! Queries: from a name to tickets, what is asked of Kythe about a ticket, and
//! how the replies are put into lines.
//!
//! Asking is left to the caller, who sends a request or runs the `kythe` tool
//! with the arguments given here, and hands the reply back.

use vstd::prelude::*;

use crate::json::{canonical, json_compact, write_json, Json, JsonView};
use crate::nameindex::{
    first_names, row_views, row_with_ticket, rows_matching, tickets_named, NameIndex, RowView,
};
use crate::text::{
    before, contains, decimal, decimal_of, distinct, has_part, join, join_with, lemma_distinct_push,
    lemma_texts_push, push_char, same, texts, trim, trimmed, DistinctList,
};
use crate::ticket::{is_ticket, path_of, sig_of, ticket_like, ticket_path, ticket_signature};

verus! {

// ----------------------------------------------------------------- filter

/// Substrings by which results are kept or dropped. A substring that is empty
/// counts for nothing.
#[derive(Debug)]
pub struct Filter {
    /// A path has to hold this.
    pub in_: Option<String>,
    /// A path may not hold this.
    pub not_in: Option<String>,
    /// The path of a symbol's definition has to hold this. It counts where a
    /// name is resolved.
    pub def_in: Option<String>,
}

impl Filter {
    /// Whether results at `path` are kept.
    pub open spec fn keeps(&self, path: Seq<char>) -> bool {
        &&& self.in_ matches Some(s) ==> s@.len() == 0 || has_part(path, s@)
        &&& self.not_in matches Some(s) ==> s@.len() == 0 || !has_part(path, s@)
    }

    /// Whether results at `path` are kept.
    pub fn keep(&self, path: &str) -> (r: bool)
        ensures
            r == self.keeps(path@),
    {
        if let Some(s) = &self.in_ {
            if !s.as_str().is_empty() && !contains(path, s.as_str()) {
                return false;
            }
        }
        if let Some(s) = &self.not_in {
            if !s.as_str().is_empty() && contains(path, s.as_str()) {
                return false;
            }
        }
        true
    }

    /// Where symbols have to be defined, if the filter says so.
    pub fn def_part(&self) -> (r: Option<&str>)
        ensures
            r matches Some(s) ==> self.def_in matches Some(d) && s@ == d@ && d@.len() > 0,
            r is None ==> (self.def_in matches Some(d) ==> d@.len() == 0),
    {
        match &self.def_in {
            Some(s) => if s.as_str().is_empty() {
                None
            } else {
                Some(s.as_str())
            },
            None => None,
        }
    }
}

impl Default for Filter {
    fn default() -> (r: Self)
        ensures
            r.in_ is None && r.not_in is None && r.def_in is None,
    {
        Filter { in_: None, not_in: None, def_in: None }
    }
}

impl Clone for Filter {
    fn clone(&self) -> (r: Self)
        ensures
            r == *self,
    {
        Filter {
            in_: clone_text(&self.in_),
            not_in: clone_text(&self.not_in),
            def_in: clone_text(&self.def_in),
        }
    }
}

fn clone_text(s: &Option<String>) -> (r: Option<String>)
    ensures
        r == *s,
{
    match s {
        Some(t) => Some(t.clone()),
        None => None,
    }
}

// ------------------------------------------------------------------ kinds

/// The server's word for a kind of definitions.
pub open spec fn def_kind(v: Seq<char>) -> Seq<char> {
    if v == "all"@ {
        "ALL_DEFINITIONS"@
    } else if v == "binding"@ {
        "BINDING_DEFINITIONS"@
    } else {
        "NO_DEFINITIONS"@
    }
}

/// The server's word for a kind of references.
pub open spec fn ref_kind(v: Seq<char>) -> Seq<char> {
    if v == "all"@ {
        "ALL_REFERENCES"@
    } else if v == "call"@ {
        "CALL_REFERENCES"@
    } else if v == "noncall"@ {
        "NON_CALL_REFERENCES"@
    } else {
        "NO_REFERENCES"@
    }
}

/// The server's word for a kind of callers.
pub open spec fn caller_kind(v: Seq<char>) -> Seq<char> {
    if v == "direct"@ {
        "DIRECT_CALLERS"@
    } else if v == "overrides"@ {
        "OVERRIDE_CALLERS"@
    } else {
        "NO_CALLERS"@
    }
}

/// The server's word for a kind of definitions.
pub fn cli_def_kind(v: &str) -> (r: &'static str)
    ensures
        r@ == def_kind(v@),
{
    if same(v, "all") {
        "ALL_DEFINITIONS"
    } else if same(v, "binding") {
        "BINDING_DEFINITIONS"
    } else {
        "NO_DEFINITIONS"
    }
}

/// The server's word for a kind of references.
pub fn cli_ref_kind(v: &str) -> (r: &'static str)
    ensures
        r@ == ref_kind(v@),
{
    if same(v, "all") {
        "ALL_REFERENCES"
    } else if same(v, "call") {
        "CALL_REFERENCES"
    } else if same(v, "noncall") {
        "NON_CALL_REFERENCES"
    } else {
        "NO_REFERENCES"
    }
}

/// The server's word for a kind of callers.
pub fn cli_caller_kind(v: &str) -> (r: &'static str)
    ensures
        r@ == caller_kind(v@),
{
    if same(v, "direct") {
        "DIRECT_CALLERS"
    } else if same(v, "overrides") {
        "OVERRIDE_CALLERS"
    } else {
        "NO_CALLERS"
    }
}

// ------------------------------------------------------------- resolution

/// Why a name could not be resolved.
#[derive(Clone, Copy, Debug, PartialEq, Eq, Structural)]
pub enum ResolveError {
    /// There is no name index.
    NoIndex,
    /// No ticket is left for the name.
    NoTicket,
}

/// What a name may stand for.
#[derive(Debug)]
pub enum Lookup {
    /// The name is a ticket, and stands for itself.
    Ticket(String),
    /// These tickets of the index, before their definitions are looked at.
    Found(Vec<String>),
}

/// The tickets of rows, in order.
pub open spec fn row_tickets(rows: Seq<RowView>) -> Seq<Seq<char>> {
    rows.map_values(|r: RowView| r.1)
}

/// The tickets that the index has for a name, exactly or as a substring.
pub open spec fn index_tickets(
    rows: Seq<RowView>,
    name: Seq<char>,
    substr: bool,
    limit: nat,
) -> Seq<Seq<char>> {
    if substr {
        row_tickets(first_names(rows_matching(rows, name), limit))
    } else {
        tickets_named(rows, name)
    }
}

/// Looks a name up.
pub fn look_up(names: Option<&NameIndex>, name: &str, substr: bool, limit: usize) -> (r: Result<
    Lookup,
    ResolveError,
>)
    ensures
        r is Err <==> !ticket_like(name@) && names is None,
        r matches Err(e) ==> e == ResolveError::NoIndex,
        r matches Ok(Lookup::Ticket(t)) ==> ticket_like(name@) && t@ == name@,
        r matches Ok(Lookup::Found(list)) ==> !ticket_like(name@) && texts(list@) == index_tickets(
            names->0@,
            name@,
            substr,
            limit as nat,
        ),
{
    if is_ticket(name) {
        return Ok(Lookup::Ticket(name.to_string()));
    }
    let idx = match names {
        Some(i) => i,
        None => return Err(ResolveError::NoIndex),
    };
    if !substr {
        return Ok(Lookup::Found(idx.exact(name)));
    }
    let rows = idx.substr(name, limit);
    let ghost all = row_tickets(row_views(rows@));
    let mut out: Vec<String> = Vec::new();
    let mut i: usize = 0;
    proof {
        assert(texts(out@) =~= all.take(0));
    }
    while i < rows.len()
        invariant
            i <= rows@.len(),
            all == row_tickets(row_views(rows@)),
            texts(out@) == all.take(i as int),
        decreases rows@.len() - i,
    {
        let t = rows[i].1.clone();
        proof {
            assert(all.take(i + 1) =~= all.take(i as int).push(t@));
            lemma_texts_push(out@, t);
        }
        out.push(t);
        i += 1;
    }
    proof {
        assert(all.take(all.len() as int) =~= all);
    }
    Ok(Lookup::Found(out))
}

/// The paths where symbols are defined, where they are known.
pub open spec fn path_views(paths: Seq<Option<String>>) -> Seq<Option<Seq<char>>> {
    paths.map_values(
        |p: Option<String>|
            match p {
                Some(s) => Some(s@),
                None => None,
            },
    )
}

/// The tickets whose definition lies at a path that holds `part`; those whose
/// definition is not known are dropped.
pub open spec fn defined_in(
    tickets: Seq<Seq<char>>,
    paths: Seq<Option<Seq<char>>>,
    part: Seq<char>,
) -> Seq<Seq<char>>
    decreases tickets.len(),
{
    if tickets.len() == 0 {
        seq![]
    } else {
        let front = defined_in(tickets.drop_last(), paths, part);
        match paths[tickets.len() - 1] {
            Some(p) if has_part(p, part) => front.push(tickets.last()),
            _ => front,
        }
    }
}

/// Keeps the tickets whose definition, at the path beside each, lies where it
/// should.
fn keep_defined(tickets: &Vec<String>, paths: &Vec<Option<String>>, part: &str) -> (r: Vec<
    String,
>)
    requires
        tickets@.len() == paths@.len(),
    ensures
        texts(r@) == defined_in(texts(tickets@), path_views(paths@), part@),
{
    let ghost all = texts(tickets@);
    let ghost at = path_views(paths@);
    let mut out: Vec<String> = Vec::new();
    let mut i: usize = 0;
    proof {
        assert(texts(out@) =~= defined_in(all.take(0), at, part@));
    }
    while i < tickets.len()
        invariant
            i <= tickets@.len() == paths@.len(),
            all == texts(tickets@),
            at == path_views(paths@),
            texts(out@) == defined_in(all.take(i as int), at, part@),
        decreases tickets@.len() - i,
    {
        proof {
            assert(all.take(i + 1).drop_last() =~= all.take(i as int));
            assert(all.take(i + 1).last() == tickets@[i as int]@);
        }
        if let Some(p) = &paths[i] {
            if contains(p.as_str(), part) {
                let t = tickets[i].clone();
                proof {
                    lemma_texts_push(out@, t);
                }
                out.push(t);
            }
        }
        i += 1;
    }
    proof {
        assert(all.take(all.len() as int) =~= all);
    }
    out
}

/// The tickets that a query goes on with: the first `cap` of them, or all of
/// them where `cap` is 0. With none there is nothing to go on with.
fn cap_tickets(tickets: Vec<String>, cap: usize) -> (r: Result<Vec<String>, ResolveError>)
    ensures
        r is Err <==> tickets@.len() == 0,
        r matches Err(e) ==> e == ResolveError::NoTicket,
        r matches Ok(list) ==> texts(list@) == (if cap > 0 && tickets@.len() > cap {
            texts(tickets@).take(cap as int)
        } else {
            texts(tickets@)
        }),
{
    let mut list: Vec<String> = tickets;
    if list.len() == 0 {
        return Err(ResolveError::NoTicket);
    }
    if cap > 0 && list.len() > cap {
        list.truncate(cap);
        proof {
            assert(texts(list@) =~= texts(tickets@).take(cap as int));
        }
    }
    Ok(list)
}

/// The tickets that a query goes on with, before they are capped: all that were
/// found, or those of them whose definition lies where it should.
pub open spec fn kept_tickets(
    found: Seq<Seq<char>>,
    def_in: Option<(Seq<Option<Seq<char>>>, Seq<char>)>,
) -> Seq<Seq<char>> {
    match def_in {
        Some((paths, part)) => defined_in(found, paths, part),
        None => found,
    }
}

/// Resolves what was looked up to the tickets that a query goes on with. A
/// ticket stands for itself. Of the tickets found, with `def_in` those are
/// kept whose definition, at the path beside each, holds its text; and then
/// at most `cap`.
pub fn resolve(lookup: Lookup, def_in: Option<(Vec<Option<String>>, String)>, cap: usize) -> (r:
    Result<Vec<String>, ResolveError>)
    requires
        lookup matches Lookup::Found(list) ==> (def_in matches Some((paths, _)) ==> list@.len()
            == paths@.len()),
    ensures
        ({
            let want = match def_in {
                Some((paths, part)) => Some((path_views(paths@), part@)),
                None => None,
            };
            match lookup {
                Lookup::Ticket(t) => r is Ok && texts(r->Ok_0@) == seq![t@],
                Lookup::Found(list) => {
                    let kept = kept_tickets(texts(list@), want);
                    &&& r is Err <==> kept.len() == 0
                    &&& r matches Err(e) ==> e == ResolveError::NoTicket
                    &&& r matches Ok(v) ==> texts(v@) == (if cap > 0 && kept.len() > cap {
                        kept.take(cap as int)
                    } else {
                        kept
                    })
                },
            }
        }),
{
    match lookup {
        Lookup::Ticket(t) => {
            let mut v: Vec<String> = Vec::new();
            v.push(t);
            proof {
                assert(texts(v@) =~= seq![t@]);
            }
            Ok(v)
        },
        Lookup::Found(list) => {
            let kept = match def_in {
                Some((paths, part)) => keep_defined(&list, &paths, part.as_str()),
                None => list,
            };
            proof {
                assert(texts(kept@).len() == kept@.len());
            }
            cap_tickets(kept, cap)
        },
    }
}

/// The name of a ticket: the one in the index, or else its signature.
pub open spec fn label_of(names: Option<Seq<RowView>>, ticket: Seq<char>) -> Seq<char> {
    match names {
        Some(rows) => match row_with_ticket(rows, ticket, 0) {
            Some(i) => rows[i].0,
            None => ticket_signature(ticket),
        },
        None => ticket_signature(ticket),
    }
}

/// The rows of an index, if there is one.
pub open spec fn index_rows(names: Option<&NameIndex>) -> Option<Seq<RowView>> {
    match names {
        Some(i) => Some(i@),
        None => None,
    }
}

/// The name of a ticket.
pub fn label(names: Option<&NameIndex>, ticket: &str) -> (r: String)
    ensures
        r@ == label_of(index_rows(names), ticket@),
{
    if let Some(idx) = names {
        if let Some(n) = idx.name_of(ticket) {
            return n.to_string();
        }
    }
    sig_of(ticket)
}

// --------------------------------------------------------------- requests

/// A list of texts as JSON.
pub open spec fn json_texts(list: Seq<Seq<char>>) -> JsonView {
    JsonView::List(list.map_values(|s: Seq<char>| JsonView::Text(s)))
}

/// What is asked about cross references.
pub open spec fn xrefs_query(
    ticket: Seq<char>,
    defs: Seq<char>,
    refs: Seq<char>,
    callers: Seq<char>,
) -> JsonView {
    JsonView::Object(
        seq![
            ("caller_kind"@, JsonView::Text(caller_kind(callers))),
            ("declaration_kind"@, JsonView::Text("NO_DECLARATIONS"@)),
            ("definition_kind"@, JsonView::Text(def_kind(defs))),
            ("reference_kind"@, JsonView::Text(ref_kind(refs))),
            ("snippets"@, JsonView::Text("DEFAULT"@)),
            ("ticket"@, json_texts(seq![ticket])),
        ],
    )
}

/// What is asked about edges.
pub open spec fn edges_query(ticket: Seq<char>, kinds: Seq<Seq<char>>) -> JsonView {
    JsonView::Object(seq![("kind"@, json_texts(kinds)), ("ticket"@, json_texts(seq![ticket]))])
}

/// What is asked about a file's decorations.
pub open spec fn decorations_query(ticket: Seq<char>) -> JsonView {
    JsonView::Object(
        seq![
            ("location"@, JsonView::Object(seq![("ticket"@, JsonView::Text(ticket))])),
            ("references"@, JsonView::Bool(true)),
        ],
    )
}

/// `a` comes before `b` by their first characters.
pub proof fn lemma_before_at(a: Seq<char>, b: Seq<char>, n: int)
    requires
        0 <= n < a.len(),
        n < b.len(),
        forall|i: int| 0 <= i < n ==> a[i] == b[i],
        a[n] < b[n],
    ensures
        before(a, b),
    decreases n,
{
    if n > 0 {
        assert(a[0] == b[0]);
        assert forall|i: int| 0 <= i < n - 1 implies a.skip(1)[i] == b.skip(1)[i] by {
            assert(a[i + 1] == b[i + 1]);
        }
        lemma_before_at(a.skip(1), b.skip(1), n - 1);
    }
}

/// A list of texts as JSON.
fn text_list(list: &Vec<String>) -> (r: Json)
    ensures
        r@ == json_texts(texts(list@)),
        canonical(r@),
{
    let mut items: Vec<Json> = Vec::new();
    let mut i: usize = 0;
    while i < list.len()
        invariant
            i <= list@.len(),
            items@.len() == i,
            forall|j: int|
                0 <= j < i ==> crate::json::json_view(#[trigger] items@[j]) == JsonView::Text(
                    list@[j]@,
                ),
        decreases list@.len() - i,
    {
        items.push(Json::Text(list[i].clone()));
        i += 1;
    }
    let ghost seen = items@;
    let r = Json::List(items);
    proof {
        crate::json::lemma_list_view(seen);
        assert(crate::json::list_view(seen) =~= texts(list@).map_values(
            |s: Seq<char>| JsonView::Text(s),
        ));
        let list_of = r@->List_0;
        assert forall|k: int| 0 <= k < list_of.len() implies canonical(#[trigger] list_of[k]) by {
            assert(list_of[k] is Text);
        }
    }
    r
}

/// One text as a list.
fn one(s: &str) -> (r: Vec<String>)
    ensures
        texts(r@) == seq![s@],
{
    let mut r: Vec<String> = Vec::new();
    r.push(s.to_string());
    proof {
        assert(texts(r@) =~= seq![s@]);
    }
    r
}

pub(crate) fn text_json(s: &str) -> (r: Json)
    ensures
        r@ == JsonView::Text(s@),
{
    Json::Text(s.to_string())
}

/// The body of a request for cross references.
pub fn xrefs_body(ticket: &str, defs: &str, refs: &str, callers: &str) -> (r: String)
    ensures
        r@ == json_compact(xrefs_query(ticket@, defs@, refs@, callers@)),
{
    let mut m: Vec<(String, Json)> = Vec::new();
    m.push(("caller_kind".to_string(), text_json(cli_caller_kind(callers))));
    m.push(("declaration_kind".to_string(), text_json("NO_DECLARATIONS")));
    m.push(("definition_kind".to_string(), text_json(cli_def_kind(defs))));
    m.push(("reference_kind".to_string(), text_json(cli_ref_kind(refs))));
    m.push(("snippets".to_string(), text_json("DEFAULT")));
    m.push(("ticket".to_string(), text_list(&one(ticket))));
    let ghost seen = m@;
    let j = Json::Object(m);
    proof {
        crate::json::lemma_members_view(seen);
        let v = xrefs_query(ticket@, defs@, refs@, callers@);
        let list = v->Object_0;
        assert(crate::json::members_view(seen) =~= list);
        assert(j@ == v);
        reveal_strlit("caller_kind");
        reveal_strlit("declaration_kind");
        reveal_strlit("definition_kind");
        reveal_strlit("reference_kind");
        reveal_strlit("snippets");
        reveal_strlit("ticket");
        lemma_before_at("caller_kind"@, "declaration_kind"@, 0);
        lemma_before_at("caller_kind"@, "definition_kind"@, 0);
        lemma_before_at("caller_kind"@, "reference_kind"@, 0);
        lemma_before_at("caller_kind"@, "snippets"@, 0);
        lemma_before_at("caller_kind"@, "ticket"@, 0);
        lemma_before_at("declaration_kind"@, "definition_kind"@, 2);
        lemma_before_at("declaration_kind"@, "reference_kind"@, 0);
        lemma_before_at("declaration_kind"@, "snippets"@, 0);
        lemma_before_at("declaration_kind"@, "ticket"@, 0);
        lemma_before_at("definition_kind"@, "reference_kind"@, 0);
        lemma_before_at("definition_kind"@, "snippets"@, 0);
        lemma_before_at("definition_kind"@, "ticket"@, 0);
        lemma_before_at("reference_kind"@, "snippets"@, 0);
        lemma_before_at("reference_kind"@, "ticket"@, 0);
        lemma_before_at("snippets"@, "ticket"@, 0);
        assert(forall|i: int| 0 <= i < list.len() ==> canonical((#[trigger] list[i]).1));
        assert(canonical(j@));
    }
    write_json(&j)
}

/// The body of a request for edges.
pub fn edges_body(ticket: &str, kinds: &Vec<String>) -> (r: String)
    ensures
        r@ == json_compact(edges_query(ticket@, texts(kinds@))),
{
    let mut m: Vec<(String, Json)> = Vec::new();
    m.push(("kind".to_string(), text_list(kinds)));
    m.push(("ticket".to_string(), text_list(&one(ticket))));
    let ghost seen = m@;
    let j = Json::Object(m);
    proof {
        crate::json::lemma_members_view(seen);
        assert(crate::json::members_view(seen) =~= edges_query(
            ticket@,
            texts(kinds@),
        )->Object_0);
        reveal_strlit("kind");
        reveal_strlit("ticket");
        lemma_before_at("kind"@, "ticket"@, 0);
        assert(canonical(j@));
    }
    write_json(&j)
}

/// The body of a request for a file's decorations.
pub fn decorations_body(ticket: &str) -> (r: String)
    ensures
        r@ == json_compact(decorations_query(ticket@)),
{
    let mut inner: Vec<(String, Json)> = Vec::new();
    inner.push(("ticket".to_string(), text_json(ticket)));
    let ghost seen_inner = inner@;
    let mut m: Vec<(String, Json)> = Vec::new();
    let place = Json::Object(inner);
    proof {
        crate::json::lemma_members_view(seen_inner);
        assert(crate::json::members_view(seen_inner) =~= seq![
            ("ticket"@, JsonView::Text(ticket@)),
        ]);
        assert(canonical(JsonView::Text(ticket@)));
        assert(canonical(place@));
    }
    m.push(("location".to_string(), place));
    m.push(("references".to_string(), Json::Bool(true)));
    let ghost seen = m@;
    let j = Json::Object(m);
    proof {
        crate::json::lemma_members_view(seen);
        assert(crate::json::members_view(seen) =~= decorations_query(ticket@)->Object_0);
        reveal_strlit("location");
        reveal_strlit("references");
        lemma_before_at("location"@, "references"@, 0);
        assert(canonical(place@));
        assert(canonical(JsonView::Bool(true)));
        let list = j@->Object_0;
        assert(forall|i: int| 0 <= i < list.len() ==> canonical((#[trigger] list[i]).1));
        assert(canonical(j@));
    }
    write_json(&j)
}

// ------------------------------------------------------------------ tools

/// The texts of a list of literals.
pub(crate) fn owned(list: &[&str]) -> (r: Vec<String>)
    ensures
        r@.len() == list@.len(),
        forall|i: int| 0 <= i < list@.len() ==> (#[trigger] r@[i])@ == list@[i]@,
{
    let mut r: Vec<String> = Vec::new();
    let mut i: usize = 0;
    while i < list.len()
        invariant
            i <= list@.len(),
            r@.len() == i,
            forall|j: int| 0 <= j < i ==> (#[trigger] r@[j])@ == list@[j]@,
        decreases list@.len() - i,
    {
        r.push(list[i].to_string());
        i += 1;
    }
    r
}

/// What the `kythe` tool is told to find cross references.
pub fn xrefs_args(ticket: &str, defs: &str, refs: &str, callers: &str) -> (r: Vec<String>)
    ensures
        texts(r@) == seq![
            "xrefs"@,
            "--definitions"@,
            defs@,
            "--references"@,
            refs@,
            "--callers"@,
            callers@,
            "--declarations"@,
            "none"@,
            "--related_nodes=false"@,
            ticket@,
        ],
{
    let list: [&str; 11] = [
        "xrefs",
        "--definitions",
        defs,
        "--references",
        refs,
        "--callers",
        callers,
        "--declarations",
        "none",
        "--related_nodes=false",
        ticket,
    ];
    let r = owned(&list);
    proof {
        assert(texts(r@) =~= seq![
            "xrefs"@,
            "--definitions"@,
            defs@,
            "--references"@,
            refs@,
            "--callers"@,
            callers@,
            "--declarations"@,
            "none"@,
            "--related_nodes=false"@,
            ticket@,
        ]);
    }
    r
}

/// What the `kythe` tool is told to find the targets of edges of these kinds.
pub fn targets_args(ticket: &str, kinds: &Vec<String>) -> (r: Vec<String>)
    ensures
        texts(r@) == seq![
            "edges"@,
            "--kinds"@,
            join(texts(kinds@), ","@),
            "--targets_only"@,
            ticket@,
        ],
{
    let all = join_with(kinds, ",");
    let list: [&str; 5] = ["edges", "--kinds", all.as_str(), "--targets_only", ticket];
    let r = owned(&list);
    proof {
        assert(texts(r@) =~= seq![
            "edges"@,
            "--kinds"@,
            all@,
            "--targets_only"@,
            ticket@,
        ]);
    }
    r
}

/// What the `kythe` tool is told to show a node's edges.
pub fn edges_args(ticket: &str, kinds: Option<&str>) -> (r: Vec<String>)
    ensures
        texts(r@) == (match kinds {
            Some(k) => seq!["edges"@, "--kinds"@, k@, ticket@],
            None => seq!["edges"@, ticket@],
        }),
{
    match kinds {
        Some(k) => {
            let list: [&str; 4] = ["edges", "--kinds", k, ticket];
            let r = owned(&list);
            proof {
                assert(texts(r@) =~= seq!["edges"@, "--kinds"@, k@, ticket@]);
            }
            r
        },
        None => {
            let list: [&str; 2] = ["edges", ticket];
            let r = owned(&list);
            proof {
                assert(texts(r@) =~= seq!["edges"@, ticket@]);
            }
            r
        },
    }
}

/// What the `kythe` tool is told to show a node's facts.
pub fn nodes_args(ticket: &str) -> (r: Vec<String>)
    ensures
        texts(r@) == seq!["nodes"@, ticket@],
{
    let list: [&str; 2] = ["nodes", ticket];
    let r = owned(&list);
    proof {
        assert(texts(r@) =~= seq!["nodes"@, ticket@]);
    }
    r
}

/// What the `kythe` tool is told to show a file's decorations. The corpus
/// counts only where the file is not a ticket.
pub fn decor_args(file: &str, corpus: Option<&str>) -> (r: Vec<String>)
    ensures
        texts(r@) == (if corpus is Some && !ticket_like(file@) {
            seq!["decor"@, "--corpus"@, corpus->0@, file@]
        } else {
            seq!["decor"@, file@]
        }),
{
    if let Some(c) = corpus {
        if !is_ticket(file) {
            let list: [&str; 4] = ["decor", "--corpus", c, file];
            let r = owned(&list);
            proof {
                assert(texts(r@) =~= seq!["decor"@, "--corpus"@, c@, file@]);
            }
            return r;
        }
    }
    let list: [&str; 2] = ["decor", file];
    let r = owned(&list);
    proof {
        assert(texts(r@) =~= seq!["decor"@, file@]);
    }
    r
}

/// What the `kythe` tool is told to list corpora, directories and files.
pub fn ls_args(path: Option<&str>) -> (r: Vec<String>)
    ensures
        texts(r@) == (match path {
            Some(p) => seq!["ls"@, "--uris"@, p@],
            None => seq!["ls"@, "--uris"@],
        }),
{
    match path {
        Some(p) => {
            let list: [&str; 3] = ["ls", "--uris", p];
            let r = owned(&list);
            proof {
                assert(texts(r@) =~= seq!["ls"@, "--uris"@, p@]);
            }
            r
        },
        None => {
            let list: [&str; 2] = ["ls", "--uris"];
            let r = owned(&list);
            proof {
                assert(texts(r@) =~= seq!["ls"@, "--uris"@]);
            }
            r
        },
    }
}

/// A path below a directory.
pub open spec fn below(dir: Seq<char>, rest: Seq<char>) -> Seq<char> {
    if dir.len() == 0 || dir.last() == '/' {
        dir + rest
    } else {
        dir.push('/') + rest
    }
}

/// A relative path below a directory.
pub(crate) fn join_path(dir: &str, rest: &str) -> (r: String)
    ensures
        r@ == below(dir@, rest@),
{
    let mut r: String = dir.to_string();
    let ended: bool = dir.is_empty() || crate::text::ends_with(dir, "/");
    proof {
        reveal_strlit("/");
        assert("/"@ =~= seq!['/']);
        assert(ended == (dir@.len() == 0 || dir@.last() == '/')) by {
            if dir@.len() > 0 {
                let tail = dir@.subrange(dir@.len() - 1, dir@.len() as int);
                assert(tail =~= seq![dir@.last()]);
                if dir@.last() != '/' {
                    assert(tail[0] != "/"@[0]);
                }
            }
        }
    }
    if !ended {
        push_char(&mut r, '/');
    }
    r.append(rest);
    r
}

/// Where a release of Kythe has its `kythe` tool.
pub fn default_kythe_bin(kythe_root: &str) -> (r: String)
    ensures
        r@ == below(kythe_root@, "tools/kythe"@),
{
    join_path(kythe_root, "tools/kythe")
}

/// Where a serving table has its name index.
pub fn default_name_index(serving: &str) -> (r: String)
    ensures
        r@ == below(serving@, "scry3.names.idx"@),
{
    join_path(serving, "scry3.names.idx")
}

// ---------------------------------------------------------------- replies

/// The items under `key` in each of a list of values, one behind the other.
pub open spec fn all_items(list: Seq<JsonView>, key: Seq<char>) -> Seq<JsonView>
    decreases list.len(),
{
    if list.len() == 0 {
        seq![]
    } else {
        all_items(list.drop_last(), key) + list.last().items_at(key)
    }
}

/// What a reply relates to its tickets under `key`: definitions, references
/// or callers.
pub open spec fn related(reply: JsonView, key: Seq<char>) -> Seq<JsonView> {
    all_items(reply.values_at("cross_references"@), key)
}

/// The edges of a list of edge sets.
pub open spec fn set_edges(sets: Seq<JsonView>) -> Seq<JsonView>
    decreases sets.len(),
{
    if sets.len() == 0 {
        seq![]
    } else {
        set_edges(sets.drop_last()) + all_items(sets.last().values_at("groups"@), "edge"@)
    }
}

/// What a list of references to values says.
pub open spec fn ref_views(list: Seq<&Json>) -> Seq<JsonView> {
    list.map_values(|j: &Json| j@)
}

/// Adds the items under `key` in each value of an object.
fn add_items<'a>(object: Option<&'a Json>, key: &str, out: &mut Vec<&'a Json>)
    ensures
        ref_views(final(out)@) == ref_views(old(out)@) + all_items(
            match object {
                Some(o) => o@.values(),
                None => seq![],
            },
            key@,
        ),
{
    let o: &'a Json = match object {
        Some(o) => o,
        None => {
            proof {
                assert(ref_views(out@) + all_items(seq![], key@) =~= ref_views(out@));
            }
            return;
        },
    };
    let ghost start = ref_views(out@);
    let ghost sets = o@.values();
    let n: usize = o.size();
    let mut i: usize = 0;
    proof {
        assert(start + all_items(sets.take(0), key@) =~= start);
    }
    while i < n
        invariant
            i <= n == sets.len(),
            sets == o@.values(),
            ref_views(out@) == start + all_items(sets.take(i as int), key@),
        decreases n - i,
    {
        let set: &'a Json = o.value(i);
        proof {
            assert(sets.take(i + 1).drop_last() =~= sets.take(i as int));
            assert(sets.take(i + 1).last() == set@);
        }
        let ghost mid = ref_views(out@);
        let ghost items = set@.items_at(key@);
        match set.get(key) {
            Some(list) => {
                let m: usize = list.count();
                let mut k: usize = 0;
                proof {
                    assert(mid + items.take(0) =~= mid);
                }
                while k < m
                    invariant
                        k <= m == items.len(),
                        items == list@.items(),
                        ref_views(out@) == mid + items.take(k as int),
                    decreases m - k,
                {
                    let item: &'a Json = list.item(k);
                    let ghost was = out@;
                    out.push(item);
                    proof {
                        assert(ref_views(out@) =~= ref_views(was).push(item@));
                        assert(mid + items.take(k + 1) =~= (mid + items.take(k as int)).push(
                            item@,
                        ));
                    }
                    k += 1;
                }
                proof {
                    assert(items.take(items.len() as int) =~= items);
                }
            },
            None => {
                proof {
                    assert(mid + items =~= mid);
                }
            },
        }
        proof {
            assert(ref_views(out@) =~= start + all_items(sets.take(i + 1), key@));
        }
        i += 1;
    }
    proof {
        assert(sets.take(sets.len() as int) =~= sets);
    }
}

/// What a reply relates to its tickets under `key`.
pub(crate) fn find_related<'a>(reply: &'a Json, key: &str) -> (r: Vec<&'a Json>)
    ensures
        ref_views(r@) == related(reply@, key@),
{
    let mut out: Vec<&'a Json> = Vec::new();
    add_items(reply.get("cross_references"), key, &mut out);
    proof {
        assert(ref_views(out@) =~= related(reply@, key@));
    }
    out
}

/// The path of an anchor: that of the file it stands in, or else its own.
pub open spec fn anchor_path_of(anchor: JsonView) -> Seq<char> {
    if anchor.text_at("parent"@).len() > 0 {
        ticket_path(anchor.text_at("parent"@))
    } else {
        ticket_path(anchor.text_at("ticket"@))
    }
}

/// The path of an anchor.
pub fn anchor_path(anchor: &Json) -> (r: String)
    ensures
        r@ == anchor_path_of(anchor@),
{
    let parent: &str = anchor.str_at("parent");
    if parent.is_empty() {
        path_of(anchor.str_at("ticket"))
    } else {
        path_of(parent)
    }
}

/// The number at the start or end of an anchor's span.
pub open spec fn span_number(anchor: JsonView, end: Seq<char>, key: Seq<char>) -> Option<u64> {
    match anchor.member("span"@) {
        None => None,
        Some(span) => match span.member(end) {
            None => None,
            Some(point) => match point.member(key) {
                None => None,
                Some(n) => n.natural(),
            },
        },
    }
}

pub(crate) fn find_span_number(anchor: &Json, end: &str, key: &str) -> (r: Option<u64>)
    ensures
        r == span_number(anchor@, end@, key@),
{
    match anchor.get("span") {
        None => None,
        Some(span) => match span.get(end) {
            None => None,
            Some(point) => match point.get(key) {
                None => None,
                Some(n) => n.as_u64(),
            },
        },
    }
}

/// The number, or 0.
pub open spec fn or_zero(n: Option<u64>) -> nat {
    match n {
        Some(v) => v as nat,
        None => 0,
    }
}

/// What an anchor shows of its line: its snippet, or else its text.
pub open spec fn anchor_snippet(anchor: JsonView) -> Seq<char> {
    match anchor.member("snippet"@) {
        Some(JsonView::Text(s)) => trim(s),
        _ => trim(anchor.text_at("text"@)),
    }
}

/// An anchor as a line: path, line, column and snippet.
pub open spec fn anchor_text(anchor: JsonView, path: Seq<char>) -> Seq<char> {
    path + ":"@ + decimal(or_zero(span_number(anchor, "start"@, "line_number"@))) + ":"@ + decimal(
        or_zero(span_number(anchor, "start"@, "column_offset"@)),
    ) + "  "@ + anchor_snippet(anchor)
}

/// Puts an anchor into a line.
pub fn anchor_line(anchor: &Json, path: &str) -> (r: String)
    ensures
        r@ == anchor_text(anchor@, path@),
{
    let line: u64 = match find_span_number(anchor, "start", "line_number") {
        Some(n) => n,
        None => 0,
    };
    let col: u64 = match find_span_number(anchor, "start", "column_offset") {
        Some(n) => n,
        None => 0,
    };
    let snippet = match anchor.get("snippet") {
        Some(Json::Text(s)) => trimmed(s.as_str()),
        _ => trimmed(anchor.str_at("text")),
    };
    let mut r: String = path.to_string();
    r.append(":");
    r.append(decimal_of(line).as_str());
    r.append(":");
    r.append(decimal_of(col).as_str());
    r.append("  ");
    r.append(snippet.as_str());
    r
}

/// The lines of the anchors that the filter keeps, in order.
pub open spec fn kept_anchors(list: Seq<JsonView>, filter: &Filter) -> Seq<Seq<char>>
    decreases list.len(),
{
    if list.len() == 0 {
        seq![]
    } else {
        let front = kept_anchors(list.drop_last(), filter);
        match list.last().member("anchor"@) {
            Some(a) if filter.keeps(anchor_path_of(a)) => front.push(
                "  "@ + anchor_text(a, anchor_path_of(a)),
            ),
            _ => front,
        }
    }
}

/// The first `limit` of a list.
pub open spec fn at_most<T>(list: Seq<T>, limit: nat) -> Seq<T> {
    if list.len() > limit {
        list.take(limit as int)
    } else {
        list
    }
}

/// The lines of a reply's anchors under `key`, `limit` of them at most.
pub fn anchor_lines(reply: &Json, key: &str, filter: &Filter, limit: usize) -> (r: Vec<String>)
    ensures
        texts(r@) == at_most(kept_anchors(related(reply@, key@), filter), limit as nat),
{
    let list = find_related(reply, key);
    let ghost all = related(reply@, key@);
    let mut out: Vec<String> = Vec::new();
    if limit == 0 {
        proof {
            assert(texts(out@) =~= at_most(kept_anchors(all, filter), 0));
        }
        return out;
    }
    let mut i: usize = 0;
    proof {
        assert(texts(out@) =~= kept_anchors(all.take(0), filter));
    }
    while i < list.len()
        invariant
            i <= list@.len(),
            all == ref_views(list@),
            all == related(reply@, key@),
            texts(out@) == kept_anchors(all.take(i as int), filter),
            out@.len() < limit,
        decreases list@.len() - i,
    {
        proof {
            assert(all.take(i + 1).drop_last() =~= all.take(i as int));
            assert(all.take(i + 1).last() == list@[i as int]@);
        }
        if let Some(anchor) = list[i].get("anchor") {
            let path = anchor_path(anchor);
            if filter.keep(path.as_str()) {
                let mut line: String = "  ".to_string();
                line.append(anchor_line(anchor, path.as_str()).as_str());
                proof {
                    lemma_texts_push(out@, line);
                }
                out.push(line);
                if out.len() >= limit {
                    proof {
                        lemma_kept_prefix(all, i + 1, filter);
                        assert(texts(out@).len() == out@.len());
                        assert(texts(out@) =~= at_most(kept_anchors(all, filter), limit as nat));
                    }
                    return out;
                }
            }
        }
        i += 1;
    }
    proof {
        assert(all.take(all.len() as int) =~= all);
        assert(texts(out@).len() == out@.len());
    }
    out
}

/// The lines of the first anchors are the first lines.
proof fn lemma_kept_prefix(list: Seq<JsonView>, n: int, filter: &Filter)
    requires
        0 <= n <= list.len(),
    ensures
        kept_anchors(list.take(n), filter).len() <= kept_anchors(list, filter).len(),
        kept_anchors(list, filter).take(kept_anchors(list.take(n), filter).len() as int)
            == kept_anchors(list.take(n), filter),
    decreases list.len() - n,
{
    let here = kept_anchors(list, filter);
    if n == list.len() {
        assert(list.take(n) =~= list);
        assert(here.take(here.len() as int) =~= here);
    } else {
        let front = list.drop_last();
        lemma_kept_prefix(front, n, filter);
        assert(front.take(n) =~= list.take(n));
        let m = kept_anchors(list.take(n), filter).len() as int;
        assert(here.take(m) =~= kept_anchors(front, filter).take(m));
    }
}

/// The heading of a ticket's results: what was asked, of which name, and what
/// the ticket is called.
pub fn heading(verb: &str, name: &str, label: &str) -> (r: String)
    ensures
        r@ == verb@ + " "@ + name@ + " ["@ + label@ + "]"@,
{
    let mut r: String = verb.to_string();
    r.append(" ");
    r.append(name);
    r.append(" [");
    r.append(label);
    r.append("]");
    r
}

/// The path of the first definition in a list that has one.
pub open spec fn first_path(list: Seq<JsonView>) -> Option<Seq<char>>
    decreases list.len(),
{
    if list.len() == 0 {
        None
    } else {
        match list[0].member("anchor"@) {
            Some(a) if anchor_path_of(a).len() > 0 => Some(anchor_path_of(a)),
            _ => first_path(list.skip(1)),
        }
    }
}

/// The path where a reply says that its ticket is defined.
pub fn definition_path(reply: &Json) -> (r: Option<String>)
    ensures
        r matches Some(p) ==> first_path(related(reply@, "definition"@)) == Some(p@),
        r is None ==> first_path(related(reply@, "definition"@)) is None,
{
    let list = find_related(reply, "definition");
    let ghost all = related(reply@, "definition"@);
    let mut i: usize = 0;
    proof {
        assert(all.skip(0) =~= all);
    }
    while i < list.len()
        invariant
            i <= list@.len(),
            all == ref_views(list@),
            all == related(reply@, "definition"@),
            first_path(all.skip(i as int)) == first_path(all),
        decreases list@.len() - i,
    {
        proof {
            assert(all.skip(i as int)[0] == list@[i as int]@);
            assert(all.skip(i as int).skip(1) =~= all.skip(i + 1));
        }
        if let Some(anchor) = list[i].get("anchor") {
            let p = anchor_path(anchor);
            if !p.as_str().is_empty() {
                return Some(p);
            }
        }
        i += 1;
    }
    None
}

// ------------------------------------------------------------------ verbs

/// A question that cross references answer.
#[derive(Clone, Copy, Debug, PartialEq, Eq, Structural)]
pub enum XrefVerb {
    /// Where a symbol is defined.
    Def,
    /// Where a symbol is referred to.
    Ref,
    /// Who calls a function, and where.
    Callers,
}

impl XrefVerb {
    /// The verb as it is typed.
    pub open spec fn word(self) -> Seq<char> {
        match self {
            XrefVerb::Def => "def"@,
            XrefVerb::Ref => "ref"@,
            XrefVerb::Callers => "callers"@,
        }
    }

    /// The verb as it is typed.
    pub fn name(self) -> (r: &'static str)
        ensures
            r@ == self.word(),
    {
        match self {
            XrefVerb::Def => "def",
            XrefVerb::Ref => "ref",
            XrefVerb::Callers => "callers",
        }
    }

    /// The kinds of definitions, references and callers that answer it.
    pub fn kinds(self) -> (r: (&'static str, &'static str, &'static str))
        ensures
            (r.0@, r.1@, r.2@) == (match self {
                XrefVerb::Def => ("all"@, "none"@, "none"@),
                XrefVerb::Ref => ("none"@, "all"@, "none"@),
                XrefVerb::Callers => ("none"@, "call"@, "direct"@),
            }),
    {
        match self {
            XrefVerb::Def => ("all", "none", "none"),
            XrefVerb::Ref => ("none", "all", "none"),
            XrefVerb::Callers => ("none", "call", "direct"),
        }
    }

    /// What is said where there is no result.
    pub fn nothing(self) -> (r: &'static str)
        ensures
            r@ == (match self {
                XrefVerb::Def => "(no definitions)"@,
                XrefVerb::Ref => "(no references)"@,
                XrefVerb::Callers => "(no callers)"@,
            }),
    {
        match self {
            XrefVerb::Def => "(no definitions)",
            XrefVerb::Ref => "(no references)",
            XrefVerb::Callers => "(no callers)",
        }
    }
}

/// Results below their heading; without results there is no heading.
pub open spec fn titled(title: Seq<char>, lines: Seq<Seq<char>>) -> Seq<Seq<char>> {
    if lines.len() == 0 {
        seq![]
    } else {
        seq![title] + lines
    }
}

/// The lines of a reply's anchors under `key`, below their heading.
pub open spec fn section(
    title: Seq<char>,
    reply: JsonView,
    key: Seq<char>,
    filter: &Filter,
    limit: nat,
) -> Seq<Seq<char>> {
    titled(title, at_most(kept_anchors(related(reply, key), filter), limit))
}

/// The lines that answer a question about one ticket: its definitions or its
/// references, or its callers and then the places where they call it.
pub open spec fn xref_answer(
    verb: XrefVerb,
    title: Seq<char>,
    reply: JsonView,
    filter: &Filter,
    limit: nat,
) -> Seq<Seq<char>> {
    match verb {
        XrefVerb::Def => section(title, reply, "definition"@, filter, limit),
        XrefVerb::Ref => section(title, reply, "reference"@, filter, limit),
        XrefVerb::Callers => section(title, reply, "caller"@, filter, limit) + section(
            "  (call sites)"@,
            reply,
            "reference"@,
            filter,
            limit,
        ),
    }
}

/// Appends the lines of a reply's anchors under `key`, below their heading.
fn push_section(
    out: &mut Vec<String>,
    title: &str,
    reply: &Json,
    key: &str,
    filter: &Filter,
    limit: usize,
)
    ensures
        texts(final(out)@) == texts(old(out)@) + section(
            title@,
            reply@,
            key@,
            filter,
            limit as nat,
        ),
{
    let mut lines = anchor_lines(reply, key, filter, limit);
    if lines.len() > 0 {
        let ghost was = out@;
        let ghost more = lines@;
        out.push(title.to_string());
        out.append(&mut lines);
        proof {
            assert(texts(out@) =~= texts(was) + (seq![title@] + texts(more)));
        }
    } else {
        proof {
            assert(texts(lines@).len() == 0);
            assert(texts(out@) + section(title@, reply@, key@, filter, limit as nat) =~= texts(
                out@,
            ));
        }
    }
}

/// The lines that answer a question about one ticket.
pub fn xref_lines(verb: XrefVerb, title: &str, reply: &Json, filter: &Filter, limit: usize) -> (r:
    Vec<String>)
    ensures
        texts(r@) == xref_answer(verb, title@, reply@, filter, limit as nat),
{
    let mut out: Vec<String> = Vec::new();
    proof {
        assert(texts(out@) =~= seq![]);
    }
    match verb {
        XrefVerb::Def => push_section(&mut out, title, reply, "definition", filter, limit),
        XrefVerb::Ref => push_section(&mut out, title, reply, "reference", filter, limit),
        XrefVerb::Callers => {
            push_section(&mut out, title, reply, "caller", filter, limit);
            push_section(&mut out, "  (call sites)", reply, "reference", filter, limit);
        },
    }
    proof {
        assert(texts(out@) =~= xref_answer(verb, title@, reply@, filter, limit as nat));
    }
    out
}

// ------------------------------------------------------------ inheritance

/// The kinds of edges by which types and members inherit.
pub open spec fn inherit_forward() -> Seq<Seq<char>> {
    seq![
        "/kythe/edge/extends"@,
        "/kythe/edge/extends/public"@,
        "/kythe/edge/extends/protected"@,
        "/kythe/edge/extends/private"@,
        "/kythe/edge/overrides"@,
        "/kythe/edge/satisfies"@,
    ]
}

/// The kinds of edges that lead to supertypes, or, in reverse, to subtypes.
pub open spec fn inherit_edges(sub: bool) -> Seq<Seq<char>> {
    if sub {
        inherit_forward().map_values(|k: Seq<char>| "%"@ + k)
    } else {
        inherit_forward()
    }
}

/// The kinds of edges that lead to supertypes, or, in reverse, to subtypes.
pub fn inherit_kinds(sub: bool) -> (r: Vec<String>)
    ensures
        texts(r@) == inherit_edges(sub),
{
    let list: [&str; 6] = [
        "/kythe/edge/extends",
        "/kythe/edge/extends/public",
        "/kythe/edge/extends/protected",
        "/kythe/edge/extends/private",
        "/kythe/edge/overrides",
        "/kythe/edge/satisfies",
    ];
    let forward = owned(&list);
    proof {
        assert(texts(forward@) =~= inherit_forward());
    }
    if !sub {
        return forward;
    }
    let mut r: Vec<String> = Vec::new();
    let mut i: usize = 0;
    while i < forward.len()
        invariant
            i <= forward@.len(),
            texts(forward@) == inherit_forward(),
            texts(r@) == inherit_edges(true).take(i as int),
        decreases forward@.len() - i,
    {
        let mut k: String = "%".to_string();
        k.append(forward[i].as_str());
        proof {
            assert(inherit_forward()[i as int] == forward@[i as int]@);
            assert(inherit_edges(true).take(i + 1) =~= inherit_edges(true).take(i as int).push(k@));
            lemma_texts_push(r@, k);
        }
        r.push(k);
        i += 1;
    }
    proof {
        assert(inherit_edges(true).take(inherit_edges(true).len() as int) =~= inherit_edges(true));
    }
    r
}

/// The texts under `key` in a list of values; values without one are passed
/// over.
pub open spec fn texts_at(list: Seq<JsonView>, key: Seq<char>) -> Seq<Seq<char>>
    decreases list.len(),
{
    if list.len() == 0 {
        seq![]
    } else {
        let front = texts_at(list.drop_last(), key);
        match list.last().member(key) {
            Some(JsonView::Text(s)) => front.push(s),
            _ => front,
        }
    }
}

/// The distinct texts under `key` in a list of values.
pub(crate) fn distinct_at(list: &Vec<&Json>, key: &str) -> (r: Vec<String>)
    ensures
        texts(r@) == distinct(texts_at(ref_views(list@), key@)),
{
    let ghost all = ref_views(list@);
    let mut found: DistinctList = DistinctList::new();
    let mut i: usize = 0;
    while i < list.len()
        invariant
            i <= list@.len(),
            all == ref_views(list@),
            found@ == distinct(texts_at(all.take(i as int), key@)),
        decreases list@.len() - i,
    {
        proof {
            assert(all.take(i + 1).drop_last() =~= all.take(i as int));
            assert(all.take(i + 1).last() == list@[i as int]@);
        }
        if let Some(Json::Text(s)) = list[i].get(key) {
            proof {
                lemma_distinct_push(texts_at(all.take(i as int), key@), s@);
            }
            found = found.with(s.as_str()).0;
        }
        i += 1;
    }
    proof {
        assert(all.take(all.len() as int) =~= all);
    }
    found.into_list()
}

/// The targets of the edges in a reply, each once.
pub open spec fn edge_targets_of(reply: JsonView) -> Seq<Seq<char>> {
    distinct(texts_at(set_edges(reply.values_at("edge_sets"@)), "target_ticket"@))
}

/// The targets of the edges in a reply, each once.
pub fn edge_targets(reply: &Json) -> (r: Vec<String>)
    ensures
        texts(r@) == edge_targets_of(reply@),
{
    let mut list: Vec<&Json> = Vec::new();
    let ghost sets = reply@.values_at("edge_sets"@);
    if let Some(o) = reply.get("edge_sets") {
        let n: usize = o.size();
        let mut i: usize = 0;
        proof {
            assert(ref_views(list@) =~= set_edges(sets.take(0)));
        }
        while i < n
            invariant
                i <= n == sets.len(),
                sets == o@.values(),
                ref_views(list@) == set_edges(sets.take(i as int)),
            decreases n - i,
        {
            let set: &Json = o.value(i);
            proof {
                assert(sets.take(i + 1).drop_last() =~= sets.take(i as int));
                assert(sets.take(i + 1).last() == set@);
            }
            add_items(set.get("groups"), "edge", &mut list);
            i += 1;
        }
        proof {
            assert(sets.take(sets.len() as int) =~= sets);
        }
    } else {
        proof {
            assert(ref_views(list@) =~= set_edges(sets));
        }
    }
    distinct_at(&list, "target_ticket")
}

/// The line of a supertype or subtype.
pub open spec fn type_line(names: Option<Seq<RowView>>, target: Seq<char>) -> Seq<char> {
    "  "@ + label_of(names, target) + "  ["@ + ticket_path(target) + "]"@
}

/// The lines of the targets that the filter keeps, in order.
pub open spec fn kept_types(
    targets: Seq<Seq<char>>,
    names: Option<Seq<RowView>>,
    filter: &Filter,
) -> Seq<Seq<char>>
    decreases targets.len(),
{
    if targets.len() == 0 {
        seq![]
    } else {
        let front = kept_types(targets.drop_last(), names, filter);
        if filter.keeps(ticket_path(targets.last())) {
            front.push(type_line(names, targets.last()))
        } else {
            front
        }
    }
}

/// The lines of one ticket's supertypes or subtypes, where `total` lines were
/// shown for the tickets before it. There are `limit` lines in all at most,
/// and only the first lines of all have a heading.
pub open spec fn type_lines(
    title: Seq<char>,
    targets: Seq<Seq<char>>,
    names: Option<Seq<RowView>>,
    filter: &Filter,
    total: nat,
    limit: nat,
) -> Seq<Seq<char>> {
    let left = if total >= limit {
        0
    } else {
        (limit - total) as nat
    };
    let lines = at_most(kept_types(targets, names, filter), left);
    if total == 0 {
        titled(title, lines)
    } else {
        lines
    }
}

proof fn lemma_types_prefix(
    targets: Seq<Seq<char>>,
    n: int,
    names: Option<Seq<RowView>>,
    filter: &Filter,
)
    requires
        0 <= n <= targets.len(),
    ensures
        kept_types(targets.take(n), names, filter).len() <= kept_types(
            targets,
            names,
            filter,
        ).len(),
        kept_types(targets, names, filter).take(
            kept_types(targets.take(n), names, filter).len() as int,
        ) == kept_types(targets.take(n), names, filter),
    decreases targets.len() - n,
{
    let here = kept_types(targets, names, filter);
    if n == targets.len() {
        assert(targets.take(n) =~= targets);
        assert(here.take(here.len() as int) =~= here);
    } else {
        let front = targets.drop_last();
        lemma_types_prefix(front, n, names, filter);
        assert(front.take(n) =~= targets.take(n));
        let m = kept_types(targets.take(n), names, filter).len() as int;
        assert(here.take(m) =~= kept_types(front, names, filter).take(m));
    }
}

/// The lines of the first `left` targets that the filter keeps.
fn types_shown(
    targets: &Vec<String>,
    names: Option<&NameIndex>,
    filter: &Filter,
    left: usize,
) -> (r: Vec<String>)
    ensures
        texts(r@) == at_most(kept_types(texts(targets@), index_rows(names), filter), left as nat),
{
    let ghost all = texts(targets@);
    let ghost rows = index_rows(names);
    let mut out: Vec<String> = Vec::new();
    if left == 0 {
        proof {
            assert(texts(out@) =~= at_most(kept_types(all, rows, filter), 0));
        }
        return out;
    }
    let mut i: usize = 0;
    proof {
        assert(texts(out@) =~= kept_types(all.take(0), rows, filter));
    }
    while i < targets.len()
        invariant
            i <= targets@.len(),
            all == texts(targets@),
            rows == index_rows(names),
            texts(out@) == kept_types(all.take(i as int), rows, filter),
            out@.len() < left,
        decreases targets@.len() - i,
    {
        let target: &str = targets[i].as_str();
        proof {
            assert(all.take(i + 1).drop_last() =~= all.take(i as int));
            assert(all.take(i + 1).last() == target@);
        }
        let path = path_of(target);
        if filter.keep(path.as_str()) {
            let mut line: String = "  ".to_string();
            line.append(label(names, target).as_str());
            line.append("  [");
            line.append(path.as_str());
            line.append("]");
            proof {
                lemma_texts_push(out@, line);
            }
            out.push(line);
            if out.len() >= left {
                proof {
                    lemma_types_prefix(all, i + 1, rows, filter);
                    assert(texts(out@).len() == out@.len());
                    assert(texts(out@) =~= at_most(kept_types(all, rows, filter), left as nat));
                }
                return out;
            }
        }
        i += 1;
    }
    proof {
        assert(all.take(all.len() as int) =~= all);
        assert(texts(out@).len() == out@.len());
    }
    out
}

/// The lines of one ticket's supertypes or subtypes, and how many lines there
/// are now in all.
pub fn inheritance_lines(
    title: &str,
    targets: &Vec<String>,
    names: Option<&NameIndex>,
    filter: &Filter,
    total: usize,
    limit: usize,
) -> (r: (Vec<String>, usize))
    requires
        total + targets@.len() <= usize::MAX,
    ensures
        texts(r.0@) == type_lines(
            title@,
            texts(targets@),
            index_rows(names),
            filter,
            total as nat,
            limit as nat,
        ),
        r.1 == total + r.0@.len() - (if total == 0 && r.0@.len() > 0 {
            1int
        } else {
            0
        }),
{
    let left: usize = if total >= limit {
        0
    } else {
        limit - total
    };
    let mut lines = types_shown(targets, names, filter, left);
    proof {
        lemma_types_len(texts(targets@), index_rows(names), filter);
        assert(texts(lines@).len() == lines@.len());
    }
    let n: usize = total + lines.len();
    if total == 0 && lines.len() > 0 {
        let ghost more = lines@;
        let mut out: Vec<String> = Vec::new();
        out.push(title.to_string());
        out.append(&mut lines);
        proof {
            assert(texts(out@) =~= seq![title@] + texts(more));
        }
        (out, n)
    } else {
        (lines, n)
    }
}

proof fn lemma_types_len(
    targets: Seq<Seq<char>>,
    names: Option<Seq<RowView>>,
    filter: &Filter,
)
    ensures
        kept_types(targets, names, filter).len() <= targets.len(),
    decreases targets.len(),
{
    if targets.len() > 0 {
        lemma_types_len(targets.drop_last(), names, filter);
    }
}

/// One ticket's supertypes or subtypes as JSON.
pub open spec fn targets_object(
    name: Seq<char>,
    ticket: Seq<char>,
    targets: Seq<Seq<char>>,
) -> JsonView {
    JsonView::Object(
        seq![
            ("name"@, JsonView::Text(name)),
            ("targets"@, json_texts(targets)),
            ("ticket"@, JsonView::Text(ticket)),
        ],
    )
}

/// Writes one ticket's supertypes or subtypes as JSON.
pub fn targets_json(name: &str, ticket: &str, targets: &Vec<String>) -> (r: String)
    ensures
        r@ == json_compact(targets_object(name@, ticket@, texts(targets@))),
{
    let mut m: Vec<(String, Json)> = Vec::new();
    m.push(("name".to_string(), text_json(name)));
    m.push(("targets".to_string(), text_list(targets)));
    m.push(("ticket".to_string(), text_json(ticket)));
    let ghost seen = m@;
    let j = Json::Object(m);
    proof {
        crate::json::lemma_members_view(seen);
        let v = targets_object(name@, ticket@, texts(targets@));
        let list = v->Object_0;
        assert(crate::json::members_view(seen) =~= list);
        reveal_strlit("name");
        reveal_strlit("targets");
        reveal_strlit("ticket");
        lemma_before_at("name"@, "targets"@, 0);
        lemma_before_at("name"@, "ticket"@, 0);
        lemma_before_at("targets"@, "ticket"@, 1);
        assert(forall|i: int| 0 <= i < list.len() ==> canonical((#[trigger] list[i]).1));
        assert(canonical(j@));
    }
    write_json(&j)
}

/// A name and its ticket as JSON.
pub open spec fn name_object(name: Seq<char>, ticket: Seq<char>) -> JsonView {
    JsonView::Object(
        seq![("name"@, JsonView::Text(name)), ("ticket"@, JsonView::Text(ticket))],
    )
}

/// Writes a name and its ticket as JSON.
pub fn name_json(name: &str, ticket: &str) -> (r: String)
    ensures
        r@ == json_compact(name_object(name@, ticket@)),
{
    let mut m: Vec<(String, Json)> = Vec::new();
    m.push(("name".to_string(), text_json(name)));
    m.push(("ticket".to_string(), text_json(ticket)));
    let ghost seen = m@;
    let j = Json::Object(m);
    proof {
        crate::json::lemma_members_view(seen);
        let list = name_object(name@, ticket@)->Object_0;
        assert(crate::json::members_view(seen) =~= list);
        reveal_strlit("name");
        reveal_strlit("ticket");
        lemma_before_at("name"@, "ticket"@, 0);
        assert(forall|i: int| 0 <= i < list.len() ==> canonical((#[trigger] list[i]).1));
        assert(canonical(j@));
    }
    write_json(&j)
}

/// The lines that list what a name stands for: with `substr`, each name that
/// holds it and its ticket, `limit` lines at most; else the tickets of the
/// name. With `json` each line is an object.
pub open spec fn identifier_answer(
    rows: Seq<RowView>,
    name: Seq<char>,
    substr: bool,
    limit: nat,
    json: bool,
) -> Seq<Seq<char>> {
    if substr {
        at_most(first_names(rows_matching(rows, name), limit), limit).map_values(
            |r: RowView|
                if json {
                    json_compact(name_object(r.0, r.1))
                } else {
                    r.0 + "\t"@ + r.1
                },
        )
    } else {
        tickets_named(rows, name).map_values(
            |t: Seq<char>|
                if json {
                    json_compact(name_object(name, t))
                } else {
                    t
                },
        )
    }
}

/// The lines that list what a name stands for.
pub fn identifier_lines(
    names: &NameIndex,
    name: &str,
    substr: bool,
    limit: usize,
    json: bool,
) -> (r: Vec<String>)
    ensures
        texts(r@) == identifier_answer(names@, name@, substr, limit as nat, json),
{
    let ghost answer = identifier_answer(names@, name@, substr, limit as nat, json);
    let mut out: Vec<String> = Vec::new();
    let mut i: usize = 0;
    proof {
        assert(texts(out@) =~= answer.take(0));
    }
    if substr {
        let rows = names.substr(name, limit);
        let ghost list = row_views(rows@);
        while i < rows.len() && i < limit
            invariant
                i <= rows@.len(),
                i <= limit,
                substr,
                list == row_views(rows@),
                list == first_names(rows_matching(names@, name@), limit as nat),
                answer == identifier_answer(names@, name@, substr, limit as nat, json),
                texts(out@) == answer.take(i as int),
            decreases rows@.len() - i,
        {
            let (n, t) = &rows[i];
            let line: String = if json {
                name_json(n.as_str(), t.as_str())
            } else {
                let mut l: String = n.clone();
                l.append("\t");
                l.append(t.as_str());
                l
            };
            proof {
                assert(list[i as int] == (n@, t@));
                assert(answer.take(i + 1) =~= answer.take(i as int).push(line@));
                lemma_texts_push(out@, line);
            }
            out.push(line);
            i += 1;
        }
    } else {
        let tickets = names.exact(name);
        let ghost list = texts(tickets@);
        while i < tickets.len()
            invariant
                i <= tickets@.len(),
                !substr,
                list == texts(tickets@),
                list == tickets_named(names@, name@),
                answer == identifier_answer(names@, name@, substr, limit as nat, json),
                texts(out@) == answer.take(i as int),
            decreases tickets@.len() - i,
        {
            let t: &str = tickets[i].as_str();
            let line: String = if json {
                name_json(name, t)
            } else {
                t.to_string()
            };
            proof {
                assert(list[i as int] == t@);
                assert(answer.take(i + 1) =~= answer.take(i as int).push(line@));
                lemma_texts_push(out@, line);
            }
            out.push(line);
            i += 1;
        }
    }
    proof {
        assert(answer.take(answer.len() as int) =~= answer);
    }
    out
}

// ------------------------------------------------------------------- laws

/// `part` stands in `path`.
pub open spec fn stands_in(part: Seq<char>, path: Seq<char>) -> bool {
    exists|at: int|
        0 <= at && at + part.len() <= path.len() && #[trigger] path.subrange(at, at + part.len())
            == part
}

/// Which paths a filter keeps: those that hold what is asked for and not what
/// is not wanted; what is not said or empty counts for nothing, and where
/// symbols are defined does not count here.
pub proof fn lemma_keeps_is(f: Filter, path: Seq<char>)
    ensures
        f.keeps(path) <==> {
            &&& f.in_ is None || f.in_->0@.len() == 0 || stands_in(f.in_->0@, path)
            &&& f.not_in is None || f.not_in->0@.len() == 0 || !stands_in(f.not_in->0@, path)
        },
{
    if let Some(s) = f.in_ {
        crate::text::lemma_has_part_is(seq![], s@, seq![], path);
    }
    if let Some(s) = f.not_in {
        crate::text::lemma_has_part_is(seq![], s@, seq![], path);
    }
}

/// The server's words for what is asked for.
pub proof fn lemma_kinds_are(v: Seq<char>)
    ensures
        def_kind("all"@) == "ALL_DEFINITIONS"@,
        def_kind("binding"@) == "BINDING_DEFINITIONS"@,
        v != "all"@ && v != "binding"@ ==> def_kind(v) == "NO_DEFINITIONS"@,
        ref_kind("all"@) == "ALL_REFERENCES"@,
        ref_kind("call"@) == "CALL_REFERENCES"@,
        ref_kind("noncall"@) == "NON_CALL_REFERENCES"@,
        v != "all"@ && v != "call"@ && v != "noncall"@ ==> ref_kind(v) == "NO_REFERENCES"@,
        caller_kind("direct"@) == "DIRECT_CALLERS"@,
        caller_kind("overrides"@) == "OVERRIDE_CALLERS"@,
        v != "direct"@ && v != "overrides"@ ==> caller_kind(v) == "NO_CALLERS"@,
{
    reveal_strlit("all");
    reveal_strlit("binding");
    reveal_strlit("call");
    reveal_strlit("noncall");
    reveal_strlit("direct");
    reveal_strlit("overrides");
    assert("all"@[0] == 'a' && "binding"@[0] == 'b' && "call"@[0] == 'c' && "noncall"@[0] == 'n');
    assert("direct"@[0] == 'd' && "overrides"@[0] == 'o');
}

/// The name of a ticket: that of the first row with the ticket, or else the
/// ticket's signature.
pub proof fn lemma_label_is(rows: Seq<RowView>, ticket: Seq<char>, i: int)
    requires
        0 <= i <= rows.len(),
        forall|k: int| 0 <= k < i ==> (#[trigger] rows[k]).1 != ticket,
    ensures
        i < rows.len() && rows[i].1 == ticket ==> label_of(Some(rows), ticket) == rows[i].0,
        i == rows.len() ==> label_of(Some(rows), ticket) == ticket_signature(ticket),
        label_of(None, ticket) == ticket_signature(ticket),
{
    crate::nameindex::lemma_row_with_ticket_is(rows, ticket, 0, i);
}

/// The tickets of an index for a name: those of the rows of the name, or of
/// the first names that hold it, in the order of the rows.
pub proof fn lemma_index_tickets_are(rows: Seq<RowView>, name: Seq<char>, limit: nat)
    ensures
        index_tickets(rows, name, false, limit) == rows.filter(
            |r: RowView| r.0 == name,
        ).map_values(|r: RowView| r.1),
        index_tickets(rows, name, true, limit) == first_names(
            rows.filter(|r: RowView| stands_in(name, r.0)),
            limit,
        ).map_values(|r: RowView| r.1),
{
    crate::nameindex::lemma_tickets_named_are(rows, name);
    crate::nameindex::lemma_rows_matching_are(rows, name);
    let by_part = rows.filter(|r: RowView| crate::text::has_part(r.0, name));
    let by_place = rows.filter(|r: RowView| stands_in(name, r.0));
    assert forall|r: RowView| #[trigger] crate::text::has_part(r.0, name) == stands_in(
        name,
        r.0,
    ) by {
        crate::text::lemma_has_part_is(seq![], name, seq![], r.0);
    }
    lemma_filter_same(
        rows,
        |r: RowView| crate::text::has_part(r.0, name),
        |r: RowView| stands_in(name, r.0),
    );
    assert(by_part == by_place);
}

proof fn lemma_filter_same<T>(s: Seq<T>, p: spec_fn(T) -> bool, q: spec_fn(T) -> bool)
    requires
        forall|x: T| #[trigger] p(x) == q(x),
    ensures
        s.filter(p) == s.filter(q),
    decreases s.len(),
{
    reveal(Seq::filter);
    if s.len() > 0 {
        lemma_filter_same(s.drop_last(), p, q);
        assert(p(s.last()) == q(s.last()));
    }
}

/// A ticket is kept by where it is defined just where the path of its
/// definition is known and holds the text; the others keep their order.
pub proof fn lemma_defined_in_is(
    tickets: Seq<Seq<char>>,
    ticket: Seq<char>,
    paths: Seq<Option<Seq<char>>>,
    part: Seq<char>,
)
    ensures
        defined_in(seq![], paths, part) == Seq::<Seq<char>>::empty(),
        ({
            let path = paths[tickets.len() as int];
            defined_in(tickets.push(ticket), paths, part) == (if path is Some && stands_in(
                part,
                path->0,
            ) {
                defined_in(tickets, paths, part).push(ticket)
            } else {
                defined_in(tickets, paths, part)
            })
        }),
        kept_tickets(tickets, None) == tickets,
        kept_tickets(tickets, Some((paths, part))) == defined_in(tickets, paths, part),
{
    assert(tickets.push(ticket).drop_last() =~= tickets);
    if let Some(p) = paths[tickets.len() as int] {
        crate::text::lemma_has_part_is(seq![], part, seq![], p);
    }
}

/// What is asked of the server, member by member.
pub proof fn lemma_queries_are(
    ticket: Seq<char>,
    defs: Seq<char>,
    refs: Seq<char>,
    callers: Seq<char>,
    kinds: Seq<Seq<char>>,
)
    ensures
        xrefs_query(ticket, defs, refs, callers) == JsonView::Object(
            seq![
                ("caller_kind"@, JsonView::Text(caller_kind(callers))),
                ("declaration_kind"@, JsonView::Text("NO_DECLARATIONS"@)),
                ("definition_kind"@, JsonView::Text(def_kind(defs))),
                ("reference_kind"@, JsonView::Text(ref_kind(refs))),
                ("snippets"@, JsonView::Text("DEFAULT"@)),
                ("ticket"@, JsonView::List(seq![JsonView::Text(ticket)])),
            ],
        ),
        edges_query(ticket, kinds) == JsonView::Object(
            seq![
                ("kind"@, JsonView::List(Seq::new(kinds.len(), |i: int| JsonView::Text(kinds[i])))),
                ("ticket"@, JsonView::List(seq![JsonView::Text(ticket)])),
            ],
        ),
        decorations_query(ticket) == JsonView::Object(
            seq![
                ("location"@, JsonView::Object(seq![("ticket"@, JsonView::Text(ticket))])),
                ("references"@, JsonView::Bool(true)),
            ],
        ),
        targets_object(ticket, defs, kinds) == JsonView::Object(
            seq![
                ("name"@, JsonView::Text(ticket)),
                (
                    "targets"@,
                    JsonView::List(Seq::new(kinds.len(), |i: int| JsonView::Text(kinds[i]))),
                ),
                ("ticket"@, JsonView::Text(defs)),
            ],
        ),
        name_object(defs, ticket) == JsonView::Object(
            seq![("name"@, JsonView::Text(defs)), ("ticket"@, JsonView::Text(ticket))],
        ),
{
    assert(seq![ticket].map_values(|s: Seq<char>| JsonView::Text(s)) =~= seq![
        JsonView::Text(ticket),
    ]);
    assert(kinds.map_values(|s: Seq<char>| JsonView::Text(s)) =~= Seq::new(
        kinds.len(),
        |i: int| JsonView::Text(kinds[i]),
    ));
}

/// A path below a directory has one slash between them, unless the directory
/// ends with one or says nothing.
pub proof fn lemma_below_is(dir: Seq<char>, rest: Seq<char>)
    ensures
        below(seq![], rest) == rest,
        below(dir.push('/'), rest) == dir.push('/') + rest,
        dir.len() > 0 && dir.last() != '/' ==> below(dir, rest) == dir + seq!['/'] + rest,
{
    assert(Seq::<char>::empty() + rest =~= rest);
    if dir.len() > 0 && dir.last() != '/' {
        assert(dir.push('/') + rest =~= dir + seq!['/'] + rest);
    }
}

/// What a reply relates to its tickets: the items under the key in each member
/// of `cross_references`, one behind the other.
pub proof fn lemma_related_are(
    reply: JsonView,
    key: Seq<char>,
    list: Seq<JsonView>,
    set: JsonView,
)
    ensures
        reply.member("cross_references"@) is None ==> related(reply, key).len() == 0,
        reply.member("cross_references"@) matches Some(sets) ==> related(reply, key) == all_items(
            sets.values(),
            key,
        ),
        all_items(seq![], key).len() == 0,
        all_items(list.push(set), key) == all_items(list, key) + set.items_at(key),
        set_edges(seq![]).len() == 0,
        set_edges(list.push(set)) == set_edges(list) + all_items(set.values_at("groups"@), "edge"@),
{
    assert(list.push(set).drop_last() =~= list);
}

/// The targets of the edges in a reply: each text that is the `target_ticket`
/// of an edge, and nothing else, once.
pub proof fn lemma_edge_targets_are(reply: JsonView, t: Seq<char>)
    ensures
        edge_targets_of(reply).no_duplicates(),
        edge_targets_of(reply).contains(t) <==> exists|i: int|
            0 <= i < set_edges(reply.values_at("edge_sets"@)).len() && (
            #[trigger] set_edges(reply.values_at("edge_sets"@))[i]).member("target_ticket"@)
                == Some(JsonView::Text(t)),
{
    let edges = set_edges(reply.values_at("edge_sets"@));
    crate::text::lemma_distinct(texts_at(edges, "target_ticket"@));
    lemma_texts_at_are(edges, "target_ticket"@, t);
    let list = texts_at(edges, "target_ticket"@);
    assert(edge_targets_of(reply).contains(t) <==> list.contains(t));
}

/// The texts under a key: those of the values that have a text there.
pub proof fn lemma_texts_at_are(list: Seq<JsonView>, key: Seq<char>, t: Seq<char>)
    ensures
        texts_at(list, key).contains(t) <==> exists|i: int|
            0 <= i < list.len() && (#[trigger] list[i]).member(key) == Some(JsonView::Text(t)),
    decreases list.len(),
{
    let all = texts_at(list, key);
    if list.len() > 0 {
        let front = list.drop_last();
        let before = texts_at(front, key);
        lemma_texts_at_are(front, key, t);
        if all.contains(t) {
            let k = all.index_of(t);
            if k < before.len() {
                assert(before[k] == t);
                assert(before.contains(t));
                let i = choose|i: int|
                    0 <= i < front.len() && (#[trigger] front[i]).member(key) == Some(
                        JsonView::Text(t),
                    );
                assert(list[i].member(key) == Some(JsonView::Text(t)));
            } else {
                assert(list[list.len() - 1].member(key) == Some(JsonView::Text(t)));
            }
        }
        if exists|i: int|
            0 <= i < list.len() && (#[trigger] list[i]).member(key) == Some(JsonView::Text(t)) {
            let i = choose|i: int|
                0 <= i < list.len() && (#[trigger] list[i]).member(key) == Some(
                    JsonView::Text(t),
                );
            if i < front.len() {
                assert(front[i].member(key) == Some(JsonView::Text(t)));
                let k = before.index_of(t);
                assert(all[k] == t);
            } else {
                assert(all[all.len() - 1] == t);
            }
        }
    }
}

/// Where an anchor is: the path in the ticket of its parent, or in its own
/// where it has no parent.
pub proof fn lemma_anchor_path_is(anchor: JsonView, ticket: Seq<char>)
    ensures
        anchor.member("parent"@) == Some(JsonView::Text(ticket)) && ticket.len() > 0
            ==> anchor_path_of(anchor) == ticket_path(ticket),
        anchor.text_at("parent"@).len() == 0 && anchor.member("ticket"@) == Some(
            JsonView::Text(ticket),
        ) ==> anchor_path_of(anchor) == ticket_path(ticket),
        anchor.text_at("parent"@).len() == 0 && anchor.text_at("ticket"@).len() == 0
            ==> anchor_path_of(anchor) == ticket_path(seq![]),
{
    if anchor.text_at("ticket"@).len() == 0 {
        assert(anchor.text_at("ticket"@) =~= seq![]);
    }
}

/// The numbers of an anchor's span, under `span`, one of its ends, and what is
/// counted.
pub proof fn lemma_span_number_is(
    anchor: JsonView,
    span: JsonView,
    point: JsonView,
    end: Seq<char>,
    key: Seq<char>,
    n: u64,
)
    ensures
        anchor.member("span"@) == Some(span) && span.member(end) == Some(point) && point.member(
            key,
        ) == Some(JsonView::UInt(n)) ==> span_number(anchor, end, key) == Some(n),
        anchor.member("span"@) is None ==> span_number(anchor, end, key) is None,
        anchor.member("span"@) == Some(span) && span.member(end) is None ==> span_number(
            anchor,
            end,
            key,
        ) is None,
        anchor.member("span"@) == Some(span) && span.member(end) == Some(point) && (point.member(
            key,
        ) is None || !(point.member(key)->0 is UInt)) ==> span_number(anchor, end, key) is None,
{
}

/// An anchor as a line: path, line and column between colons, and behind two
/// blanks its snippet, or else its text, without the white space round it.
pub proof fn lemma_anchor_text_is(anchor: JsonView, path: Seq<char>, line: u64, col: u64)
    requires
        span_number(anchor, "start"@, "line_number"@) == Some(line) || (span_number(
            anchor,
            "start"@,
            "line_number"@,
        ) is None && line == 0),
        span_number(anchor, "start"@, "column_offset"@) == Some(col) || (span_number(
            anchor,
            "start"@,
            "column_offset"@,
        ) is None && col == 0),
    ensures
        anchor.member("snippet"@) matches Some(JsonView::Text(s)) ==> anchor_text(anchor, path)
            == path + ":"@ + decimal(line as nat) + ":"@ + decimal(col as nat) + "  "@ + trim(s),
        (anchor.member("snippet"@) is None || !(anchor.member("snippet"@)->0 is Text))
            ==> anchor_text(anchor, path) == path + ":"@ + decimal(line as nat) + ":"@ + decimal(
            col as nat,
        ) + "  "@ + trim(anchor.text_at("text"@)),
{
}

/// An anchor that a filter keeps: the value has an anchor, and its path holds
/// what is asked for and not what is not wanted.
pub open spec fn is_shown(v: JsonView, f: &Filter) -> bool {
    v.member("anchor"@) matches Some(a) && {
        let path = anchor_path_of(a);
        &&& f.in_ is None || f.in_->0@.len() == 0 || stands_in(f.in_->0@, path)
        &&& f.not_in is None || f.not_in->0@.len() == 0 || !stands_in(f.not_in->0@, path)
    }
}

/// The line of a value's anchor.
pub open spec fn shown_line(v: JsonView) -> Seq<char> {
    let a = v.member("anchor"@)->0;
    "  "@ + anchor_text(a, anchor_path_of(a))
}

/// The lines that are shown of anchors: those of just the anchors that the
/// filter keeps, in their order.
pub proof fn lemma_kept_anchors_are(list: Seq<JsonView>, f: &Filter)
    ensures
        kept_anchors(list, f) == list.filter(|v: JsonView| is_shown(v, f)).map_values(
            |v: JsonView| shown_line(v),
        ),
    decreases list.len(),
{
    reveal(Seq::filter);
    let kept = list.filter(|v: JsonView| is_shown(v, f));
    let lines = kept.map_values(|v: JsonView| shown_line(v));
    if list.len() == 0 {
        assert(kept_anchors(list, f) =~= lines);
    } else {
        lemma_kept_anchors_are(list.drop_last(), f);
        let before = list.drop_last().filter(|v: JsonView| is_shown(v, f));
        if let Some(a) = list.last().member("anchor"@) {
            lemma_keeps_is(*f, anchor_path_of(a));
        }
        if is_shown(list.last(), f) {
            assert(kept == before.push(list.last()));
            assert(lines =~= before.map_values(|v: JsonView| shown_line(v)).push(
                shown_line(list.last()),
            ));
        }
        assert(kept_anchors(list, f) =~= lines);
    }
}

/// The first ones of a list, as many as the limit says.
pub proof fn lemma_at_most_is<T>(list: Seq<T>, limit: nat)
    ensures
        at_most(list, limit).is_prefix_of(list),
        list.len() <= limit ==> at_most(list, limit) == list,
        list.len() > limit ==> at_most(list, limit).len() == limit,
{
    assert(at_most(list, limit) =~= list.subrange(0, at_most(list, limit).len() as int));
}

/// What a verb shows of a reply under a heading: the lines of the anchors
/// under the key that the filter keeps, up to the limit; nothing, and no
/// heading, where there is none.
pub open spec fn shown_under(
    title: Seq<char>,
    reply: JsonView,
    key: Seq<char>,
    f: &Filter,
    limit: nat,
    answer: Seq<Seq<char>>,
) -> bool {
    let kept = related(reply, key).filter(|v: JsonView| is_shown(v, f));
    let n = if kept.len() < limit {
        kept.len()
    } else {
        limit
    };
    if n == 0 {
        answer.len() == 0
    } else {
        &&& answer.len() == n + 1
        &&& answer[0] == title
        &&& forall|i: int| 0 <= i < n ==> #[trigger] answer[i + 1] == shown_line(kept[i])
    }
}

proof fn lemma_section_is(
    title: Seq<char>,
    reply: JsonView,
    key: Seq<char>,
    f: &Filter,
    limit: nat,
)
    ensures
        shown_under(title, reply, key, f, limit, section(title, reply, key, f, limit)),
{
    lemma_kept_anchors_are(related(reply, key), f);
    let kept = related(reply, key).filter(|v: JsonView| is_shown(v, f));
    let lines = kept_anchors(related(reply, key), f);
    assert(lines.len() == kept.len());
    assert forall|i: int| 0 <= i < kept.len() implies #[trigger] lines[i] == shown_line(
        kept[i],
    ) by {}
    lemma_at_most_is(lines, limit);
    let shown = at_most(lines, limit);
    assert forall|i: int| 0 <= i < shown.len() implies #[trigger] shown[i] == lines[i] by {}
    let answer = section(title, reply, key, f, limit);
    if shown.len() > 0 {
        assert forall|i: int| 0 <= i < shown.len() implies #[trigger] answer[i + 1] == shown_line(
            kept[i],
        ) by {
            assert(answer[i + 1] == shown[i]);
            assert(shown[i] == lines[i]);
        }
    }
}

/// What each verb shows of a reply: `def` the definitions and `ref` the
/// references under the heading, `callers` the callers under the heading and
/// then the references as call sites. Every line but the headings is that of
/// an anchor whose path the filter keeps, and each such anchor has its line, up
/// to the limit.
pub proof fn lemma_xref_answer_is(
    title: Seq<char>,
    reply: JsonView,
    f: &Filter,
    limit: nat,
)
    ensures
        shown_under(
            title,
            reply,
            "definition"@,
            f,
            limit,
            xref_answer(XrefVerb::Def, title, reply, f, limit),
        ),
        shown_under(
            title,
            reply,
            "reference"@,
            f,
            limit,
            xref_answer(XrefVerb::Ref, title, reply, f, limit),
        ),
        exists|a: Seq<Seq<char>>, b: Seq<Seq<char>>|
            {
                &&& xref_answer(XrefVerb::Callers, title, reply, f, limit) == #[trigger] (a + b)
                &&& shown_under(title, reply, "caller"@, f, limit, a)
                &&& shown_under("  (call sites)"@, reply, "reference"@, f, limit, b)
            },
{
    lemma_section_is(title, reply, "definition"@, f, limit);
    lemma_section_is(title, reply, "reference"@, f, limit);
    lemma_section_is(title, reply, "caller"@, f, limit);
    lemma_section_is("  (call sites)"@, reply, "reference"@, f, limit);
    let a = section(title, reply, "caller"@, f, limit);
    let b = section("  (call sites)"@, reply, "reference"@, f, limit);
    assert(xref_answer(XrefVerb::Callers, title, reply, f, limit) == a + b);
}

/// The verbs as they are typed.
pub proof fn lemma_verbs_are()
    ensures
        XrefVerb::Def.word() == "def"@,
        XrefVerb::Ref.word() == "ref"@,
        XrefVerb::Callers.word() == "callers"@,
{
}

/// The path of a definition: that of the first anchor in the list that has one.
pub proof fn lemma_first_path_is(list: Seq<JsonView>, i: int)
    requires
        0 <= i <= list.len(),
        forall|k: int|
            0 <= k < i ==> ((#[trigger] list[k]).member("anchor"@) is None || anchor_path_of(
                list[k].member("anchor"@)->0,
            ).len() == 0),
    ensures
        i == list.len() ==> first_path(list) is None,
        i < list.len() && list[i].member("anchor"@) is Some && anchor_path_of(
            list[i].member("anchor"@)->0,
        ).len() > 0 ==> first_path(list) == Some(anchor_path_of(list[i].member("anchor"@)->0)),
    decreases i,
{
    if i > 0 {
        let rest = list.skip(1);
        assert(list[0].member("anchor"@) is None || anchor_path_of(
            list[0].member("anchor"@)->0,
        ).len() == 0);
        assert forall|k: int| 0 <= k < i - 1 implies ((
        #[trigger] rest[k]).member("anchor"@) is None || anchor_path_of(
            rest[k].member("anchor"@)->0,
        ).len() == 0) by {
            assert(rest[k] == list[k + 1]);
        }
        lemma_first_path_is(rest, i - 1);
        if i < list.len() {
            assert(rest[i - 1] == list[i]);
        }
    }
}

/// The edges by which types inherit, and the same in reverse, each marked with
/// a percent sign.
pub proof fn lemma_inherit_edges_are(i: int)
    requires
        0 <= i < 6,
    ensures
        inherit_edges(false) == seq![
            "/kythe/edge/extends"@,
            "/kythe/edge/extends/public"@,
            "/kythe/edge/extends/protected"@,
            "/kythe/edge/extends/private"@,
            "/kythe/edge/overrides"@,
            "/kythe/edge/satisfies"@,
        ],
        inherit_edges(true).len() == 6,
        inherit_edges(true)[i] == seq!['%'] + inherit_edges(false)[i],
{
    reveal_strlit("%");
    assert("%"@ =~= seq!['%']);
}

/// The lines of types: one for each target whose path the filter keeps, with
/// its name and its path, in their order.
pub proof fn lemma_kept_types_are(
    targets: Seq<Seq<char>>,
    target: Seq<char>,
    names: Option<Seq<RowView>>,
    f: &Filter,
)
    ensures
        kept_types(seq![], names, f) == Seq::<Seq<char>>::empty(),
        f.keeps(ticket_path(target)) ==> kept_types(targets.push(target), names, f) == kept_types(
            targets,
            names,
            f,
        ).push("  "@ + label_of(names, target) + "  ["@ + ticket_path(target) + "]"@),
        !f.keeps(ticket_path(target)) ==> kept_types(targets.push(target), names, f) == kept_types(
            targets,
            names,
            f,
        ),
{
    assert(targets.push(target).drop_last() =~= targets);
}

/// What is shown of types: the heading before the first line of all, and no
/// more lines in all than the limit says.
pub proof fn lemma_type_lines_are(
    title: Seq<char>,
    targets: Seq<Seq<char>>,
    names: Option<Seq<RowView>>,
    f: &Filter,
    total: nat,
    limit: nat,
)
    ensures
        ({
            let all = kept_types(targets, names, f);
            let r = type_lines(title, targets, names, f, total, limit);
            let left: int = if total >= limit {
                0
            } else {
                limit - total
            };
            let n: int = if all.len() < left {
                all.len() as int
            } else {
                left
            };
            &&& total > 0 || n == 0 ==> r == all.take(n)
            &&& total == 0 && n > 0 ==> r == seq![title] + all.take(n)
        }),
{
    let all = kept_types(targets, names, f);
    assert(all.take(all.len() as int) =~= all);
    assert(all.take(0) =~= seq![]);
}

/// What is listed for a name: its tickets, or, by parts of names, a line of
/// name and ticket for each of the first rows, up to the limit; each line as an
/// object where that is asked for.
pub proof fn lemma_identifier_answer_is(
    rows: Seq<RowView>,
    name: Seq<char>,
    limit: nat,
    i: int,
)
    ensures
        ({
            let tickets = rows.filter(|r: RowView| r.0 == name).map_values(|r: RowView| r.1);
            let plain = identifier_answer(rows, name, false, limit, false);
            let object = identifier_answer(rows, name, false, limit, true);
            &&& plain == tickets
            &&& object.len() == tickets.len()
            &&& 0 <= i < tickets.len() ==> object[i] == json_compact(
                name_object(name, tickets[i]),
            )
        }),
        ({
            let found = first_names(rows.filter(|r: RowView| stands_in(name, r.0)), limit);
            let plain = identifier_answer(rows, name, true, limit, false);
            let object = identifier_answer(rows, name, true, limit, true);
            &&& plain.len() == (if found.len() < limit {
                found.len()
            } else {
                limit
            })
            &&& object.len() == plain.len()
            &&& 0 <= i < plain.len() ==> plain[i] == found[i].0 + "\t"@ + found[i].1 && object[i]
                == json_compact(name_object(found[i].0, found[i].1))
        }),
{
    lemma_index_tickets_are(rows, name, limit);
    crate::nameindex::lemma_tickets_named_are(rows, name);
    let tickets = tickets_named(rows, name);
    assert(identifier_answer(rows, name, false, limit, false) =~= tickets);
    crate::nameindex::lemma_rows_matching_are(rows, name);
    assert forall|r: RowView| #[trigger] crate::text::has_part(r.0, name) == stands_in(
        name,
        r.0,
    ) by {
        crate::text::lemma_has_part_is(seq![], name, seq![], r.0);
    }
    lemma_filter_same(
        rows,
        |r: RowView| crate::text::has_part(r.0, name),
        |r: RowView| stands_in(name, r.0),
    );
}

} // verus!
