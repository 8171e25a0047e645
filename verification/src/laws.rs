//! What the operations of the library give, stated of their arguments and
//! results.

use vstd::prelude::*;
use vstd::utf8::encode_utf8;

use crate::archive::{
    directories, file_entry, normalized_file, normalized_unit, strip_prefix, unit_entry,
    unit_files, Phase, Report,
};
use crate::callgraph::{
    callees_of, callers_of, decor_refs, definition_bodies, lemma_callees_are, BadDirection, Body,
    Decoration, Direction,
};
use crate::filter::PathFilter;
use crate::http::{request_text, sends_again, HttpError};
use crate::indexer::{
    entries_file, indexer_command, judge_unit, lang_label, make_plan, outcome_of,
    parse_inject_rules, prepare_unit, report_due, route_language, worker_count, worker_share,
    IndexerCommand, IndexerKind, InjectError, InjectRule, Outcome, Plan, PlanItem, Verdict,
};
use crate::json::{raw_reply, BadJson, Json, JsonView};
use crate::kzip::{
    cu_primary_path, parse_compilation_unit, parse_file_info, parse_vname, CompilationUnit,
    FileInfo, Unit, VName,
};
use crate::marked_source::{base64_decode, strip_jvm_method_descriptor};
use crate::nameindex::{entry_names, write_row, JsonEntry, NameIndex, RowView};
use crate::query::{
    anchor_lines, decor_args, default_kythe_bin, default_name_index, definition_path, edge_targets,
    edges_args, heading, is_shown, ls_args, nodes_args, related, resolve, shown_line, shown_under,
    stands_in, targets_args, xref_lines, xrefs_args, Filter, Lookup, ResolveError, XrefVerb,
};
use crate::repl::{parse_line, ReplLine};
use crate::serving::{
    fold_args, is_entries_file, store_workers, BadMode, Mode, ToolArg, ToolArgView,
};
use crate::stream::{
    check_start, default_store, done_line, done_log_file, names_log_file, StartError,
};
use crate::text::{decimal, join, texts, Class};
use crate::ticket::{is_ticket, path_of, sig_of};
use crate::wire::{varint_bytes, WireError};

verus! {

/// A message of one field: the byte of its tag, its length and its payload.
pub open spec fn one_field(tag: u8, data: Seq<u8>) -> Seq<u8> {
    seq![tag] + varint_bytes(data.len() as u64) + data
}

// --------------------------------------------------------- proto messages

/// A name of one part, decoded: the first to fifth fields are signature,
/// corpus, root, path and language.
pub proof fn lemma_one_part_decodes(buf: &[u8], s: Seq<char>, r: Result<VName, WireError>)
    requires
        call_ensures(parse_vname, (buf,), r),
        encode_utf8(s).len() + 11 <= usize::MAX,
    ensures
        ({
            let data = encode_utf8(s);
            let v = r->Ok_0;
            &&& buf@ == one_field(0x0a, data) ==> r is Ok && v.signature@ == s && v.corpus@.len()
                == 0 && v.root@.len() == 0 && v.path@.len() == 0 && v.language@.len() == 0
            &&& buf@ == one_field(0x12, data) ==> r is Ok && v.corpus@ == s && v.signature@.len()
                == 0 && v.root@.len() == 0 && v.path@.len() == 0 && v.language@.len() == 0
            &&& buf@ == one_field(0x1a, data) ==> r is Ok && v.root@ == s && v.signature@.len()
                == 0 && v.corpus@.len() == 0 && v.path@.len() == 0 && v.language@.len() == 0
            &&& buf@ == one_field(0x22, data) ==> r is Ok && v.path@ == s && v.signature@.len()
                == 0 && v.corpus@.len() == 0 && v.root@.len() == 0 && v.language@.len() == 0
            &&& buf@ == one_field(0x2a, data) ==> r is Ok && v.language@ == s && v.signature@.len()
                == 0 && v.corpus@.len() == 0 && v.root@.len() == 0 && v.path@.len() == 0
        }),
{
    let none = Seq::<u8>::empty();
    let data = encode_utf8(s);
    crate::kzip::lemma_lossy_round_trip(s);
    let e = crate::kzip::VNameView::empty();
    assert(crate::kzip::vname_of(none) == Ok::<crate::kzip::VNameView, WireError>(e));
    crate::kzip::lemma_vname_wire(none, data, e);
    lemma_field_alone(0x0a, data);
    lemma_field_alone(0x12, data);
    lemma_field_alone(0x1a, data);
    lemma_field_alone(0x22, data);
    lemma_field_alone(0x2a, data);
}

proof fn lemma_field_alone(tag: u8, data: Seq<u8>)
    ensures
        crate::kzip::with_field(seq![], tag, data) == one_field(tag, data),
{
    assert(crate::kzip::with_field(seq![], tag, data) =~= one_field(tag, data));
}

/// A file of one part, decoded: path and digest are the first two fields.
pub proof fn lemma_one_file_part_decodes(buf: &[u8], s: Seq<char>, r: Result<FileInfo, WireError>)
    requires
        call_ensures(parse_file_info, (buf,), r),
        encode_utf8(s).len() + 11 <= usize::MAX,
    ensures
        ({
            let data = encode_utf8(s);
            let v = r->Ok_0;
            &&& buf@ == one_field(0x0a, data) ==> r is Ok && v.path@ == s && v.digest@.len() == 0
            &&& buf@ == one_field(0x12, data) ==> r is Ok && v.digest@ == s && v.path@.len() == 0
        }),
{
    let none = Seq::<u8>::empty();
    let data = encode_utf8(s);
    crate::kzip::lemma_lossy_round_trip(s);
    let e = crate::kzip::FileInfoView::empty();
    assert(crate::kzip::file_info_of(none) == Ok::<crate::kzip::FileInfoView, WireError>(e));
    crate::kzip::lemma_file_info_wire(none, data, e);
    lemma_field_alone(0x0a, data);
    lemma_field_alone(0x12, data);
}

/// A unit of one text, decoded: an argument is the fifth field, a source file
/// the sixth, the output key the seventh, the working directory the eighth and
/// the entry context the ninth.
pub proof fn lemma_one_unit_part_decodes(
    buf: &[u8],
    s: Seq<char>,
    r: Result<CompilationUnit, WireError>,
)
    requires
        call_ensures(parse_compilation_unit, (buf,), r),
        encode_utf8(s).len() + 11 <= usize::MAX,
    ensures
        ({
            let data = encode_utf8(s);
            let c = r->Ok_0;
            &&& buf@ == one_field(0x2a, data) ==> r is Ok && c.argument@.len() == 1
                && c.argument@[0]@ == s && c.source_file@.len() == 0
            &&& buf@ == one_field(0x32, data) ==> r is Ok && c.source_file@.len() == 1
                && c.source_file@[0]@ == s && c.argument@.len() == 0
            &&& buf@ == one_field(0x3a, data) ==> r is Ok && c.output_key@ == s
                && c.working_directory@.len() == 0 && c.entry_context@.len() == 0
            &&& buf@ == one_field(0x42, data) ==> r is Ok && c.working_directory@ == s
                && c.output_key@.len() == 0 && c.entry_context@.len() == 0
            &&& buf@ == one_field(0x4a, data) ==> r is Ok && c.entry_context@ == s
                && c.output_key@.len() == 0 && c.working_directory@.len() == 0
        }),
{
    let none = Seq::<u8>::empty();
    let data = encode_utf8(s);
    crate::kzip::lemma_lossy_round_trip(s);
    let e = crate::kzip::CompilationUnitView::empty();
    assert(crate::kzip::unit_of(none) == Ok::<crate::kzip::CompilationUnitView, WireError>(e));
    crate::kzip::lemma_unit_wire(none, data, e);
    lemma_field_alone(0x2a, data);
    lemma_field_alone(0x32, data);
    lemma_field_alone(0x3a, data);
    lemma_field_alone(0x42, data);
    lemma_field_alone(0x4a, data);
    if let Ok(c) = r {
        assert(c@.argument.len() == c.argument@.len());
        assert(c@.source_file.len() == c.source_file@.len());
        if buf@ == one_field(0x2a, data) {
            assert(c@.argument[0] == s);
            assert(c@.argument[0] == c.argument@[0]@);
        }
        if buf@ == one_field(0x32, data) {
            assert(c@.source_file[0] == s);
            assert(c@.source_file[0] == c.source_file@[0]@);
        }
    }
}

/// The primary path of a unit, of its fields.
pub proof fn lemma_primary_path_found(c: &CompilationUnit, r: Option<&str>)
    requires
        call_ensures(cu_primary_path, (c,), r),
    ensures
        c.source_file@.len() > 0 ==> r is Some && r->0@ == c.source_file@[0]@,
        c.source_file@.len() == 0 && c.required_input@.len() > 0
            && c.required_input@[0].v_name.path@.len() > 0 ==> r is Some && r->0@
            == c.required_input@[0].v_name.path@,
        c.source_file@.len() == 0 && (c.required_input@.len() == 0
            || c.required_input@[0].v_name.path@.len() == 0) && c.v_name.path@.len() > 0
            ==> r is Some && r->0@ == c.v_name.path@,
        c.source_file@.len() == 0 && c.required_input@.len() > 0
            && c.required_input@[0].v_name.path@.len() == 0 && c.v_name.path@.len() == 0
            && c.required_input@[0].info.path@.len() > 0 ==> r is Some && r->0@
            == c.required_input@[0].info.path@,
        c.source_file@.len() == 0 && c.v_name.path@.len() == 0 && (c.required_input@.len() == 0 || (
        c.required_input@[0].v_name.path@.len() == 0 && c.required_input@[0].info.path@.len()
            == 0)) ==> r is None,
{
    crate::kzip::lemma_primary_path_is(c@);
    assert(c@.source_file.len() == c.source_file@.len());
    assert(c@.required_input.len() == c.required_input@.len());
    if c.source_file@.len() > 0 {
        assert(c@.source_file[0] == c.source_file@[0]@);
    }
    if c.required_input@.len() > 0 {
        assert(c@.required_input[0] == c.required_input@[0]@);
    }
}

/// The language of a unit is that of its name, with its ASCII capitals in lower
/// case.
pub proof fn lemma_language_found(u: &Unit, r: String, i: int)
    requires
        call_ensures(Unit::language, (u,), r),
        0 <= i < r@.len(),
    ensures
        ({
            let l = u.cu.unit.v_name.language@;
            &&& r@.len() == l.len()
            &&& 'A' <= l[i] <= 'Z' ==> r@[i] as u32 == l[i] as u32 + 32
            &&& !('A' <= l[i] <= 'Z') ==> r@[i] == l[i]
        }),
{
    crate::text::lemma_lowercase_is(u.cu.unit.v_name.language@, i);
}

// --------------------------------------------------------------- indexing

/// A unit is indexed with its own arguments behind those of the rules: just the
/// ones that do not start with `-fprofile-sample-use`, in their order and as
/// often as they were there. What stands before them are arguments of rules
/// whose prefix the primary path starts with, and every such argument is there.
/// Nothing else of the unit is changed.
pub proof fn lemma_unit_prepared(unit: &Unit, rules: &Vec<InjectRule>, r: CompilationUnit)
    requires
        call_ensures(prepare_unit, (unit, rules), r),
    ensures
        ({
            let was = unit.cu.unit;
            let path = match crate::kzip::primary_path_of(was@) {
                Some(p) => p,
                None => seq![],
            };
            let kept = Seq::new(was.argument@.len(), |i: int| was.argument@[i]@).filter(
                |a: Seq<char>| !"-fprofile-sample-use"@.is_prefix_of(a),
            );
            let args = Seq::new(r.argument@.len(), |i: int| r.argument@[i]@);
            let n = args.len() - kept.len();
            &&& n >= 0
            &&& args.skip(n) == kept
            &&& forall|i: int|
                0 <= i < n ==> !kept.contains(#[trigger] args[i]) && exists|k: int|
                    0 <= k < rules@.len() && rules@[k].path_prefix@.is_prefix_of(path) && (
                    #[trigger] rules@[k]).arg@ == args[i]
            &&& forall|k: int|
                0 <= k < rules@.len() && (#[trigger] rules@[k]).path_prefix@.is_prefix_of(path)
                    ==> args.contains(rules@[k].arg@)
            &&& r@.v_name == was@.v_name && r@.required_input == was@.required_input
                && r@.source_file == was@.source_file && r@.output_key == was@.output_key
                && r@.working_directory == was@.working_directory && r@.entry_context
                == was@.entry_context
        }),
{
    let was = unit.cu.unit;
    let path = match crate::kzip::primary_path_of(was@) {
        Some(p) => p,
        None => seq![],
    };
    let views = crate::indexer::rule_views(rules@);
    let mine = texts(was.argument@);
    let args = texts(r.argument@);
    assert(Seq::new(was.argument@.len(), |i: int| was.argument@[i]@) =~= mine);
    assert(Seq::new(r.argument@.len(), |i: int| r.argument@[i]@) =~= args);
    crate::indexer::lemma_prepared_is(was@, views);
    assert(args == crate::indexer::index_args(mine, views, path));
    crate::indexer::lemma_profiles_filtered(mine);
    let kept = crate::indexer::without_profiles(mine);
    let matching = crate::indexer::matching_args(views, path);
    crate::indexer::lemma_index_args(mine, views, path);
    crate::indexer::lemma_args_in_front(kept, matching);
    let n = args.len() - kept.len();
    assert(args.skip(n) =~= kept) by {
        assert(args.subrange(n, args.len() as int) == kept);
    }
    assert forall|i: int| 0 <= i < n implies !kept.contains(#[trigger] args[i]) && exists|k: int|
        0 <= k < rules@.len() && rules@[k].path_prefix@.is_prefix_of(path) && (
        #[trigger] rules@[k]).arg@ == args[i] by {
        assert(matching.contains(args[i]));
        crate::indexer::lemma_matching_is(views, path, args[i]);
        let k = choose|k: int|
            0 <= k < views.len() && (#[trigger] views[k]).0.is_prefix_of(path) && views[k].1
                == args[i];
        assert(views[k] == (rules@[k].path_prefix@, rules@[k].arg@));
        assert(rules@[k].arg@ == args[i]);
    }
    assert forall|k: int|
        0 <= k < rules@.len() && (#[trigger] rules@[k]).path_prefix@.is_prefix_of(
            path,
        ) implies args.contains(rules@[k].arg@) by {
        assert(views[k] == (rules@[k].path_prefix@, rules@[k].arg@));
        crate::indexer::lemma_matching_is(views, path, rules@[k].arg@);
        let m = matching.index_of(rules@[k].arg@);
        assert(args.contains(matching[m]));
    }
}

/// The indexer for a language, and the words by which languages are chosen.
pub proof fn lemma_language_routed(lang: &str, r: Option<IndexerKind>)
    requires
        call_ensures(route_language, (lang,), r),
    ensures
        r == Some(IndexerKind::Cxx) <==> lang@ == "c++"@,
        r == Some(IndexerKind::JavaSource) <==> lang@ == "java"@,
        r == Some(IndexerKind::JvmBytecode) <==> lang@ == "jvm"@,
        r == Some(IndexerKind::Go) <==> lang@ == "go"@,
        r == Some(IndexerKind::Proto) <==> lang@ == "protobuf"@ || lang@ == "proto"@,
        r == Some(IndexerKind::TextProto) <==> lang@ == "textproto"@,
{
    crate::indexer::lemma_route_is(lang@);
}

/// The word of an indexer.
pub proof fn lemma_label_given(k: IndexerKind, r: &'static str)
    requires
        call_ensures(lang_label, (k,), r),
    ensures
        k == IndexerKind::Cxx ==> r@ == "cxx"@,
        k == IndexerKind::JavaSource ==> r@ == "java"@,
        k == IndexerKind::JvmBytecode ==> r@ == "jvm"@,
        k == IndexerKind::Go ==> r@ == "go"@,
        k == IndexerKind::Proto ==> r@ == "proto"@,
        k == IndexerKind::TextProto ==> r@ == "textproto"@,
{
}

/// Every item below the total is the share of one worker: that whose number is
/// its remainder.
pub proof fn lemma_shares_given(total: usize, workers: usize, w: usize, r: Vec<usize>, i: int)
    requires
        w < workers,
        call_ensures(worker_share, (total, workers, w), r),
        0 <= i < total,
    ensures
        (exists|k: int| 0 <= k < r@.len() && #[trigger] r@[k] == i) <==> i % (workers as int) == w,
        forall|k: int, l: int| 0 <= k < l < r@.len() ==> #[trigger] r@[k] < #[trigger] r@[l],
{
    crate::indexer::lemma_one_worker(i, workers as int, w as int);
    if i % (workers as int) == w {
        let k = choose|k: int| 0 <= k && i == w + #[trigger] (k * workers);
        assert(k < r@.len()) by (nonlinear_arith)
            requires
                i == w + k * workers,
                i < total,
                w + r@.len() * workers >= total,
                workers > 0,
        ;
        assert(r@[k] == i);
    }
    if exists|k: int| 0 <= k < r@.len() && #[trigger] r@[k] == i {
        let k = choose|k: int| 0 <= k < r@.len() && #[trigger] r@[k] == i;
        assert(i == w + (k * workers));
    }
    assert forall|k: int, l: int| 0 <= k < l < r@.len() implies #[trigger] r@[k]
        < #[trigger] r@[l] by {
        assert(k * workers < l * workers) by (nonlinear_arith)
            requires
                k < l,
                workers > 0,
        ;
    }
}

/// How many workers there are, when a line is due, where entries go, and what
/// came of an indexer.
pub proof fn lemma_indexing_given(
    asked: usize,
    processors: usize,
    n: usize,
    done: usize,
    total: usize,
    due: bool,
    sha: &str,
    file: String,
)
    requires
        call_ensures(worker_count, (asked, processors), n),
        call_ensures(report_due, (done, total), due),
        call_ensures(entries_file, (sha,), file),
    ensures
        asked > 0 ==> n == asked,
        asked == 0 && processors >= 2 ==> n == processors / 2,
        asked == 0 && processors < 2 ==> n == 1,
        due <==> done % 200 == 0 || done == total,
        file@ == sha@ + ".entries"@,
{
}

/// What came of an indexer: a failure with its message, or what it wrote.
pub proof fn lemma_outcome_given(ok: bool, bytes: u64, message: String, r: Outcome)
    requires
        call_ensures(outcome_of, (ok, bytes, message), r),
    ensures
        !ok ==> r == Outcome::Failed(message),
        ok && bytes == 0 ==> r == Outcome::Empty,
        ok && bytes > 0 ==> r == Outcome::Wrote(bytes),
{
}

/// The command of an indexer.
pub proof fn lemma_command_given(kind: IndexerKind, heap: &str, r: IndexerCommand)
    requires
        call_ensures(indexer_command, (kind, heap), r),
    ensures
        kind == IndexerKind::Cxx ==> r.indexer@ == "indexers/cxx_indexer"@ && !r.java
            && r.args@.len() == 1,
        kind == IndexerKind::Go ==> r.indexer@ == "indexers/go_indexer"@ && !r.java
            && r.args@.len() == 1,
        kind == IndexerKind::JavaSource ==> r.indexer@ == "indexers/java_indexer.jar"@ && r.java,
        kind == IndexerKind::JvmBytecode ==> r.indexer@ == "indexers/jvm_indexer.jar"@ && r.java,
        kind == IndexerKind::Proto ==> r.indexer@ == "indexers/proto_indexer"@ && !r.java
            && r.args@.len() == 1,
        kind == IndexerKind::TextProto ==> r.indexer@ == "indexers/textproto_indexer"@ && !r.java
            && r.args@.len() == 1,
{
    crate::indexer::lemma_commands_are(heap@);
    assert(crate::indexer::arg_views(r.args@).len() == r.args@.len());
}

// ------------------------------------------------------------------ names

/// A signature is stripped of its descriptor, and only of one.
pub proof fn lemma_signature_stripped(
    sig: &str,
    r: Option<&str>,
    name: Seq<char>,
    params: Seq<char>,
    result: Seq<char>,
)
    requires
        call_ensures(strip_jvm_method_descriptor, (sig,), r),
    ensures
        sig@ == name + seq!['('] + params + seq![')'] + result && result.len() > 0 && is_types(
            params,
        ) && is_types(result) ==> r is Some && r->0@ == name,
        r matches Some(n) ==> exists|p: Seq<char>, t: Seq<char>|
            sig@ == #[trigger] (n@ + seq!['('] + p + seq![')'] + t) && t.len() > 0 && is_types(p)
                && is_types(t),
{
    crate::marked_source::lemma_descriptor_stripped(name, params, result, sig@);
    if let Some(n) = r {
        let (p, t) = choose|p: Seq<char>, t: Seq<char>|
            {
                &&& sig@ == #[trigger] (n@ + seq!['('] + p + seq![')'] + t)
                &&& t.len() > 0
                &&& forall|i: int|
                    0 <= i < p.len() ==> crate::marked_source::jvm_type_char(#[trigger] p[i])
                &&& forall|i: int|
                    0 <= i < t.len() ==> crate::marked_source::jvm_type_char(#[trigger] t[i])
            };
        assert(is_types(p) && is_types(t));
    }
}

/// Text of the characters of JVM types.
pub open spec fn is_types(s: Seq<char>) -> bool {
    forall|i: int|
        0 <= i < s.len() ==> (('a' <= #[trigger] s[i] <= 'z') || ('A' <= s[i] <= 'Z') || ('0'
            <= s[i] <= '9') || s[i] == ';' || s[i] == '[' || s[i] == '/' || s[i] == '$' || s[i]
            == '_')
}

/// Base64 text gives the bytes that it encodes.
pub proof fn lemma_base64_given(s: &str, r: Option<Vec<u8>>, b: Seq<u8>)
    requires
        call_ensures(base64_decode, (s,), r),
        crate::marked_source::unfilled(s@) == crate::marked_source::unfilled(
            crate::marked_source::base64_encoded(b),
        ),
    ensures
        r is Some && r->0@ == b,
{
    crate::marked_source::lemma_base64_round_trip(b, s@);
}

// -------------------------------------------------------------- call graph

/// A reference that is a call in a body, by their fields.
pub open spec fn calls_there(d: Decoration, body: Body) -> bool {
    &&& stands_in("ref/call"@, d.kind@)
    &&& body.start <= d.start
    &&& d.start < body.end
}

/// The functions that are called in bodies: a target is among them just where a
/// reference of the file beside a body has it, and is a call in the body.
pub proof fn lemma_callees_given(
    bodies: &Vec<(Body, Vec<Decoration>)>,
    r: Vec<String>,
    target: Seq<char>,
)
    requires
        call_ensures(callees_of, (bodies,), r),
    ensures
        (exists|n: int| 0 <= n < r@.len() && (#[trigger] r@[n])@ == target) <==> exists|
            k: int,
            i: int,
        |
            0 <= k < bodies@.len() && 0 <= i < bodies@[k].1@.len() && calls_there(
                #[trigger] bodies@[k].1@[i],
                bodies@[k].0,
            ) && bodies@[k].1@[i].target@ == target,
        forall|m: int, n: int|
            0 <= m < n < r@.len() ==> (#[trigger] r@[m])@ != (#[trigger] r@[n])@,
        stands_in("ref/call"@, "/kythe/edge/ref/call"@),
{
    let list = crate::callgraph::body_refs(bodies@);
    let out = texts(r@);
    let d0 = crate::callgraph::DecorationView { target, kind: "/kythe/edge/ref/call"@, start: 0 };
    let b0 = crate::callgraph::BodyView { file: seq![], start: 0, end: 1 };
    lemma_callees_are(list, target, d0, b0);
    lemma_kind_is_call(d0, b0);
    if exists|n: int| 0 <= n < r@.len() && (#[trigger] r@[n])@ == target {
        let n = choose|n: int| 0 <= n < r@.len() && (#[trigger] r@[n])@ == target;
        assert(out[n] == target);
        assert(out.contains(target));
        let (k, i) = choose|k: int, i: int|
            0 <= k < list.len() && 0 <= i < list[k].1.len() && crate::callgraph::is_call(
                #[trigger] list[k].1[i],
                list[k].0,
            ) && list[k].1[i].target == target;
        assert(list[k].1[i] == bodies@[k].1@[i]@);
        assert(list[k].0 == bodies@[k].0@);
        lemma_kind_is_call(list[k].1[i], list[k].0);
        assert(calls_there(bodies@[k].1@[i], bodies@[k].0));
    }
    if exists|k: int, i: int|
        0 <= k < bodies@.len() && 0 <= i < bodies@[k].1@.len() && calls_there(
            #[trigger] bodies@[k].1@[i],
            bodies@[k].0,
        ) && bodies@[k].1@[i].target@ == target {
        let (k, i) = choose|k: int, i: int|
            0 <= k < bodies@.len() && 0 <= i < bodies@[k].1@.len() && calls_there(
                #[trigger] bodies@[k].1@[i],
                bodies@[k].0,
            ) && bodies@[k].1@[i].target@ == target;
        assert(list[k].1[i] == bodies@[k].1@[i]@);
        assert(list[k].0 == bodies@[k].0@);
        lemma_kind_is_call(list[k].1[i], list[k].0);
        assert(crate::callgraph::is_call(list[k].1[i], list[k].0));
        assert(out.contains(target));
        let n = out.index_of(target);
        assert(r@[n]@ == target);
    }
    assert forall|m: int, n: int| 0 <= m < n < r@.len() implies (#[trigger] r@[m])@ != (
    #[trigger] r@[n])@ by {
        assert(out[m] != out[n]);
    }
}

#[verifier::rlimit(30)]
#[verifier::spinoff_prover]
proof fn lemma_kind_is_call(
    d: crate::callgraph::DecorationView,
    b: crate::callgraph::BodyView,
)
    ensures
        crate::callgraph::is_call(d, b) <==> stands_in("ref/call"@, d.kind) && b.start <= d.start
            < b.end,
{
    let part = "ref/call"@;
    let call = seq!['r', 'e', 'f', '/', 'c', 'a', 'l', 'l'];
    reveal_strlit("ref/call");
    assert(part =~= call);
    if stands_in(part, d.kind) {
        let at = choose|at: int|
            0 <= at && at + part.len() <= d.kind.len() && #[trigger] d.kind.subrange(
                at,
                at + part.len(),
            ) == part;
        assert(d.kind.subrange(at, at + 8) == call);
    }
    if crate::callgraph::is_call(d, b) {
        let at = choose|at: int|
            0 <= at && at + 8 <= d.kind.len() && #[trigger] d.kind.subrange(at, at + 8) == call;
        assert(d.kind.subrange(at, at + part.len()) == part);
    }
}

/// The functions that a reply names as callers.
pub proof fn lemma_callers_given(reply: &Json, r: Vec<String>, t: Seq<char>)
    requires
        call_ensures(callers_of, (reply,), r),
    ensures
        (exists|n: int| 0 <= n < r@.len() && (#[trigger] r@[n])@ == t) <==> exists|i: int|
            0 <= i < related(reply@, "caller"@).len() && (
            #[trigger] related(reply@, "caller"@)[i]).member("ticket"@) == Some(JsonView::Text(t)),
{
    crate::callgraph::lemma_callers_are(reply@, t);
    let out = texts(r@);
    if exists|n: int| 0 <= n < r@.len() && (#[trigger] r@[n])@ == t {
        let n = choose|n: int| 0 <= n < r@.len() && (#[trigger] r@[n])@ == t;
        assert(out[n] == t);
        assert(out.contains(t));
    }
    if out.contains(t) {
        let n = out.index_of(t);
        assert(r@[n]@ == t);
    }
}

/// Which way a walk goes, and what it asks for.
pub proof fn lemma_direction_given(
    s: &str,
    r: Result<Direction, BadDirection>,
    d: Direction,
    up: bool,
    down: bool,
)
    requires
        call_ensures(Direction::parse, (s,), r),
        call_ensures(Direction::asks_callers, (d,), up),
        call_ensures(Direction::asks_callees, (d,), down),
    ensures
        s@ == "up"@ <==> r == Ok::<Direction, BadDirection>(Direction::Up),
        s@ == "down"@ <==> r == Ok::<Direction, BadDirection>(Direction::Down),
        s@ == "both"@ <==> r == Ok::<Direction, BadDirection>(Direction::Both),
        up <==> d == Direction::Up || d == Direction::Both,
        down <==> d == Direction::Down || d == Direction::Both,
{
    reveal_strlit("up");
    reveal_strlit("down");
    reveal_strlit("both");
    assert("up"@[0] == 'u' && "down"@[0] == 'd' && "both"@[0] == 'b');
}

// ---------------------------------------------------------------- queries

/// What each verb shows of a reply, whatever the filter and the limit are.
pub proof fn lemma_xref_lines_given(
    verb: XrefVerb,
    title: &str,
    reply: &Json,
    filter: &Filter,
    limit: usize,
    r: Vec<String>,
)
    requires
        call_ensures(xref_lines, (verb, title, reply, filter, limit), r),
    ensures
        verb == XrefVerb::Def ==> shown_under(
            title@,
            reply@,
            "definition"@,
            filter,
            limit as nat,
            texts(r@),
        ),
        verb == XrefVerb::Ref ==> shown_under(
            title@,
            reply@,
            "reference"@,
            filter,
            limit as nat,
            texts(r@),
        ),
        verb == XrefVerb::Callers ==> exists|a: Seq<Seq<char>>, b: Seq<Seq<char>>|
            texts(r@) == #[trigger] (a + b) && shown_under(
                title@,
                reply@,
                "caller"@,
                filter,
                limit as nat,
                a,
            ) && shown_under("  (call sites)"@, reply@, "reference"@, filter, limit as nat, b),
{
    crate::query::lemma_xref_answer_is(title@, reply@, filter, limit as nat);
}

/// The lines of anchors: those of the anchors that the filter keeps, up to the
/// limit.
pub proof fn lemma_anchor_lines_given(
    reply: &Json,
    key: &str,
    filter: &Filter,
    limit: usize,
    r: Vec<String>,
    i: int,
)
    requires
        call_ensures(anchor_lines, (reply, key, filter, limit), r),
    ensures
        ({
            let kept = related(reply@, key@).filter(|v: JsonView| is_shown(v, filter));
            &&& r@.len() == (if kept.len() < limit {
                kept.len()
            } else {
                limit as nat
            })
            &&& 0 <= i < r@.len() ==> r@[i]@ == shown_line(kept[i])
        }),
{
    let all = related(reply@, key@);
    crate::query::lemma_kept_anchors_are(all, filter);
    let out = texts(r@);
    assert(out.len() == r@.len());
    if 0 <= i < r@.len() {
        assert(out[i] == r@[i]@);
    }
}

/// What a filter keeps.
pub proof fn lemma_kept_given(f: &Filter, path: &str, r: bool)
    requires
        call_ensures(Filter::keep, (f, path), r),
    ensures
        r <==> {
            &&& f.in_ is None || f.in_->0@.len() == 0 || stands_in(f.in_->0@, path@)
            &&& f.not_in is None || f.not_in->0@.len() == 0 || !stands_in(f.not_in->0@, path@)
        },
{
    crate::query::lemma_keeps_is(*f, path@);
}

/// Which paths a run is about.
pub proof fn lemma_path_accepted(f: &PathFilter, path: &str, r: bool)
    requires
        call_ensures(PathFilter::accept, (f, path), r),
    ensures
        r <==> {
            &&& f.in_@.len() == 0 || exists|i: int|
                0 <= i < f.in_@.len() && (#[trigger] f.in_@[i])@.len() > 0 && stands_in(
                    f.in_@[i]@,
                    path@,
                )
            &&& !exists|i: int|
                0 <= i < f.not_in@.len() && (#[trigger] f.not_in@[i])@.len() > 0 && stands_in(
                    f.not_in@[i]@,
                    path@,
                )
        },
{
    lemma_some_stands(f.in_@, path@);
    lemma_some_stands(f.not_in@, path@);
}

proof fn lemma_some_stands(list: Seq<String>, path: Seq<char>)
    ensures
        crate::filter::any_within(texts(list), path) <==> exists|i: int|
            0 <= i < list.len() && (#[trigger] list[i])@.len() > 0 && stands_in(list[i]@, path),
{
    let all = texts(list);
    assert forall|i: int| 0 <= i < list.len() implies crate::text::has_part(
        path,
        (#[trigger] list[i])@,
    ) == stands_in(list[i]@, path) by {
        crate::text::lemma_has_part_is(seq![], list[i]@, seq![], path);
    }
    if crate::filter::any_within(all, path) {
        let i = choose|i: int|
            0 <= i < all.len() && (#[trigger] all[i]).len() > 0 && crate::text::has_part(
                path,
                all[i],
            );
        assert(all[i] == list[i]@);
        assert(stands_in(list[i]@, path));
    }
    if exists|i: int|
        0 <= i < list.len() && (#[trigger] list[i])@.len() > 0 && stands_in(list[i]@, path) {
        let i = choose|i: int|
            0 <= i < list.len() && (#[trigger] list[i])@.len() > 0 && stands_in(list[i]@, path);
        assert(all[i] == list[i]@);
        assert(all[i].len() > 0 && crate::text::has_part(path, all[i]));
    }
}

/// What the `kythe` tool is told about references and edges.
pub proof fn lemma_xrefs_args_given(
    ticket: &str,
    defs: &str,
    refs: &str,
    callers: &str,
    r: Vec<String>,
)
    requires
        call_ensures(xrefs_args, (ticket, defs, refs, callers), r),
    ensures
        texts(r@) == seq![
            "xrefs"@,
            "--definitions"@,
            defs@,
            "--references"@,
            refs@,
            "--callers"@,
            callers@,
            "--declarations"@,
            "none"@,
            "--related_nodes=false"@,
            ticket@,
        ],
{
}

/// What the `kythe` tool is told about edges, nodes, files and directories.
pub proof fn lemma_tool_args_given(
    s: &str,
    opt: Option<&str>,
    kinds: &Vec<String>,
    targets: Vec<String>,
    edges: Vec<String>,
    nodes: Vec<String>,
    decor: Vec<String>,
    ls: Vec<String>,
)
    requires
        call_ensures(targets_args, (s, kinds), targets),
        call_ensures(edges_args, (s, opt), edges),
        call_ensures(nodes_args, (s,), nodes),
        call_ensures(decor_args, (s, opt), decor),
        call_ensures(ls_args, (opt,), ls),
    ensures
        texts(targets@) == seq![
            "edges"@,
            "--kinds"@,
            join(texts(kinds@), ","@),
            "--targets_only"@,
            s@,
        ],
        opt matches Some(k) ==> texts(edges@) == seq!["edges"@, "--kinds"@, k@, s@],
        opt is None ==> texts(edges@) == seq!["edges"@, s@],
        texts(nodes@) == seq!["nodes"@, s@],
        opt is None || "kythe:"@.is_prefix_of(s@) ==> texts(decor@) == seq!["decor"@, s@],
        opt is Some && !"kythe:"@.is_prefix_of(s@) ==> texts(decor@) == seq![
            "decor"@,
            "--corpus"@,
            opt->0@,
            s@,
        ],
        opt matches Some(p) ==> texts(ls@) == seq!["ls"@, "--uris"@, p@],
        opt is None ==> texts(ls@) == seq!["ls"@, "--uris"@],
{
}

/// What a verb asks for and how it is headed, and where tools and indexes are.
pub proof fn lemma_verb_given(
    v: XrefVerb,
    k: (&'static str, &'static str, &'static str),
    none: &'static str,
    a: &str,
    b: &str,
    c: &str,
    head: String,
    bin: String,
    idx: String,
)
    requires
        call_ensures(XrefVerb::kinds, (v,), k),
        call_ensures(XrefVerb::nothing, (v,), none),
        call_ensures(heading, (a, b, c), head),
        call_ensures(default_kythe_bin, (a,), bin),
        call_ensures(default_name_index, (a,), idx),
    ensures
        v == XrefVerb::Def ==> k.0@ == "all"@ && k.1@ == "none"@ && k.2@ == "none"@ && none@
            == "(no definitions)"@,
        v == XrefVerb::Ref ==> k.0@ == "none"@ && k.1@ == "all"@ && k.2@ == "none"@ && none@
            == "(no references)"@,
        v == XrefVerb::Callers ==> k.0@ == "none"@ && k.1@ == "call"@ && k.2@ == "direct"@ && none@
            == "(no callers)"@,
        head@ == a@ + " "@ + b@ + " ["@ + c@ + "]"@,
        a@.len() > 0 && a@.last() != '/' ==> bin@ == a@ + seq!['/'] + "tools/kythe"@ && idx@ == a@
            + seq!['/'] + "scry3.names.idx"@,
{
    crate::query::lemma_below_is(a@, "tools/kythe"@);
    crate::query::lemma_below_is(a@, "scry3.names.idx"@);
}

/// A ticket stands for itself; of tickets that were found, with no word on
/// where they are defined, the first ones are gone on with, up to the cap.
pub proof fn lemma_resolved_given(
    list: Vec<String>,
    cap: usize,
    r: Result<Vec<String>, ResolveError>,
)
    requires
        call_ensures(resolve, (Lookup::Found(list), None, cap), r),
    ensures
        list@.len() == 0 ==> r == Err::<Vec<String>, ResolveError>(ResolveError::NoTicket),
        list@.len() > 0 && (cap == 0 || list@.len() <= cap) ==> r is Ok && texts(r->Ok_0@) == texts(
            list@,
        ),
        cap > 0 && list@.len() > cap ==> r is Ok && texts(r->Ok_0@) == texts(list@).take(
            cap as int,
        ),
{
}

/// A reply is passed through as it is.
pub proof fn lemma_raw_given(bytes: Vec<u8>, r: Result<Vec<u8>, BadJson>)
    requires
        call_ensures(raw_reply, (bytes,), r),
    ensures
        r matches Ok(v) ==> v@ == bytes@,
        bytes@.len() == 0 ==> r is Ok,
{
}

// ---------------------------------------------------------------- tickets

/// What a ticket is, and what its parts are where it has them.
pub proof fn lemma_ticket_read(
    t: &str,
    is: bool,
    path: String,
    sig: String,
    a: Seq<char>,
    p: Seq<char>,
    s: Seq<char>,
)
    requires
        call_ensures(is_ticket, (t,), is),
        call_ensures(path_of, (t,), path),
        call_ensures(sig_of, (t,), sig),
        !a.contains('?') && !a.contains('#'),
    ensures
        is <==> "kythe:"@.is_prefix_of(t@),
        t@ == a + "?path="@ + crate::ticket::escaped(p, true) + seq!['#'] + crate::ticket::escaped(
            s,
            false,
        ) ==> path@ == p && sig@ == s,
        t@ == a ==> path@ == a && sig@.len() == 0,
{
    let e = crate::ticket::escaped(p, true);
    let f = crate::ticket::escaped(s, false);
    crate::ticket::lemma_escaped_plain(encode_utf8(p), true);
    crate::ticket::lemma_escaped_plain(encode_utf8(s), false);
    crate::ticket::lemma_escape_round_trip(p, true);
    crate::ticket::lemma_escape_round_trip(s, false);
    assert(!f.contains('#')) by {
        if f.contains('#') {
            let i = f.index_of('#');
            assert(f[i] == '#');
        }
    }
    let none = Seq::<char>::empty();
    crate::ticket::lemma_ticket_parts_are(a, e, seq!['#'] + f, none);
    crate::ticket::lemma_ticket_parts_are(a, none, none, none);
    if t@ == a + "?path="@ + e + seq!['#'] + f {
        assert(t@ =~= a + "?path="@ + e + (seq!['#'] + f));
        let front = a + "?path="@ + e;
        lemma_signature_read(front, f);
    }
}

proof fn lemma_signature_read(front: Seq<char>, f: Seq<char>)
    requires
        !f.contains('#'),
    ensures
        crate::ticket::ticket_signature(front + seq!['#'] + f) == crate::ticket::percent_decoded(f),
{
    let t = front + seq!['#'] + f;
    let hash = Class::Only('#');
    let n = front.len() + 1;
    assert(t[n - 1] == '#');
    assert forall|j: int| n <= j < t.len() implies !hash.holds(#[trigger] t[j]) by {
        assert(t[j] == f[j - n]);
        assert(f.contains(f[j - n]));
    }
    crate::ticket::lemma_behind_last(t, hash, t.len() as int, n as int);
    assert(t.skip(n as int) =~= f);
}

// --------------------------------------------------------------- archives

/// Where things are written, what is below a directory, and what is reported.
pub proof fn lemma_entries_given(
    s: &str,
    prefix: &str,
    unit: String,
    file: String,
    below: Option<&str>,
    dirs: Vec<String>,
    rest: Seq<char>,
)
    requires
        call_ensures(unit_entry, (s,), unit),
        call_ensures(file_entry, (s,), file),
        call_ensures(strip_prefix, (s, prefix), below),
        call_ensures(directories, (), dirs),
    ensures
        unit@ == "root/pbunits/"@ + s@,
        file@ == "root/files/"@ + s@,
        s@ == prefix@ + rest && rest.len() > 0 && !rest.contains('/') ==> below is Some && below->0@
            == rest,
        below matches Some(r) ==> s@ == prefix@ + r@ && r@.len() > 0 && !r@.contains('/'),
        texts(dirs@) == seq!["root/"@, "root/pbunits/"@, "root/files/"@],
{
    crate::archive::lemma_entry_below_is(s@, prefix@, rest);
}

/// What is written for the units and the files of an archive, and how far that
/// is then.
pub proof fn lemma_written_given(
    units: &Vec<Unit>,
    files: &Vec<String>,
    i: usize,
    u: (String, Vec<u8>, Report),
    f: (String, Report),
)
    requires
        i < units@.len(),
        i < files@.len(),
        call_ensures(normalized_unit, (units, i), u),
        call_ensures(normalized_file, (files, i), f),
    ensures
        u.0@ == "root/pbunits/"@ + units@[i as int].sha@,
        units@[i as int].raw_proto matches Some(raw) ==> u.1@ == raw@,
        u.2 == (Report {
            phase: Phase::WriteUnits,
            done: (i + 1) as usize,
            total: units@.len() as usize,
        }),
        f.0@ == "root/files/"@ + files@[i as int]@,
        f.1 == (Report {
            phase: Phase::WriteFiles,
            done: (i + 1) as usize,
            total: files@.len() as usize,
        }),
{
}

/// The files that an archive of units needs, and those that one unit needs:
/// just the digests that inputs name, but for the empty one, each once.
pub proof fn lemma_needed_given(unit: &Unit, r: Vec<String>, d: Seq<char>)
    requires
        call_ensures(unit_files, (unit,), r),
    ensures
        (exists|n: int| 0 <= n < r@.len() && (#[trigger] r@[n])@ == d) <==> d.len() > 0 && exists|
            i: int,
        |
            0 <= i < unit.cu.unit.required_input@.len() && (
            #[trigger] unit.cu.unit.required_input@[i]).info.digest@ == d,
{
    let inputs = unit@.cu.required_input;
    let own = unit.cu.unit.required_input@;
    let out = texts(r@);
    crate::text::lemma_distinct(crate::archive::digests(inputs));
    lemma_digests_hold(inputs, d);
    assert(inputs.len() == own.len());
    assert forall|i: int| 0 <= i < own.len() implies (#[trigger] own[i])@ == inputs[i] by {}
    if exists|n: int| 0 <= n < r@.len() && (#[trigger] r@[n])@ == d {
        let n = choose|n: int| 0 <= n < r@.len() && (#[trigger] r@[n])@ == d;
        assert(out[n] == d);
        assert(out.contains(d));
        let i = choose|i: int|
            0 <= i < inputs.len() && (#[trigger] inputs[i]).info.digest == d;
        assert(own[i]@ == inputs[i]);
        assert(own[i].info.digest@ == d);
    }
    if d.len() > 0 && exists|i: int| 0 <= i < own.len() && (#[trigger] own[i]).info.digest@ == d {
        let i = choose|i: int| 0 <= i < own.len() && (#[trigger] own[i]).info.digest@ == d;
        assert(own[i]@ == inputs[i]);
        assert(inputs[i].info.digest == d);
        assert(out.contains(d));
        let n = out.index_of(d);
        assert(r@[n]@ == d);
    }
}

proof fn lemma_digests_hold(inputs: Seq<crate::kzip::FileInputView>, d: Seq<char>)
    ensures
        crate::archive::digests(inputs).contains(d) <==> d.len() > 0 && exists|i: int|
            0 <= i < inputs.len() && (#[trigger] inputs[i]).info.digest == d,
    decreases inputs.len(),
{
    let all = crate::archive::digests(inputs);
    if inputs.len() > 0 {
        let front = inputs.drop_last();
        let before = crate::archive::digests(front);
        lemma_digests_hold(front, d);
        if all.contains(d) {
            let k = all.index_of(d);
            if k < before.len() {
                assert(before[k] == d);
                assert(before.contains(d));
                let i = choose|i: int|
                    0 <= i < front.len() && (#[trigger] front[i]).info.digest == d;
                assert(inputs[i].info.digest == d);
            } else {
                assert(inputs[inputs.len() - 1].info.digest == d);
            }
        }
        if d.len() > 0 && exists|i: int|
            0 <= i < inputs.len() && (#[trigger] inputs[i]).info.digest == d {
            let i = choose|i: int|
                0 <= i < inputs.len() && (#[trigger] inputs[i]).info.digest == d;
            if i < front.len() {
                assert(front[i].info.digest == d);
                assert(all[before.index_of(d)] == d);
            } else {
                assert(all[all.len() - 1] == d);
            }
        }
    }
}

// --------------------------------------------------------- runs and servers

/// Whether a run can start, and where its logs are.
pub proof fn lemma_run_given(
    out: bool,
    store: bool,
    resume: bool,
    r: Result<bool, StartError>,
    s: &str,
    gs: String,
    done: String,
    names: String,
    line: String,
)
    requires
        call_ensures(check_start, (out, store, resume), r),
        call_ensures(default_store, (s,), gs),
        call_ensures(done_log_file, (s,), done),
        call_ensures(names_log_file, (s,), names),
        call_ensures(done_line, (s,), line),
    ensures
        out ==> r == Err::<bool, StartError>(StartError::OutExists),
        !out && store && !resume ==> r == Err::<bool, StartError>(StartError::StoreExists),
        !out && store && resume ==> r == Ok::<bool, StartError>(true),
        !out && !store ==> r == Ok::<bool, StartError>(false),
        s@.len() > 0 && s@.last() != '/' ==> gs@ == s@ + ".graphstore"@,
        done@ == s@ + ".done"@,
        names@ == s@ + ".names"@,
        line@ == s@ + seq!['\n'],
{
    assert(s@.push('\n') =~= s@ + seq!['\n']);
}

/// What tools are told, which files hold entries, and how many workers write to
/// a store.
pub proof fn lemma_serving_given(
    s: &str,
    m: Result<Mode, BadMode>,
    asked: usize,
    n: usize,
    args: Vec<ToolArg>,
    is: bool,
    stem: Seq<char>,
)
    requires
        call_ensures(Mode::parse, (s,), m),
        call_ensures(store_workers, (asked,), n),
        call_ensures(fold_args, (asked,), args),
        call_ensures(is_entries_file, (s,), is),
    ensures
        m == Ok::<Mode, BadMode>(Mode::Sorted) <==> s@ == "sorted"@,
        m == Ok::<Mode, BadMode>(Mode::Graphstore) <==> s@ == "graphstore"@ || s@ == "gs"@,
        m == Ok::<Mode, BadMode>(Mode::Beam) <==> s@ == "beam"@,
        asked == 0 ==> n == 4,
        asked > 0 ==> n == asked,
        args@.len() == 4 && args@[0]@ == ToolArgView::Word("--graphstore"@) && args@[1]@
            == ToolArgView::Target && args@[2]@ == ToolArgView::Word("--workers"@) && args@[3]@
            == ToolArgView::Word(decimal(asked as nat)),
        s@ == stem + ".entries"@ && stem.len() > 0 ==> is,
        is ==> s@.len() > 8 && ".entries"@.is_suffix_of(s@),
{
    crate::serving::lemma_modes_are(s@);
    let v = crate::serving::arg_views(args@);
    assert(v.len() == 4);
    assert(v[0] == args@[0]@ && v[1] == args@[1]@ && v[2] == args@[2]@ && v[3] == args@[3]@);
    reveal_strlit(".entries");
    if s@ == stem + ".entries"@ && stem.len() > 0 {
        assert(s@.subrange(s@.len() - 8, s@.len() as int) =~= ".entries"@);
    }
}

/// When a request is sent again: after a first try on which the connection was
/// dropped.
pub proof fn lemma_retry_given(e: &HttpError, first: bool, r: bool)
    requires
        call_ensures(sends_again, (e, first), r),
    ensures
        r ==> first,
        *e is Status || *e is ChunkSize ==> !r,
        first && (*e is Closed || *e is Short) ==> r,
{
}


// ------------------------------------------------------------ more replies

/// What is read of replies about files and definitions: the references under
/// `reference`, and the bodies and the path of the definitions.
pub proof fn lemma_replies_read(
    reply: &Json,
    refs: Vec<Decoration>,
    bodies: Vec<Body>,
    path: Option<String>,
    targets: Vec<String>,
)
    requires
        call_ensures(decor_refs, (reply,), refs),
        call_ensures(definition_bodies, (reply,), bodies),
        call_ensures(definition_path, (reply,), path),
        call_ensures(edge_targets, (reply,), targets),
    ensures
        crate::callgraph::decoration_views(refs@) == crate::callgraph::decorations_in(
            reply@.items_at("reference"@),
        ),
        crate::callgraph::body_views(bodies@) == crate::callgraph::bodies_in(
            related(reply@, "definition"@),
        ),
        path matches Some(p) ==> crate::query::first_path(related(reply@, "definition"@)) == Some(
            p@,
        ),
        path is None ==> crate::query::first_path(related(reply@, "definition"@)) is None,
        texts(targets@) == crate::text::distinct(
            crate::query::texts_at(
                crate::query::set_edges(reply@.values_at("edge_sets"@)),
                "target_ticket"@,
            ),
        ),
{
}

/// The names of an entry that names its node: the signature of its target, and
/// without its descriptor where it has one, with the ticket of its source.
pub proof fn lemma_names_given(e: &JsonEntry, r: Vec<(String, String)>, t: crate::ticket::VName)
    requires
        call_ensures(entry_names, (e,), r),
        crate::marked_source::named_edge(e.edge_kind@),
        e.target == Some(t),
        t.signature@.len() > 0,
    ensures
        r@.len() > 0,
        r@.last().0@ == t.signature@,
        forall|i: int|
            0 <= i < r@.len() ==> (#[trigger] r@[i]).1@ == crate::ticket::ticket_of(e.source@),
        crate::marked_source::without_descriptor(t.signature@) matches Some(n) ==> r@.len() == 2
            && r@[0].0@ == n,
        crate::marked_source::without_descriptor(t.signature@) is None ==> r@.len() == 1,
{
    crate::nameindex::lemma_edge_names_are(e@, t@);
    let rows = crate::nameindex::row_views(r@);
    assert(rows.len() == r@.len());
    assert forall|i: int| 0 <= i < r@.len() implies rows[i] == ((#[trigger] r@[i]).0@, r@[i].1@) by {}
    assert(e@.target == Some(t@));
    assert(rows.last() == (r@.last().0@, r@.last().1@));
}

/// The name of an entry with the fact `/kythe/code`, and of no other fact.
pub proof fn lemma_code_names_given(
    e: &JsonEntry,
    r: Vec<(String, String)>,
    bytes: Seq<u8>,
    name: Seq<char>,
)
    requires
        call_ensures(entry_names, (e,), r),
        !crate::marked_source::named_edge(e.edge_kind@),
    ensures
        e.fact_name@ != "/kythe/code"@ ==> r@.len() == 0,
        e.fact_name@ == "/kythe/code"@ && e.fact_value@.len() > 0
            && crate::marked_source::base64_decoded(e.fact_value@) == Some(bytes)
            && crate::marked_source::marked_name(bytes) == Some(name) ==> r@.len() == 1
            && r@[0].0@ == name && r@[0].1@ == crate::ticket::ticket_of(e.source@),
{
    crate::nameindex::lemma_fact_names_are(e@, bytes, name);
    let rows = crate::nameindex::row_views(r@);
    assert(rows.len() == r@.len());
    if r@.len() > 0 {
        assert(rows[0] == (r@[0].0@, r@[0].1@));
    }
}

/// The tickets that an index has for a name: just those of the rows with it.
pub proof fn lemma_exact_given(idx: &NameIndex, name: &str, r: Vec<String>)
    requires
        call_ensures(NameIndex::exact, (idx, name), r),
    ensures
        ({
            let n = name@;
            texts(r@) == idx@.filter(|r: RowView| r.0 == n).map_values(|r: RowView| r.1)
        }),
{
    crate::nameindex::lemma_tickets_named_are(idx@, name@);
}

/// A row as a line of the index.
pub proof fn lemma_row_written(row: &(String, String), r: String)
    requires
        call_ensures(write_row, (row,), r),
    ensures
        r@ == row.0@ + seq!['\t'] + row.1@ + seq!['\n'],
{
    crate::nameindex::lemma_row_line_is(seq![], (row.0@, row.1@));
}

/// The address of a server and a request to it.
pub proof fn lemma_request_given(
    addr: &str,
    path: &str,
    body: &str,
    r: String,
    host: Seq<char>,
    port: Seq<char>,
)
    requires
        call_ensures(request_text, (addr, path, body), r),
        addr@ == host + seq![':'] + port,
        !host.contains(':'),
        path@.len() > 0 && path@[0] != '/',
    ensures
        r@ == "POST /"@ + path@ + " HTTP/1.1\r\nHost: "@ + host
            + "\r\nContent-Type: application/json\r\nContent-Length: "@ + decimal(
            encode_utf8(body@).len(),
        ) + "\r\nConnection: keep-alive\r\n\r\n"@ + body@,
{
    let none = Seq::<char>::empty();
    crate::http::lemma_request_is(host, port, none, path@, body@);
    assert(none + path@ =~= path@);
}

/// What a line of a session asks for.
pub proof fn lemma_line_read(line: &str, r: ReplLine)
    requires
        call_ensures(parse_line, (line,), r),
    ensures
        r is Blank <==> crate::text::words(line@).len() == 0,
        r matches ReplLine::Command(c) ==> {
            let toks = crate::text::words(line@);
            &&& c.word@ == toks[0]
            &&& c.verb == crate::repl::verb_of(toks[0])
            &&& c.substr == toks.contains("--substr"@)
        },
{
}

/// The rules that are read: each text with two colons in it gives what stands
/// before the first two and behind them.
pub proof fn lemma_rules_read(
    raw: &[String],
    r: Result<Vec<InjectRule>, InjectError>,
    i: int,
    at: int,
)
    requires
        call_ensures(parse_inject_rules, (raw,), r),
        r is Ok,
        0 <= i < raw@.len(),
        0 < at && at + 2 < raw@[i]@.len(),
        raw@[i]@[at] == ':' && raw@[i]@[at + 1] == ':',
        forall|j: int| 0 <= j < at ==> !(#[trigger] raw@[i]@[j] == ':' && raw@[i]@[j + 1] == ':'),
    ensures
        r->Ok_0@.len() == raw@.len(),
        r->Ok_0@[i].path_prefix@ == raw@[i]@.subrange(0, at),
        r->Ok_0@[i].arg@ == raw@[i]@.subrange(at + 2, raw@[i]@.len() as int),
{
    let rules = r->Ok_0@;
    crate::indexer::lemma_rule_is(raw@[i]@, at);
    assert(crate::indexer::rule_views(rules)[i] == (rules[i].path_prefix@, rules[i].arg@));
    assert(crate::indexer::rule_of(raw@[i]@) is Ok);
}

/// What is planned: the units that are indexed, by their places, and how many
/// are not.
pub proof fn lemma_plan_given(
    units: &Vec<Unit>,
    langs: &Vec<String>,
    filter: &PathFilter,
    r: Plan,
    i: int,
    v: Verdict,
)
    requires
        call_ensures(make_plan, (units, langs, filter), r),
        units@.len() <= usize::MAX,
        0 <= i < units@.len(),
        call_ensures(judge_unit, (&units@[i], langs, filter), v),
    ensures
        (exists|k: int| 0 <= k < r.items@.len() && (#[trigger] r.items@[k]).unit == i) <==> v is Index,
        r.items@.len() + r.skipped_lang + r.skipped_path == units@.len(),
{
    let all = crate::archive::unit_views(units@);
    let names = texts(langs@);
    assert(all[i] == units@[i]@);
    if let Verdict::Index(kind) = v {
        crate::indexer::lemma_planned_all(all, names, filter, i, kind);
        let item = PlanItem { unit: i as usize, kind };
        let k = r.items@.index_of(item);
        assert(r.items@[k].unit == i);
    }
    if exists|k: int| 0 <= k < r.items@.len() && (#[trigger] r.items@[k]).unit == i {
        let k = choose|k: int| 0 <= k < r.items@.len() && (#[trigger] r.items@[k]).unit == i;
        crate::indexer::lemma_planned(all, names, filter, k, k + 1);
    }
}

} // verus!
