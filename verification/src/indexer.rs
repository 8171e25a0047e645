//! Indexing: which units are indexed, by which indexer, with which arguments,
//! and what came of it.

use vstd::prelude::*;

use crate::archive::{filter_path, unit_views};
use crate::filter::PathFilter;
use crate::kzip::{
    primary_path_of, CompilationUnit, CompilationUnitView, Unit, UnitView,
};
use crate::text::{
    chars_of, find_chars, find_from, holds_text, lemma_find, lemma_split_push_text,
    lemma_texts_push, lines, lines_of, lossy_chars, lossy_string, lowercase, occurs_at, same, split, split_at, starts_with,
    string_of, texts, trim, trimmed, Class,
};

verus! {

// ---------------------------------------------------------------- routing

/// The indexers of a Kythe release.
#[derive(Clone, Copy, Debug, PartialEq, Eq, Structural)]
pub enum IndexerKind {
    Cxx,
    JavaSource,
    JvmBytecode,
    Go,
    Proto,
    TextProto,
}

/// The indexer for a language, if there is one.
pub open spec fn route(lang: Seq<char>) -> Option<IndexerKind> {
    if lang == "c++"@ {
        Some(IndexerKind::Cxx)
    } else if lang == "java"@ {
        Some(IndexerKind::JavaSource)
    } else if lang == "jvm"@ {
        Some(IndexerKind::JvmBytecode)
    } else if lang == "go"@ {
        Some(IndexerKind::Go)
    } else if lang == "protobuf"@ || lang == "proto"@ {
        Some(IndexerKind::Proto)
    } else if lang == "textproto"@ {
        Some(IndexerKind::TextProto)
    } else {
        None
    }
}

/// The indexer for a language. Languages without one are skipped.
pub fn route_language(lang: &str) -> (r: Option<IndexerKind>)
    ensures
        r == route(lang@),
{
    if same(lang, "c++") {
        Some(IndexerKind::Cxx)
    } else if same(lang, "java") {
        Some(IndexerKind::JavaSource)
    } else if same(lang, "jvm") {
        Some(IndexerKind::JvmBytecode)
    } else if same(lang, "go") {
        Some(IndexerKind::Go)
    } else if same(lang, "protobuf") || same(lang, "proto") {
        Some(IndexerKind::Proto)
    } else if same(lang, "textproto") {
        Some(IndexerKind::TextProto)
    } else {
        None
    }
}

/// What an indexer's languages are called where they are chosen.
pub open spec fn kind_label(k: IndexerKind) -> Seq<char> {
    match k {
        IndexerKind::Cxx => "cxx"@,
        IndexerKind::JavaSource => "java"@,
        IndexerKind::JvmBytecode => "jvm"@,
        IndexerKind::Go => "go"@,
        IndexerKind::Proto => "proto"@,
        IndexerKind::TextProto => "textproto"@,
    }
}

/// What an indexer's languages are called where they are chosen.
pub fn lang_label(k: IndexerKind) -> (r: &'static str)
    ensures
        r@ == kind_label(k),
{
    match k {
        IndexerKind::Cxx => "cxx",
        IndexerKind::JavaSource => "java",
        IndexerKind::JvmBytecode => "jvm",
        IndexerKind::Go => "go",
        IndexerKind::Proto => "proto",
        IndexerKind::TextProto => "textproto",
    }
}

/// The languages that a list names, between commas.
pub open spec fn chosen(langs: Seq<char>) -> Seq<Seq<char>> {
    split(langs, Class::Only(',')).map_values(|s: Seq<char>| trim(s))
}

/// The languages that a list names.
pub fn chosen_langs(langs: &str) -> (r: Vec<String>)
    ensures
        texts(r@) == chosen(langs@),
{
    let pieces = split_at(langs, Class::Only(','));
    let ghost all = chosen(langs@);
    let mut r: Vec<String> = Vec::new();
    let mut i: usize = 0;
    proof {
        assert(texts(r@) =~= all.take(0));
    }
    while i < pieces.len()
        invariant
            i <= pieces@.len(),
            texts(pieces@) == split(langs@, Class::Only(',')),
            all == chosen(langs@),
            texts(r@) == all.take(i as int),
        decreases pieces@.len() - i,
    {
        let t = trimmed(pieces[i].as_str());
        proof {
            assert(texts(pieces@)[i as int] == pieces@[i as int]@);
            assert(all.take(i + 1) =~= all.take(i as int).push(t@));
            lemma_texts_push(r@, t);
        }
        r.push(t);
        i += 1;
    }
    proof {
        assert(all.take(all.len() as int) =~= all);
    }
    r
}

// -------------------------------------------------------------- arguments

/// A rule for units whose primary path starts with `path_prefix`: `arg` goes
/// before their compiler's arguments.
#[derive(Debug)]
pub struct InjectRule {
    pub path_prefix: String,
    pub arg: String,
}

impl Clone for InjectRule {
    fn clone(&self) -> (r: Self)
        ensures
            r == *self,
    {
        InjectRule { path_prefix: self.path_prefix.clone(), arg: self.arg.clone() }
    }
}

/// What is wrong with a rule.
#[derive(Clone, Copy, Debug, PartialEq, Eq, Structural)]
pub enum InjectFault {
    /// It has no `::`.
    NoSeparator,
    /// Nothing stands before the `::`.
    NoPrefix,
    /// Nothing stands behind the `::`.
    NoArg,
}

/// A rule that could not be read, and what is wrong with it.
#[derive(Debug)]
pub struct InjectError {
    pub rule: String,
    pub fault: InjectFault,
}

/// What a rule says: its prefix, and its argument behind the first `::`.
pub open spec fn rule_of(raw: Seq<char>) -> Result<(Seq<char>, Seq<char>), InjectFault> {
    match find_from(raw, "::"@, 0) {
        None => Err(InjectFault::NoSeparator),
        Some(at) => if at == 0 {
            Err(InjectFault::NoPrefix)
        } else if at + 2 >= raw.len() {
            Err(InjectFault::NoArg)
        } else {
            Ok((raw.take(at), raw.skip(at + 2)))
        },
    }
}

/// What a list of rules says, each its prefix and its argument.
pub open spec fn rule_views(rules: Seq<InjectRule>) -> Seq<(Seq<char>, Seq<char>)> {
    rules.map_values(|r: InjectRule| (r.path_prefix@, r.arg@))
}

fn parse_rule(raw: &str) -> (r: Result<InjectRule, InjectFault>)
    ensures
        r matches Ok(rule) ==> rule_of(raw@) == Ok::<(Seq<char>, Seq<char>), InjectFault>(
            (rule.path_prefix@, rule.arg@),
        ),
        r matches Err(e) ==> rule_of(raw@) == Err::<(Seq<char>, Seq<char>), InjectFault>(e),
{
    let c = chars_of(raw);
    let mark = chars_of("::");
    let size: usize = c.len();
    proof {
        reveal_strlit("::");
        lemma_find(raw@, "::"@, 0);
    }
    let at: usize = match find_chars(c.as_slice(), mark.as_slice(), 0) {
        Some(at) => at,
        None => return Err(InjectFault::NoSeparator),
    };
    proof {
        assert(at + 2 <= size);
    }
    if at == 0 {
        return Err(InjectFault::NoPrefix);
    }
    if at + 2 >= size {
        return Err(InjectFault::NoArg);
    }
    let path_prefix = string_of(c.as_slice(), 0, at);
    let arg = string_of(c.as_slice(), at + 2, size);
    proof {
        assert(path_prefix@ =~= raw@.take(at as int));
        assert(arg@ =~= raw@.skip(at + 2));
    }
    Ok(InjectRule { path_prefix, arg })
}

/// The rule at `k` is the first that cannot be read.
pub open spec fn first_bad_rule(raw: Seq<Seq<char>>, k: int) -> bool {
    &&& 0 <= k < raw.len()
    &&& rule_of(raw[k]) is Err
    &&& forall|j: int| 0 <= j < k ==> rule_of(#[trigger] raw[j]) is Ok
}

/// Reads rules of the form `PREFIX::ARG`. The first that cannot be read is an
/// error.
pub fn parse_inject_rules(raw: &[String]) -> (r: Result<Vec<InjectRule>, InjectError>)
    ensures
        r matches Ok(rules) ==> {
            &&& rules@.len() == raw@.len()
            &&& forall|i: int|
                0 <= i < raw@.len() ==> rule_of((#[trigger] raw@[i])@) == Ok::<
                    (Seq<char>, Seq<char>),
                    InjectFault,
                >(rule_views(rules@)[i])
        },
        r matches Err(e) ==> exists|k: int|
            #![trigger raw@[k]]
            first_bad_rule(texts(raw@), k) && e.rule@ == raw@[k]@ && rule_of(raw@[k]@) == Err::<
                (Seq<char>, Seq<char>),
                InjectFault,
            >(e.fault),
{
    let mut out: Vec<InjectRule> = Vec::new();
    let mut i: usize = 0;
    while i < raw.len()
        invariant
            i <= raw@.len(),
            out@.len() == i,
            forall|j: int|
                0 <= j < i ==> rule_of((#[trigger] raw@[j])@) == Ok::<
                    (Seq<char>, Seq<char>),
                    InjectFault,
                >(rule_views(out@)[j]),
        decreases raw@.len() - i,
    {
        let rule = match parse_rule(raw[i].as_str()) {
            Ok(rule) => rule,
            Err(fault) => {
                proof {
                    let all = texts(raw@);
                    assert(all[i as int] == raw@[i as int]@);
                    assert forall|j: int| 0 <= j < i implies rule_of(#[trigger] all[j]) is Ok by {
                        assert(all[j] == raw@[j]@);
                    }
                    assert(first_bad_rule(all, i as int));
                }
                return Err(InjectError { rule: raw[i].clone(), fault });
            },
        };
        let ghost was = out@;
        out.push(rule);
        proof {
            assert(rule_views(out@) =~= rule_views(was).push((rule.path_prefix@, rule.arg@)));
        }
        i += 1;
    }
    Ok(out)
}

/// The arguments of the rules for this path, in order.
pub open spec fn matching_args(
    rules: Seq<(Seq<char>, Seq<char>)>,
    path: Seq<char>,
) -> Seq<Seq<char>>
    decreases rules.len(),
{
    if rules.len() == 0 {
        seq![]
    } else if rules.last().0.is_prefix_of(path) {
        matching_args(rules.drop_last(), path).push(rules.last().1)
    } else {
        matching_args(rules.drop_last(), path)
    }
}

/// An argument that names a sampling profile, which only code generation needs
/// and no archive holds.
pub open spec fn profile_flag(arg: Seq<char>) -> bool {
    "-fprofile-sample-use"@.is_prefix_of(arg)
}

/// The arguments without those that name a profile.
pub open spec fn without_profiles(args: Seq<Seq<char>>) -> Seq<Seq<char>>
    decreases args.len(),
{
    if args.len() == 0 {
        seq![]
    } else if profile_flag(args.last()) {
        without_profiles(args.drop_last())
    } else {
        without_profiles(args.drop_last()).push(args.last())
    }
}

/// The arguments with others before them, in their order; one that is there
/// already is not added again.
pub open spec fn with_args_before(args: Seq<Seq<char>>, more: Seq<Seq<char>>) -> Seq<Seq<char>>
    decreases more.len(),
{
    if more.len() == 0 {
        args
    } else if args.contains(more.last()) {
        with_args_before(args, more.drop_last())
    } else {
        with_args_before(seq![more.last()] + args, more.drop_last())
    }
}

/// The arguments that a unit is indexed with.
pub open spec fn index_args(
    args: Seq<Seq<char>>,
    rules: Seq<(Seq<char>, Seq<char>)>,
    path: Seq<char>,
) -> Seq<Seq<char>> {
    with_args_before(without_profiles(args), matching_args(rules, path))
}

fn find_matching(rules: &Vec<InjectRule>, path: &str) -> (r: Vec<String>)
    ensures
        texts(r@) == matching_args(rule_views(rules@), path@),
{
    let ghost all = rule_views(rules@);
    let mut r: Vec<String> = Vec::new();
    let mut i: usize = 0;
    proof {
        assert(texts(r@) =~= matching_args(all.take(0), path@));
    }
    while i < rules.len()
        invariant
            i <= rules@.len(),
            all == rule_views(rules@),
            texts(r@) == matching_args(all.take(i as int), path@),
        decreases rules@.len() - i,
    {
        let rule = &rules[i];
        proof {
            assert(all.take(i + 1).drop_last() =~= all.take(i as int));
            assert(all.take(i + 1).last() == (rule.path_prefix@, rule.arg@));
        }
        if starts_with(path, rule.path_prefix.as_str()) {
            let a = rule.arg.clone();
            proof {
                lemma_texts_push(r@, a);
            }
            r.push(a);
        }
        i += 1;
    }
    proof {
        assert(all.take(all.len() as int) =~= all);
    }
    r
}

fn drop_profiles(args: &Vec<String>) -> (r: Vec<String>)
    ensures
        texts(r@) == without_profiles(texts(args@)),
{
    let ghost all = texts(args@);
    let mut r: Vec<String> = Vec::new();
    let mut i: usize = 0;
    proof {
        assert(texts(r@) =~= without_profiles(all.take(0)));
    }
    while i < args.len()
        invariant
            i <= args@.len(),
            all == texts(args@),
            texts(r@) == without_profiles(all.take(i as int)),
        decreases args@.len() - i,
    {
        proof {
            assert(all.take(i + 1).drop_last() =~= all.take(i as int));
            assert(all.take(i + 1).last() == args@[i as int]@);
        }
        if !starts_with(args[i].as_str(), "-fprofile-sample-use") {
            let a = args[i].clone();
            proof {
                lemma_texts_push(r@, a);
            }
            r.push(a);
        }
        i += 1;
    }
    proof {
        assert(all.take(all.len() as int) =~= all);
    }
    r
}

/// The unit as it is indexed: its arguments are changed by the rules for its
/// primary path, and nothing else.
pub open spec fn prepared(
    c: CompilationUnitView,
    rules: Seq<(Seq<char>, Seq<char>)>,
) -> CompilationUnitView {
    CompilationUnitView { argument: index_args(c.argument, rules, filter_path(c)), ..c }
}

/// Changes a unit for indexing: drops arguments that name a profile, and puts
/// those of the rules for its primary path first.
pub fn prepare_unit(unit: &Unit, rules: &Vec<InjectRule>) -> (r: CompilationUnit)
    ensures
        r@ == prepared(unit@.cu, rule_views(rules@)),
{
    let none = String::new();
    let path: &str = match unit.primary_path() {
        Some(p) => p,
        None => none.as_str(),
    };
    proof {
        assert(none@ =~= seq![]);
        assert(path@ == filter_path(unit@.cu));
    }
    let more = find_matching(rules, path);
    let mut args = drop_profiles(&unit.cu.unit.argument);
    let ghost all = texts(more@);
    let ghost goal = with_args_before(texts(args@), all);
    let mut i: usize = more.len();
    proof {
        assert(all.take(all.len() as int) =~= all);
    }
    while i > 0
        invariant
            i <= more@.len(),
            all == texts(more@),
            with_args_before(texts(args@), all.take(i as int)) == goal,
        decreases i,
    {
        i -= 1;
        proof {
            assert(all.take(i + 1).drop_last() =~= all.take(i as int));
            assert(all.take(i + 1).last() == more@[i as int]@);
        }
        if !holds_text(&args, more[i].as_str()) {
            let ghost was = args@;
            args.insert(0, more[i].clone());
            proof {
                assert(texts(args@) =~= seq![more@[i as int]@] + texts(was));
            }
        }
    }
    proof {
        assert(all.take(0) =~= seq![]);
    }
    let mut cu = unit.cu.unit.clone();
    cu.argument = args;
    cu
}

/// The arguments of the rules are all there; the other arguments follow each
/// other as before, at the end; and those that name a profile are gone.
pub proof fn lemma_index_args(
    args: Seq<Seq<char>>,
    rules: Seq<(Seq<char>, Seq<char>)>,
    path: Seq<char>,
)
    ensures
        without_profiles(args).is_suffix_of(index_args(args, rules, path)),
        forall|k: int|
            0 <= k < matching_args(rules, path).len() ==> index_args(args, rules, path).contains(
                #[trigger] matching_args(rules, path)[k],
            ),
        forall|k: int|
            0 <= k < without_profiles(args).len() ==> !profile_flag(
                #[trigger] without_profiles(args)[k],
            ),
{
    lemma_args_before(without_profiles(args), matching_args(rules, path));
    lemma_no_profiles(args);
}

proof fn lemma_no_profiles(args: Seq<Seq<char>>)
    ensures
        forall|k: int|
            0 <= k < without_profiles(args).len() ==> !profile_flag(
                #[trigger] without_profiles(args)[k],
            ),
    decreases args.len(),
{
    if args.len() > 0 {
        let front = args.drop_last();
        lemma_no_profiles(front);
        assert forall|k: int| 0 <= k < without_profiles(args).len() implies !profile_flag(
            #[trigger] without_profiles(args)[k],
        ) by {
            if k < without_profiles(front).len() {
                assert(without_profiles(args)[k] == without_profiles(front)[k]);
            }
        }
    }
}

proof fn lemma_args_before(args: Seq<Seq<char>>, more: Seq<Seq<char>>)
    ensures
        args.is_suffix_of(with_args_before(args, more)),
        forall|a: Seq<char>|
            args.contains(a) ==> #[trigger] with_args_before(args, more).contains(a),
        forall|k: int|
            0 <= k < more.len() ==> with_args_before(args, more).contains(#[trigger] more[k]),
    decreases more.len(),
{
    let r = with_args_before(args, more);
    if more.len() == 0 {
        assert(args.subrange(0, args.len() as int) =~= args);
    } else {
        let front = more.drop_last();
        let last = more.last();
        let next = if args.contains(last) {
            args
        } else {
            seq![last] + args
        };
        lemma_args_before(next, front);
        assert(next.contains(last)) by {
            if !args.contains(last) {
                assert(next[0] == last);
            }
        }
        assert forall|a: Seq<char>| args.contains(a) implies #[trigger] r.contains(a) by {
            let i = args.index_of(a);
            if !args.contains(last) {
                assert(next[i + 1] == a);
            }
            assert(next.contains(a));
        }
        assert forall|k: int| 0 <= k < more.len() implies r.contains(#[trigger] more[k]) by {
            if k < front.len() {
                assert(front[k] == more[k]);
            }
        }
        assert(args.is_suffix_of(r)) by {
            let n = r.len() - args.len();
            let m = r.len() - next.len();
            assert(r.subrange(m, r.len() as int) =~= next);
            assert forall|i: int| 0 <= i < args.len() implies r.subrange(n, r.len() as int)[i]
                == args[i] by {
                assert(r[n + i] == next[n - m + i]);
                assert(r.subrange(m, r.len() as int)[n - m + i] == next[n - m + i]);
            }
            assert(r.subrange(n, r.len() as int) =~= args);
        }
    }
}

// ------------------------------------------------------------------- plan

/// A unit that is to be indexed: where it stands among the units, and by which
/// indexer.
#[derive(Clone, Copy, Debug, PartialEq, Eq, Structural)]
pub struct PlanItem {
    pub unit: usize,
    pub kind: IndexerKind,
}

/// What is to be done with a unit.
#[derive(Clone, Copy, Debug, PartialEq, Eq, Structural)]
pub enum Verdict {
    /// No indexer for its language, or its language was not chosen.
    WrongLanguage,
    /// The filter does not take its path.
    WrongPath,
    /// It is indexed.
    Index(IndexerKind),
}

/// What is to be done with a unit: its language comes before its path.
pub open spec fn verdict_of(
    c: CompilationUnitView,
    langs: Seq<Seq<char>>,
    filter: &PathFilter,
) -> Verdict {
    match route(lowercase(c.v_name.language)) {
        None => Verdict::WrongLanguage,
        Some(kind) => if !langs.contains(kind_label(kind)) {
            Verdict::WrongLanguage
        } else if !filter.accepts(filter_path(c)) {
            Verdict::WrongPath
        } else {
            Verdict::Index(kind)
        },
    }
}

/// What is to be done with a unit.
pub fn judge_unit(unit: &Unit, langs: &Vec<String>, filter: &PathFilter) -> (r: Verdict)
    ensures
        r == verdict_of(unit@.cu, texts(langs@), filter),
{
    let kind = match route_language(unit.language().as_str()) {
        Some(k) => k,
        None => return Verdict::WrongLanguage,
    };
    if !holds_text(langs, lang_label(kind)) {
        return Verdict::WrongLanguage;
    }
    let none = String::new();
    proof {
        assert(none@ =~= seq![]);
    }
    let path: &str = match unit.primary_path() {
        Some(p) => p,
        None => none.as_str(),
    };
    if !filter.accept(path) {
        return Verdict::WrongPath;
    }
    Verdict::Index(kind)
}

/// The units that are to be indexed, in order.
pub open spec fn planned(
    units: Seq<UnitView>,
    langs: Seq<Seq<char>>,
    filter: &PathFilter,
) -> Seq<PlanItem>
    decreases units.len(),
{
    if units.len() == 0 {
        seq![]
    } else {
        let front = planned(units.drop_last(), langs, filter);
        match verdict_of(units.last().cu, langs, filter) {
            Verdict::Index(kind) => front.push(
                PlanItem { unit: (units.len() - 1) as usize, kind },
            ),
            _ => front,
        }
    }
}

/// How many units have this verdict.
pub open spec fn verdict_count(
    units: Seq<UnitView>,
    langs: Seq<Seq<char>>,
    filter: &PathFilter,
    v: Verdict,
) -> nat
    decreases units.len(),
{
    if units.len() == 0 {
        0
    } else {
        verdict_count(units.drop_last(), langs, filter, v) + (if verdict_of(
            units.last().cu,
            langs,
            filter,
        ) == v {
            1nat
        } else {
            0
        })
    }
}

/// What is to be indexed, and how many units are not.
#[derive(Debug)]
pub struct Plan {
    pub items: Vec<PlanItem>,
    pub skipped_lang: usize,
    pub skipped_path: usize,
}

/// Plans which units are indexed.
pub fn make_plan(units: &Vec<Unit>, langs: &Vec<String>, filter: &PathFilter) -> (r: Plan)
    ensures
        r.items@ == planned(unit_views(units@), texts(langs@), filter),
        r.skipped_lang == verdict_count(
            unit_views(units@),
            texts(langs@),
            filter,
            Verdict::WrongLanguage,
        ),
        r.skipped_path == verdict_count(
            unit_views(units@),
            texts(langs@),
            filter,
            Verdict::WrongPath,
        ),
        r.items@.len() + r.skipped_lang + r.skipped_path == units@.len(),
{
    let ghost all = unit_views(units@);
    let mut items: Vec<PlanItem> = Vec::new();
    let mut skipped_lang: usize = 0;
    let mut skipped_path: usize = 0;
    let mut i: usize = 0;
    while i < units.len()
        invariant
            i <= units@.len(),
            all == unit_views(units@),
            items@ == planned(all.take(i as int), texts(langs@), filter),
            skipped_lang == verdict_count(
                all.take(i as int),
                texts(langs@),
                filter,
                Verdict::WrongLanguage,
            ),
            skipped_path == verdict_count(
                all.take(i as int),
                texts(langs@),
                filter,
                Verdict::WrongPath,
            ),
            items@.len() + skipped_lang + skipped_path == i,
        decreases units@.len() - i,
    {
        proof {
            assert(all.take(i + 1).drop_last() =~= all.take(i as int));
            assert(all.take(i + 1).last() == units@[i as int]@);
        }
        match judge_unit(&units[i], langs, filter) {
            Verdict::WrongLanguage => {
                skipped_lang += 1;
            },
            Verdict::WrongPath => {
                skipped_path += 1;
            },
            Verdict::Index(kind) => {
                items.push(PlanItem { unit: i, kind });
            },
        }
        i += 1;
    }
    proof {
        assert(all.take(all.len() as int) =~= all);
    }
    Plan { items, skipped_lang, skipped_path }
}

/// The units of a plan are to be indexed, and stand in it in the archive's
/// order, each once.
pub proof fn lemma_planned(
    units: Seq<UnitView>,
    langs: Seq<Seq<char>>,
    filter: &PathFilter,
    k: int,
    l: int,
)
    requires
        units.len() <= usize::MAX,
        0 <= k < l <= planned(units, langs, filter).len(),
    ensures
        planned(units, langs, filter)[k].unit < units.len(),
        verdict_of(
            units[planned(units, langs, filter)[k].unit as int].cu,
            langs,
            filter,
        ) == Verdict::Index(planned(units, langs, filter)[k].kind),
        l < planned(units, langs, filter).len() ==> planned(units, langs, filter)[k].unit
            < planned(units, langs, filter)[l].unit,
    decreases units.len(),
{
    let front = units.drop_last();
    let before = planned(front, langs, filter);
    if k < before.len() {
        let end = if l <= before.len() {
            l
        } else {
            before.len() as int
        };
        lemma_planned(front, langs, filter, k, end);
        assert(planned(units, langs, filter)[k] == before[k]);
        assert(front[before[k].unit as int] == units[before[k].unit as int]);
    }
}

/// Every unit that is to be indexed is in the plan.
pub proof fn lemma_planned_all(
    units: Seq<UnitView>,
    langs: Seq<Seq<char>>,
    filter: &PathFilter,
    i: int,
    kind: IndexerKind,
)
    requires
        units.len() <= usize::MAX,
        0 <= i < units.len(),
        verdict_of(units[i].cu, langs, filter) == Verdict::Index(kind),
    ensures
        planned(units, langs, filter).contains(PlanItem { unit: i as usize, kind }),
    decreases units.len(),
{
    let item = PlanItem { unit: i as usize, kind };
    let front = units.drop_last();
    let before = planned(front, langs, filter);
    let now = planned(units, langs, filter);
    if i < front.len() {
        assert(front[i] == units[i]);
        lemma_planned_all(front, langs, filter, i, kind);
        let k = before.index_of(item);
        assert(now[k] == item);
    } else {
        assert(now[now.len() - 1] == item);
    }
}

/// The items that are not done yet.
pub open spec fn not_done(items: Seq<PlanItem>, done: Seq<bool>) -> Seq<PlanItem>
    decreases items.len(),
{
    if items.len() == 0 {
        seq![]
    } else if done[items.len() - 1] {
        not_done(items.drop_last(), done)
    } else {
        not_done(items.drop_last(), done).push(items.last())
    }
}

/// Drops the items that are done already.
pub fn drop_done(items: &Vec<PlanItem>, done: &Vec<bool>) -> (r: Vec<PlanItem>)
    requires
        items@.len() == done@.len(),
    ensures
        r@ == not_done(items@, done@),
        r@.len() <= items@.len(),
{
    let mut r: Vec<PlanItem> = Vec::new();
    let mut i: usize = 0;
    while i < items.len()
        invariant
            i <= items@.len() == done@.len(),
            r@ == not_done(items@.take(i as int), done@),
            r@.len() <= i,
        decreases items@.len() - i,
    {
        proof {
            assert(items@.take(i + 1).drop_last() =~= items@.take(i as int));
        }
        if !done[i] {
            r.push(items[i]);
        }
        i += 1;
    }
    proof {
        assert(items@.take(items@.len() as int) =~= items@);
    }
    r
}

// ---------------------------------------------------------------- workers

/// What the worker `w` of `workers` does: every `workers`-th item, from the
/// `w`-th on.
pub fn worker_share(total: usize, workers: usize, w: usize) -> (r: Vec<usize>)
    requires
        w < workers,
    ensures
        forall|k: int| 0 <= k < r@.len() ==> #[trigger] r@[k] == w + k * workers,
        forall|k: int| 0 <= k < r@.len() ==> #[trigger] r@[k] < total,
        w + r@.len() * workers >= total,
{
    let mut r: Vec<usize> = Vec::new();
    let mut i: usize = w;
    proof {
        assert(0 * workers == 0) by (nonlinear_arith);
    }
    while i < total
        invariant
            w < workers,
            i == w + r@.len() * workers,
            forall|k: int| 0 <= k < r@.len() ==> #[trigger] r@[k] == w + k * workers,
            forall|k: int| 0 <= k < r@.len() ==> #[trigger] r@[k] < total,
        decreases total - i,
    {
        let ghost n = r@.len();
        r.push(i);
        proof {
            assert((n + 1) * workers == n * workers + workers) by (nonlinear_arith);
        }
        if total - i <= workers {
            return r;
        }
        i += workers;
    }
    r
}

/// Every item is done by exactly one worker: the one with its remainder.
pub proof fn lemma_one_worker(i: int, workers: int, w: int)
    requires
        0 <= i,
        0 <= w < workers,
    ensures
        (exists|k: int| 0 <= k && i == w + #[trigger] (k * workers)) <==> i % workers == w,
{
    if i % workers == w {
        let k = i / workers;
        vstd::arithmetic::div_mod::lemma_fundamental_div_mod(i, workers);
        assert(k >= 0) by (nonlinear_arith)
            requires
                k == i / workers,
                i >= 0,
                workers > 0,
        ;
        assert(workers * k == k * workers) by (nonlinear_arith);
        assert(i == w + k * workers);
    }
    if exists|k: int| 0 <= k && i == w + #[trigger] (k * workers) {
        let k = choose|k: int| 0 <= k && i == w + #[trigger] (k * workers);
        assert(i == k * workers + w);
        vstd::arithmetic::div_mod::lemma_fundamental_div_mod_converse(i, workers, k, w);
    }
}

/// How many workers there are where it is not said: half of the processors,
/// but one at least.
pub fn worker_count(asked: usize, processors: usize) -> (r: usize)
    ensures
        r == (if asked > 0 {
            asked as int
        } else if processors >= 2 {
            processors as int / 2
        } else {
            1
        }),
        r >= 1,
{
    if asked > 0 {
        asked
    } else if processors >= 2 {
        processors / 2
    } else {
        1
    }
}

// --------------------------------------------------------------- commands

/// An argument of an indexer's command.
#[derive(Debug)]
pub enum CommandArg {
    /// This text.
    Text(String),
    /// The path of the indexer itself.
    Indexer,
    /// The path of the unit's archive, behind this text.
    Kzip(String),
    /// The path of a directory for the indexer's own use.
    TempDir,
}

/// What a [`CommandArg`] says.
pub enum CommandArgView {
    Text(Seq<char>),
    Indexer,
    Kzip(Seq<char>),
    TempDir,
}

impl View for CommandArg {
    type V = CommandArgView;

    open spec fn view(&self) -> CommandArgView {
        match self {
            CommandArg::Text(s) => CommandArgView::Text(s@),
            CommandArg::Indexer => CommandArgView::Indexer,
            CommandArg::Kzip(s) => CommandArgView::Kzip(s@),
            CommandArg::TempDir => CommandArgView::TempDir,
        }
    }
}

/// How an indexer is run.
#[derive(Debug)]
pub struct IndexerCommand {
    /// Where a release of Kythe has the indexer.
    pub indexer: String,
    /// Whether `java` runs it.
    pub java: bool,
    pub args: Vec<CommandArg>,
}

/// What each of a list of arguments says.
pub open spec fn arg_views(args: Seq<CommandArg>) -> Seq<CommandArgView> {
    args.map_values(|a: CommandArg| a@)
}

/// Where a release of Kythe has an indexer.
pub open spec fn indexer_path(kind: IndexerKind) -> Seq<char> {
    match kind {
        IndexerKind::Cxx => "indexers/cxx_indexer"@,
        IndexerKind::JavaSource => "indexers/java_indexer.jar"@,
        IndexerKind::JvmBytecode => "indexers/jvm_indexer.jar"@,
        IndexerKind::Go => "indexers/go_indexer"@,
        IndexerKind::Proto => "indexers/proto_indexer"@,
        IndexerKind::TextProto => "indexers/textproto_indexer"@,
    }
}

/// An indexer that `java` runs.
pub open spec fn runs_on_java(kind: IndexerKind) -> bool {
    kind == IndexerKind::JavaSource || kind == IndexerKind::JvmBytecode
}

/// The arguments that an indexer is run with.
pub open spec fn indexer_args(kind: IndexerKind, jvm_heap: Seq<char>) -> Seq<CommandArgView> {
    match kind {
        IndexerKind::Cxx | IndexerKind::Go => seq![CommandArgView::Kzip(seq![])],
        IndexerKind::JavaSource | IndexerKind::JvmBytecode => seq![
            CommandArgView::Text("-Xmx"@ + jvm_heap),
            CommandArgView::Text("-jar"@),
            CommandArgView::Indexer,
            CommandArgView::Text("--ignore_empty_kzip"@),
            CommandArgView::Text("--temp_directory"@),
            CommandArgView::TempDir,
            CommandArgView::Kzip(seq![]),
        ],
        IndexerKind::Proto => seq![CommandArgView::Kzip("-index_file="@)],
        IndexerKind::TextProto => seq![CommandArgView::Kzip("--index_file="@)],
    }
}

/// Whether an indexer is run by `java`, and so needs a directory of its own.
pub fn needs_java(kind: IndexerKind) -> (r: bool)
    ensures
        r == runs_on_java(kind),
{
    match kind {
        IndexerKind::JavaSource | IndexerKind::JvmBytecode => true,
        _ => false,
    }
}

/// How an indexer is run on a unit's archive.
pub fn indexer_command(kind: IndexerKind, jvm_heap: &str) -> (r: IndexerCommand)
    ensures
        r.indexer@ == indexer_path(kind),
        r.java == runs_on_java(kind),
        arg_views(r.args@) == indexer_args(kind, jvm_heap@),
{
    let mut args: Vec<CommandArg> = Vec::new();
    let indexer: &str = match kind {
        IndexerKind::Cxx => "indexers/cxx_indexer",
        IndexerKind::JavaSource => "indexers/java_indexer.jar",
        IndexerKind::JvmBytecode => "indexers/jvm_indexer.jar",
        IndexerKind::Go => "indexers/go_indexer",
        IndexerKind::Proto => "indexers/proto_indexer",
        IndexerKind::TextProto => "indexers/textproto_indexer",
    };
    let none = String::new();
    proof {
        assert(none@ =~= seq![]);
    }
    match kind {
        IndexerKind::Cxx | IndexerKind::Go => {
            args.push(CommandArg::Kzip(none));
        },
        IndexerKind::JavaSource | IndexerKind::JvmBytecode => {
            let mut heap: String = "-Xmx".to_string();
            heap.append(jvm_heap);
            args.push(CommandArg::Text(heap));
            args.push(CommandArg::Text("-jar".to_string()));
            args.push(CommandArg::Indexer);
            args.push(CommandArg::Text("--ignore_empty_kzip".to_string()));
            args.push(CommandArg::Text("--temp_directory".to_string()));
            args.push(CommandArg::TempDir);
            args.push(CommandArg::Kzip(none));
        },
        IndexerKind::Proto => {
            args.push(CommandArg::Kzip("-index_file=".to_string()));
        },
        IndexerKind::TextProto => {
            args.push(CommandArg::Kzip("--index_file=".to_string()));
        },
    }
    proof {
        assert(arg_views(args@) =~= indexer_args(kind, jvm_heap@));
    }
    IndexerCommand { indexer: indexer.to_string(), java: needs_java(kind), args }
}

// --------------------------------------------------------------- outcomes

/// How many messages of failures are kept for a language.
pub const MAX_FAIL_TAILS: usize = 8;

/// How many bytes of an indexer's errors are kept.
pub const STDERR_TAIL_BYTES: usize = 4096;

/// The last `cap` items.
pub open spec fn last_of<T>(s: Seq<T>, cap: nat) -> Seq<T> {
    if s.len() > cap {
        s.skip(s.len() - cap)
    } else {
        s
    }
}

/// Appends what was read to what was kept, and keeps the last `cap` bytes.
pub fn keep_tail(kept: &mut Vec<u8>, read: &[u8], cap: usize)
    ensures
        final(kept)@ == last_of(old(kept)@ + read@, cap as nat),
{
    let ghost all = kept@ + read@;
    kept.extend_from_slice(read);
    proof {
        assert(kept@ =~= all);
    }
    if kept.len() > cap {
        let cut: usize = kept.len() - cap;
        let tail = kept.split_off(cut);
        proof {
            assert(tail@ =~= all.skip(cut as int));
        }
        *kept = tail;
    }
}

/// Keeping the last bytes piece by piece keeps the last bytes of it all.
pub proof fn lemma_keep_tail<T>(a: Seq<T>, b: Seq<T>, cap: nat)
    ensures
        last_of(last_of(a, cap) + b, cap) == last_of(a + b, cap),
{
    assert(last_of(last_of(a, cap) + b, cap) =~= last_of(a + b, cap));
}

/// What is shown of an indexer's errors: the last two lines, the last one
/// first.
pub open spec fn error_snippet(tail: Seq<char>) -> Seq<char> {
    let l = lines(tail);
    if l.len() == 0 {
        seq![]
    } else if l.len() == 1 {
        l[0]
    } else {
        l[l.len() - 1] + " | "@ + l[l.len() - 2]
    }
}

/// What is shown of the errors in these bytes.
pub fn snippet(tail: &[u8]) -> (r: String)
    ensures
        r@ == error_snippet(lossy_chars(tail@)),
{
    let text = lossy_string(tail);
    let l = lines_of(text.as_str());
    let ghost all = lines(text@);
    proof {
        assert(texts(l@).len() == l@.len());
    }
    if l.len() == 0 {
        let r = String::new();
        proof {
            assert(r@ =~= error_snippet(text@));
        }
        return r;
    }
    let last: usize = l.len() - 1;
    let mut r: String = l[last].clone();
    proof {
        assert(all[last as int] == l@[last as int]@);
    }
    if last > 0 {
        proof {
            assert(all[last - 1] == l@[last - 1]@);
        }
        r.append(" | ");
        r.append(l[last - 1].as_str());
    }
    r
}

/// What came of indexing a unit.
#[derive(Debug)]
pub enum Outcome {
    /// It failed, with this message.
    Failed(String),
    /// It wrote nothing.
    Empty,
    /// It wrote this many bytes.
    Wrote(u64),
}

/// What came of running an indexer: it failed, or it wrote this many bytes.
pub fn outcome_of(ok: bool, bytes: u64, message: String) -> (r: Outcome)
    ensures
        !ok ==> r == Outcome::Failed(message),
        ok && bytes == 0 ==> r is Empty,
        ok && bytes > 0 ==> r == Outcome::Wrote(bytes),
{
    if !ok {
        Outcome::Failed(message)
    } else if bytes == 0 {
        Outcome::Empty
    } else {
        Outcome::Wrote(bytes)
    }
}

/// What came of indexing the units of a language.
#[derive(Debug)]
pub struct LangStats {
    pub cus: usize,
    pub succeeded: usize,
    pub empty: usize,
    pub failed: usize,
    pub bytes: u64,
    /// The messages of the first failures.
    pub fail_tails: Vec<String>,
}

impl LangStats {
    /// Every unit is counted under one outcome, and the messages are those of
    /// the first failures.
    pub open spec fn wf(&self) -> bool {
        &&& self.cus == self.succeeded + self.empty + self.failed
        &&& self.fail_tails@.len() == (if self.failed <= MAX_FAIL_TAILS {
            self.failed as int
        } else {
            MAX_FAIL_TAILS as int
        })
    }

    /// Counts what came of one more unit.
    pub fn record(&mut self, outcome: Outcome)
        requires
            old(self).wf(),
            old(self).cus < usize::MAX,
            outcome matches Outcome::Wrote(n) ==> old(self).bytes + n <= u64::MAX,
        ensures
            final(self).wf(),
            final(self).cus == old(self).cus + 1,
            match outcome {
                Outcome::Failed(message) => {
                    &&& final(self).failed == old(self).failed + 1
                    &&& final(self).succeeded == old(self).succeeded
                    &&& final(self).empty == old(self).empty
                    &&& final(self).bytes == old(self).bytes
                    &&& final(self).fail_tails@ == (if old(self).failed < MAX_FAIL_TAILS {
                        old(self).fail_tails@.push(message)
                    } else {
                        old(self).fail_tails@
                    })
                },
                Outcome::Empty => {
                    &&& final(self).failed == old(self).failed
                    &&& final(self).succeeded == old(self).succeeded
                    &&& final(self).empty == old(self).empty + 1
                    &&& final(self).bytes == old(self).bytes
                    &&& final(self).fail_tails@ == old(self).fail_tails@
                },
                Outcome::Wrote(n) => {
                    &&& final(self).failed == old(self).failed
                    &&& final(self).succeeded == old(self).succeeded + 1
                    &&& final(self).empty == old(self).empty
                    &&& final(self).bytes == old(self).bytes + n
                    &&& final(self).fail_tails@ == old(self).fail_tails@
                },
            },
    {
        self.cus += 1;
        match outcome {
            Outcome::Failed(message) => {
                self.failed += 1;
                if self.fail_tails.len() < MAX_FAIL_TAILS {
                    self.fail_tails.push(message);
                }
            },
            Outcome::Empty => {
                self.empty += 1;
            },
            Outcome::Wrote(n) => {
                self.succeeded += 1;
                self.bytes += n;
            },
        }
    }
}

impl Default for LangStats {
    fn default() -> (r: Self)
        ensures
            r.wf(),
            r.cus == 0 && r.succeeded == 0 && r.empty == 0 && r.failed == 0 && r.bytes == 0,
    {
        LangStats {
            cus: 0,
            succeeded: 0,
            empty: 0,
            failed: 0,
            bytes: 0,
            fail_tails: Vec::new(),
        }
    }
}

/// Whether the count of units done is worth a line: every two hundredth, and
/// the last one.
pub fn report_due(done: usize, total: usize) -> (r: bool)
    ensures
        r == (done % 200 == 0 || done == total),
{
    done % 200 == 0 || done == total
}

/// The file that a unit's entries are written to.
pub fn entries_file(sha: &str) -> (r: String)
    ensures
        r@ == sha@ + ".entries"@,
{
    let mut r: String = sha.to_string();
    r.append(".entries");
    r
}

// ------------------------------------------------------------------- laws

/// Which languages go to which indexer: these seven words and no other.
pub proof fn lemma_route_is(lang: Seq<char>)
    ensures
        route(lang) == Some(IndexerKind::Cxx) <==> lang == "c++"@,
        route(lang) == Some(IndexerKind::JavaSource) <==> lang == "java"@,
        route(lang) == Some(IndexerKind::JvmBytecode) <==> lang == "jvm"@,
        route(lang) == Some(IndexerKind::Go) <==> lang == "go"@,
        route(lang) == Some(IndexerKind::Proto) <==> lang == "protobuf"@ || lang == "proto"@,
        route(lang) == Some(IndexerKind::TextProto) <==> lang == "textproto"@,
{
    reveal_strlit("c++");
    reveal_strlit("java");
    reveal_strlit("jvm");
    reveal_strlit("go");
    reveal_strlit("protobuf");
    reveal_strlit("proto");
    reveal_strlit("textproto");
    assert("c++"@[0] == 'c' && "java"@[0] == 'j' && "jvm"@[0] == 'j' && "go"@[0] == 'g');
    assert("protobuf"@[0] == 'p' && "proto"@[0] == 'p' && "textproto"@[0] == 't');
    assert("java"@.len() == 4 && "jvm"@.len() == 3);
}

/// The words by which languages are chosen tell the indexers apart, and an
/// indexer whose word is a language's own name is the one for that language.
pub proof fn lemma_labels_are(a: IndexerKind, b: IndexerKind)
    ensures
        kind_label(a) == kind_label(b) <==> a == b,
        a != IndexerKind::Cxx ==> route(kind_label(a)) == Some(a),
        kind_label(IndexerKind::Cxx) == "cxx"@,
        kind_label(IndexerKind::Proto) == "proto"@,
{
    lemma_route_is(kind_label(a));
    lemma_route_is(kind_label(b));
    reveal_strlit("cxx");
    reveal_strlit("c++");
    reveal_strlit("java");
    reveal_strlit("jvm");
    reveal_strlit("go");
    reveal_strlit("proto");
    reveal_strlit("textproto");
    reveal_strlit("protobuf");
    assert("cxx"@[1] == 'x' && "c++"@[1] == '+');
    assert("cxx"@[0] == 'c' && "java"@[0] == 'j' && "jvm"@[0] == 'j' && "go"@[0] == 'g'
        && "proto"@[0] == 'p' && "textproto"@[0] == 't');
    assert("proto"@.len() == 5 && "protobuf"@.len() == 8);
}

/// The languages between commas: what stands behind the last comma, without
/// the white space round it, is the last one, and what stands before it names
/// the others.
pub proof fn lemma_chosen_is(front: Seq<char>, last: Seq<char>)
    requires
        !last.contains(','),
    ensures
        chosen(last) == seq![trim(last)],
        chosen(front + seq![','] + last) == chosen(front).push(trim(last)),
{
    let class = Class::Only(',');
    let none = Seq::<char>::empty();
    assert forall|i: int| 0 <= i < last.len() implies !class.holds(#[trigger] last[i]) by {
        assert(last.contains(last[i]));
    }
    lemma_split_push_text(none, last, class);
    assert(none + last =~= last);
    assert(split(none, class) =~= seq![none]);
    assert(seq![none].drop_last() =~= seq![]);
    assert(chosen(last) =~= seq![trim(last)]);
    let mid = front + seq![','];
    assert(mid.drop_last() =~= front);
    assert(split(mid, class) == split(front, class).push(none));
    lemma_split_push_text(mid, last, class);
    assert(split(mid, class).drop_last() =~= split(front, class));
    assert(chosen(mid + last) =~= chosen(front).push(trim(last)));
}

/// What a rule says: the two colons that come first part the prefix from the
/// argument, and both have to be there.
pub proof fn lemma_rule_is(raw: Seq<char>, at: int)
    requires
        0 <= at,
        forall|j: int|
            0 <= j < at && j + 1 < raw.len() ==> !(#[trigger] raw[j] == ':' && raw[j + 1] == ':'),
    ensures
        at + 1 >= raw.len() ==> rule_of(raw) == Err::<(Seq<char>, Seq<char>), InjectFault>(
            InjectFault::NoSeparator,
        ),
        at + 1 < raw.len() && raw[at] == ':' && raw[at + 1] == ':' ==> rule_of(raw) == (if at
            == 0 {
            Err(InjectFault::NoPrefix)
        } else if at + 2 == raw.len() {
            Err(InjectFault::NoArg)
        } else {
            Ok((raw.subrange(0, at), raw.subrange(at + 2, raw.len() as int)))
        }),
{
    reveal_strlit("::");
    let mark = "::"@;
    assert forall|j: int| 0 <= j < at implies !occurs_at(raw, mark, j) by {
        if occurs_at(raw, mark, j) {
            assert(raw.subrange(j, j + 2)[0] == ':' && raw.subrange(j, j + 2)[1] == ':');
            assert(raw[j] == ':' && raw[j + 1] == ':');
        }
    }
    lemma_find(raw, mark, 0);
    if at + 1 < raw.len() && raw[at] == ':' && raw[at + 1] == ':' {
        assert(raw.subrange(at, at + 2) =~= mark);
        assert(occurs_at(raw, mark, at));
        assert(raw.take(at) =~= raw.subrange(0, at));
        assert(raw.skip(at + 2) =~= raw.subrange(at + 2, raw.len() as int));
    }
}

/// Of the arguments just those that start with `-fprofile-sample-use` are
/// dropped: what is left are the others, in their order, as often as they were
/// there.
pub proof fn lemma_profiles_filtered(args: Seq<Seq<char>>)
    ensures
        without_profiles(args) == args.filter(
            |a: Seq<char>| !"-fprofile-sample-use"@.is_prefix_of(a),
        ),
    decreases args.len(),
{
    reveal(Seq::filter);
    if args.len() > 0 {
        lemma_profiles_filtered(args.drop_last());
    }
}

proof fn lemma_args_front(args: Seq<Seq<char>>, a: Seq<char>, more: Seq<Seq<char>>)
    ensures
        with_args_before(args, seq![a] + more) == (if with_args_before(args, more).contains(a) {
            with_args_before(args, more)
        } else {
            seq![a] + with_args_before(args, more)
        }),
    decreases more.len(),
{
    let all = seq![a] + more;
    if more.len() == 0 {
        reveal_with_fuel(with_args_before, 2);
        assert(all.drop_last() =~= seq![]);
        assert(all.last() == a);
    } else {
        assert(all.drop_last() =~= seq![a] + more.drop_last());
        assert(all.last() == more.last());
        let next = if args.contains(more.last()) {
            args
        } else {
            seq![more.last()] + args
        };
        lemma_args_front(next, a, more.drop_last());
    }
}

proof fn lemma_matching_front(
    rule: (Seq<char>, Seq<char>),
    rules: Seq<(Seq<char>, Seq<char>)>,
    path: Seq<char>,
)
    ensures
        matching_args(seq![rule] + rules, path) == (if rule.0.is_prefix_of(path) {
            seq![rule.1] + matching_args(rules, path)
        } else {
            matching_args(rules, path)
        }),
    decreases rules.len(),
{
    let all = seq![rule] + rules;
    if rules.len() == 0 {
        reveal_with_fuel(matching_args, 2);
        assert(all.drop_last() =~= seq![]);
        assert(all.last() == rule);
        assert(matching_args(all, path) =~= (if rule.0.is_prefix_of(path) {
            seq![rule.1] + matching_args(rules, path)
        } else {
            matching_args(rules, path)
        }));
    } else {
        assert(all.drop_last() =~= seq![rule] + rules.drop_last());
        assert(all.last() == rules.last());
        lemma_matching_front(rule, rules.drop_last(), path);
        assert(matching_args(all, path) =~= (if rule.0.is_prefix_of(path) {
            seq![rule.1] + matching_args(rules, path)
        } else {
            matching_args(rules, path)
        }));
    }
}

/// The arguments that a unit is indexed with: without rules, those of the unit
/// that do not start with `-fprofile-sample-use`; and with one rule more in
/// front, whose prefix the path starts with, its argument stands before all
/// others, unless it is there already.
pub proof fn lemma_index_args_are(
    args: Seq<Seq<char>>,
    rule: (Seq<char>, Seq<char>),
    rules: Seq<(Seq<char>, Seq<char>)>,
    path: Seq<char>,
)
    ensures
        index_args(args, seq![], path) == args.filter(
            |a: Seq<char>| !"-fprofile-sample-use"@.is_prefix_of(a),
        ),
        index_args(args, seq![rule] + rules, path) == (if rule.0.is_prefix_of(path) && !index_args(
            args,
            rules,
            path,
        ).contains(rule.1) {
            seq![rule.1] + index_args(args, rules, path)
        } else {
            index_args(args, rules, path)
        }),
{
    lemma_profiles_filtered(args);
    lemma_matching_front(rule, rules, path);
    if rule.0.is_prefix_of(path) {
        lemma_args_front(without_profiles(args), rule.1, matching_args(rules, path));
    }
}

/// A unit is indexed as it is but for its arguments. The rules are held
/// against its primary path, or the empty path where it has none.
pub proof fn lemma_prepared_is(c: CompilationUnitView, rules: Seq<(Seq<char>, Seq<char>)>)
    ensures
        prepared(c, rules) == (CompilationUnitView { argument: prepared(c, rules).argument, ..c }),
        primary_path_of(c) matches Some(p) ==> prepared(c, rules).argument == index_args(
            c.argument,
            rules,
            p,
        ),
        primary_path_of(c) is None ==> prepared(c, rules).argument == index_args(
            c.argument,
            rules,
            seq![],
        ),
{
}

/// What is to be done with a unit: it is indexed just where its language in
/// lower case has an indexer whose word was chosen, and the filter accepts its
/// primary path; where the language is at fault, the path does not count.
pub proof fn lemma_verdict_is(
    c: CompilationUnitView,
    langs: Seq<Seq<char>>,
    filter: &PathFilter,
    kind: IndexerKind,
)
    ensures
        verdict_of(c, langs, filter) == Verdict::Index(kind) <==> route(
            lowercase(c.v_name.language),
        ) == Some(kind) && langs.contains(kind_label(kind)) && filter.accepts(
            match primary_path_of(c) {
                Some(p) => p,
                None => seq![],
            },
        ),
        verdict_of(c, langs, filter) == Verdict::WrongLanguage <==> !(exists|k: IndexerKind|
            route(lowercase(c.v_name.language)) == Some(k) && langs.contains(
                #[trigger] kind_label(k),
            )),
{
    if let Some(k) = route(lowercase(c.v_name.language)) {
        let label = kind_label(k);
    }
}

/// The count of the units that are to be treated alike is that of just those
/// units.
pub proof fn lemma_verdict_count_is(
    units: Seq<UnitView>,
    langs: Seq<Seq<char>>,
    filter: &PathFilter,
    v: Verdict,
)
    ensures
        verdict_count(units, langs, filter, v) == units.filter(
            |u: UnitView| verdict_of(u.cu, langs, filter) == v,
        ).len(),
    decreases units.len(),
{
    reveal(Seq::filter);
    if units.len() > 0 {
        lemma_verdict_count_is(units.drop_last(), langs, filter, v);
    }
}

/// An item is dropped just where it is done, and the others keep their order.
pub proof fn lemma_not_done_is(items: Seq<PlanItem>, item: PlanItem, done: Seq<bool>)
    ensures
        not_done(seq![], done) == Seq::<PlanItem>::empty(),
        done[items.len() as int] ==> not_done(items.push(item), done) == not_done(items, done),
        !done[items.len() as int] ==> not_done(items.push(item), done) == not_done(
            items,
            done,
        ).push(item),
{
    assert(items.push(item).drop_last() =~= items);
}

/// Where a release of Kythe has its indexers, and with what they are run. The
/// two that are Java archives are run by `java`, with the heap that is asked
/// for and a directory of their own; every other one is run with the unit's
/// archive alone.
pub proof fn lemma_commands_are(heap: Seq<char>)
    ensures
        indexer_path(IndexerKind::Cxx) == "indexers/cxx_indexer"@,
        indexer_path(IndexerKind::JavaSource) == "indexers/java_indexer.jar"@,
        indexer_path(IndexerKind::JvmBytecode) == "indexers/jvm_indexer.jar"@,
        indexer_path(IndexerKind::Go) == "indexers/go_indexer"@,
        indexer_path(IndexerKind::Proto) == "indexers/proto_indexer"@,
        indexer_path(IndexerKind::TextProto) == "indexers/textproto_indexer"@,
        forall|k: IndexerKind|
            #[trigger] runs_on_java(k) <==> k == IndexerKind::JavaSource || k
                == IndexerKind::JvmBytecode,
        forall|k: IndexerKind|
            runs_on_java(k) ==> #[trigger] indexer_args(k, heap) == seq![
                CommandArgView::Text("-Xmx"@ + heap),
                CommandArgView::Text("-jar"@),
                CommandArgView::Indexer,
                CommandArgView::Text("--ignore_empty_kzip"@),
                CommandArgView::Text("--temp_directory"@),
                CommandArgView::TempDir,
                CommandArgView::Kzip(seq![]),
            ],
        indexer_args(IndexerKind::Cxx, heap) == seq![CommandArgView::Kzip(seq![])],
        indexer_args(IndexerKind::Go, heap) == seq![CommandArgView::Kzip(seq![])],
        indexer_args(IndexerKind::Proto, heap) == seq![CommandArgView::Kzip("-index_file="@)],
        indexer_args(IndexerKind::TextProto, heap) == seq![CommandArgView::Kzip("--index_file="@)],
{
}

/// Each argument of a command says what it is.
pub proof fn lemma_command_args_are(s: String, t: String)
    ensures
        CommandArg::Text(s)@ == CommandArgView::Text(s@),
        CommandArg::Kzip(t)@ == CommandArgView::Kzip(t@),
        CommandArg::Indexer@ == CommandArgView::Indexer,
        CommandArg::TempDir@ == CommandArgView::TempDir,
{
}

/// The last items are the end of them all: everything where there are no more
/// than `cap`, and else `cap` of them.
pub proof fn lemma_last_of_is<T>(s: Seq<T>, cap: nat)
    ensures
        last_of(s, cap).is_suffix_of(s),
        s.len() <= cap ==> last_of(s, cap) == s,
        s.len() > cap ==> last_of(s, cap).len() == cap,
{
    let r = last_of(s, cap);
    assert(s.subrange(s.len() - r.len(), s.len() as int) =~= r);
}

/// What is shown of an indexer's errors begins with the last line, and holds
/// the line before it behind a bar, and nothing else.
pub proof fn lemma_snippet_is(tail: Seq<char>)
    ensures
        lines(tail).len() == 0 ==> error_snippet(tail).len() == 0,
        lines(tail).len() == 1 ==> error_snippet(tail) == lines(tail).last(),
        lines(tail).len() >= 2 ==> error_snippet(tail) == lines(tail).last() + " | "@ + lines(
            tail,
        ).drop_last().last(),
{
}

/// How much is kept of failures: the messages of eight, and four kilobytes of
/// each.
pub proof fn lemma_failure_limits()
    ensures
        MAX_FAIL_TAILS == 8,
        STDERR_TAIL_BYTES == 4096,
{
}

/// The arguments of rules: those of just the rules whose prefix the path starts
/// with.
pub proof fn lemma_matching_is(
    rules: Seq<(Seq<char>, Seq<char>)>,
    path: Seq<char>,
    a: Seq<char>,
)
    ensures
        matching_args(rules, path).contains(a) <==> exists|k: int|
            0 <= k < rules.len() && (#[trigger] rules[k]).0.is_prefix_of(path) && rules[k].1 == a,
    decreases rules.len(),
{
    let all = matching_args(rules, path);
    if rules.len() > 0 {
        let front = rules.drop_last();
        let before = matching_args(front, path);
        lemma_matching_is(front, path, a);
        if all.contains(a) {
            let i = all.index_of(a);
            if i < before.len() {
                assert(before[i] == a);
                assert(before.contains(a));
                let k = choose|k: int|
                    0 <= k < front.len() && (#[trigger] front[k]).0.is_prefix_of(path)
                        && front[k].1 == a;
                assert(rules[k] == front[k]);
            } else {
                assert(rules[rules.len() - 1].1 == a);
            }
        }
        if exists|k: int|
            0 <= k < rules.len() && (#[trigger] rules[k]).0.is_prefix_of(path) && rules[k].1 == a {
            let k = choose|k: int|
                0 <= k < rules.len() && (#[trigger] rules[k]).0.is_prefix_of(path) && rules[k].1
                    == a;
            if k < front.len() {
                assert(front[k] == rules[k]);
                assert(before.contains(a));
                assert(all[before.index_of(a)] == a);
            } else {
                assert(all[all.len() - 1] == a);
            }
        }
    }
}

/// What is put before arguments is new to them and comes from what was to be
/// put there.
pub proof fn lemma_args_in_front(args: Seq<Seq<char>>, more: Seq<Seq<char>>)
    ensures
        ({
            let r = with_args_before(args, more);
            &&& r.len() >= args.len()
            &&& forall|i: int|
                0 <= i < r.len() - args.len() ==> more.contains(#[trigger] r[i]) && !args.contains(
                    r[i],
                )
        }),
    decreases more.len(),
{
    let r = with_args_before(args, more);
    if more.len() > 0 {
        let front = more.drop_last();
        let last = more.last();
        let next = if args.contains(last) {
            args
        } else {
            seq![last] + args
        };
        lemma_args_in_front(next, front);
        lemma_args_before(next, front);
        assert forall|i: int| 0 <= i < r.len() - args.len() implies more.contains(#[trigger] r[i])
            && !args.contains(r[i]) by {
            if i < r.len() - next.len() {
                let k = front.index_of(r[i]);
                assert(more[k] == r[i]);
                if args.contains(r[i]) {
                    let j = args.index_of(r[i]);
                    if !args.contains(last) {
                        assert(next[j + 1] == r[i]);
                    }
                    assert(next.contains(r[i]));
                }
            } else {
                assert(!args.contains(last));
                assert(i == r.len() - next.len());
                assert(r.subrange(r.len() - next.len(), r.len() as int) == next);
                assert(r.subrange(i, r.len() as int)[0] == next[0]);
                assert(r[i] == last);
                assert(more[more.len() - 1] == last);
            }
        }
    }
}

} // verus!
