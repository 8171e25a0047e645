//! Reading the units of a `.kzip` archive and writing archives of them.
//!
//! An archive holds its units under `root/pbunits/`, proto-encoded, or under
//! `root/units/`, as JSON, or under both. Opening the archive and reading its
//! entries is left to the caller: a [`UnitReader`] says which entry is wanted
//! next and is given its contents.

use vstd::hash_set::StringHashSet;
use vstd::prelude::*;

use crate::kzip::{
    cu_primary_path, encode_indexed_compilation, indexed_bytes, indexed_of, input_views,
    lemma_indexed_round_trip, lemma_proto_bytes_decode, parse_indexed_compilation, primary_path_of,
    CompilationUnit, CompilationUnitView, FileInput, FileInputView, IndexedCompilation, Unit,
    UnitView, VName,
};
use crate::peek::{lemma_peek_agrees, peek_primary_path, peeked};
use crate::text::{
    chars_of, distinct, find_class, lemma_distinct, lemma_distinct_push, lemma_first_of, same,
    split_chars, starts_with, texts, Class, DistinctList,
};
use crate::wire::WireError;

verus! {

// ---------------------------------------------------------------- progress

/// Where long-running work says how far it is. `total` is 0 where it is not
/// known yet.
pub trait Progress {
    /// What a report makes of the sink, as the sink has it. Nothing is said of
    /// a sink that does not say it.
    open spec fn reported(&self, phase: Seq<char>, done: usize, total: usize, after: &Self) -> bool {
        true
    }

    fn report(&mut self, phase: &str, done: usize, total: usize)
        ensures
            Self::reported(&*old(self), phase@, done, total, &*final(self)),
    ;
}

/// A sink that nothing is said to.
pub struct NoProgress;

impl Progress for NoProgress {
    open spec fn reported(&self, phase: Seq<char>, done: usize, total: usize, after: &Self) -> bool {
        *after == *self
    }

    fn report(&mut self, _phase: &str, _done: usize, _total: usize) {
    }
}

impl<P: Progress + ?Sized> Progress for &mut P {
    /// The report is the one that the sink behind the reference gets.
    open spec fn reported(&self, phase: Seq<char>, done: usize, total: usize, after: &Self) -> bool {
        P::reported(&**self, phase, done, total, &**after)
    }

    /// The reference goes on referring to that sink.
    fn report(&mut self, phase: &str, done: usize, total: usize)
        ensures
            &*final(*final(self)) == &*final(*old(self)),
    {
        (**self).report(phase, done, total)
    }
}

/// What a report of progress is about.
#[derive(Clone, Copy, Debug, PartialEq, Eq, Structural)]
pub enum Phase {
    /// Units decoded.
    Read,
    /// Units looked at.
    Scan,
    /// Units written.
    WriteUnits,
    /// Files written.
    WriteFiles,
}

impl Phase {
    /// The phase's name.
    pub open spec fn label(self) -> Seq<char> {
        match self {
            Phase::Read => "read"@,
            Phase::Scan => "scan"@,
            Phase::WriteUnits => "write-units"@,
            Phase::WriteFiles => "write-files"@,
        }
    }

    /// The phase's name.
    pub fn name(self) -> (r: &'static str)
        ensures
            r@ == self.label(),
    {
        match self {
            Phase::Read => "read",
            Phase::Scan => "scan",
            Phase::WriteUnits => "write-units",
            Phase::WriteFiles => "write-files",
        }
    }
}

/// One report of progress.
#[derive(Clone, Copy, Debug, PartialEq, Eq, Structural)]
pub struct Report {
    pub phase: Phase,
    pub done: usize,
    pub total: usize,
}

// ------------------------------------------------------------ entry names

/// What an entry's name is called below `prefix`. The directory itself and
/// anything nested deeper is not an entry there.
pub open spec fn entry_below(name: Seq<char>, prefix: Seq<char>) -> Option<Seq<char>> {
    let rest = name.skip(prefix.len() as int);
    if !prefix.is_prefix_of(name) || rest.len() == 0 || rest.contains('/') {
        None
    } else {
        Some(rest)
    }
}

/// What an entry's name is called below `prefix`.
pub fn strip_prefix<'a>(name: &'a str, prefix: &str) -> (r: Option<&'a str>)
    ensures
        r matches Some(s) ==> entry_below(name@, prefix@) == Some(s@),
        r is None ==> entry_below(name@, prefix@) is None,
{
    if !starts_with(name, prefix) {
        return None;
    }
    let p = chars_of(prefix);
    let rest: &'a str = split_chars(name, p.len()).1;
    let c = chars_of(rest);
    let slash: usize = find_class(c.as_slice(), Class::Only('/'), 0);
    proof {
        lemma_first_of(rest@, Class::Only('/'), 0);
        if slash < c@.len() {
            assert(rest@[slash as int] == '/');
        } else if rest@.contains('/') {
            let i = rest@.index_of('/');
            assert(Class::Only('/').holds(rest@[i]));
        }
    }
    if c.len() == 0 || slash < c.len() {
        None
    } else {
        Some(rest)
    }
}

/// One unit's entry in an archive.
#[derive(Debug)]
pub struct Entry {
    /// Where the entry stands in the archive.
    pub index: usize,
    /// What names the unit.
    pub sha: String,
    /// Whether the unit is proto-encoded; else it is JSON.
    pub proto: bool,
}

/// What an [`Entry`] says.
#[verifier::ext_equal]
pub struct EntryView {
    pub index: int,
    pub sha: Seq<char>,
    pub proto: bool,
}

impl View for Entry {
    type V = EntryView;

    open spec fn view(&self) -> EntryView {
        EntryView { index: self.index as int, sha: self.sha@, proto: self.proto }
    }
}

/// The entries of proto-encoded units among the names of an archive.
pub open spec fn proto_entries(names: Seq<Seq<char>>) -> Seq<EntryView>
    decreases names.len(),
{
    if names.len() == 0 {
        seq![]
    } else {
        let front = proto_entries(names.drop_last());
        match entry_below(names.last(), "root/pbunits/"@) {
            Some(sha) => front.push(EntryView { index: names.len() - 1, sha, proto: true }),
            None => front,
        }
    }
}

/// The entries of JSON-encoded units among the names of an archive.
pub open spec fn json_entries(names: Seq<Seq<char>>) -> Seq<EntryView>
    decreases names.len(),
{
    if names.len() == 0 {
        seq![]
    } else {
        let front = json_entries(names.drop_last());
        match (
            entry_below(names.last(), "root/pbunits/"@),
            entry_below(names.last(), "root/units/"@),
        ) {
            (None, Some(sha)) => front.push(
                EntryView { index: names.len() - 1, sha, proto: false },
            ),
            _ => front,
        }
    }
}

/// What each of a list of entries says.
pub open spec fn entry_views(v: Seq<Entry>) -> Seq<EntryView> {
    v.map_values(|e: Entry| e@)
}

/// What each of a list of units says.
pub open spec fn unit_views(v: Seq<Unit>) -> Seq<UnitView> {
    v.map_values(|u: Unit| u@)
}

fn find_entries(names: &Vec<String>) -> (r: (Vec<Entry>, Vec<Entry>))
    ensures
        entry_views(r.0@) == proto_entries(texts(names@)),
        entry_views(r.1@) == json_entries(texts(names@)),
{
    let ghost all = texts(names@);
    let mut protos: Vec<Entry> = Vec::new();
    let mut jsons: Vec<Entry> = Vec::new();
    let mut i: usize = 0;
    proof {
        assert(entry_views(protos@) =~= proto_entries(all.take(0)));
        assert(entry_views(jsons@) =~= json_entries(all.take(0)));
    }
    while i < names.len()
        invariant
            i <= names@.len(),
            all == texts(names@),
            entry_views(protos@) == proto_entries(all.take(i as int)),
            entry_views(jsons@) == json_entries(all.take(i as int)),
        decreases names@.len() - i,
    {
        proof {
            assert(all.take(i + 1).drop_last() =~= all.take(i as int));
            assert(all.take(i + 1).last() == names@[i as int]@);
        }
        let name: &str = names[i].as_str();
        if let Some(sha) = strip_prefix(name, "root/pbunits/") {
            let e = Entry { index: i, sha: sha.to_string(), proto: true };
            proof {
                assert(entry_views(protos@.push(e)) =~= entry_views(protos@).push(e@));
            }
            protos.push(e);
        } else if let Some(sha) = strip_prefix(name, "root/units/") {
            let e = Entry { index: i, sha: sha.to_string(), proto: false };
            proof {
                assert(entry_views(jsons@.push(e)) =~= entry_views(jsons@).push(e@));
            }
            jsons.push(e);
        }
        i += 1;
    }
    proof {
        assert(all.take(all.len() as int) =~= all);
    }
    (protos, jsons)
}

// ---------------------------------------------------------------- reading

/// A proto-encoded unit that could not be decoded.
#[derive(Debug)]
pub struct UnitError {
    pub sha: String,
    pub error: WireError,
}

/// A JSON-encoded unit that could not be decoded.
#[derive(Debug)]
pub struct JsonUnitError {
    pub sha: String,
}

/// How far a read has come.
#[verifier::ext_equal]
pub struct ReadView {
    /// The entries that are still to be read.
    pub todo: Seq<EntryView>,
    /// The JSON unit that has been looked at and is to be decoded, and whether
    /// a peek saw a path in it that the filter refuses.
    pub pending: Option<(Seq<char>, bool)>,
    /// The units read so far.
    pub units: Seq<UnitView>,
    /// The names of the proto-encoded units that were looked at.
    pub protos: Set<Seq<char>>,
    /// How many entries a filtered read has looked at.
    pub scanned: nat,
    /// How many entries there are.
    pub total: nat,
}

/// A read of the archive with these names, at its start: first the
/// proto-encoded units, then the others.
pub open spec fn read_start(names: Seq<Seq<char>>) -> ReadView {
    ReadView {
        todo: proto_entries(names) + json_entries(names),
        pending: None,
        units: seq![],
        protos: Set::empty(),
        scanned: 0,
        total: proto_entries(names).len() + json_entries(names).len(),
    }
}

/// The path by which a unit is filtered: its primary path, or the empty one.
pub open spec fn filter_path(c: CompilationUnitView) -> Seq<char> {
    match primary_path_of(c) {
        Some(p) => p,
        None => seq![],
    }
}

/// Which paths a filter accepts.
pub type PathTest = spec_fn(Seq<char>) -> bool;

/// The filter can be asked about every path.
pub open spec fn answers<F: Fn(&str) -> bool>(filter: Option<F>) -> bool {
    filter matches Some(f) ==> forall|s: &str| #[trigger] f.requires((s,))
}

/// The filter accepts these paths: whatever it answers is this.
pub open spec fn accepts_as<F: Fn(&str) -> bool>(
    filter: Option<F>,
    accepted: Option<PathTest>,
) -> bool {
    match (filter, accepted) {
        (Some(f), Some(g)) => forall|s: &str, r: bool| #[trigger] f.ensures((s,), r) ==> r == g(s@),
        (None, None) => true,
        _ => false,
    }
}

/// A peek sees a path that the filter refuses.
pub open spec fn peek_refused(filter: Option<PathTest>, bytes: Seq<u8>, is_proto: bool) -> bool {
    filter matches Some(f) && peeked(bytes, is_proto) matches Some(p) && !f(p)
}

/// The filter, if there is one, accepts the unit.
pub open spec fn takes_unit(filter: Option<PathTest>, cu: CompilationUnitView) -> bool {
    filter matches Some(f) ==> f(filter_path(cu))
}

/// The next entry is JSON for a unit that has a proto twin.
pub open spec fn is_twin(v: ReadView) -> bool {
    v.todo.len() > 0 && !v.todo[0].proto && v.protos.contains(v.todo[0].sha)
}

/// The read without the next entry.
pub open spec fn passed(v: ReadView, filtered: bool) -> ReadView {
    ReadView {
        todo: v.todo.drop_first(),
        scanned: if filtered {
            v.scanned + 1
        } else {
            v.scanned
        },
        ..v
    }
}

/// The read without the twins that come next.
pub open spec fn settled(v: ReadView, filtered: bool) -> ReadView
    decreases v.todo.len(),
{
    if is_twin(v) {
        settled(passed(v, filtered), filtered)
    } else {
        v
    }
}

/// The read after the next entry, which is proto-encoded, was read as `bytes`.
/// With a filter, a unit is left out where a peek sees a path that the filter
/// refuses, or else where the decoded unit has one.
pub open spec fn after_proto(v: ReadView, filter: Option<PathTest>, bytes: Seq<u8>) -> Result<
    ReadView,
    WireError,
> {
    let sha = v.todo[0].sha;
    let next = ReadView { protos: v.protos.insert(sha), ..passed(v, filter is Some) };
    if peek_refused(filter, bytes, true) {
        Ok(next)
    } else {
        match indexed_of(bytes) {
            Err(e) => Err(e),
            Ok(cu) => if takes_unit(filter, cu) {
                Ok(
                    ReadView {
                        units: v.units.push(UnitView { sha, cu, raw_proto: Some(bytes) }),
                        ..next
                    },
                )
            } else {
                Ok(next)
            },
        }
    }
}

/// The read after the next entry, which is JSON, was looked at as `bytes`. What
/// a peek sees in JSON need not be the unit's primary path, so it alone drops
/// no unit.
pub open spec fn after_seen(v: ReadView, filter: Option<PathTest>, bytes: Seq<u8>) -> ReadView {
    ReadView {
        pending: Some((v.todo[0].sha, peek_refused(filter, bytes, false))),
        ..passed(v, filter is Some)
    }
}

/// The read after the pending unit was decoded as `cu`, or could not be. A unit
/// that could not be decoded is left out where the peek saw a path that the
/// filter refuses; any other one ends the read.
pub open spec fn after_json(
    v: ReadView,
    filter: Option<PathTest>,
    cu: Option<CompilationUnitView>,
) -> Option<ReadView> {
    let (sha, refused) = v.pending->0;
    let next = ReadView { pending: None, ..v };
    match cu {
        None => if refused {
            Some(next)
        } else {
            None
        },
        Some(cu) => if takes_unit(filter, cu) {
            Some(
                ReadView { units: v.units.push(UnitView { sha, cu, raw_proto: None }), ..next },
            )
        } else {
            Some(next)
        },
    }
}

/// What a decoded unit says, where there is one.
pub open spec fn decoded_view(cu: Option<IndexedCompilation>) -> Option<CompilationUnitView> {
    match cu {
        Some(c) => Some(c@),
        None => None,
    }
}

/// What a [`UnitReader`] wants to be given next.
#[derive(Clone, Copy, Debug, PartialEq, Eq, Structural)]
pub enum Wanted {
    /// The contents of a proto-encoded unit, at this place in the archive.
    Proto(usize),
    /// The contents of a JSON-encoded unit, at this place in the archive.
    Json(usize),
    /// Nothing: everything has been read.
    Nothing,
}

/// What a read wants to be given next: its next entry.
pub open spec fn wanted(v: ReadView) -> Wanted {
    if v.todo.len() == 0 {
        Wanted::Nothing
    } else if v.todo[0].proto {
        Wanted::Proto(v.todo[0].index as usize)
    } else {
        Wanted::Json(v.todo[0].index as usize)
    }
}

/// A read of an archive's units, one entry at a time.
///
/// Ask [`UnitReader::next`] what is wanted, and give it: a proto-encoded unit
/// to [`UnitReader::give_proto`]; the text of a JSON-encoded one to
/// [`UnitReader::see_json`], and the decoded unit to [`UnitReader::give_json`].
pub struct UnitReader<F> {
    entries: Vec<Entry>,
    at: usize,
    filter: Option<F>,
    pending: Option<(String, bool)>,
    units: Vec<Unit>,
    protos: StringHashSet,
    scanned: usize,
}

impl<F> View for UnitReader<F> {
    type V = ReadView;

    closed spec fn view(&self) -> ReadView {
        ReadView {
            todo: entry_views(self.entries@).skip(self.at as int),
            pending: match self.pending {
                Some((sha, refused)) => Some((sha@, refused)),
                None => None,
            },
            units: unit_views(self.units@),
            protos: self.protos@,
            scanned: self.scanned as nat,
            total: self.entries@.len(),
        }
    }
}

impl<F: Fn(&str) -> bool> UnitReader<F> {
    /// The filter can be asked, and the counts are within the number of entries.
    pub closed spec fn wf(&self) -> bool {
        &&& answers(self.filter)
        &&& self.pending matches Some((_, refused)) ==> (refused ==> self.filter is Some)
        &&& self.at <= self.entries@.len()
        &&& self.scanned <= self.at
        &&& self.units@.len() + (if self.pending is Some {
            1int
        } else {
            0
        }) <= self.at
    }

    /// The filter of the read, if it has one.
    pub closed spec fn spec_filter(&self) -> Option<F> {
        self.filter
    }

    /// Whether the filter, if there is one, takes a path.
    fn takes(&self, path: &str) -> (r: bool)
        requires
            self.wf(),
        ensures
            forall|g: Option<PathTest>| #[trigger]
                accepts_as(self.spec_filter(), g) ==> r == (g matches Some(f) ==> f(path@)),
            !r ==> self.spec_filter() is Some,
    {
        match &self.filter {
            Some(f) => f(path),
            None => true,
        }
    }

    /// Whether the filter, if there is one, takes a decoded unit.
    fn takes_decoded(&self, cu: &CompilationUnit) -> (r: bool)
        requires
            self.wf(),
        ensures
            forall|g: Option<PathTest>| #[trigger]
                accepts_as(self.spec_filter(), g) ==> r == takes_unit(g, cu@),
            !r ==> self.spec_filter() is Some,
    {
        match cu_primary_path(cu) {
            Some(p) => self.takes(p),
            None => {
                let none = String::new();
                proof {
                    assert(none@ =~= filter_path(cu@));
                }
                self.takes(none.as_str())
            },
        }
    }

    /// Whether a peek sees a path that the filter refuses.
    fn peeks_refused(&self, bytes: &[u8], is_proto: bool) -> (r: bool)
        requires
            self.wf(),
        ensures
            forall|g: Option<PathTest>| #[trigger]
                accepts_as(self.spec_filter(), g) ==> r == peek_refused(g, bytes@, is_proto),
            r ==> self.spec_filter() is Some,
    {
        if self.filter.is_none() {
            return false;
        }
        match peek_primary_path(bytes, is_proto) {
            Some(p) => !self.takes(p.as_str()),
            None => false,
        }
    }

    /// A read of the archive whose entries have these names, in this order.
    /// With a filter, it reads only the units whose primary path this accepts.
    pub fn new(names: &Vec<String>, filter: Option<F>) -> (r: Self)
        requires
            answers(filter),
        ensures
            r.wf(),
            r.spec_filter() == filter,
            r@ == read_start(texts(names@)),
    {
        let (protos, jsons) = find_entries(names);
        let mut entries: Vec<Entry> = protos;
        let ghost front = entries@;
        let mut back: Vec<Entry> = jsons;
        let ghost tail = back@;
        entries.append(&mut back);
        proof {
            assert(entry_views(entries@) =~= entry_views(front) + entry_views(tail));
        }
        let r = UnitReader {
            entries,
            at: 0,
            filter,
            pending: None,
            units: Vec::new(),
            protos: StringHashSet::new(),
            scanned: 0,
        };
        proof {
            assert(r@.todo =~= entry_views(entries@));
            assert(r@.units =~= seq![]);
            assert(r@ =~= read_start(texts(names@)));
        }
        r
    }

    /// Passes over the JSON entries of units that have a proto twin, and says
    /// what is wanted next.
    pub fn next(&mut self) -> (r: Wanted)
        requires
            old(self).wf(),
            old(self)@.pending is None,
        ensures
            final(self).wf(),
            final(self).spec_filter() == old(self).spec_filter(),
            final(self)@ == settled(old(self)@, old(self).spec_filter() is Some),
            r == wanted(final(self)@),
    {
        let filtered: bool = self.filter.is_some();
        while self.at < self.entries.len() && !self.entries[self.at].proto && self.protos.contains(
            self.entries[self.at].sha.as_str(),
        )
            invariant
                self.wf(),
                self.filter == old(self).filter,
                self@.pending is None,
                filtered == (self.filter is Some),
                settled(self@, filtered) == settled(old(self)@, filtered),
            decreases self.entries@.len() - self.at,
        {
            let ghost before = self@;
            proof {
                assert(before.todo[0] == self.entries@[self.at as int]@);
            }
            self.at += 1;
            if filtered {
                self.scanned += 1;
            }
            proof {
                assert(self@ =~= passed(before, filtered));
            }
        }
        if self.at < self.entries.len() {
            let e = &self.entries[self.at];
            proof {
                assert(self@.todo[0] == self.entries@[self.at as int]@);
            }
            if e.proto {
                Wanted::Proto(e.index)
            } else {
                Wanted::Json(e.index)
            }
        } else {
            Wanted::Nothing
        }
    }

    /// Gives the contents of the proto-encoded unit that is next. Returns the
    /// report that is due, and whether the unit could be decoded; one that
    /// could not ends the read.
    pub fn give_proto(&mut self, bytes: Vec<u8>) -> (r: (Option<Report>, Result<(), UnitError>))
        requires
            old(self).wf(),
            old(self)@.pending is None,
            old(self)@.todo.len() > 0,
            old(self)@.todo[0].proto,
        ensures
            final(self).wf(),
            final(self).spec_filter() == old(self).spec_filter(),
            forall|g: Option<PathTest>| #[trigger]
                accepts_as(old(self).spec_filter(), g) ==> match r.1 {
                    Ok(_) => after_proto(old(self)@, g, bytes@) == Ok::<ReadView, WireError>(
                        final(self)@,
                    ),
                    Err(e) => after_proto(old(self)@, g, bytes@) == Err::<ReadView, WireError>(
                        e.error,
                    ),
                },
            final(self)@.pending is None,
            final(self)@.todo == old(self)@.todo.drop_first(),
            r.1 matches Err(e) ==> e.sha@ == old(self)@.todo[0].sha,
            old(self).spec_filter() is Some ==> r.0 == Some(
                Report {
                    phase: Phase::Scan,
                    done: (old(self)@.scanned + 1) as usize,
                    total: old(self)@.total as usize,
                },
            ),
            old(self).spec_filter() is None && r.1 is Ok ==> r.0 == Some(
                Report {
                    phase: Phase::Read,
                    done: final(self)@.units.len() as usize,
                    total: old(self)@.total as usize,
                },
            ),
            old(self).spec_filter() is None && r.1 is Err ==> r.0 is None,
    {
        let ghost before = self@;
        let ghost filter = self.spec_filter();
        let sha = self.entries[self.at].sha.clone();
        let total: usize = self.entries.len();
        let refused: bool = self.peeks_refused(bytes.as_slice(), true);
        proof {
            assert(before.todo[0] == self.entries@[self.at as int]@);
        }
        self.at += 1;
        let _ = self.protos.insert(sha.clone());
        let mut report: Option<Report> = None;
        if self.filter.is_some() {
            self.scanned += 1;
            report = Some(Report { phase: Phase::Scan, done: self.scanned, total });
        }
        let ghost next = ReadView {
            protos: before.protos.insert(sha@),
            ..passed(before, filter is Some)
        };
        proof {
            assert(self@ =~= next);
        }
        if refused {
            return (report, Ok(()));
        }
        let cu = match parse_indexed_compilation(bytes.as_slice()) {
            Ok(cu) => cu,
            Err(error) => return (report, Err(UnitError { sha, error })),
        };
        if !self.takes_decoded(&cu.unit) {
            return (report, Ok(()));
        }
        let unit = Unit { sha, cu, raw_proto: Some(bytes) };
        proof {
            assert(unit_views(self.units@.push(unit)) =~= unit_views(self.units@).push(unit@));
        }
        self.units.push(unit);
        proof {
            assert(self@ =~= ReadView { units: before.units.push(unit@), ..next });
        }
        if self.filter.is_none() {
            report = Some(Report { phase: Phase::Read, done: self.units.len(), total });
        }
        (report, Ok(()))
    }

    /// Looks at the text of the JSON-encoded unit that is next. Returns the
    /// report that is due; the unit is then to be decoded.
    pub fn see_json(&mut self, bytes: &[u8]) -> (r: Option<Report>)
        requires
            old(self).wf(),
            old(self)@.pending is None,
            old(self)@.todo.len() > 0,
            !old(self)@.todo[0].proto,
        ensures
            final(self).wf(),
            final(self).spec_filter() == old(self).spec_filter(),
            final(self)@.pending is Some,
            final(self)@.todo == old(self)@.todo.drop_first(),
            forall|g: Option<PathTest>| #[trigger]
                accepts_as(old(self).spec_filter(), g) ==> final(self)@ == after_seen(
                    old(self)@,
                    g,
                    bytes@,
                ),
            r == (if old(self).spec_filter() is Some {
                Some(
                    Report {
                        phase: Phase::Scan,
                        done: (old(self)@.scanned + 1) as usize,
                        total: old(self)@.total as usize,
                    },
                )
            } else {
                None
            }),
    {
        let ghost before = self@;
        let sha = self.entries[self.at].sha.clone();
        let total: usize = self.entries.len();
        let refused: bool = self.peeks_refused(bytes, false);
        proof {
            assert(before.todo[0] == self.entries@[self.at as int]@);
        }
        self.at += 1;
        self.pending = Some((sha, refused));
        let mut report: Option<Report> = None;
        if self.filter.is_some() {
            self.scanned += 1;
            report = Some(Report { phase: Phase::Scan, done: self.scanned, total });
        }
        proof {
            let seen = ReadView {
                pending: Some((before.todo[0].sha, refused)),
                ..passed(before, self.filter is Some)
            };
            assert(self@ =~= seen);
        }
        report
    }

    /// Gives the unit that is pending, decoded, or nothing where it could not
    /// be. Returns the report that is due, and whether the read goes on.
    pub fn give_json(&mut self, cu: Option<IndexedCompilation>) -> (r: (
        Option<Report>,
        Result<(), JsonUnitError>,
    ))
        requires
            old(self).wf(),
            old(self)@.pending is Some,
        ensures
            final(self).wf(),
            final(self).spec_filter() == old(self).spec_filter(),
            forall|g: Option<PathTest>| #[trigger]
                accepts_as(old(self).spec_filter(), g) ==> match r.1 {
                    Ok(_) => after_json(old(self)@, g, decoded_view(cu)) == Some(final(self)@),
                    Err(_) => after_json(old(self)@, g, decoded_view(cu)) is None,
                },
            final(self)@.pending is None,
            final(self)@.todo == old(self)@.todo,
            r.1 matches Err(e) ==> {
                let (sha, _) = old(self)@.pending->0;
                e.sha@ == sha
            },
            r.0 == (if old(self).spec_filter() is None && r.1 is Ok {
                Some(
                    Report {
                        phase: Phase::Read,
                        done: final(self)@.units.len() as usize,
                        total: old(self)@.total as usize,
                    },
                )
            } else {
                None
            }),
    {
        let ghost before = self@;
        let total: usize = self.entries.len();
        let (sha, refused) = match self.pending.take() {
            Some(p) => p,
            None => (String::new(), false),
        };
        let ghost next = ReadView { pending: None, ..before };
        proof {
            assert(self@ =~= next);
        }
        let cu = match cu {
            Some(cu) => cu,
            None => {
                return if refused {
                    (None, Ok(()))
                } else {
                    (None, Err(JsonUnitError { sha }))
                };
            },
        };
        if !self.takes_decoded(&cu.unit) {
            return (None, Ok(()));
        }
        let unit = Unit { sha, cu, raw_proto: None };
        proof {
            assert(unit_views(self.units@.push(unit)) =~= unit_views(self.units@).push(unit@));
        }
        self.units.push(unit);
        proof {
            assert(self@ =~= ReadView { units: before.units.push(unit@), ..next });
        }
        if self.filter.is_none() {
            (Some(Report { phase: Phase::Read, done: self.units.len(), total }), Ok(()))
        } else {
            (None, Ok(()))
        }
    }

    /// The units that were read.
    pub fn finish(self) -> (r: Vec<Unit>)
        ensures
            unit_views(r@) == self@.units,
    {
        self.units
    }
}

// ---------------------------------------------------------------- writing

/// The directories that an archive has to have.
pub open spec fn archive_directories() -> Seq<Seq<char>> {
    seq!["root/"@, "root/pbunits/"@, "root/files/"@]
}

/// The directories that an archive has to have, in the order in which they
/// are added.
pub fn directories() -> (r: Vec<String>)
    ensures
        texts(r@) == archive_directories(),
{
    let mut r: Vec<String> = Vec::new();
    r.push("root/".to_string());
    r.push("root/pbunits/".to_string());
    r.push("root/files/".to_string());
    proof {
        assert(texts(r@) =~= archive_directories());
    }
    r
}

/// The entry that a unit is written to.
pub open spec fn unit_name(sha: Seq<char>) -> Seq<char> {
    "root/pbunits/"@ + sha
}

/// The entry that holds the file with this digest.
pub open spec fn file_name(digest: Seq<char>) -> Seq<char> {
    "root/files/"@ + digest
}

/// The entry that a unit is written to.
pub fn unit_entry(sha: &str) -> (r: String)
    ensures
        r@ == unit_name(sha@),
{
    let mut r: String = "root/pbunits/".to_string();
    r.append(sha);
    r
}

/// The entry that holds the file with this digest.
pub fn file_entry(digest: &str) -> (r: String)
    ensures
        r@ == file_name(digest@),
{
    let mut r: String = "root/files/".to_string();
    r.append(digest);
    r
}

/// The digests that inputs name, in order; inputs without one are left out.
pub open spec fn digests(inputs: Seq<FileInputView>) -> Seq<Seq<char>>
    decreases inputs.len(),
{
    if inputs.len() == 0 {
        seq![]
    } else if inputs.last().info.digest.len() == 0 {
        digests(inputs.drop_last())
    } else {
        digests(inputs.drop_last()).push(inputs.last().info.digest)
    }
}

/// The digests that the inputs of units name, in order.
pub open spec fn all_digests(units: Seq<UnitView>) -> Seq<Seq<char>>
    decreases units.len(),
{
    if units.len() == 0 {
        seq![]
    } else {
        all_digests(units.drop_last()) + digests(units.last().cu.required_input)
    }
}

/// Adds the digests of a unit's inputs behind those in `found`.
fn add_digests(found: DistinctList, before: Ghost<Seq<Seq<char>>>, inputs: &Vec<FileInput>) -> (r:
    DistinctList)
    requires
        found@ == distinct(before@),
    ensures
        r@ == distinct(before@ + digests(input_views(inputs@))),
{
    let ghost all = input_views(inputs@);
    let mut r: DistinctList = found;
    let mut i: usize = 0;
    proof {
        assert(before@ + digests(all.take(0)) =~= before@);
    }
    while i < inputs.len()
        invariant
            i <= inputs@.len(),
            all == input_views(inputs@),
            r@ == distinct(before@ + digests(all.take(i as int))),
        decreases inputs@.len() - i,
    {
        let digest: &str = inputs[i].info.digest.as_str();
        proof {
            assert(all.take(i + 1).drop_last() =~= all.take(i as int));
            assert(all.take(i + 1).last() == inputs@[i as int]@);
        }
        if !digest.is_empty() {
            let ghost list = before@ + digests(all.take(i as int));
            proof {
                lemma_distinct_push(list, digest@);
                assert(list.push(digest@) =~= before@ + digests(all.take(i + 1)));
            }
            r = r.with(digest).0;
        }
        i += 1;
    }
    proof {
        assert(all.take(all.len() as int) =~= all);
    }
    r
}

/// The files that an archive of these units needs: every digest that an input
/// names, once.
pub fn needed_files(units: &Vec<Unit>) -> (r: Vec<String>)
    ensures
        texts(r@) == distinct(all_digests(unit_views(units@))),
{
    needed_list(units).into_list()
}

fn needed_list(units: &Vec<Unit>) -> (r: DistinctList)
    ensures
        r@ == distinct(all_digests(unit_views(units@))),
{
    let ghost all = unit_views(units@);
    let mut found: DistinctList = DistinctList::new();
    let mut i: usize = 0;
    while i < units.len()
        invariant
            i <= units@.len(),
            all == unit_views(units@),
            found@ == distinct(all_digests(all.take(i as int))),
        decreases units@.len() - i,
    {
        proof {
            assert(all.take(i + 1).drop_last() =~= all.take(i as int));
            assert(all.take(i + 1).last() == units@[i as int]@);
        }
        found = add_digests(
            found,
            Ghost(all_digests(all.take(i as int))),
            &units[i].cu.unit.required_input,
        );
        i += 1;
    }
    proof {
        assert(all.take(all.len() as int) =~= all);
    }
    found
}

/// The digests of the files that an archive with these names holds, in order.
pub open spec fn stored_files(names: Seq<Seq<char>>) -> Seq<Seq<char>>
    decreases names.len(),
{
    if names.len() == 0 {
        seq![]
    } else {
        let front = stored_files(names.drop_last());
        match entry_below(names.last(), "root/files/"@) {
            Some(digest) => front.push(digest),
            None => front,
        }
    }
}

/// The files that a normalized archive carries over from one with these names:
/// those that the units' inputs name, and whatever else it holds, each once.
pub open spec fn carried(units: Seq<UnitView>, names: Seq<Seq<char>>) -> Seq<Seq<char>> {
    distinct(all_digests(units) + stored_files(names))
}

/// The files that a normalized archive of these units carries over from the
/// archive whose entries have these names.
pub fn carried_files(units: &Vec<Unit>, names: &Vec<String>) -> (r: Vec<String>)
    ensures
        texts(r@) == carried(unit_views(units@), texts(names@)),
{
    let ghost needed = all_digests(unit_views(units@));
    let ghost all = texts(names@);
    let mut found: DistinctList = needed_list(units);
    let mut i: usize = 0;
    proof {
        assert(needed + stored_files(all.take(0)) =~= needed);
    }
    while i < names.len()
        invariant
            i <= names@.len(),
            all == texts(names@),
            found@ == distinct(needed + stored_files(all.take(i as int))),
        decreases names@.len() - i,
    {
        proof {
            assert(all.take(i + 1).drop_last() =~= all.take(i as int));
            assert(all.take(i + 1).last() == names@[i as int]@);
        }
        if let Some(digest) = strip_prefix(names[i].as_str(), "root/files/") {
            let ghost list = needed + stored_files(all.take(i as int));
            proof {
                lemma_distinct_push(list, digest@);
                assert(list.push(digest@) =~= needed + stored_files(all.take(i + 1)));
            }
            found = found.with(digest).0;
        }
        i += 1;
    }
    proof {
        assert(all.take(all.len() as int) =~= all);
    }
    found.into_list()
}

/// What is written for one of the units of a normalized archive, and how far
/// the writing is afterwards.
pub fn normalized_unit(units: &Vec<Unit>, i: usize) -> (r: (String, Vec<u8>, Report))
    requires
        i < units@.len(),
    ensures
        r.0@ == unit_name(units@[i as int]@.sha),
        r.1@ == units@[i as int]@.proto_bytes(),
        r.2 == (Report {
            phase: Phase::WriteUnits,
            done: (i + 1) as usize,
            total: units@.len() as usize,
        }),
{
    let unit = &units[i];
    let total: usize = units.len();
    (
        unit_entry(unit.sha.as_str()),
        unit.to_proto_bytes(),
        Report { phase: Phase::WriteUnits, done: i + 1, total },
    )
}

/// The entry that one of the files of a normalized archive is copied from and
/// to, and how far the writing is afterwards.
pub fn normalized_file(files: &Vec<String>, i: usize) -> (r: (String, Report))
    requires
        i < files@.len(),
    ensures
        r.0@ == file_name(files@[i as int]@),
        r.1 == (Report {
            phase: Phase::WriteFiles,
            done: (i + 1) as usize,
            total: files@.len() as usize,
        }),
{
    let total: usize = files.len();
    (
        file_entry(files[i].as_str()),
        Report { phase: Phase::WriteFiles, done: i + 1, total },
    )
}

/// The files that an archive of this unit alone needs.
pub fn unit_files(unit: &Unit) -> (r: Vec<String>)
    ensures
        texts(r@) == distinct(digests(unit@.cu.required_input)),
{
    let none: DistinctList = DistinctList::new();
    let ghost before = Seq::<Seq<char>>::empty();
    proof {
        assert(distinct(before) =~= seq![]);
        assert(before + digests(unit@.cu.required_input) =~= digests(unit@.cu.required_input));
    }
    add_digests(none, Ghost(before), &unit.cu.unit.required_input).into_list()
}

/// Whether two lists of strings hold the same texts.
fn same_texts(a: &Vec<String>, b: &Vec<String>) -> (r: bool)
    ensures
        r == (texts(a@) == texts(b@)),
{
    if a.len() != b.len() {
        proof {
            assert(texts(a@).len() != texts(b@).len());
        }
        return false;
    }
    let mut i: usize = 0;
    while i < a.len()
        invariant
            i <= a@.len() == b@.len(),
            forall|j: int| 0 <= j < i ==> a@[j]@ == b@[j]@,
        decreases a@.len() - i,
    {
        if !same(a[i].as_str(), b[i].as_str()) {
            proof {
                assert(texts(a@)[i as int] != texts(b@)[i as int]);
            }
            return false;
        }
        i += 1;
    }
    proof {
        assert(texts(a@) =~= texts(b@));
    }
    true
}

fn same_name(a: &VName, b: &VName) -> (r: bool)
    ensures
        r == (a@ == b@),
{
    same(a.signature.as_str(), b.signature.as_str()) && same(a.corpus.as_str(), b.corpus.as_str())
        && same(a.root.as_str(), b.root.as_str()) && same(a.path.as_str(), b.path.as_str())
        && same(a.language.as_str(), b.language.as_str())
}

fn same_inputs(a: &Vec<FileInput>, b: &Vec<FileInput>) -> (r: bool)
    ensures
        r == (input_views(a@) == input_views(b@)),
{
    if a.len() != b.len() {
        proof {
            assert(input_views(a@).len() != input_views(b@).len());
        }
        return false;
    }
    let mut i: usize = 0;
    while i < a.len()
        invariant
            i <= a@.len() == b@.len(),
            forall|j: int| 0 <= j < i ==> a@[j]@ == b@[j]@,
        decreases a@.len() - i,
    {
        let x = &a[i];
        let y = &b[i];
        if !(same_name(&x.v_name, &y.v_name) && same(x.info.path.as_str(), y.info.path.as_str())
            && same(x.info.digest.as_str(), y.info.digest.as_str())) {
            proof {
                assert(input_views(a@)[i as int] != input_views(b@)[i as int]);
            }
            return false;
        }
        i += 1;
    }
    proof {
        assert(input_views(a@) =~= input_views(b@));
    }
    true
}

/// Whether two units say the same.
pub fn same_unit(a: &CompilationUnit, b: &CompilationUnit) -> (r: bool)
    ensures
        r == (a@ == b@),
{
    let r: bool = same_name(&a.v_name, &b.v_name) && same_inputs(
        &a.required_input,
        &b.required_input,
    ) && same_texts(&a.argument, &b.argument) && same_texts(&a.source_file, &b.source_file) && same(
        a.output_key.as_str(),
        b.output_key.as_str(),
    ) && same(a.working_directory.as_str(), b.working_directory.as_str()) && same(
        a.entry_context.as_str(),
        b.entry_context.as_str(),
    );
    proof {
        if r {
            assert(a@ =~= b@);
        }
    }
    r
}

/// The bytes of a unit in an archive of its own, where it is to say `changed`:
/// the bytes it was read from, if it was not changed, or else a fresh encoding.
pub open spec fn sub_unit_bytes(unit: UnitView, changed: CompilationUnitView) -> Seq<u8> {
    match unit.raw_proto {
        Some(raw) if changed == unit.cu => raw,
        _ => indexed_bytes(changed),
    }
}

/// Encodes a unit for an archive of its own, where it is to say `changed`.
pub fn sub_unit(unit: &Unit, changed: CompilationUnit) -> (r: Vec<u8>)
    ensures
        r@ == sub_unit_bytes(unit@, changed@),
{
    if let Some(raw) = &unit.raw_proto {
        if same_unit(&changed, &unit.cu.unit) {
            let mut r: Vec<u8> = Vec::new();
            r.extend_from_slice(raw.as_slice());
            proof {
                assert(r@ =~= raw@);
            }
            return r;
        }
    }
    encode_indexed_compilation(&IndexedCompilation { unit: changed })
}

/// What is written for a changed unit says what it was changed to.
pub proof fn lemma_sub_unit_decodes(unit: UnitView, changed: CompilationUnitView)
    requires
        unit.faithful(),
        sub_unit_bytes(unit, changed).len() <= usize::MAX,
    ensures
        indexed_of(sub_unit_bytes(unit, changed)) == Ok::<CompilationUnitView, WireError>(changed),
{
    if !(unit.raw_proto is Some && changed == unit.cu) {
        lemma_indexed_round_trip(changed);
    }
}

// ------------------------------------------------------------------- laws

/// Why a read ended early.
pub enum ReadFault {
    /// A proto-encoded unit could not be decoded.
    Proto(WireError),
    /// A JSON-encoded unit could not be decoded.
    Json,
}

/// What each JSON-encoded entry decodes to, by its place; nothing where it
/// cannot be decoded.
pub type JsonUnits = spec_fn(int) -> Option<CompilationUnitView>;

/// The read after the next entry, where the entry at each place holds these
/// bytes.
pub open spec fn after_entry(
    v: ReadView,
    filter: Option<PathTest>,
    bytes: spec_fn(int) -> Seq<u8>,
    json: JsonUnits,
) -> Result<ReadView, ReadFault> {
    let e = v.todo[0];
    if is_twin(v) {
        Ok(passed(v, filter is Some))
    } else if e.proto {
        match after_proto(v, filter, bytes(e.index)) {
            Err(error) => Err(ReadFault::Proto(error)),
            Ok(next) => Ok(next),
        }
    } else {
        match after_json(after_seen(v, filter, bytes(e.index)), filter, json(e.index)) {
            None => Err(ReadFault::Json),
            Some(next) => Ok(next),
        }
    }
}

/// The units that a read ends with, where the entry at each place holds these
/// bytes.
pub open spec fn read_all(
    v: ReadView,
    filter: Option<PathTest>,
    bytes: spec_fn(int) -> Seq<u8>,
    json: JsonUnits,
) -> Result<Seq<UnitView>, ReadFault>
    decreases v.todo.len(),
{
    if v.todo.len() == 0 {
        Ok(v.units)
    } else {
        match after_entry(v, filter, bytes, json) {
            Err(fault) => Err(fault),
            Ok(next) => read_all(next, filter, bytes, json),
        }
    }
}

/// What an entry says.
pub open spec fn entry_unit(
    e: EntryView,
    bytes: spec_fn(int) -> Seq<u8>,
    json: JsonUnits,
) -> Option<CompilationUnitView> {
    if e.proto {
        match indexed_of(bytes(e.index)) {
            Ok(cu) => Some(cu),
            Err(_) => None,
        }
    } else {
        json(e.index)
    }
}

/// The unit that an entry is read as.
pub open spec fn unit_at(
    e: EntryView,
    bytes: spec_fn(int) -> Seq<u8>,
    json: JsonUnits,
) -> UnitView {
    UnitView {
        sha: e.sha,
        cu: entry_unit(e, bytes, json)->0,
        raw_proto: if e.proto {
            Some(bytes(e.index))
        } else {
            None
        },
    }
}

/// A peek refuses no proto-encoded unit whose primary path the filter accepts.
proof fn lemma_peek_keeps(filter: Option<PathTest>, bytes: Seq<u8>)
    requires
        indexed_of(bytes) is Ok,
        takes_unit(filter, indexed_of(bytes)->Ok_0),
    ensures
        !peek_refused(filter, bytes, true),
{
    lemma_peek_agrees(bytes);
    assert(peeked(bytes, true) matches Some(p) ==> p == filter_path(indexed_of(bytes)->Ok_0));
}

/// What reading one entry does: a twin is passed over; an entry that decodes
/// to a unit that the filter takes becomes that unit; and nothing else becomes
/// one.
proof fn lemma_after_entry(
    v: ReadView,
    filter: Option<PathTest>,
    bytes: spec_fn(int) -> Seq<u8>,
    json: JsonUnits,
)
    requires
        v.todo.len() > 0,
        v.pending is None,
    ensures
        ({
            let e = v.todo[0];
            let unit = entry_unit(e, bytes, json);
            let taken = !is_twin(v) && unit is Some && takes_unit(filter, unit->0);
            let after = after_entry(v, filter, bytes, json);
            &&& after matches Ok(next) ==> {
                &&& next.todo == v.todo.drop_first()
                &&& next.pending is None
                &&& next.protos == (if e.proto {
                    v.protos.insert(e.sha)
                } else {
                    v.protos
                })
                &&& next.units == (if taken {
                    v.units.push(unit_at(e, bytes, json))
                } else {
                    v.units
                })
            }
            &&& is_twin(v) || unit is Some ==> after is Ok
            &&& filter is None && !is_twin(v) && unit is None ==> after is Err
        }),
{
    let e = v.todo[0];
    if e.proto && indexed_of(bytes(e.index)) is Ok && takes_unit(
        filter,
        indexed_of(bytes(e.index))->Ok_0,
    ) {
        lemma_peek_keeps(filter, bytes(e.index));
    }
}

/// What holds of a read at every step.
spec fn read_sound(v: ReadView, filter: Option<PathTest>) -> bool {
    &&& v.pending is None
    &&& forall|i: int| 0 <= i < v.units.len() ==> (#[trigger] v.units[i]).faithful()
    &&& forall|i: int|
        0 <= i < v.units.len() ==> takes_unit(filter, (#[trigger] v.units[i]).cu)
    &&& forall|i: int|
        0 <= i < v.units.len() ==> (v.protos.contains((#[trigger] v.units[i]).sha)
            <==> v.units[i].raw_proto is Some)
    &&& (exists|i: int| 0 <= i < v.units.len() && (#[trigger] v.units[i]).raw_proto is None)
        ==> forall|k: int| 0 <= k < v.todo.len() ==> !(#[trigger] v.todo[k]).proto
    &&& forall|k: int, l: int|
        0 <= k <= l < v.todo.len() && (#[trigger] v.todo[l]).proto ==> (#[trigger] v.todo[k]).proto
}

/// Reading one entry keeps what holds of a read.
proof fn lemma_sound_after(
    v: ReadView,
    filter: Option<PathTest>,
    bytes: spec_fn(int) -> Seq<u8>,
    json: JsonUnits,
)
    requires
        read_sound(v, filter),
        v.todo.len() > 0,
    ensures
        after_entry(v, filter, bytes, json) matches Ok(next) ==> read_sound(next, filter),
{
    lemma_after_entry(v, filter, bytes, json);
    if let Ok(next) = after_entry(v, filter, bytes, json) {
        let n = v.units.len() as int;
        let e = v.todo[0];
        assert forall|k: int, l: int|
            0 <= k <= l < next.todo.len() && (#[trigger] next.todo[l]).proto implies (
        #[trigger] next.todo[k]).proto by {
            assert(next.todo[l] == v.todo[l + 1] && next.todo[k] == v.todo[k + 1]);
        }
        if !e.proto {
            assert forall|k: int| 0 <= k < next.todo.len() implies !(
            #[trigger] next.todo[k]).proto by {
                assert(next.todo[k] == v.todo[k + 1]);
                assert(!v.todo[0].proto);
            }
        } else {
            assert forall|i: int| 0 <= i < n implies (#[trigger] v.units[i]).raw_proto is Some by {
                if v.units[i].raw_proto is None {
                    assert(!v.todo[0].proto);
                }
            }
        }
        assert forall|i: int| 0 <= i < next.units.len() implies (
        #[trigger] next.units[i]).faithful() && takes_unit(filter, next.units[i].cu) && (
        next.protos.contains(next.units[i].sha) <==> next.units[i].raw_proto is Some) && (e.proto
            ==> next.units[i].raw_proto is Some) by {
            if i < n {
                assert(next.units[i] == v.units[i]);
            }
        }
    }
}

/// What a finished read may be relied on for.
pub open spec fn read_result(units: Seq<UnitView>, filter: Option<PathTest>) -> bool {
    &&& forall|i: int| 0 <= i < units.len() ==> (#[trigger] units[i]).faithful()
    &&& forall|i: int|
        0 <= i < units.len() ==> takes_unit(filter, (#[trigger] units[i]).cu)
    &&& forall|i: int, j: int|
        0 <= i < units.len() && 0 <= j < units.len() && (
        #[trigger] units[i]).raw_proto is Some && (#[trigger] units[j]).raw_proto is None
            ==> units[i].sha != units[j].sha
}

proof fn lemma_read_from(
    v: ReadView,
    filter: Option<PathTest>,
    bytes: spec_fn(int) -> Seq<u8>,
    json: JsonUnits,
)
    requires
        read_sound(v, filter),
    ensures
        read_all(v, filter, bytes, json) matches Ok(units) ==> read_result(units, filter),
    decreases v.todo.len(),
{
    if v.todo.len() > 0 {
        lemma_sound_after(v, filter, bytes, json);
        lemma_after_entry(v, filter, bytes, json);
        if let Ok(next) = after_entry(v, filter, bytes, json) {
            lemma_read_from(next, filter, bytes, json);
        }
    }
}

proof fn lemma_entries_kind(names: Seq<Seq<char>>)
    ensures
        forall|i: int|
            0 <= i < proto_entries(names).len() ==> (#[trigger] proto_entries(names)[i]).proto,
        forall|i: int|
            0 <= i < json_entries(names).len() ==> !(#[trigger] json_entries(names)[i]).proto,
    decreases names.len(),
{
    if names.len() > 0 {
        let front = names.drop_last();
        lemma_entries_kind(front);
        assert forall|i: int| 0 <= i < proto_entries(names).len() implies (
        #[trigger] proto_entries(names)[i]).proto by {
            if i < proto_entries(front).len() {
                assert(proto_entries(names)[i] == proto_entries(front)[i]);
            }
        }
        assert forall|i: int| 0 <= i < json_entries(names).len() implies !(
        #[trigger] json_entries(names)[i]).proto by {
            if i < json_entries(front).len() {
                assert(json_entries(names)[i] == json_entries(front)[i]);
            }
        }
    }
}

/// Of every finished read it holds that the bytes kept with a unit decode to
/// it, that the filter takes every unit, and that no JSON unit stands beside
/// its proto twin.
pub proof fn lemma_read_result(
    names: Seq<Seq<char>>,
    filter: Option<PathTest>,
    bytes: spec_fn(int) -> Seq<u8>,
    json: JsonUnits,
)
    ensures
        read_all(read_start(names), filter, bytes, json) matches Ok(units) ==> read_result(
            units,
            filter,
        ),
{
    let v = read_start(names);
    lemma_entries_kind(names);
    let p = proto_entries(names);
    assert forall|k: int, l: int|
        0 <= k <= l < v.todo.len() && (#[trigger] v.todo[l]).proto implies (
    #[trigger] v.todo[k]).proto by {
        if l >= p.len() {
            assert(v.todo[l] == json_entries(names)[l - p.len()]);
        }
        assert(v.todo[k] == p[k]);
    }
    lemma_read_from(v, filter, bytes, json);
}

/// A unit of this name is among the units.
pub open spec fn has_unit(units: Seq<UnitView>, sha: Seq<char>) -> bool {
    exists|i: int| 0 <= i < units.len() && (#[trigger] units[i]).sha == sha
}

proof fn lemma_unit_stays(
    v: ReadView,
    filter: Option<PathTest>,
    bytes: spec_fn(int) -> Seq<u8>,
    json: JsonUnits,
    u: UnitView,
)
    requires
        v.pending is None,
        v.units.contains(u),
    ensures
        read_all(v, filter, bytes, json) matches Ok(units) ==> units.contains(u),
    decreases v.todo.len(),
{
    if v.todo.len() > 0 {
        lemma_after_entry(v, filter, bytes, json);
        if let Ok(next) = after_entry(v, filter, bytes, json) {
            let i = v.units.index_of(u);
            assert(next.units[i] == u);
            lemma_unit_stays(next, filter, bytes, json, u);
        }
    }
}

/// An entry that is still to be read, that has no proto twin, and whose unit
/// the filter takes is read.
proof fn lemma_entry_taken(
    v: ReadView,
    filter: Option<PathTest>,
    bytes: spec_fn(int) -> Seq<u8>,
    json: JsonUnits,
    k: int,
)
    requires
        v.pending is None,
        0 <= k < v.todo.len(),
        entry_unit(v.todo[k], bytes, json) matches Some(cu) && takes_unit(filter, cu),
        !v.todo[k].proto ==> !v.protos.contains(v.todo[k].sha) && forall|l: int|
            0 <= l < k && (#[trigger] v.todo[l]).proto ==> v.todo[l].sha != v.todo[k].sha,
    ensures
        read_all(v, filter, bytes, json) matches Ok(units) ==> units.contains(
            unit_at(v.todo[k], bytes, json),
        ),
    decreases k,
{
    let e = v.todo[k];
    lemma_after_entry(v, filter, bytes, json);
    if let Ok(next) = after_entry(v, filter, bytes, json) {
        if k == 0 {
            let u = unit_at(e, bytes, json);
            assert(next.units[v.units.len() as int] == u);
            lemma_unit_stays(next, filter, bytes, json, u);
        } else {
            assert(next.todo[k - 1] == e);
            if !e.proto {
                assert(v.todo[0].proto ==> v.todo[0].sha != e.sha);
                assert forall|l: int| 0 <= l < k - 1 && (
                #[trigger] next.todo[l]).proto implies next.todo[l].sha != e.sha by {
                    assert(next.todo[l] == v.todo[l + 1]);
                }
            }
            lemma_entry_taken(next, filter, bytes, json, k - 1);
        }
    }
}

/// A unit with this name has a proto-encoded entry in the archive.
pub open spec fn has_proto_entry(names: Seq<Seq<char>>, sha: Seq<char>) -> bool {
    exists|i: int|
        0 <= i < proto_entries(names).len() && (#[trigger] proto_entries(names)[i]).sha == sha
}

/// A read handles every unit, whatever its encoding: each entry that can be
/// decoded and whose unit the filter, if there is one, accepts is read as it
/// is, unless it is JSON and has a proto twin.
pub proof fn lemma_read_complete(
    names: Seq<Seq<char>>,
    filter: Option<PathTest>,
    bytes: spec_fn(int) -> Seq<u8>,
    json: JsonUnits,
    k: int,
)
    requires
        0 <= k < read_start(names).todo.len(),
        entry_unit(read_start(names).todo[k], bytes, json) matches Some(cu) && takes_unit(
            filter,
            cu,
        ),
        read_start(names).todo[k].proto || !has_proto_entry(
            names,
            read_start(names).todo[k].sha,
        ),
    ensures
        read_all(read_start(names), filter, bytes, json) matches Ok(units) ==> units.contains(
            unit_at(read_start(names).todo[k], bytes, json),
        ),
{
    let v = read_start(names);
    let p = proto_entries(names);
    lemma_entries_kind(names);
    if !v.todo[k].proto {
        assert forall|l: int| 0 <= l < k && (#[trigger] v.todo[l]).proto implies v.todo[l].sha
            != v.todo[k].sha by {
            if l >= p.len() {
                assert(v.todo[l] == json_entries(names)[l - p.len()]);
            }
            assert(v.todo[l] == p[l]);
        }
    }
    lemma_entry_taken(v, filter, bytes, json, k);
}

/// No unit is missing from a read without a filter: whatever its encoding,
/// a unit of its name is among the result.
pub proof fn lemma_none_missing(
    names: Seq<Seq<char>>,
    bytes: spec_fn(int) -> Seq<u8>,
    json: JsonUnits,
    k: int,
)
    requires
        0 <= k < read_start(names).todo.len(),
    ensures
        read_all(read_start(names), None, bytes, json) matches Ok(units) ==> has_unit(
            units,
            read_start(names).todo[k].sha,
        ),
{
    let v = read_start(names);
    let e = v.todo[k];
    let p = proto_entries(names);
    lemma_entries_kind(names);
    if read_all(v, None, bytes, json) is Ok {
        let units = read_all(v, None, bytes, json)->Ok_0;
        if e.proto || !has_proto_entry(names, e.sha) {
            lemma_all_decode(v, bytes, json, k);
            lemma_read_complete(names, None, bytes, json, k);
            let i = units.index_of(unit_at(e, bytes, json));
            assert(units[i].sha == e.sha);
        } else {
            let m = choose|m: int| 0 <= m < p.len() && (#[trigger] p[m]).sha == e.sha;
            assert(v.todo[m] == p[m]);
            lemma_all_decode(v, bytes, json, m);
            lemma_read_complete(names, None, bytes, json, m);
            let i = units.index_of(unit_at(p[m], bytes, json));
            assert(units[i].sha == e.sha);
        }
    }
}

/// Where a read without a filter comes to its end, every entry without a proto
/// twin could be decoded.
proof fn lemma_all_decode(
    v: ReadView,
    bytes: spec_fn(int) -> Seq<u8>,
    json: JsonUnits,
    k: int,
)
    requires
        v.pending is None,
        read_all(v, None, bytes, json) is Ok,
        0 <= k < v.todo.len(),
        !v.todo[k].proto ==> !v.protos.contains(v.todo[k].sha) && forall|l: int|
            0 <= l < k && (#[trigger] v.todo[l]).proto ==> v.todo[l].sha != v.todo[k].sha,
    ensures
        entry_unit(v.todo[k], bytes, json) is Some,
    decreases k,
{
    lemma_after_entry(v, None, bytes, json);
    let e = v.todo[k];
    let next = after_entry(v, None, bytes, json)->Ok_0;
    if k > 0 {
        assert(next.todo[k - 1] == e);
        if !e.proto {
            assert(v.todo[0].proto ==> v.todo[0].sha != e.sha);
            assert forall|l: int| 0 <= l < k - 1 && (
            #[trigger] next.todo[l]).proto implies next.todo[l].sha != e.sha by {
                assert(next.todo[l] == v.todo[l + 1]);
            }
        }
        lemma_all_decode(next, bytes, json, k - 1);
    }
}

/// The units that the filter takes, in their order.
pub open spec fn taken_units(units: Seq<UnitView>, filter: PathTest) -> Seq<UnitView> {
    units.filter(|u: UnitView| filter(filter_path(u.cu)))
}

proof fn lemma_taken_push(units: Seq<UnitView>, filter: PathTest, u: UnitView)
    ensures
        taken_units(units.push(u), filter) == (if filter(filter_path(u.cu)) {
            taken_units(units, filter).push(u)
        } else {
            taken_units(units, filter)
        }),
{
    reveal(Seq::filter);
    assert(units.push(u).drop_last() =~= units);
}

/// A read without a filter and one with it, at the same entry.
proof fn lemma_filtered_from(
    v: ReadView,
    w: ReadView,
    filter: PathTest,
    bytes: spec_fn(int) -> Seq<u8>,
    json: JsonUnits,
)
    requires
        v.pending is None,
        w.pending is None,
        v.todo == w.todo,
        v.protos == w.protos,
        w.units == taken_units(v.units, filter),
        read_all(v, None, bytes, json) is Ok,
    ensures
        read_all(w, Some(filter), bytes, json) == Ok::<Seq<UnitView>, ReadFault>(
            taken_units(read_all(v, None, bytes, json)->Ok_0, filter),
        ),
    decreases v.todo.len(),
{
    if v.todo.len() > 0 {
        lemma_after_entry(v, None, bytes, json);
        lemma_after_entry(w, Some(filter), bytes, json);
        lemma_taken_push(v.units, filter, unit_at(v.todo[0], bytes, json));
        let next = after_entry(v, None, bytes, json)->Ok_0;
        let also = after_entry(w, Some(filter), bytes, json)->Ok_0;
        lemma_filtered_from(next, also, filter, bytes, json);
    }
}

/// A filtered read gives, of the units that a read without a filter gives,
/// exactly those whose primary path the filter takes, whatever their encoding,
/// in the same order. Looking ahead for the path drops none that a full decode
/// would have kept.
pub proof fn lemma_filtered(
    names: Seq<Seq<char>>,
    filter: PathTest,
    bytes: spec_fn(int) -> Seq<u8>,
    json: JsonUnits,
)
    requires
        read_all(read_start(names), None, bytes, json) is Ok,
    ensures
        read_all(read_start(names), Some(filter), bytes, json) == Ok::<Seq<UnitView>, ReadFault>(
            taken_units(read_all(read_start(names), None, bytes, json)->Ok_0, filter),
        ),
{
    let v = read_start(names);
    reveal(Seq::filter);
    assert(taken_units(v.units, filter) =~= v.units);
    lemma_filtered_from(v, v, filter, bytes, json);
}

/// A read without a filter keeps every proto-encoded unit with its bytes as
/// they are: where a unit is stored in both encodings, the proto wins.
pub proof fn lemma_proto_wins(
    names: Seq<Seq<char>>,
    bytes: spec_fn(int) -> Seq<u8>,
    json: JsonUnits,
    k: int,
)
    requires
        0 <= k < proto_entries(names).len(),
    ensures
        read_all(read_start(names), None, bytes, json) matches Ok(units) ==> units.contains(
            unit_at(proto_entries(names)[k], bytes, json),
        ),
{
    let v = read_start(names);
    lemma_entries_kind(names);
    assert(v.todo[k] == proto_entries(names)[k]);
    if read_all(v, None, bytes, json) is Ok {
        lemma_all_decode(v, bytes, json, k);
        lemma_read_complete(names, None, bytes, json, k);
    }
}

/// The names in an archive that was written of these units and files.
pub open spec fn archive_names(shas: Seq<Seq<char>>, files: Seq<Seq<char>>) -> Seq<Seq<char>> {
    archive_directories() + shas.map_values(|s: Seq<char>| unit_name(s)) + files.map_values(
        |d: Seq<char>| file_name(d),
    )
}

/// A name that a unit's entry can have.
pub open spec fn is_entry_name(sha: Seq<char>) -> bool {
    sha.len() > 0 && !sha.contains('/')
}

/// The entries of the units in an archive that was written of them.
spec fn written_entries(shas: Seq<Seq<char>>) -> Seq<EntryView> {
    Seq::new(shas.len(), |i: int| EntryView { index: 3 + i, sha: shas[i], proto: true })
}

proof fn lemma_unit_name(sha: Seq<char>)
    requires
        is_entry_name(sha),
    ensures
        entry_below(unit_name(sha), "root/pbunits/"@) == Some(sha),
{
    let p = "root/pbunits/"@;
    assert(unit_name(sha).skip(p.len() as int) =~= sha);
}

/// What does not begin with the letter that the directory has there is not an
/// entry of it.
proof fn lemma_not_below(name: Seq<char>, prefix: Seq<char>, i: int)
    requires
        0 <= i < prefix.len(),
        i >= name.len() || name[i] != prefix[i],
    ensures
        entry_below(name, prefix) is None,
{
}

proof fn lemma_file_name(digest: Seq<char>)
    ensures
        entry_below(file_name(digest), "root/pbunits/"@) is None,
        entry_below(file_name(digest), "root/units/"@) is None,
{
    reveal_strlit("root/files/");
    reveal_strlit("root/pbunits/");
    reveal_strlit("root/units/");
    assert(file_name(digest)[5] == 'f');
    lemma_not_below(file_name(digest), "root/pbunits/"@, 5);
    lemma_not_below(file_name(digest), "root/units/"@, 5);
}

proof fn lemma_directory_names()
    ensures
        proto_entries(archive_directories()) == Seq::<EntryView>::empty(),
        json_entries(archive_directories()) == Seq::<EntryView>::empty(),
{
    reveal_strlit("root/");
    reveal_strlit("root/pbunits/");
    reveal_strlit("root/files/");
    reveal_strlit("root/units/");
    let d = archive_directories();
    let d2 = d.drop_last();
    let d1 = d2.drop_last();
    let d0 = d1.drop_last();
    assert(d0.len() == 0 && d1.last() == "root/"@);
    assert(proto_entries(d0) =~= Seq::<EntryView>::empty());
    assert(json_entries(d0) =~= Seq::<EntryView>::empty());
    lemma_not_below("root/"@, "root/pbunits/"@, 5);
    lemma_not_below("root/"@, "root/units/"@, 5);
    assert(proto_entries(d1) =~= Seq::<EntryView>::empty());
    assert(json_entries(d1) =~= Seq::<EntryView>::empty());
    assert("root/pbunits/"@.skip("root/pbunits/"@.len() as int).len() == 0);
    lemma_not_below("root/pbunits/"@, "root/units/"@, 5);
    assert(proto_entries(d2) =~= Seq::<EntryView>::empty());
    assert(json_entries(d2) =~= Seq::<EntryView>::empty());
    lemma_not_below("root/files/"@, "root/pbunits/"@, 5);
    lemma_not_below("root/files/"@, "root/units/"@, 5);
}

proof fn lemma_written_entries(shas: Seq<Seq<char>>, files: Seq<Seq<char>>)
    requires
        forall|i: int| 0 <= i < shas.len() ==> is_entry_name(#[trigger] shas[i]),
    ensures
        proto_entries(archive_names(shas, files)) == written_entries(shas),
        json_entries(archive_names(shas, files)) == Seq::<EntryView>::empty(),
    decreases shas.len() + files.len(),
{
    let names = archive_names(shas, files);
    if files.len() > 0 {
        let front = files.drop_last();
        lemma_written_entries(shas, front);
        assert(names.drop_last() =~= archive_names(shas, front));
        assert(names.last() == file_name(files.last()));
        lemma_file_name(files.last());
    } else if shas.len() > 0 {
        let front = shas.drop_last();
        assert forall|i: int| 0 <= i < front.len() implies is_entry_name(#[trigger] front[i]) by {
            assert(front[i] == shas[i]);
        }
        lemma_written_entries(front, files);
        assert(names.drop_last() =~= archive_names(front, files));
        assert(names.last() == unit_name(shas.last()));
        assert(is_entry_name(shas[shas.len() - 1]));
        lemma_unit_name(shas.last());
        assert(names.len() == 3 + shas.len());
        assert(proto_entries(names) =~= written_entries(shas));
    } else {
        lemma_directory_names();
        assert(names =~= archive_directories());
        assert(written_entries(shas) =~= Seq::<EntryView>::empty());
    }
}

/// Proto-encoded units are read in their order, with what they say and their
/// bytes.
proof fn lemma_read_protos(
    v: ReadView,
    bytes: spec_fn(int) -> Seq<u8>,
    json: JsonUnits,
    cus: Seq<CompilationUnitView>,
)
    requires
        v.pending is None,
        cus.len() == v.todo.len(),
        forall|k: int|
            0 <= k < v.todo.len() ==> (#[trigger] v.todo[k]).proto && indexed_of(
                bytes(v.todo[k].index),
            ) == Ok::<CompilationUnitView, WireError>(cus[k]),
    ensures
        read_all(v, None, bytes, json) == Ok::<Seq<UnitView>, ReadFault>(
            v.units + Seq::new(
                v.todo.len(),
                |k: int|
                    UnitView {
                        sha: v.todo[k].sha,
                        cu: cus[k],
                        raw_proto: Some(bytes(v.todo[k].index)),
                    },
            ),
        ),
    decreases v.todo.len(),
{
    let tail = Seq::new(
        v.todo.len(),
        |k: int|
            UnitView {
                sha: v.todo[k].sha,
                cu: cus[k],
                raw_proto: Some(bytes(v.todo[k].index)),
            },
    );
    if v.todo.len() == 0 {
        assert(v.units + tail =~= v.units);
    } else {
        assert(v.todo[0].proto);
        lemma_after_entry(v, None, bytes, json);
        let next = after_entry(v, None, bytes, json)->Ok_0;
        let rest = cus.drop_first();
        assert forall|k: int| 0 <= k < next.todo.len() implies (#[trigger] next.todo[k]).proto
            && indexed_of(bytes(next.todo[k].index)) == Ok::<CompilationUnitView, WireError>(
            rest[k],
        ) by {
            assert(next.todo[k] == v.todo[k + 1]);
            assert(rest[k] == cus[k + 1]);
        }
        lemma_read_protos(next, bytes, json, rest);
        let next_tail = Seq::new(
            next.todo.len(),
            |k: int|
                UnitView {
                    sha: next.todo[k].sha,
                    cu: rest[k],
                    raw_proto: Some(bytes(next.todo[k].index)),
                },
        );
        assert(next.units + next_tail =~= v.units + tail);
    }
}

/// An archive that was written of units reads back as those units, in their
/// order, whatever files it holds beside them: `bytes` gives the contents of
/// each entry, and the units' entries stand behind the three directories.
pub proof fn lemma_archive_reads_back(
    shas: Seq<Seq<char>>,
    cus: Seq<CompilationUnitView>,
    files: Seq<Seq<char>>,
    bytes: spec_fn(int) -> Seq<u8>,
    json: JsonUnits,
)
    requires
        cus.len() == shas.len(),
        forall|i: int| 0 <= i < shas.len() ==> is_entry_name(#[trigger] shas[i]),
        forall|i: int|
            0 <= i < shas.len() ==> indexed_of(bytes(3 + i)) == Ok::<
                CompilationUnitView,
                WireError,
            >(#[trigger] cus[i]),
    ensures
        read_all(read_start(archive_names(shas, files)), None, bytes, json) == Ok::<
            Seq<UnitView>,
            ReadFault,
        >(
            Seq::new(
                shas.len(),
                |i: int| UnitView { sha: shas[i], cu: cus[i], raw_proto: Some(bytes(3 + i)) },
            ),
        ),
{
    lemma_written_entries(shas, files);
    let v = read_start(archive_names(shas, files));
    assert(v.todo =~= written_entries(shas));
    lemma_read_protos(v, bytes, json, cus);
    let read = Seq::new(
        v.todo.len(),
        |k: int|
            UnitView {
                sha: v.todo[k].sha,
                cu: cus[k],
                raw_proto: Some(bytes(v.todo[k].index)),
            },
    );
    assert(v.units + read =~= Seq::new(
        shas.len(),
        |i: int| UnitView { sha: shas[i], cu: cus[i], raw_proto: Some(bytes(3 + i)) },
    ));
}

/// The archive that is written of the units of a finished read holds the same
/// units, all of them proto-encoded.
proof fn lemma_normalized_reads_back(
    units: Seq<UnitView>,
    files: Seq<Seq<char>>,
    bytes: spec_fn(int) -> Seq<u8>,
    json: JsonUnits,
)
    requires
        read_result(units, None),
        forall|i: int|
            0 <= i < units.len() ==> is_entry_name((#[trigger] units[i]).sha) && bytes(3 + i)
                == units[i].proto_bytes() && units[i].proto_bytes().len() <= usize::MAX,
    ensures
        read_all(
            read_start(archive_names(units.map_values(|u: UnitView| u.sha), files)),
            None,
            bytes,
            json,
        ) == Ok::<Seq<UnitView>, ReadFault>(
            units.map_values(
                |u: UnitView| UnitView { raw_proto: Some(u.proto_bytes()), ..u },
            ),
        ),
{
    let shas = units.map_values(|u: UnitView| u.sha);
    let cus = units.map_values(|u: UnitView| u.cu);
    assert forall|i: int| 0 <= i < shas.len() implies is_entry_name(#[trigger] shas[i]) by {
        assert(is_entry_name(units[i].sha));
    }
    assert forall|i: int| 0 <= i < shas.len() implies indexed_of(bytes(3 + i)) == Ok::<
        CompilationUnitView,
        WireError,
    >(#[trigger] cus[i]) by {
        assert(units[i].faithful());
        lemma_proto_bytes_decode(units[i]);
    }
    lemma_archive_reads_back(shas, cus, files, bytes, json);
    assert(units.map_values(|u: UnitView| UnitView { raw_proto: Some(u.proto_bytes()), ..u })
        =~= Seq::new(
        shas.len(),
        |i: int| UnitView { sha: shas[i], cu: cus[i], raw_proto: Some(bytes(3 + i)) },
    ));
}

/// Of these files, those that an archive with these names holds.
pub open spec fn held(files: Seq<Seq<char>>, names: Seq<Seq<char>>) -> Seq<Seq<char>> {
    files.filter(|d: Seq<char>| names.contains(file_name(d)))
}

/// The entries of an archive that is written of these units and files, with
/// their contents. The files come out of an archive with these names, of whose
/// entries `contents` gives what they hold; one that it does not hold is left
/// out. The directories come first, followed by the units and the files.
pub open spec fn written_archive(
    units: Seq<(Seq<char>, Seq<u8>)>,
    files: Seq<Seq<char>>,
    names: Seq<Seq<char>>,
    contents: spec_fn(Seq<char>) -> Seq<u8>,
) -> Seq<(Seq<char>, Seq<u8>)> {
    archive_directories().map_values(|d: Seq<char>| (d, seq![])) + units.map_values(
        |u: (Seq<char>, Seq<u8>)| (unit_name(u.0), u.1),
    ) + held(files, names).map_values(|d: Seq<char>| (file_name(d), contents(file_name(d))))
}

/// What is written of units: their names, and their proto encoding.
pub open spec fn written_units(units: Seq<UnitView>) -> Seq<(Seq<char>, Seq<u8>)> {
    units.map_values(|u: UnitView| (u.sha, u.proto_bytes()))
}

/// The units as they are read back from where they were written.
pub open spec fn as_protos(units: Seq<UnitView>) -> Seq<UnitView> {
    units.map_values(|u: UnitView| UnitView { raw_proto: Some(u.proto_bytes()), ..u })
}

/// The names of an archive's entries.
pub open spec fn names_of(archive: Seq<(Seq<char>, Seq<u8>)>) -> Seq<Seq<char>> {
    archive.map_values(|e: (Seq<char>, Seq<u8>)| e.0)
}

proof fn lemma_entry_names(names: Seq<Seq<char>>)
    ensures
        forall|i: int|
            0 <= i < proto_entries(names).len() ==> is_entry_name(
                (#[trigger] proto_entries(names)[i]).sha,
            ),
        forall|i: int|
            0 <= i < json_entries(names).len() ==> is_entry_name(
                (#[trigger] json_entries(names)[i]).sha,
            ),
    decreases names.len(),
{
    if names.len() > 0 {
        let front = names.drop_last();
        lemma_entry_names(front);
        assert forall|i: int| 0 <= i < proto_entries(names).len() implies is_entry_name(
            (#[trigger] proto_entries(names)[i]).sha,
        ) by {
            if i < proto_entries(front).len() {
                assert(proto_entries(names)[i] == proto_entries(front)[i]);
            }
        }
        assert forall|i: int| 0 <= i < json_entries(names).len() implies is_entry_name(
            (#[trigger] json_entries(names)[i]).sha,
        ) by {
            if i < json_entries(front).len() {
                assert(json_entries(names)[i] == json_entries(front)[i]);
            }
        }
    }
}

/// The units that are read have names that entries can have.
proof fn lemma_read_names(
    v: ReadView,
    bytes: spec_fn(int) -> Seq<u8>,
    json: JsonUnits,
)
    requires
        v.pending is None,
        forall|i: int| 0 <= i < v.todo.len() ==> is_entry_name((#[trigger] v.todo[i]).sha),
        forall|i: int| 0 <= i < v.units.len() ==> is_entry_name((#[trigger] v.units[i]).sha),
    ensures
        read_all(v, None, bytes, json) matches Ok(units) ==> forall|i: int|
            0 <= i < units.len() ==> is_entry_name((#[trigger] units[i]).sha),
    decreases v.todo.len(),
{
    if v.todo.len() > 0 {
        let e = v.todo[0];
        let rest = v.todo.drop_first();
        assert(is_entry_name(e.sha));
        assert forall|i: int| 0 <= i < rest.len() implies is_entry_name(
            (#[trigger] rest[i]).sha,
        ) by {
            assert(rest[i] == v.todo[i + 1]);
        }
        lemma_after_entry(v, None, bytes, json);
        if let Ok(next) = after_entry(v, None, bytes, json) {
            assert forall|i: int| 0 <= i < next.units.len() implies is_entry_name(
                (#[trigger] next.units[i]).sha,
            ) by {
                if i < v.units.len() {
                    assert(next.units[i] == v.units[i]);
                }
            }
            lemma_read_names(next, bytes, json);
        }
    }
}

/// A file that an archive holds is among its stored files.
proof fn lemma_stored(names: Seq<Seq<char>>, digest: Seq<char>)
    requires
        names.contains(file_name(digest)),
        is_entry_name(digest),
    ensures
        stored_files(names).contains(digest),
    decreases names.len(),
{
    let front = names.drop_last();
    let p = "root/files/"@;
    if names.last() == file_name(digest) {
        assert(file_name(digest).skip(p.len() as int) =~= digest);
        assert(entry_below(names.last(), p) == Some(digest));
        let s = stored_files(names);
        assert(s[s.len() - 1] == digest);
    } else {
        let i = names.index_of(file_name(digest));
        assert(front[i] == file_name(digest));
        lemma_stored(front, digest);
        let j = stored_files(front).index_of(digest);
        assert(stored_files(names)[j] == digest);
    }
}

/// An archive that was written has no JSON-encoded unit.
pub proof fn lemma_no_json_written(
    units: Seq<(Seq<char>, Seq<u8>)>,
    files: Seq<Seq<char>>,
    names: Seq<Seq<char>>,
    contents: spec_fn(Seq<char>) -> Seq<u8>,
)
    ensures
        forall|i: int|
            0 <= i < written_archive(units, files, names, contents).len()
                ==> !"root/units/"@.is_prefix_of(
                (#[trigger] written_archive(units, files, names, contents)[i]).0,
            ),
{
    let made = written_archive(units, files, names, contents);
    reveal_strlit("root/");
    reveal_strlit("root/pbunits/");
    reveal_strlit("root/files/");
    reveal_strlit("root/units/");
    assert forall|i: int| 0 <= i < made.len() implies !"root/units/"@.is_prefix_of(
        (#[trigger] made[i]).0,
    ) by {
        let name = made[i].0;
        if "root/units/"@.is_prefix_of(name) {
            assert(name[5] == "root/units/"@[5]);
            if i < 3 {
                assert(name == archive_directories()[i]);
            } else if i < 3 + units.len() {
                assert(name == unit_name(units[i - 3].0));
                assert(name[5] == 'p');
            } else {
                assert(name == file_name(held(files, names)[i - 3 - units.len()]));
                assert(name[5] == 'f');
            }
        }
    }
}

/// An archive that was written holds each of the files that the archive they
/// come out of holds, with the same contents.
pub proof fn lemma_file_written(
    units: Seq<(Seq<char>, Seq<u8>)>,
    files: Seq<Seq<char>>,
    names: Seq<Seq<char>>,
    contents: spec_fn(Seq<char>) -> Seq<u8>,
    d: Seq<char>,
)
    requires
        files.contains(d),
        names.contains(file_name(d)),
    ensures
        written_archive(units, files, names, contents).contains(
            (file_name(d), contents(file_name(d))),
        ),
{
    let made = written_archive(units, files, names, contents);
    let holds = |d: Seq<char>| names.contains(file_name(d));
    let i = files.index_of(d);
    assert(holds(files[i]));
    files.lemma_filter_contains(holds, i);
    let j = held(files, names).index_of(d);
    assert(made[3 + units.len() + j] == (file_name(d), contents(file_name(d))));
}

/// The names in an archive that was written of units.
proof fn lemma_written_names(
    units: Seq<UnitView>,
    files: Seq<Seq<char>>,
    names: Seq<Seq<char>>,
    contents: spec_fn(Seq<char>) -> Seq<u8>,
)
    ensures
        names_of(written_archive(written_units(units), files, names, contents)) == archive_names(
            units.map_values(|u: UnitView| u.sha),
            held(files, names),
        ),
{
    assert(names_of(written_archive(written_units(units), files, names, contents))
        =~= archive_names(units.map_values(|u: UnitView| u.sha), held(files, names)));
}

/// Where an archive that was written of units holds each of them.
proof fn lemma_written_unit(
    units: Seq<UnitView>,
    files: Seq<Seq<char>>,
    names: Seq<Seq<char>>,
    contents: spec_fn(Seq<char>) -> Seq<u8>,
    i: int,
)
    requires
        0 <= i < units.len(),
    ensures
        written_archive(written_units(units), files, names, contents)[3 + i] == (
            unit_name(units[i].sha),
            units[i].proto_bytes(),
        ),
{
}

/// The units of a finished read have names that entries can have.
proof fn lemma_all_named_as_entries(
    names: Seq<Seq<char>>,
    bytes: spec_fn(int) -> Seq<u8>,
    json: JsonUnits,
)
    ensures
        read_all(read_start(names), None, bytes, json) matches Ok(units) ==> forall|i: int|
            0 <= i < units.len() ==> is_entry_name((#[trigger] units[i]).sha),
{
    lemma_entry_names(names);
    let v = read_start(names);
    assert forall|i: int| 0 <= i < v.todo.len() implies is_entry_name(
        (#[trigger] v.todo[i]).sha,
    ) by {
        let n = proto_entries(names).len();
        if i < n {
            assert(v.todo[i] == proto_entries(names)[i]);
        } else {
            assert(v.todo[i] == json_entries(names)[i - n]);
        }
    }
    lemma_read_names(v, bytes, json);
}

/// The units of a finished read, written to an archive with whatever files,
/// are read back from it as the same units in the same order, all of them
/// proto-encoded.
pub proof fn lemma_units_written(
    names: Seq<Seq<char>>,
    bytes: spec_fn(int) -> Seq<u8>,
    json: JsonUnits,
    contents: spec_fn(Seq<char>) -> Seq<u8>,
    units: Seq<UnitView>,
    files: Seq<Seq<char>>,
)
    requires
        read_all(read_start(names), None, bytes, json) == Ok::<Seq<UnitView>, ReadFault>(units),
        forall|i: int|
            0 <= i < units.len() ==> (#[trigger] units[i]).proto_bytes().len() <= usize::MAX,
    ensures
        ({
            let made = written_archive(written_units(units), files, names, contents);
            read_all(read_start(names_of(made)), None, |i: int| made[i].1, json) == Ok::<
                Seq<UnitView>,
                ReadFault,
            >(as_protos(units))
        }),
{
    let made = written_archive(written_units(units), files, names, contents);
    let at = |i: int| made[i].1;
    lemma_read_result(names, None, bytes, json);
    lemma_all_named_as_entries(names, bytes, json);
    lemma_written_names(units, files, names, contents);
    assert forall|i: int| 0 <= i < units.len() implies is_entry_name((#[trigger] units[i]).sha)
        && at(3 + i) == units[i].proto_bytes() && units[i].proto_bytes().len() <= usize::MAX by {
        lemma_written_unit(units, files, names, contents, i);
    }
    lemma_normalized_reads_back(units, held(files, names), at, json);
}

/// Of whatever archive, normalizing makes one that
/// - has no JSON-encoded unit,
/// - reads back as the same units in the same order, all of them
///   proto-encoded, and
/// - holds every file of the former, and every file that a unit names and the
///   former holds, with the same contents.
pub proof fn lemma_normalized(
    names: Seq<Seq<char>>,
    bytes: spec_fn(int) -> Seq<u8>,
    json: JsonUnits,
    contents: spec_fn(Seq<char>) -> Seq<u8>,
    units: Seq<UnitView>,
)
    requires
        read_all(read_start(names), None, bytes, json) == Ok::<Seq<UnitView>, ReadFault>(units),
        forall|i: int|
            0 <= i < units.len() ==> (#[trigger] units[i]).proto_bytes().len() <= usize::MAX,
    ensures
        ({
            let made = written_archive(
                written_units(units),
                carried(units, names),
                names,
                contents,
            );
            &&& forall|i: int|
                0 <= i < made.len() ==> !"root/units/"@.is_prefix_of((#[trigger] made[i]).0)
            &&& read_all(read_start(names_of(made)), None, |i: int| made[i].1, json) == Ok::<
                Seq<UnitView>,
                ReadFault,
            >(as_protos(units))
            &&& forall|d: Seq<char>|
                #![trigger file_name(d)]
                names.contains(file_name(d)) && (is_entry_name(d) || all_digests(units).contains(d))
                    ==> made.contains((file_name(d), contents(file_name(d))))
        }),
{
    let files = carried(units, names);
    let made = written_archive(written_units(units), files, names, contents);
    lemma_no_json_written(written_units(units), files, names, contents);
    lemma_units_written(names, bytes, json, contents, units, files);
    assert forall|d: Seq<char>|
        #![trigger file_name(d)]
        names.contains(file_name(d)) && (is_entry_name(d) || all_digests(units).contains(
            d,
        )) implies made.contains((file_name(d), contents(file_name(d)))) by {
        lemma_is_carried(units, names, d);
        lemma_file_written(written_units(units), files, names, contents, d);
    }
}

proof fn lemma_is_carried(units: Seq<UnitView>, names: Seq<Seq<char>>, d: Seq<char>)
    requires
        names.contains(file_name(d)),
        is_entry_name(d) || all_digests(units).contains(d),
    ensures
        carried(units, names).contains(d),
{
    let list = all_digests(units) + stored_files(names);
    if all_digests(units).contains(d) {
        let i = all_digests(units).index_of(d);
        assert(list[i] == d);
    } else {
        lemma_stored(names, d);
        let i = stored_files(names).index_of(d);
        assert(list[all_digests(units).len() + i] == d);
    }
    lemma_distinct(list);
    assert(list.contains(d));
}

/// The digest of a unit's input is among the digests of the units.
proof fn lemma_digest_named(inputs: Seq<FileInputView>, i: int)
    requires
        0 <= i < inputs.len(),
        inputs[i].info.digest.len() > 0,
    ensures
        digests(inputs).contains(inputs[i].info.digest),
    decreases inputs.len(),
{
    let front = inputs.drop_last();
    let all = digests(inputs);
    if i == front.len() {
        assert(all[all.len() - 1] == inputs[i].info.digest);
    } else {
        lemma_digest_named(front, i);
        let j = digests(front).index_of(inputs[i].info.digest);
        assert(all[j] == inputs[i].info.digest);
    }
}

proof fn lemma_all_named(units: Seq<UnitView>, k: int, d: Seq<char>)
    requires
        0 <= k < units.len(),
        digests(units[k].cu.required_input).contains(d),
    ensures
        all_digests(units).contains(d),
    decreases units.len(),
{
    let front = units.drop_last();
    let last = digests(units.last().cu.required_input);
    if k == front.len() {
        let j = last.index_of(d);
        assert(all_digests(units)[all_digests(front).len() + j] == d);
    } else {
        lemma_all_named(front, k, d);
        let j = all_digests(front).index_of(d);
        assert(all_digests(units)[j] == d);
    }
}

/// Every file that an input of a unit names, and that the archive which the
/// files come out of holds, is carried into an archive of the units with the
/// same contents.
pub proof fn lemma_named_files_written(
    units: Seq<UnitView>,
    names: Seq<Seq<char>>,
    contents: spec_fn(Seq<char>) -> Seq<u8>,
    k: int,
    i: int,
)
    requires
        0 <= k < units.len(),
        0 <= i < units[k].cu.required_input.len(),
        units[k].cu.required_input[i].info.digest.len() > 0,
        names.contains(file_name(units[k].cu.required_input[i].info.digest)),
    ensures
        ({
            let name = file_name(units[k].cu.required_input[i].info.digest);
            let needed = distinct(all_digests(units));
            written_archive(written_units(units), needed, names, contents).contains(
                (name, contents(name)),
            )
        }),
{
    let d = units[k].cu.required_input[i].info.digest;
    lemma_digest_named(units[k].cu.required_input, i);
    lemma_all_named(units, k, d);
    lemma_distinct(all_digests(units));
    lemma_file_written(written_units(units), distinct(all_digests(units)), names, contents, d);
}

/// An archive of one unit alone has no JSON-encoded unit, reads back as that
/// unit, saying what it was changed to, and holds every file that the unit
/// names and that the archive which it is taken from holds, with the same
/// contents.
pub proof fn lemma_extracted(
    unit: UnitView,
    changed: CompilationUnitView,
    names: Seq<Seq<char>>,
    contents: spec_fn(Seq<char>) -> Seq<u8>,
    json: JsonUnits,
)
    requires
        unit.faithful(),
        is_entry_name(unit.sha),
        sub_unit_bytes(unit, changed).len() <= usize::MAX,
    ensures
        ({
            let raw = sub_unit_bytes(unit, changed);
            let made = written_archive(
                seq![(unit.sha, raw)],
                distinct(digests(unit.cu.required_input)),
                names,
                contents,
            );
            &&& forall|i: int|
                0 <= i < made.len() ==> !"root/units/"@.is_prefix_of((#[trigger] made[i]).0)
            &&& read_all(read_start(names_of(made)), None, |i: int| made[i].1, json) == Ok::<
                Seq<UnitView>,
                ReadFault,
            >(seq![UnitView { sha: unit.sha, cu: changed, raw_proto: Some(raw) }])
            &&& forall|i: int|
                #![trigger unit.cu.required_input[i]]
                0 <= i < unit.cu.required_input.len() && unit.cu.required_input[i].info.digest.len()
                    > 0 && names.contains(file_name(unit.cu.required_input[i].info.digest))
                    ==> made.contains(
                    (
                        file_name(unit.cu.required_input[i].info.digest),
                        contents(file_name(unit.cu.required_input[i].info.digest)),
                    ),
                )
        }),
{
    let inputs = unit.cu.required_input;
    let raw = sub_unit_bytes(unit, changed);
    let written = seq![(unit.sha, raw)];
    let files = distinct(digests(inputs));
    let made = written_archive(written, files, names, contents);
    lemma_no_json_written(written, files, names, contents);
    assert(names_of(made) =~= archive_names(seq![unit.sha], held(files, names)));
    let at = |i: int| made[i].1;
    assert(made[3] == (unit_name(unit.sha), raw));
    assert(at(3) == raw);
    lemma_extracted_reads_back(unit, changed, held(files, names), at, json);
    assert forall|i: int|
        #![trigger inputs[i]]
        0 <= i < inputs.len() && inputs[i].info.digest.len() > 0 && names.contains(
            file_name(inputs[i].info.digest),
        ) implies made.contains(
        (file_name(inputs[i].info.digest), contents(file_name(inputs[i].info.digest))),
    ) by {
        lemma_digest_named(inputs, i);
        lemma_distinct(digests(inputs));
        lemma_file_written(written, files, names, contents, inputs[i].info.digest);
    }
}

/// An archive of one unit alone reads back as that unit, saying what it was
/// changed to.
proof fn lemma_extracted_reads_back(
    unit: UnitView,
    changed: CompilationUnitView,
    files: Seq<Seq<char>>,
    bytes: spec_fn(int) -> Seq<u8>,
    json: JsonUnits,
)
    requires
        unit.faithful(),
        is_entry_name(unit.sha),
        bytes(3) == sub_unit_bytes(unit, changed),
        sub_unit_bytes(unit, changed).len() <= usize::MAX,
    ensures
        read_all(read_start(archive_names(seq![unit.sha], files)), None, bytes, json) == Ok::<
            Seq<UnitView>,
            ReadFault,
        >(
            seq![
                UnitView {
                    sha: unit.sha,
                    cu: changed,
                    raw_proto: Some(sub_unit_bytes(unit, changed)),
                },
            ],
        ),
{
    lemma_sub_unit_decodes(unit, changed);
    lemma_archive_reads_back(seq![unit.sha], seq![changed], files, bytes, json);
    assert(Seq::new(
        1,
        |i: int|
            UnitView {
                sha: seq![unit.sha][i],
                cu: seq![changed][i],
                raw_proto: Some(bytes(3 + i)),
            },
    ) =~= seq![
        UnitView { sha: unit.sha, cu: changed, raw_proto: Some(sub_unit_bytes(unit, changed)) },
    ]);
}


// ------------------------------------------- what the operations are for

/// The phases by their names.
pub proof fn lemma_phases_are()
    ensures
        Phase::Read.label() == "read"@,
        Phase::Scan.label() == "scan"@,
        Phase::WriteUnits.label() == "write-units"@,
        Phase::WriteFiles.label() == "write-files"@,
{
}

/// Entries and units say what their fields hold.
pub proof fn lemma_entry_views_are(e: Entry, entries: Seq<Entry>, units: Seq<Unit>)
    ensures
        e@.index == e.index && e@.sha == e.sha@ && e@.proto == e.proto,
        entry_views(entries).len() == entries.len(),
        forall|i: int| 0 <= i < entries.len() ==> #[trigger] entry_views(entries)[i] == entries[i]@,
        unit_views(units).len() == units.len(),
        forall|i: int| 0 <= i < units.len() ==> #[trigger] unit_views(units)[i] == units[i]@,
{
}

/// What is below a directory: what is not empty and has no slash, behind the
/// directory; and nothing else.
pub proof fn lemma_entry_below_is(name: Seq<char>, prefix: Seq<char>, rest: Seq<char>)
    ensures
        rest.len() > 0 && !rest.contains('/') ==> entry_below(prefix + rest, prefix) == Some(rest),
        rest.len() == 0 || rest.contains('/') ==> entry_below(prefix + rest, prefix) is None,
        entry_below(name, prefix) matches Some(r) ==> name == prefix + r && r.len() > 0
            && !r.contains('/'),
{
    let all = prefix + rest;
    assert(all.subrange(0, prefix.len() as int) =~= prefix);
    assert(all.skip(prefix.len() as int) =~= rest);
    if let Some(r) = entry_below(name, prefix) {
        assert(name.subrange(0, prefix.len() as int) == prefix);
        assert(name =~= prefix + r);
    }
}

/// Which entries are units: those below `root/pbunits/` are proto-encoded, and
/// those below `root/units/` are JSON; each is known by its place and by what
/// stands behind the directory.
pub proof fn lemma_unit_entries_are(names: Seq<Seq<char>>, sha: Seq<char>, other: Seq<char>)
    requires
        sha.len() > 0,
        !sha.contains('/'),
        entry_below(other, "root/pbunits/"@) is None,
        entry_below(other, "root/units/"@) is None,
    ensures
        ({
            let here = names.len() as int;
            let proto = names.push("root/pbunits/"@ + sha);
            let json = names.push("root/units/"@ + sha);
            let none = names.push(other);
            &&& proto_entries(proto) == proto_entries(names).push(
                EntryView { index: here, sha, proto: true },
            )
            &&& json_entries(proto) == json_entries(names)
            &&& proto_entries(json) == proto_entries(names)
            &&& json_entries(json) == json_entries(names).push(
                EntryView { index: here, sha, proto: false },
            )
            &&& proto_entries(none) == proto_entries(names)
            &&& json_entries(none) == json_entries(names)
        }),
        proto_entries(seq![]).len() == 0,
        json_entries(seq![]).len() == 0,
{
    let pb = "root/pbunits/"@;
    let un = "root/units/"@;
    reveal_strlit("root/pbunits/");
    reveal_strlit("root/units/");
    lemma_entry_below_is(seq![], pb, sha);
    lemma_entry_below_is(seq![], un, sha);
    let json = un + sha;
    assert(json[5] == 'u' && pb[5] == 'p');
    lemma_not_below(json, pb, 5);
    assert(names.push(pb + sha).drop_last() =~= names);
    assert(names.push(json).drop_last() =~= names);
    assert(names.push(other).drop_last() =~= names);
}

/// Where a read starts: the proto-encoded units come first, and nothing has
/// been read.
pub proof fn lemma_read_start_is(names: Seq<Seq<char>>)
    ensures
        ({
            let v = read_start(names);
            &&& v.todo == proto_entries(names) + json_entries(names)
            &&& v.total == v.todo.len()
            &&& v.units.len() == 0
            &&& v.pending is None
            &&& v.scanned == 0
            &&& forall|s: Seq<char>| !(#[trigger] v.protos.contains(s))
        }),
{
}

/// What a read wants next, and what it passes over: a JSON entry whose unit has
/// a proto-encoded entry is passed over, whether or not that was kept, and any
/// other entry is wanted, in the order in which they are to be read.
pub proof fn lemma_wanted_is(v: ReadView, filtered: bool)
    ensures
        v.todo.len() == 0 ==> wanted(v) == Wanted::Nothing && settled(v, filtered) == v,
        v.todo.len() > 0 && v.todo[0].proto ==> wanted(v) == Wanted::Proto(
            v.todo[0].index as usize,
        ) && settled(v, filtered) == v,
        v.todo.len() > 0 && !v.todo[0].proto ==> wanted(v) == Wanted::Json(
            v.todo[0].index as usize,
        ),
        v.todo.len() > 0 && !v.todo[0].proto && !v.protos.contains(v.todo[0].sha) ==> settled(
            v,
            filtered,
        ) == v,
        v.todo.len() > 0 && !v.todo[0].proto && v.protos.contains(v.todo[0].sha) ==> settled(
            v,
            filtered,
        ) == settled(
            ReadView {
                todo: v.todo.drop_first(),
                scanned: if filtered {
                    v.scanned + 1
                } else {
                    v.scanned
                },
                ..v
            },
            filtered,
        ),
{
}

/// The path by which a unit is filtered is its primary path, and the empty one
/// where it has none; without a filter every unit is taken and no peek refuses
/// one.
pub proof fn lemma_filtering_is(
    c: CompilationUnitView,
    f: PathTest,
    p: Seq<char>,
    bytes: Seq<u8>,
    is_proto: bool,
)
    ensures
        takes_unit(None, c),
        primary_path_of(c) == Some(p) ==> takes_unit(Some(f), c) == f(p),
        primary_path_of(c) is None ==> takes_unit(Some(f), c) == f(seq![]),
        !peek_refused(None, bytes, is_proto),
        peeked(bytes, is_proto) == Some(p) ==> peek_refused(Some(f), bytes, is_proto) == !f(p),
        peeked(bytes, is_proto) is None ==> !peek_refused(Some(f), bytes, is_proto),
{
}

/// What a read does with a JSON unit: one that decodes is read where the filter
/// takes it; one that does not is passed over where a peek saw a path that the
/// filter refuses, and ends the read otherwise.
pub proof fn lemma_json_unit_is(
    v: ReadView,
    filter: Option<PathTest>,
    bytes: Seq<u8>,
    cu: CompilationUnitView,
)
    requires
        v.todo.len() > 0,
    ensures
        ({
            let seen = after_seen(v, filter, bytes);
            let read = after_json(seen, filter, Some(cu));
            let failed = after_json(seen, filter, None);
            let unit = UnitView { sha: v.todo[0].sha, cu, raw_proto: None };
            &&& seen.todo == v.todo.drop_first() && seen.units == v.units
            &&& takes_unit(filter, cu) ==> read is Some && read->0.units == v.units.push(unit)
            &&& !takes_unit(filter, cu) ==> read is Some && read->0.units == v.units
            &&& peek_refused(filter, bytes, false) ==> failed is Some && failed->0.units == v.units
            &&& !peek_refused(filter, bytes, false) ==> failed is None
        }),
{
}

/// What a read does with a proto-encoded unit: it is read where the filter takes
/// it, with its bytes, and is remembered in any case.
pub proof fn lemma_proto_unit_is(
    v: ReadView,
    filter: Option<PathTest>,
    bytes: Seq<u8>,
    cu: CompilationUnitView,
)
    requires
        v.todo.len() > 0,
        indexed_of(bytes) == Ok::<CompilationUnitView, WireError>(cu),
    ensures
        ({
            let r = after_proto(v, filter, bytes);
            let unit = UnitView { sha: v.todo[0].sha, cu, raw_proto: Some(bytes) };
            &&& r is Ok
            &&& takes_unit(filter, cu) ==> r->Ok_0.units == v.units.push(unit)
            &&& !takes_unit(filter, cu) ==> r->Ok_0.units == v.units
            &&& r->Ok_0.protos.contains(v.todo[0].sha)
            &&& r->Ok_0.todo == v.todo.drop_first()
        }),
{
    if takes_unit(filter, cu) {
        lemma_peek_keeps(filter, bytes);
    }
}

/// Where things stand in an archive that is written.
pub proof fn lemma_entry_names_are(sha: Seq<char>, digest: Seq<char>)
    ensures
        unit_name(sha) == "root/pbunits/"@ + sha,
        file_name(digest) == "root/files/"@ + digest,
        archive_directories() == seq!["root/"@, "root/pbunits/"@, "root/files/"@],
{
}

/// The digests that inputs name, and those of units: in order, without the
/// empty ones.
pub proof fn lemma_digests_are(
    inputs: Seq<FileInputView>,
    input: FileInputView,
    units: Seq<UnitView>,
    unit: UnitView,
)
    ensures
        digests(seq![]).len() == 0,
        input.info.digest.len() == 0 ==> digests(inputs.push(input)) == digests(inputs),
        input.info.digest.len() > 0 ==> digests(inputs.push(input)) == digests(inputs).push(
            input.info.digest,
        ),
        all_digests(seq![]).len() == 0,
        all_digests(units.push(unit)) == all_digests(units) + digests(unit.cu.required_input),
{
    assert(inputs.push(input).drop_last() =~= inputs);
    assert(units.push(unit).drop_last() =~= units);
}

/// The files that an archive holds: what stands below `root/files/`, in order.
pub proof fn lemma_stored_files_are(
    names: Seq<Seq<char>>,
    digest: Seq<char>,
    other: Seq<char>,
    units: Seq<UnitView>,
)
    requires
        digest.len() > 0,
        !digest.contains('/'),
        entry_below(other, "root/files/"@) is None,
    ensures
        stored_files(seq![]).len() == 0,
        stored_files(names.push("root/files/"@ + digest)) == stored_files(names).push(digest),
        stored_files(names.push(other)) == stored_files(names),
        forall|d: Seq<char>| #[trigger]
            carried(units, names).contains(d) <==> all_digests(units).contains(d) || stored_files(
                names,
            ).contains(d),
        carried(units, names).no_duplicates(),
{
    lemma_entry_below_is(seq![], "root/files/"@, digest);
    assert(names.push("root/files/"@ + digest).drop_last() =~= names);
    assert(names.push(other).drop_last() =~= names);
    let a = all_digests(units);
    let b = stored_files(names);
    lemma_distinct(a + b);
    assert forall|d: Seq<char>| #[trigger] carried(units, names).contains(d) <==> a.contains(d)
        || b.contains(d) by {
        assert(carried(units, names).contains(d) <==> (a + b).contains(d));
        if (a + b).contains(d) {
            let i = (a + b).index_of(d);
            if i < a.len() {
                assert(a[i] == d);
            } else {
                assert(b[i - a.len()] == d);
            }
        }
        if a.contains(d) {
            assert((a + b)[a.index_of(d)] == d);
        }
        if b.contains(d) {
            assert((a + b)[a.len() + b.index_of(d)] == d);
        }
    }
}

/// The bytes of a unit in an archive of its own: those that it was read from,
/// where nothing was changed, and else an encoding of what it was changed to.
pub proof fn lemma_sub_unit_is(unit: UnitView, changed: CompilationUnitView, raw: Seq<u8>)
    ensures
        unit.raw_proto == Some(raw) && changed == unit.cu ==> sub_unit_bytes(unit, changed) == raw,
        unit.raw_proto is None || changed != unit.cu ==> sub_unit_bytes(unit, changed)
            == indexed_bytes(changed),
{
}

} // verus!
