//! The streaming pipeline, in which each unit's entries are folded into a graph
//! store and then dropped, so that they are never all on disk.
//!
//! A run that was cut short goes on where it was: the units that were folded
//! are logged, and so are the names that were found in them.

use vstd::hash_set::StringHashSet;
use vstd::prelude::*;

use crate::archive::unit_views;
use crate::indexer::{Outcome, PlanItem, MAX_FAIL_TAILS};
use crate::kzip::{Unit, UnitView};
use crate::query::{below, default_name_index};
use crate::text::{
    is_space, lemma_split_push_text, lemma_texts_push, lines, lines_of, push_char, split, texts,
    trim, trim_end, trimmed, trimmed_end, without_return, Class,
};

verus! {

/// A batch of entry files is folded when it has this many files, ...
pub const BATCH_FILES: usize = 48;

/// ... or this many bytes.
pub const BATCH_BYTES: u64 = 2147483648;

// ------------------------------------------------------------------ start

/// Why a run cannot start.
#[derive(Clone, Copy, Debug, PartialEq, Eq, Structural)]
pub enum StartError {
    /// The serving table is there already.
    OutExists,
    /// The graph store is there already, and the run does not resume another.
    StoreExists,
}

/// Whether a run can start, and whether it goes on with what is there.
pub fn check_start(out_exists: bool, store_exists: bool, resume: bool) -> (r: Result<
    bool,
    StartError,
>)
    ensures
        r == (if out_exists {
            Err::<bool, StartError>(StartError::OutExists)
        } else if store_exists && !resume {
            Err::<bool, StartError>(StartError::StoreExists)
        } else {
            Ok::<bool, StartError>(store_exists)
        }),
{
    if out_exists {
        Err(StartError::OutExists)
    } else if store_exists && !resume {
        Err(StartError::StoreExists)
    } else {
        Ok(store_exists)
    }
}

/// Where the graph store of a serving table is, unless it is said: beside the
/// table.
pub fn default_store(out: &str) -> (r: String)
    ensures
        r@ == trim_end(out@, Class::Only('/')) + ".graphstore"@,
{
    let mut r: String = trimmed_end(out, Class::Only('/'));
    r.append(".graphstore");
    r
}

/// Where the units that were folded into a graph store are logged.
pub fn done_log_file(store: &str) -> (r: String)
    ensures
        r@ == store@ + ".done"@,
{
    let mut r: String = store.to_string();
    r.append(".done");
    r
}

/// Where the names that were found on the way to a graph store are logged.
pub fn names_log_file(store: &str) -> (r: String)
    ensures
        r@ == store@ + ".names"@,
{
    let mut r: String = store.to_string();
    r.append(".names");
    r
}

/// Where a run writes its name index: where it is said, or else into the
/// serving table; where what is said is empty, nowhere.
pub open spec fn names_path(said: Option<Seq<char>>, out: Seq<char>) -> Option<Seq<char>> {
    match said {
        Some(p) => if p.len() == 0 {
            None
        } else {
            Some(p)
        },
        None => Some(below(out, "scry3.names.idx"@)),
    }
}

/// Where a run writes its name index, if it writes one.
pub fn names_output(said: Option<&str>, out: &str) -> (r: Option<String>)
    ensures
        (match r {
            Some(p) => Some(p@),
            None => None::<Seq<char>>,
        }) == names_path(
            match said {
                Some(p) => Some(p@),
                None => None::<Seq<char>>,
            },
            out@,
        ),
{
    match said {
        Some(p) => if p.is_empty() {
            None
        } else {
            Some(p.to_string())
        },
        None => Some(default_name_index(out)),
    }
}

// --------------------------------------------------------------- done log

/// The units that a log names: a line each, without white space round it.
pub open spec fn logged(list: Seq<Seq<char>>) -> Set<Seq<char>>
    decreases list.len(),
{
    if list.len() == 0 {
        Set::empty()
    } else if trim(list.last()).len() == 0 {
        logged(list.drop_last())
    } else {
        logged(list.drop_last()).insert(trim(list.last()))
    }
}

/// The units that were folded, as the log names them.
pub struct DoneLog {
    shas: StringHashSet,
}

impl View for DoneLog {
    type V = Set<Seq<char>>;

    closed spec fn view(&self) -> Set<Seq<char>> {
        self.shas@
    }
}

impl DoneLog {
    /// The log of a run that has folded nothing.
    pub fn new() -> (r: Self)
        ensures
            r@ == Set::<Seq<char>>::empty(),
    {
        DoneLog { shas: StringHashSet::new() }
    }

    /// Reads a log.
    pub fn parse(text: &str) -> (r: Self)
        ensures
            r@ == logged(lines(text@)),
    {
        let list = lines_of(text);
        let ghost all = texts(list@);
        let mut shas: StringHashSet = StringHashSet::new();
        let mut i: usize = 0;
        while i < list.len()
            invariant
                i <= list@.len(),
                all == texts(list@),
                shas@ == logged(all.take(i as int)),
            decreases list@.len() - i,
        {
            proof {
                assert(all.take(i + 1).drop_last() =~= all.take(i as int));
                assert(all.take(i + 1).last() == list@[i as int]@);
            }
            let t = trimmed(list[i].as_str());
            if !t.as_str().is_empty() {
                let _ = shas.insert(t);
            }
            i += 1;
        }
        proof {
            assert(all.take(all.len() as int) =~= all);
        }
        DoneLog { shas }
    }

    /// How many units were folded.
    pub fn len(&self) -> (r: usize)
        ensures
            r == self@.len(),
    {
        self.shas.len()
    }

    /// Whether a unit was folded.
    pub fn holds(&self, sha: &str) -> (r: bool)
        ensures
            r == self@.contains(sha@),
    {
        self.shas.contains(sha)
    }
}

/// The line that logs a unit.
pub fn done_line(sha: &str) -> (r: String)
    ensures
        r@ == sha@.push('\n'),
{
    let mut r: String = sha.to_string();
    push_char(&mut r, '\n');
    r
}

/// The items whose units have not been folded.
pub open spec fn unfolded(
    items: Seq<PlanItem>,
    units: Seq<UnitView>,
    done: Set<Seq<char>>,
) -> Seq<PlanItem>
    decreases items.len(),
{
    if items.len() == 0 {
        seq![]
    } else if done.contains(units[items.last().unit as int].sha) {
        unfolded(items.drop_last(), units, done)
    } else {
        unfolded(items.drop_last(), units, done).push(items.last())
    }
}

/// Drops the items whose units have been folded.
pub fn skip_folded(items: &Vec<PlanItem>, units: &Vec<Unit>, done: &DoneLog) -> (r: Vec<PlanItem>)
    requires
        forall|i: int| 0 <= i < items@.len() ==> (#[trigger] items@[i]).unit < units@.len(),
    ensures
        r@ == unfolded(items@, unit_views(units@), done@),
{
    let ghost all = unit_views(units@);
    let mut r: Vec<PlanItem> = Vec::new();
    let mut i: usize = 0;
    while i < items.len()
        invariant
            i <= items@.len(),
            all == unit_views(units@),
            forall|i: int| 0 <= i < items@.len() ==> (#[trigger] items@[i]).unit < units@.len(),
            r@ == unfolded(items@.take(i as int), all, done@),
        decreases items@.len() - i,
    {
        let item = items[i];
        proof {
            assert(items@.take(i + 1).drop_last() =~= items@.take(i as int));
            assert(items@[i as int].unit < units@.len());
            assert(all[item.unit as int] == units@[item.unit as int]@);
        }
        if !done.holds(units[item.unit].sha.as_str()) {
            r.push(item);
        }
        i += 1;
    }
    proof {
        assert(items@.take(items@.len() as int) =~= items@);
    }
    r
}

// ---------------------------------------------------------------- batches

/// The units whose entries are folded together, and the size of those.
pub struct Batch {
    shas: Vec<String>,
    bytes: u64,
}

/// What a [`Batch`] holds.
#[verifier::ext_equal]
pub struct BatchView {
    pub shas: Seq<Seq<char>>,
    pub bytes: nat,
}

impl View for Batch {
    type V = BatchView;

    closed spec fn view(&self) -> BatchView {
        BatchView { shas: texts(self.shas@), bytes: self.bytes as nat }
    }
}

impl Batch {
    /// An empty batch.
    pub fn new() -> (r: Self)
        ensures
            r@ == (BatchView { shas: seq![], bytes: 0 }),
    {
        let r = Batch { shas: Vec::new(), bytes: 0 };
        proof {
            assert(r@.shas =~= seq![]);
        }
        r
    }

    /// Adds a unit with entries of this size. Returns whether the batch is to be folded.
    pub fn push(&mut self, sha: String, bytes: u64) -> (due: bool)
        requires
            old(self)@.bytes + bytes <= u64::MAX,
        ensures
            final(self)@ == (BatchView {
                shas: old(self)@.shas.push(sha@),
                bytes: old(self)@.bytes + bytes as nat,
            }),
            due == (final(self)@.shas.len() >= BATCH_FILES || final(self)@.bytes >= BATCH_BYTES),
    {
        proof {
            lemma_texts_push(self.shas@, sha);
        }
        self.shas.push(sha);
        self.bytes += bytes;
        proof {
            assert(texts(self.shas@).len() == self.shas@.len());
        }
        self.shas.len() >= BATCH_FILES || self.bytes >= BATCH_BYTES
    }

    /// The size of the batch.
    pub fn size(&self) -> (r: u64)
        ensures
            r == self@.bytes,
    {
        self.bytes
    }

    /// Takes the units out of the batch.
    pub fn take(&mut self) -> (r: Vec<String>)
        ensures
            texts(r@) == old(self)@.shas,
            final(self)@ == (BatchView { shas: seq![], bytes: 0 }),
    {
        let mut shas: Vec<String> = Vec::new();
        std::mem::swap(&mut shas, &mut self.shas);
        self.bytes = 0;
        proof {
            assert(self@.shas =~= seq![]);
        }
        shas
    }
}

// ------------------------------------------------------------------ stats

/// What came of a run's units.
#[derive(Debug)]
pub struct StreamStats {
    pub ok: usize,
    pub empty: usize,
    pub failed: usize,
    pub folded: usize,
    /// The messages of the first failures.
    pub fail_tails: Vec<String>,
}

impl StreamStats {
    /// The messages are those of the first failures.
    pub open spec fn wf(&self) -> bool {
        self.fail_tails@.len() == (if self.failed <= MAX_FAIL_TAILS {
            self.failed as int
        } else {
            MAX_FAIL_TAILS as int
        })
    }

    /// Counts what came of one more unit.
    pub fn record(&mut self, outcome: Outcome)
        requires
            old(self).wf(),
            old(self).ok + old(self).empty + old(self).failed < usize::MAX,
        ensures
            final(self).wf(),
            final(self).folded == old(self).folded,
            match outcome {
                Outcome::Failed(message) => {
                    &&& final(self).failed == old(self).failed + 1
                    &&& final(self).ok == old(self).ok
                    &&& final(self).empty == old(self).empty
                    &&& final(self).fail_tails@ == (if old(self).failed < MAX_FAIL_TAILS {
                        old(self).fail_tails@.push(message)
                    } else {
                        old(self).fail_tails@
                    })
                },
                Outcome::Empty => {
                    &&& final(self).failed == old(self).failed
                    &&& final(self).ok == old(self).ok
                    &&& final(self).empty == old(self).empty + 1
                    &&& final(self).fail_tails@ == old(self).fail_tails@
                },
                Outcome::Wrote(_) => {
                    &&& final(self).failed == old(self).failed
                    &&& final(self).ok == old(self).ok + 1
                    &&& final(self).empty == old(self).empty
                    &&& final(self).fail_tails@ == old(self).fail_tails@
                },
            },
    {
        match outcome {
            Outcome::Failed(message) => {
                self.failed += 1;
                if self.fail_tails.len() < MAX_FAIL_TAILS {
                    self.fail_tails.push(message);
                }
            },
            Outcome::Empty => {
                self.empty += 1;
            },
            Outcome::Wrote(_) => {
                self.ok += 1;
            },
        }
    }
}

impl Default for StreamStats {
    fn default() -> (r: Self)
        ensures
            r.wf(),
            r.ok == 0 && r.empty == 0 && r.failed == 0 && r.folded == 0,
    {
        StreamStats { ok: 0, empty: 0, failed: 0, folded: 0, fail_tails: Vec::new() }
    }
}

// ------------------------------------------------------------------- laws

/// What is left to do of a plan is what has not been folded: no unit that was
/// folded is indexed again, and every other one is.
pub proof fn lemma_resume(
    items: Seq<PlanItem>,
    units: Seq<UnitView>,
    done: Set<Seq<char>>,
    item: PlanItem,
)
    ensures
        unfolded(items, units, done).contains(item) <==> items.contains(item) && !done.contains(
            units[item.unit as int].sha,
        ),
    decreases items.len(),
{
    if items.len() > 0 {
        let front = items.drop_last();
        let last = items.last();
        lemma_resume(front, units, done, item);
        let before = unfolded(front, units, done);
        let now = unfolded(items, units, done);
        if now.contains(item) {
            let i = now.index_of(item);
            if i < before.len() {
                assert(before[i] == item);
                assert(before.contains(item));
                assert(items[front.index_of(item)] == item);
            } else {
                assert(items[items.len() - 1] == item);
            }
        }
        if items.contains(item) && !done.contains(units[item.unit as int].sha) {
            let i = items.index_of(item);
            if i < front.len() {
                assert(front[i] == item);
                assert(front.contains(item));
                assert(now[before.index_of(item)] == item);
            } else {
                assert(now[now.len() - 1] == item);
            }
        }
    }
}

/// A unit's name that the log can hold: not empty, no line feed in it, and no
/// white space at its ends.
pub open spec fn loggable(sha: Seq<char>) -> bool {
    &&& sha.len() > 0
    &&& !is_space(sha[0])
    &&& !is_space(sha.last())
    &&& forall|i: int| 0 <= i < sha.len() ==> #[trigger] sha[i] != '\n'
}

/// The log after these units were folded.
pub open spec fn log_text(shas: Seq<Seq<char>>) -> Seq<char>
    decreases shas.len(),
{
    if shas.len() == 0 {
        seq![]
    } else {
        log_text(shas.drop_last()) + shas.last().push('\n')
    }
}

proof fn lemma_split_log(shas: Seq<Seq<char>>)
    requires
        forall|i: int| 0 <= i < shas.len() ==> loggable(#[trigger] shas[i]),
    ensures
        split(log_text(shas), Class::Only('\n')) == shas.push(seq![]),
    decreases shas.len(),
{
    let feed = Class::Only('\n');
    if shas.len() == 0 {
        assert(split(log_text(shas), feed) =~= shas.push(seq![]));
    } else {
        let front = shas.drop_last();
        let sha = shas.last();
        assert(loggable(shas[shas.len() - 1]));
        assert forall|i: int| 0 <= i < front.len() implies loggable(#[trigger] front[i]) by {
            assert(front[i] == shas[i]);
        }
        lemma_split_log(front);
        let head = log_text(front);
        lemma_split_push_text(head, sha, feed);
        assert(front.push(seq![]).drop_last() =~= front);
        assert(Seq::<char>::empty() + sha =~= sha);
        assert(front.push(sha) =~= shas);
        let whole = log_text(shas);
        assert(whole.drop_last() =~= head + sha);
        assert(whole.last() == '\n');
    }
}

proof fn lemma_logged(shas: Seq<Seq<char>>)
    requires
        forall|i: int| 0 <= i < shas.len() ==> loggable(#[trigger] shas[i]),
    ensures
        logged(shas) == shas.to_set(),
    decreases shas.len(),
{
    if shas.len() == 0 {
        assert(shas.to_set() =~= Set::empty());
    } else {
        let front = shas.drop_last();
        let sha = shas.last();
        assert(loggable(shas[shas.len() - 1]));
        assert forall|i: int| 0 <= i < front.len() implies loggable(#[trigger] front[i]) by {
            assert(front[i] == shas[i]);
        }
        lemma_logged(front);
        assert(trim(sha) == sha);
        assert forall|s: Seq<char>| shas.contains(s) implies front.contains(s) || s == sha by {
            let i = shas.index_of(s);
            if i < front.len() {
                assert(front[i] == s);
            }
        }
        assert forall|s: Seq<char>| front.contains(s) implies shas.contains(s) by {
            assert(shas[front.index_of(s)] == s);
        }
        assert(shas.contains(sha)) by {
            assert(shas[shas.len() - 1] == sha);
        }
        assert(shas.to_set() =~= front.to_set().insert(sha));
    }
}

/// The log names the units that were written to it, and no others.
pub proof fn lemma_done_log(shas: Seq<Seq<char>>)
    requires
        forall|i: int| 0 <= i < shas.len() ==> loggable(#[trigger] shas[i]),
    ensures
        logged(lines(log_text(shas))) == shas.to_set(),
{
    lemma_split_log(shas);
    lemma_logged(shas);
    assert(shas.push(seq![]).drop_last() =~= shas);
    assert forall|i: int| 0 <= i < shas.len() implies without_return(#[trigger] shas[i])
        == shas[i] by {
        assert(loggable(shas[i]));
    }
    assert(shas.map_values(|p: Seq<char>| without_return(p)) =~= shas);
    assert(lines(log_text(shas)) =~= shas);
}


// ------------------------------------------- what the operations are for

/// When a batch is folded: at forty-eight files, or at two gigabytes.
pub proof fn lemma_batch_limits()
    ensures
        BATCH_FILES == 48,
        BATCH_BYTES == 2 * 1024 * 1024 * 1024,
{
}

/// Where a name index goes: where it is said, nowhere where nothing is said,
/// and else into the serving table.
pub proof fn lemma_names_path_is(p: Seq<char>, out: Seq<char>)
    ensures
        p.len() > 0 ==> names_path(Some(p), out) == Some(p),
        names_path(Some(seq![]), out) is None,
        out.len() > 0 && out.last() != '/' ==> names_path(None, out) == Some(
            out + seq!['/'] + "scry3.names.idx"@,
        ),
{
    crate::query::lemma_below_is(out, "scry3.names.idx"@);
}

/// Which units a log names: those of the lines that are not blank, without the
/// white space round them.
pub proof fn lemma_logged_are(list: Seq<Seq<char>>, line: Seq<char>)
    ensures
        logged(seq![]) == Set::<Seq<char>>::empty(),
        trim(line).len() > 0 ==> logged(list.push(line)) == logged(list).insert(trim(line)),
        trim(line).len() == 0 ==> logged(list.push(line)) == logged(list),
{
    assert(list.push(line).drop_last() =~= list);
}

/// What is left to do keeps its order.
pub proof fn lemma_unfolded_is(
    items: Seq<PlanItem>,
    item: PlanItem,
    units: Seq<UnitView>,
    done: Set<Seq<char>>,
)
    ensures
        unfolded(seq![], units, done).len() == 0,
        unfolded(items.push(item), units, done) == (if done.contains(
            units[item.unit as int].sha,
        ) {
            unfolded(items, units, done)
        } else {
            unfolded(items, units, done).push(item)
        }),
{
    assert(items.push(item).drop_last() =~= items);
}

} // verus!
