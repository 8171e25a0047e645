//! Building a serving table from entries: the ways to do it.

use vstd::prelude::*;

use crate::text::{decimal, decimal_of, ends_with, same};

verus! {

/// How entries become a serving table.
#[derive(Clone, Copy, Debug, PartialEq, Eq, Structural)]
pub enum Mode {
    /// By sorting them into one file, which is fastest for a part of a corpus.
    Sorted,
    /// By way of a graph store, which sorts on disk in bounded memory.
    Graphstore,
    /// By a Beam pipeline.
    Beam,
}

/// A word that is no mode.
#[derive(Clone, Copy, Debug, PartialEq, Eq)]
pub struct BadMode;

/// The mode that a word names.
pub open spec fn mode_of(s: Seq<char>) -> Option<Mode> {
    if s == "sorted"@ {
        Some(Mode::Sorted)
    } else if s == "graphstore"@ || s == "gs"@ {
        Some(Mode::Graphstore)
    } else if s == "beam"@ {
        Some(Mode::Beam)
    } else {
        None
    }
}

impl Mode {
    /// Reads a mode: `sorted`, `graphstore` or `gs`, or `beam`.
    pub fn parse(s: &str) -> (r: Result<Mode, BadMode>)
        ensures
            r matches Ok(m) ==> mode_of(s@) == Some(m),
            r is Err ==> mode_of(s@) is None,
    {
        if same(s, "sorted") {
            Ok(Mode::Sorted)
        } else if same(s, "graphstore") || same(s, "gs") {
            Ok(Mode::Graphstore)
        } else if same(s, "beam") {
            Ok(Mode::Beam)
        } else {
            Err(BadMode)
        }
    }
}

/// One argument of a tool that reads entries and writes a store or a table.
/// Which paths these are, whoever runs the tool knows.
#[derive(Debug)]
pub enum ToolArg {
    /// A word as it is.
    Word(String),
    /// The path of what is read.
    Source,
    /// The path of what is read, with a slash at its end, which says that it is
    /// a directory.
    SourceDir,
    /// The path of what is written.
    Target,
}

/// What a [`ToolArg`] says.
pub enum ToolArgView {
    Word(Seq<char>),
    Source,
    SourceDir,
    Target,
}

impl View for ToolArg {
    type V = ToolArgView;

    open spec fn view(&self) -> ToolArgView {
        match self {
            ToolArg::Word(s) => ToolArgView::Word(s@),
            ToolArg::Source => ToolArgView::Source,
            ToolArg::SourceDir => ToolArgView::SourceDir,
            ToolArg::Target => ToolArgView::Target,
        }
    }
}

/// What each of a list of arguments says.
pub open spec fn arg_views(v: Seq<ToolArg>) -> Seq<ToolArgView> {
    v.map_values(|a: ToolArg| a@)
}

/// The arguments with which a table is built.
pub open spec fn table_line(mode: Mode) -> Seq<ToolArgView> {
    let target = seq![ToolArgView::Word("--out"@), ToolArgView::Target];
    match mode {
        Mode::Sorted => seq![ToolArgView::Word("--entries"@), ToolArgView::Source] + target,
        Mode::Graphstore => seq![ToolArgView::Word("--graphstore"@), ToolArgView::Source] + target,
        Mode::Beam => seq![
            ToolArgView::Word("--experimental_beam_pipeline"@),
            ToolArgView::Word("--entries"@),
            ToolArgView::SourceDir,
        ] + target,
    }
}

/// The arguments with which `write_tables` builds a table. What it reads is the
/// sorted file, the graph store, or the directory of the entries.
pub fn table_args(mode: Mode) -> (r: Vec<ToolArg>)
    ensures
        arg_views(r@) == table_line(mode),
{
    let mut r: Vec<ToolArg> = Vec::new();
    match mode {
        Mode::Sorted => {
            r.push(ToolArg::Word("--entries".to_string()));
            r.push(ToolArg::Source);
        },
        Mode::Graphstore => {
            r.push(ToolArg::Word("--graphstore".to_string()));
            r.push(ToolArg::Source);
        },
        Mode::Beam => {
            r.push(ToolArg::Word("--experimental_beam_pipeline".to_string()));
            r.push(ToolArg::Word("--entries".to_string()));
            r.push(ToolArg::SourceDir);
        },
    }
    r.push(ToolArg::Word("--out".to_string()));
    r.push(ToolArg::Target);
    proof {
        assert(arg_views(r@) =~= table_line(mode));
    }
    r
}

/// The arguments with which `write_entries` folds what it is fed into a graph
/// store.
pub fn fold_args(workers: usize) -> (r: Vec<ToolArg>)
    ensures
        arg_views(r@) == seq![
            ToolArgView::Word("--graphstore"@),
            ToolArgView::Target,
            ToolArgView::Word("--workers"@),
            ToolArgView::Word(decimal(workers as nat)),
        ],
{
    let mut r: Vec<ToolArg> = Vec::new();
    r.push(ToolArg::Word("--graphstore".to_string()));
    r.push(ToolArg::Target);
    r.push(ToolArg::Word("--workers".to_string()));
    r.push(ToolArg::Word(decimal_of(workers as u64)));
    proof {
        assert(arg_views(r@) =~= seq![
            ToolArgView::Word("--graphstore"@),
            ToolArgView::Target,
            ToolArgView::Word("--workers"@),
            ToolArgView::Word(decimal(workers as nat)),
        ]);
    }
    r
}

/// Whether a file of this name holds the entries of a unit.
pub fn is_entries_file(name: &str) -> (r: bool)
    ensures
        r == (name@.len() > ".entries"@.len() && ".entries"@.is_suffix_of(name@)),
{
    proof {
        if name@.len() == ".entries"@.len() {
            assert(name@.subrange(0, name@.len() as int) =~= name@);
        }
    }
    ends_with(name, ".entries") && !same(name, ".entries")
}

/// How many workers write to a graph store: four where it is not said.
pub fn store_workers(asked: usize) -> (r: usize)
    ensures
        r == (if asked == 0 {
            4
        } else {
            asked
        }),
{
    if asked == 0 {
        4
    } else {
        asked
    }
}

// ------------------------------------------------------------------- laws

/// Which words are modes: these four and no other.
pub proof fn lemma_modes_are(s: Seq<char>)
    ensures
        mode_of(s) == Some(Mode::Sorted) <==> s == "sorted"@,
        mode_of(s) == Some(Mode::Graphstore) <==> s == "graphstore"@ || s == "gs"@,
        mode_of(s) == Some(Mode::Beam) <==> s == "beam"@,
{
    reveal_strlit("sorted");
    reveal_strlit("graphstore");
    reveal_strlit("gs");
    reveal_strlit("beam");
    assert("sorted"@[0] == 's' && "graphstore"@[0] == 'g' && "gs"@[0] == 'g' && "beam"@[0] == 'b');
}

/// What a tool is told: what it reads comes behind the flag for its kind, and
/// what it writes at the end; only a Beam pipeline reads a directory.
pub proof fn lemma_table_lines_are()
    ensures
        table_line(Mode::Sorted) == seq![
            ToolArgView::Word("--entries"@),
            ToolArgView::Source,
            ToolArgView::Word("--out"@),
            ToolArgView::Target,
        ],
        table_line(Mode::Graphstore) == seq![
            ToolArgView::Word("--graphstore"@),
            ToolArgView::Source,
            ToolArgView::Word("--out"@),
            ToolArgView::Target,
        ],
        table_line(Mode::Beam) == seq![
            ToolArgView::Word("--experimental_beam_pipeline"@),
            ToolArgView::Word("--entries"@),
            ToolArgView::SourceDir,
            ToolArgView::Word("--out"@),
            ToolArgView::Target,
        ],
{
    assert(table_line(Mode::Sorted) =~= seq![
        ToolArgView::Word("--entries"@),
        ToolArgView::Source,
        ToolArgView::Word("--out"@),
        ToolArgView::Target,
    ]);
    assert(table_line(Mode::Graphstore) =~= seq![
        ToolArgView::Word("--graphstore"@),
        ToolArgView::Source,
        ToolArgView::Word("--out"@),
        ToolArgView::Target,
    ]);
    assert(table_line(Mode::Beam) =~= seq![
        ToolArgView::Word("--experimental_beam_pipeline"@),
        ToolArgView::Word("--entries"@),
        ToolArgView::SourceDir,
        ToolArgView::Word("--out"@),
        ToolArgView::Target,
    ]);
}

/// Each argument of a tool says what it is.
pub proof fn lemma_tool_args_are(s: String)
    ensures
        ToolArg::Word(s)@ == ToolArgView::Word(s@),
        ToolArg::Source@ == ToolArgView::Source,
        ToolArg::SourceDir@ == ToolArgView::SourceDir,
        ToolArg::Target@ == ToolArgView::Target,
{
}

} // verus!
