//! The lines of an interactive session:
//! `<verb> <name> [--substr] [--in S] [--not-in S] [--def-in S]
//! [--direction up|down|both] [--depth N]`.

use vstd::prelude::*;

use crate::query::{Filter, XrefVerb};
use crate::text::{holds_text, number, parse_number, same, texts, words, words_of};

verus! {

/// How many symbols a walk of a session holds at most.
pub const REPL_MAX_SYMBOLS: usize = 200;

/// How many tickets a walk of a session starts from at most.
pub const REPL_MAX_ROOTS: usize = 16;

/// How many steps a walk of a session goes where the line does not say.
pub const REPL_DEPTH: usize = 3;

/// What a line asks for.
#[derive(Clone, Copy, Debug, PartialEq, Eq, Structural)]
pub enum ReplVerb {
    Xref(XrefVerb),
    Super,
    Sub,
    Callgraph,
    Identifier,
    Names,
    Edges,
    Nodes,
    Unknown,
}

/// What a verb asks for.
pub open spec fn verb_of(s: Seq<char>) -> ReplVerb {
    if s == "def"@ {
        ReplVerb::Xref(XrefVerb::Def)
    } else if s == "ref"@ {
        ReplVerb::Xref(XrefVerb::Ref)
    } else if s == "callers"@ {
        ReplVerb::Xref(XrefVerb::Callers)
    } else if s == "super"@ {
        ReplVerb::Super
    } else if s == "sub"@ {
        ReplVerb::Sub
    } else if s == "callgraph"@ {
        ReplVerb::Callgraph
    } else if s == "identifier"@ {
        ReplVerb::Identifier
    } else if s == "names"@ {
        ReplVerb::Names
    } else if s == "edges"@ {
        ReplVerb::Edges
    } else if s == "nodes"@ {
        ReplVerb::Nodes
    } else {
        ReplVerb::Unknown
    }
}

/// What a verb asks for.
pub fn parse_verb(s: &str) -> (r: ReplVerb)
    ensures
        r == verb_of(s@),
{
    if same(s, "def") {
        ReplVerb::Xref(XrefVerb::Def)
    } else if same(s, "ref") {
        ReplVerb::Xref(XrefVerb::Ref)
    } else if same(s, "callers") {
        ReplVerb::Xref(XrefVerb::Callers)
    } else if same(s, "super") {
        ReplVerb::Super
    } else if same(s, "sub") {
        ReplVerb::Sub
    } else if same(s, "callgraph") {
        ReplVerb::Callgraph
    } else if same(s, "identifier") {
        ReplVerb::Identifier
    } else if same(s, "names") {
        ReplVerb::Names
    } else if same(s, "edges") {
        ReplVerb::Edges
    } else if same(s, "nodes") {
        ReplVerb::Nodes
    } else {
        ReplVerb::Unknown
    }
}

/// What the words behind the verb say.
#[verifier::ext_equal]
pub struct ReplArgs {
    pub name: Option<Seq<char>>,
    pub in_: Option<Seq<char>>,
    pub not_in: Option<Seq<char>>,
    pub def_in: Option<Seq<char>>,
    pub direction: Seq<char>,
    pub depth: nat,
}

/// The word at `i`, if there is one.
pub open spec fn word_at(toks: Seq<Seq<char>>, i: int) -> Option<Seq<char>> {
    if 0 <= i < toks.len() {
        Some(toks[i])
    } else {
        None
    }
}

/// Takes the words from `i` on. An option takes the word behind it along; the
/// first word that is no option is the name, and any further one is passed
/// over. A depth that is no number is the usual one.
pub open spec fn args_from(toks: Seq<Seq<char>>, i: int, acc: ReplArgs) -> ReplArgs
    decreases toks.len() - i + 1,
{
    if i >= toks.len() {
        acc
    } else {
        let t = toks[i];
        let value = word_at(toks, i + 1);
        if t == "--substr"@ {
            args_from(toks, i + 1, acc)
        } else if t == "--in"@ {
            args_from(toks, i + 2, ReplArgs { in_: value, ..acc })
        } else if t == "--not-in"@ {
            args_from(toks, i + 2, ReplArgs { not_in: value, ..acc })
        } else if t == "--def-in"@ {
            args_from(toks, i + 2, ReplArgs { def_in: value, ..acc })
        } else if t == "--direction"@ {
            args_from(
                toks,
                i + 2,
                match value {
                    Some(d) => ReplArgs { direction: d, ..acc },
                    None => acc,
                },
            )
        } else if t == "--depth"@ {
            args_from(
                toks,
                i + 2,
                match value {
                    Some(d) => ReplArgs {
                        depth: match number(d, 10, usize::MAX as nat) {
                            Some(n) => n,
                            None => REPL_DEPTH as nat,
                        },
                        ..acc
                    },
                    None => acc,
                },
            )
        } else if acc.name is None {
            args_from(toks, i + 1, ReplArgs { name: Some(t), ..acc })
        } else {
            args_from(toks, i + 1, acc)
        }
    }
}

/// What a line says behind its verb.
pub open spec fn line_args(toks: Seq<Seq<char>>) -> ReplArgs {
    args_from(
        toks,
        1,
        ReplArgs {
            name: None,
            in_: None,
            not_in: None,
            def_in: None,
            direction: "up"@,
            depth: REPL_DEPTH as nat,
        },
    )
}

/// A question of a session.
#[derive(Debug)]
pub struct ReplCommand {
    /// The verb as it was typed.
    pub word: String,
    pub verb: ReplVerb,
    pub name: String,
    pub substr: bool,
    pub filter: Filter,
    pub direction: String,
    pub depth: usize,
}

/// A line of a session.
#[derive(Debug)]
pub enum ReplLine {
    /// Nothing is asked.
    Blank,
    /// A verb without a name.
    NoName,
    Command(ReplCommand),
}

/// The text, if there is one.
pub open spec fn opt_text(s: Option<String>) -> Option<Seq<char>> {
    match s {
        Some(t) => Some(t@),
        None => None,
    }
}

/// A copy of the word at `i`, if there is one.
fn get_word(toks: &Vec<String>, i: usize) -> (r: Option<String>)
    ensures
        opt_text(r) == word_at(texts(toks@), i as int),
{
    if i < toks.len() {
        Some(toks[i].clone())
    } else {
        None
    }
}

/// Reads a line of a session.
pub fn parse_line(line: &str) -> (r: ReplLine)
    ensures
        ({
            let toks = words(line@);
            let args = line_args(toks);
            match r {
                ReplLine::Blank => toks.len() == 0,
                ReplLine::NoName => toks.len() > 0 && args.name is None,
                ReplLine::Command(c) => {
                    &&& toks.len() > 0
                    &&& args.name == Some(c.name@)
                    &&& c.word@ == toks[0]
                    &&& c.verb == verb_of(toks[0])
                    &&& c.substr == toks.contains("--substr"@)
                    &&& opt_text(c.filter.in_) == args.in_
                    &&& opt_text(c.filter.not_in) == args.not_in
                    &&& opt_text(c.filter.def_in) == args.def_in
                    &&& c.direction@ == args.direction
                    &&& c.depth == args.depth
                },
            }
        }),
{
    let toks = words_of(line);
    let ghost all = texts(toks@);
    if toks.len() == 0 {
        proof {
            assert(all.len() == 0);
        }
        return ReplLine::Blank;
    }
    let size: usize = toks.len();
    let substr: bool = holds_text(&toks, "--substr");
    let mut filter: Filter = Filter::default();
    let mut name: Option<String> = None;
    let mut direction: String = "up".to_string();
    let mut depth: usize = REPL_DEPTH;
    let mut i: usize = 1;
    let ghost mut acc = ReplArgs {
        name: None,
        in_: None,
        not_in: None,
        def_in: None,
        direction: "up"@,
        depth: REPL_DEPTH as nat,
    };
    while i < toks.len()
        invariant
            1 <= i,
            size == toks@.len(),
            all == texts(toks@),
            acc == (ReplArgs {
                name: opt_text(name),
                in_: opt_text(filter.in_),
                not_in: opt_text(filter.not_in),
                def_in: opt_text(filter.def_in),
                direction: direction@,
                depth: depth as nat,
            }),
            args_from(all, i as int, acc) == line_args(all),
        decreases all.len() - i,
    {
        let t: &str = toks[i].as_str();
        let left: usize = size - i;
        let ghost here = i as int;
        proof {
            assert(all[i as int] == t@);
        }
        if same(t, "--substr") {
            i += 1;
        } else if same(t, "--in") {
            filter.in_ = if left > 1 {
                get_word(&toks, i + 1)
            } else {
                None
            };
            i = if left > 1 {
                i + 2
            } else {
                size
            };
        } else if same(t, "--not-in") {
            filter.not_in = if left > 1 {
                get_word(&toks, i + 1)
            } else {
                None
            };
            i = if left > 1 {
                i + 2
            } else {
                size
            };
        } else if same(t, "--def-in") {
            filter.def_in = if left > 1 {
                get_word(&toks, i + 1)
            } else {
                None
            };
            i = if left > 1 {
                i + 2
            } else {
                size
            };
        } else if same(t, "--direction") {
            if left > 1 {
                direction = toks[i + 1].clone();
                proof {
                    assert(all[i + 1] == direction@);
                }
                i += 2;
            } else {
                i = size;
            }
        } else if same(t, "--depth") {
            if left > 1 {
                proof {
                    assert(all[i + 1] == toks@[i + 1]@);
                }
                depth = match parse_number(toks[i + 1].as_str(), 10, usize::MAX as u64) {
                    Some(n) => n as usize,
                    None => REPL_DEPTH,
                };
                i += 2;
            } else {
                i = size;
            }
        } else {
            if name.is_none() {
                name = Some(toks[i].clone());
            }
            i += 1;
        }
        proof {
            let next = ReplArgs {
                name: opt_text(name),
                in_: opt_text(filter.in_),
                not_in: opt_text(filter.not_in),
                def_in: opt_text(filter.def_in),
                direction: direction@,
                depth: depth as nat,
            };
            if here + 2 > all.len() {
                assert(args_from(all, here + 2, next) == next);
                assert(args_from(all, size as int, next) == next);
            }
            acc = next;
        }
    }
    match name {
        None => ReplLine::NoName,
        Some(name) => {
            let word = toks[0].clone();
            proof {
                assert(all[0] == word@);
            }
            let verb = parse_verb(word.as_str());
            ReplLine::Command(ReplCommand { word, verb, name, substr, filter, direction, depth })
        },
    }
}

// ------------------------------------------------------------------- laws

/// Which words are verbs, and what they ask for: these ten and no other.
pub proof fn lemma_verbs_are(s: Seq<char>)
    ensures
        verb_of(s) == ReplVerb::Xref(XrefVerb::Def) <==> s == "def"@,
        verb_of(s) == ReplVerb::Xref(XrefVerb::Ref) <==> s == "ref"@,
        verb_of(s) == ReplVerb::Xref(XrefVerb::Callers) <==> s == "callers"@,
        verb_of(s) == ReplVerb::Super <==> s == "super"@,
        verb_of(s) == ReplVerb::Sub <==> s == "sub"@,
        verb_of(s) == ReplVerb::Callgraph <==> s == "callgraph"@,
        verb_of(s) == ReplVerb::Identifier <==> s == "identifier"@,
        verb_of(s) == ReplVerb::Names <==> s == "names"@,
        verb_of(s) == ReplVerb::Edges <==> s == "edges"@,
        verb_of(s) == ReplVerb::Nodes <==> s == "nodes"@,
{
    reveal_strlit("def");
    reveal_strlit("ref");
    reveal_strlit("callers");
    reveal_strlit("super");
    reveal_strlit("sub");
    reveal_strlit("callgraph");
    reveal_strlit("identifier");
    reveal_strlit("names");
    reveal_strlit("edges");
    reveal_strlit("nodes");
    assert("def"@[0] == 'd' && "ref"@[0] == 'r' && "identifier"@[0] == 'i' && "edges"@[0] == 'e');
    assert("callers"@.len() == 7 && "callgraph"@.len() == 9 && "callers"@[0] == 'c'
        && "callgraph"@[0] == 'c');
    assert("super"@.len() == 5 && "sub"@.len() == 3 && "super"@[0] == 's' && "sub"@[0] == 's');
    assert("names"@[0] == 'n' && "nodes"@[0] == 'n' && "names"@[1] == 'a' && "nodes"@[1] == 'o');
}

/// The options of a line are these words.
pub open spec fn is_option(t: Seq<char>) -> bool {
    t == "--substr"@ || t == "--in"@ || t == "--not-in"@ || t == "--def-in"@ || t
        == "--direction"@ || t == "--depth"@
}

/// What each word of a line says: an option takes the word behind it along,
/// which is what it says; the first word that is no option, nor behind one, is
/// the name, and any other one says nothing.
pub proof fn lemma_words_say(toks: Seq<Seq<char>>, i: int, acc: ReplArgs)
    requires
        0 <= i,
    ensures
        i >= toks.len() ==> args_from(toks, i, acc) == acc,
        i < toks.len() && toks[i] == "--substr"@ ==> args_from(toks, i, acc) == args_from(
            toks,
            i + 1,
            acc,
        ),
        i + 1 < toks.len() && toks[i] == "--in"@ ==> args_from(toks, i, acc) == args_from(
            toks,
            i + 2,
            ReplArgs { in_: Some(toks[i + 1]), ..acc },
        ),
        i + 1 < toks.len() && toks[i] == "--not-in"@ ==> args_from(toks, i, acc) == args_from(
            toks,
            i + 2,
            ReplArgs { not_in: Some(toks[i + 1]), ..acc },
        ),
        i + 1 < toks.len() && toks[i] == "--def-in"@ ==> args_from(toks, i, acc) == args_from(
            toks,
            i + 2,
            ReplArgs { def_in: Some(toks[i + 1]), ..acc },
        ),
        i + 1 < toks.len() && toks[i] == "--direction"@ ==> args_from(toks, i, acc) == args_from(
            toks,
            i + 2,
            ReplArgs { direction: toks[i + 1], ..acc },
        ),
        i + 1 < toks.len() && toks[i] == "--depth"@ && number(
            toks[i + 1],
            10,
            usize::MAX as nat,
        ) is Some ==> args_from(toks, i, acc) == args_from(
            toks,
            i + 2,
            ReplArgs { depth: number(toks[i + 1], 10, usize::MAX as nat)->0, ..acc },
        ),
        i + 1 < toks.len() && toks[i] == "--depth"@ && number(
            toks[i + 1],
            10,
            usize::MAX as nat,
        ) is None ==> args_from(toks, i, acc) == args_from(
            toks,
            i + 2,
            ReplArgs { depth: 3, ..acc },
        ),
        i < toks.len() && !is_option(toks[i]) && acc.name is None ==> args_from(toks, i, acc)
            == args_from(toks, i + 1, ReplArgs { name: Some(toks[i]), ..acc }),
        i < toks.len() && !is_option(toks[i]) && acc.name is Some ==> args_from(toks, i, acc)
            == args_from(toks, i + 1, acc),
{
    reveal_strlit("--substr");
    reveal_strlit("--in");
    reveal_strlit("--not-in");
    reveal_strlit("--def-in");
    reveal_strlit("--direction");
    reveal_strlit("--depth");
    assert("--substr"@[2] == 's' && "--in"@[2] == 'i' && "--not-in"@[2] == 'n');
    assert("--def-in"@[2] == 'd' && "--direction"@[2] == 'd' && "--depth"@[2] == 'd');
    assert("--def-in"@.len() == 8 && "--direction"@.len() == 11 && "--depth"@.len() == 7);
}

/// What an option says without a word behind it: nothing, and what it asked
/// for of paths before counts no more.
pub proof fn lemma_last_option_says(toks: Seq<Seq<char>>, acc: ReplArgs)
    requires
        toks.len() > 0,
    ensures
        ({
            let r = args_from(toks, toks.len() - 1, acc);
            let t = toks.last();
            &&& t == "--in"@ ==> r == (ReplArgs { in_: None, ..acc })
            &&& t == "--not-in"@ ==> r == (ReplArgs { not_in: None, ..acc })
            &&& t == "--def-in"@ ==> r == (ReplArgs { def_in: None, ..acc })
            &&& t == "--direction"@ || t == "--depth"@ ==> r == acc
        }),
{
    let n = toks.len() as int;
    reveal_strlit("--substr");
    reveal_strlit("--in");
    reveal_strlit("--not-in");
    reveal_strlit("--def-in");
    reveal_strlit("--direction");
    reveal_strlit("--depth");
    assert("--substr"@[2] == 's' && "--in"@[2] == 'i' && "--not-in"@[2] == 'n');
    assert("--def-in"@[2] == 'd' && "--direction"@[2] == 'd' && "--depth"@[2] == 'd');
    assert("--def-in"@.len() == 8 && "--direction"@.len() == 11 && "--depth"@.len() == 7);
    reveal_with_fuel(args_from, 2);
}

/// What a line that is only a verb says: no name, no filter, upwards, three
/// steps; the words behind the verb are taken from the first on.
pub proof fn lemma_line_args_are(toks: Seq<Seq<char>>)
    ensures
        ({
            let usual = ReplArgs {
                name: None,
                in_: None,
                not_in: None,
                def_in: None,
                direction: "up"@,
                depth: 3,
            };
            &&& line_args(toks) == args_from(toks, 1, usual)
            &&& toks.len() == 1 ==> line_args(toks) == usual
        }),
        REPL_MAX_SYMBOLS == 200,
        REPL_MAX_ROOTS == 16,
{
}

} // verus!
