//! Which paths a run is about.

use vstd::prelude::*;

use crate::text::{contains, has_part, occurs_at, texts};

verus! {

/// Some non-empty text of the list stands in `path`.
pub open spec fn any_within(list: Seq<Seq<char>>, path: Seq<char>) -> bool {
    exists|i: int| 0 <= i < list.len() && (#[trigger] list[i]).len() > 0 && has_part(path, list[i])
}

/// The substrings by which paths are taken or left.
#[derive(Debug)]
pub struct PathFilter {
    /// A path needs one of these, unless there are none.
    pub in_: Vec<String>,
    /// A path may have none of these.
    pub not_in: Vec<String>,
}

impl PathFilter {
    /// Whether the filter takes `path`. Empty substrings count for nothing.
    pub open spec fn accepts(&self, path: Seq<char>) -> bool {
        &&& self.in_@.len() == 0 || any_within(texts(self.in_@), path)
        &&& !any_within(texts(self.not_in@), path)
    }

    /// Whether the filter takes `path`.
    pub fn accept(&self, path: &str) -> (r: bool)
        ensures
            r == self.accepts(path@),
    {
        (self.in_.len() == 0 || any_in(&self.in_, path)) && !any_in(&self.not_in, path)
    }

    /// Whether the filter has nothing to filter by.
    pub fn is_open(&self) -> (r: bool)
        ensures
            r == (self.in_@.len() == 0 && self.not_in@.len() == 0),
    {
        self.in_.len() == 0 && self.not_in.len() == 0
    }
}

fn any_in(list: &Vec<String>, path: &str) -> (r: bool)
    ensures
        r == any_within(texts(list@), path@),
{
    let mut i: usize = 0;
    while i < list.len()
        invariant
            i <= list@.len(),
            forall|j: int|
                0 <= j < i ==> !((#[trigger] texts(list@)[j]).len() > 0 && has_part(
                    path@,
                    texts(list@)[j],
                )),
        decreases list@.len() - i,
    {
        let s: &str = list[i].as_str();
        proof {
            assert(texts(list@)[i as int] == s@);
        }
        if !s.is_empty() && contains(path, s) {
            return true;
        }
        i += 1;
    }
    false
}

/// A filter with nothing to filter by takes every path.
pub proof fn lemma_open_filter(f: PathFilter, path: Seq<char>)
    requires
        f.in_@.len() == 0,
        f.not_in@.len() == 0,
    ensures
        f.accepts(path),
{
}

/// Which paths a filter takes: those that hold one of the texts that are asked
/// for, if any are, and none of those that are not wanted. Empty texts count
/// for nothing, except that a filter which asks for empty ones alone takes no
/// path.
pub proof fn lemma_accepts_is(f: PathFilter, path: Seq<char>)
    ensures
        f.accepts(path) <==> {
            &&& f.in_@.len() == 0 || exists|i: int, at: int|
                0 <= i < f.in_@.len() && f.in_@[i]@.len() > 0 && 0 <= at && at + f.in_@[i]@.len()
                    <= path.len() && #[trigger] path.subrange(at, at + f.in_@[i]@.len())
                    == f.in_@[i]@
            &&& !exists|i: int, at: int|
                0 <= i < f.not_in@.len() && f.not_in@[i]@.len() > 0 && 0 <= at && at
                    + f.not_in@[i]@.len() <= path.len() && #[trigger] path.subrange(
                    at,
                    at + f.not_in@[i]@.len(),
                ) == f.not_in@[i]@
        },
{
    lemma_any_within_is(f.in_@, path);
    lemma_any_within_is(f.not_in@, path);
}

proof fn lemma_any_within_is(list: Seq<String>, path: Seq<char>)
    ensures
        any_within(texts(list), path) <==> exists|i: int, at: int|
            0 <= i < list.len() && list[i]@.len() > 0 && 0 <= at && at + list[i]@.len()
                <= path.len() && #[trigger] path.subrange(at, at + list[i]@.len()) == list[i]@,
{
    let all = texts(list);
    if any_within(all, path) {
        let i = choose|i: int|
            0 <= i < all.len() && (#[trigger] all[i]).len() > 0 && has_part(path, all[i]);
        let at = choose|at: int| occurs_at(path, all[i], at);
        assert(all[i] == list[i]@);
        assert(path.subrange(at, at + list[i]@.len()) == list[i]@);
    }
    if exists|i: int, at: int|
        0 <= i < list.len() && list[i]@.len() > 0 && 0 <= at && at + list[i]@.len() <= path.len()
            && #[trigger] path.subrange(at, at + list[i]@.len()) == list[i]@ {
        let (i, at) = choose|i: int, at: int|
            0 <= i < list.len() && list[i]@.len() > 0 && 0 <= at && at + list[i]@.len()
                <= path.len() && #[trigger] path.subrange(at, at + list[i]@.len()) == list[i]@;
        assert(all[i] == list[i]@);
        assert(occurs_at(path, all[i], at));
    }
}

} // verus!
