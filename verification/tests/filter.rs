//! Filters by path.

use scry3::filter::PathFilter;

fn filter(in_: &[&str], not_in: &[&str]) -> PathFilter {
    PathFilter {
        in_: in_.iter().map(|s| s.to_string()).collect(),
        not_in: not_in.iter().map(|s| s.to_string()).collect(),
    }
}

#[test]
fn an_open_filter_takes_all() {
    let f = filter(&[], &[]);
    assert!(f.is_open());
    assert!(f.accept(""));
    assert!(f.accept("a/b"));
}

#[test]
fn one_of_the_substrings_is_needed() {
    let f = filter(&["art/", "libcore/"], &[]);
    assert!(!f.is_open());
    assert!(f.accept("x/art/y.cc"));
    assert!(f.accept("libcore/A.java"));
    assert!(!f.accept("system/core"));
    assert!(!f.accept(""));
}

#[test]
fn none_of_the_others_may_be_there() {
    let f = filter(&["a"], &["test", ""]);
    assert!(f.accept("a/b"));
    assert!(!f.accept("a/tests/b"));
    assert!(!filter(&[], &["x"]).is_open());
}

#[test]
fn empty_substrings_count_for_nothing() {
    assert!(!filter(&[""], &[]).accept("a"));
    assert!(filter(&[], &[""]).accept("a"));
}
