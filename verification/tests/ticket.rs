//! Tickets.

use scry3::ticket::{clean_path, escape, is_ticket, path_of, percent_decode, sig_of, VName};

#[test]
fn cxx_ticket_matches_kythe_decor_output() {
    let v = VName {
        signature: "#init".into(),
        corpus: "android.googlesource.com/platform/superproject".into(),
        root: "".into(),
        path: "frameworks/native/libs/binder/Parcel.cpp".into(),
        language: "c++".into(),
    };
    assert_eq!(
        v.to_ticket(),
        "kythe://android.googlesource.com/platform/superproject?lang=c%2B%2B?path=frameworks/native/libs/binder/Parcel.cpp#%23init"
    );
}

#[test]
fn empty_components_omitted() {
    let v = VName { signature: "sig".into(), corpus: "c".into(), ..Default::default() };
    assert_eq!(v.to_ticket(), "kythe://c#sig");
}

#[test]
fn all_components_in_their_order() {
    let v = VName {
        signature: "a/b".into(),
        corpus: "c d".into(),
        root: "r/o".into(),
        path: "x//./y/../z".into(),
        language: "go/x".into(),
    };
    assert_eq!(v.to_ticket(), "kythe://c%20d?lang=go%2Fx?path=x/z?root=r/o#a%2Fb");
    assert_eq!(VName::default().to_ticket(), "kythe:");
}

#[test]
fn escaping() {
    assert_eq!(escape("aZ09-._~", false), "aZ09-._~");
    assert_eq!(escape("a/b", true), "a/b");
    assert_eq!(escape("a/b", false), "a%2Fb");
    assert_eq!(escape("ä%", true), "%C3%A4%25");
}

#[test]
fn unescaping_undoes_escaping() {
    for s in ["", "plain", "a b/c#d?e", "ä€𝄞", "100%"] {
        assert_eq!(percent_decode(&escape(s, true)), s);
        assert_eq!(percent_decode(&escape(s, false)), s);
    }
}

#[test]
fn unescaping_what_is_no_escape() {
    assert_eq!(percent_decode("100%"), "100%");
    assert_eq!(percent_decode("%4"), "%4");
    assert_eq!(percent_decode("%zz%41"), "%zzA");
    assert_eq!(percent_decode("%2f%2F"), "//");
    assert_eq!(percent_decode("%ff"), "\u{fffd}");
}

#[test]
fn clean_paths() {
    assert_eq!(clean_path(""), "");
    assert_eq!(clean_path("a//b/./c"), "a/b/c");
    assert_eq!(clean_path("a/../b"), "b");
    assert_eq!(clean_path("../../a"), "../../a");
    assert_eq!(clean_path("a/.."), ".");
    assert_eq!(clean_path("/../a"), "/a");
    assert_eq!(clean_path("/"), "/");
    assert_eq!(clean_path("a/b/"), "a/b");
}

#[test]
fn a_clean_path_stays() {
    for p in ["a/./b", "/x/../..", "../a/..", "."] {
        let once = clean_path(p);
        assert_eq!(clean_path(&once), once);
    }
}

#[test]
fn what_is_a_ticket() {
    assert!(is_ticket("kythe:"));
    assert!(is_ticket("kythe://c#s"));
    assert!(!is_ticket("kythe"));
    assert!(!is_ticket("android.os.Binder"));
}

#[test]
fn parts_of_a_ticket_read_back() {
    let v = VName {
        signature: "f(int)#1".into(),
        corpus: "c".into(),
        root: "out".into(),
        path: "dir/a b?.h".into(),
        language: "c++".into(),
    };
    let t = v.to_ticket();
    assert!(is_ticket(&t));
    assert_eq!(path_of(&t), "dir/a b?.h");
    assert_eq!(sig_of(&t), "f(int)#1");
}

#[test]
fn a_ticket_stands_in_one_line() {
    let v = VName {
        signature: "a\tb\n".into(),
        corpus: "c\r".into(),
        path: "p\nq".into(),
        ..Default::default()
    };
    assert_eq!(v.to_ticket(), "kythe://c%0D?path=p%0Aq#a%09b%0A");
}

#[test]
fn parts_that_are_not_there() {
    assert_eq!(path_of("kythe://c#s"), "kythe://c#s");
    assert_eq!(sig_of("kythe://c?path=p"), "");
    assert_eq!(path_of("kythe://c?path="), "");
    assert_eq!(path_of("x?path=a%2Fb?root=r"), "a/b");
}

#[test]
fn a_name_without_a_path() {
    let v = VName {
        signature: "?path=x".into(),
        corpus: "c?path=y".into(),
        root: "r".into(),
        language: "l".into(),
        ..Default::default()
    };
    let t = v.to_ticket();
    assert_eq!(path_of(&t), t);
}

#[test]
fn tickets_tell_names_apart() {
    let v = VName {
        signature: "s".into(),
        corpus: "c".into(),
        root: "r".into(),
        path: "a/b".into(),
        language: "l".into(),
    };
    let changes: [VName; 6] = [
        VName { signature: "s2".into(), ..v.clone() },
        VName { corpus: "".into(), ..v.clone() },
        VName { root: "a/b".into(), ..v.clone() },
        VName { path: "a/c".into(), ..v.clone() },
        VName { path: "".into(), ..v.clone() },
        VName { language: "l?path=a/b".into(), ..v.clone() },
    ];
    for c in &changes {
        assert_ne!(c.to_ticket(), v.to_ticket());
    }
    let unclean = VName { path: "./a//x/../b/".into(), ..v.clone() };
    assert_eq!(unclean.to_ticket(), v.to_ticket());
    // The path that goes nowhere is not the empty one.
    let here = VName { path: ".".into(), ..v.clone() };
    assert_ne!(here.to_ticket(), changes[4].to_ticket());
}

#[test]
fn the_shape_of_clean_paths() {
    for p in ["", "/", "a", "../..//../b/./c", "/../../x/..", "a/../../b", "./.", "//a//"] {
        let c = clean_path(p);
        assert_eq!(c.is_empty(), p.is_empty());
        assert_eq!(c.starts_with('/'), p.starts_with('/'));
        let rest = c.strip_prefix('/').unwrap_or(&c);
        let segs: Vec<&str> = if rest.is_empty() { vec![] } else { rest.split('/').collect() };
        let ups = segs.iter().take_while(|s| **s == "..").count();
        assert!(segs[ups..].iter().all(|s| *s != ".."));
        assert!(ups == 0 || !p.starts_with('/'));
        assert!(c == "." || segs.iter().all(|s| !s.is_empty() && *s != "."));
    }
}
