use ce_drive_serve::drive_caveat_prefix;
use ce_drive_serve::path::{
    caveat_scope, child_path, covered, entry_path, no_dotdot, norm_path, split_path,
};
use ce_drive_serve::text::{before, decimal_of, strip_edges, Edge};
use ce_drive_serve::DriveErr;

#[test]
fn split_path_basic() {
    assert_eq!(split_path("/a/b/c"), Some(("/a/b".into(), "c".into())));
    assert_eq!(split_path("/x"), Some(("/".into(), "x".into())));
    assert_eq!(split_path("/"), None);
}

#[test]
fn split_path_goes_by_the_normal_form() {
    assert_eq!(split_path("a//b/"), Some(("/a/".into(), "b".into())));
    assert_eq!(split_path("  "), None);
    assert_eq!(split_path("///"), None);
    assert_eq!(split_path("å/ö"), Some(("/å".into(), "ö".into())));
}

#[test]
fn a_normal_path_has_one_slash_in_front_and_none_behind() {
    for (p, n) in [
        ("", "/"),
        ("/", "/"),
        ("//", "/"),
        (" / ", "/"),
        ("a", "/a"),
        ("/a/", "/a"),
        ("  //a/b//\t", "/a/b"),
        ("/a//b", "/a//b"),
        ("/a b/", "/a b"),
        ("\u{3000}/å\u{a0}", "/å"),
    ] {
        assert_eq!(norm_path(p), n, "{p:?}");
        assert_eq!(norm_path(n), n, "{p:?}");
    }
    // White space that a slash had shielded goes the second time.
    assert_eq!(norm_path("/a /"), "/a ");
    assert_eq!(norm_path("/a "), "/a");
}

#[test]
fn white_space_is_what_unicode_says() {
    for c in (0..=0x10ffffu32).filter_map(char::from_u32) {
        let s = c.to_string();
        assert_eq!(strip_edges(Edge::Space, &s), s.trim(), "{c:?}");
    }
}

#[test]
fn dotdot_is_refused_as_a_component_only() {
    for bad in ["..", "/..", "../", "a/../b", "/a/.."] {
        assert_eq!(no_dotdot(bad), Err(DriveErr::BadPath), "{bad}");
    }
    for good in ["", "/", "...", "/a..b", "a../b", "/..a", ". .", "/.", "/a/.b"] {
        assert_eq!(no_dotdot(good), Ok(()), "{good}");
    }
}

#[test]
fn a_normal_path_hides_no_dotdot() {
    // A component that is `..` only when the white space around the path is gone.
    for p in ["/a/.. ", " ..", "..\t", "\n../a"] {
        assert_eq!(no_dotdot(p), Ok(()), "{p:?}");
        assert_eq!(no_dotdot(&norm_path(p)), Err(DriveErr::BadPath), "{p:?}");
    }
    for p in ["..", "/a/..", "a/../b", "//..//"] {
        assert_eq!(no_dotdot(p), Err(DriveErr::BadPath), "{p:?}");
        assert_eq!(no_dotdot(&norm_path(p)), Err(DriveErr::BadPath), "{p:?}");
    }
    assert_eq!(no_dotdot(&norm_path(" /a../.b ")), Ok(()));
}

#[test]
fn children_are_joined_by_one_slash() {
    assert_eq!(child_path("/", "a"), "/a");
    assert_eq!(child_path("/a", "b"), "/a/b");
    assert_eq!(child_path("", "b"), "/b");
    assert_eq!(child_path("/a/", "b"), "/a//b");
    assert_eq!(entry_path("/a/", "b"), "/a/b");
    assert_eq!(entry_path("/", "b"), "/b");
}

#[test]
fn a_subtree_covers_itself_and_what_is_below() {
    assert!(covered("/docs", "/docs"));
    assert!(covered("/docs", "docs/a/"));
    assert!(covered("/", "/anything"));
    assert!(!covered("/docs", "/docsx"));
    assert!(!covered("/docs", "/"));
}

#[test]
fn a_caveat_prefix_names_the_drive_and_the_subtree() {
    assert_eq!(drive_caveat_prefix("team", "/"), "ce-drive/team");
    assert_eq!(drive_caveat_prefix("team", "docs/"), "ce-drive/team/docs");
    assert_eq!(caveat_scope("ce-drive/team"), Some(("team".into(), "/".into())));
    assert_eq!(caveat_scope("/ce-drive/team/docs/a/"), Some(("team".into(), "/docs/a".into())));
    for p in ["", "/", "/docs", "ce-drive", "ce-drive/", "ce-db/team", "xce-drive/team"] {
        assert_eq!(caveat_scope(p), None, "{p}");
    }
}

#[test]
fn a_caveat_prefix_reads_back() {
    for drive in ["team", "a.b", "å"] {
        for path in ["/", "/docs", "docs/a", " /x/ "] {
            assert_eq!(
                caveat_scope(&drive_caveat_prefix(drive, path)),
                Some((drive.to_string(), norm_path(path)))
            );
        }
    }
}

#[test]
fn names_are_ordered_as_strings_are() {
    let names = ["", "a", "ab", "b", "B", "å", "\u{10ffff}", "\u{ffff}", "z", "a/"];
    for a in names {
        for b in names {
            assert_eq!(before(a, b), a < b, "{a:?} {b:?}");
        }
    }
}

#[test]
fn numbers_are_written_in_decimal() {
    for n in [0, 7, 10, 99, 1024, u64::MAX] {
        assert_eq!(decimal_of(n), n.to_string());
    }
}
