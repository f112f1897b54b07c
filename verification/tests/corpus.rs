use ce_drive_serve::corpus::{changed_since, item_from, Extracted, NodeFacts};
use ce_drive_serve::props::Props;

fn props(entries: &[(&str, &str)]) -> Props {
    let mut p = Props::new();
    for (k, v) in entries {
        p.insert(k.to_string(), v.to_string());
    }
    p
}

fn meta<'a>(p: &'a Props, key: &str) -> &'a str {
    p.get(key).unwrap().as_str()
}

fn facts() -> NodeFacts {
    NodeFacts {
        node_id: "n7".into(),
        path: "/notes/trip.ocean".into(),
        size: 120,
        mtime_ms: 1_700_000_000_000,
        kind: Some("ocean-doc".into()),
        locator: "blob:deadbeef".into(),
        tags: vec!["travel".into()],
        links: vec![("about".into(), "node:n1".into())],
        props: Props::new(),
    }
}

#[test]
fn an_item_is_keyed_by_stable_node_id_not_path() {
    // A rename must update this item, not create a second one and orphan the first.
    let mut f = facts();
    let a = item_from(&f, &Extracted::default());
    f.path = "/archive/trip-2024.ocean".into();
    let b = item_from(&f, &Extracted::default());
    assert_eq!(a.id, b.id, "identity must survive a rename");
    assert_ne!(a.reference, b.reference, "the path is display, and it moved");
}

#[test]
fn the_formats_title_wins_over_the_filename() {
    let e = Extracted { title: Some("Trip plan".into()), ..Default::default() };
    assert_eq!(item_from(&facts(), &e).title, "Trip plan");
}

#[test]
fn the_filename_is_the_fallback_title() {
    assert_eq!(item_from(&facts(), &Extracted::default()).title, "trip.ocean");
    // ...including when the format returns a blank title rather than none.
    let blank = Extracted { title: Some("   ".into()), ..Default::default() };
    assert_eq!(item_from(&facts(), &blank).title, "trip.ocean");
}

#[test]
fn drive_links_and_format_links_are_merged() {
    // One was asserted ABOUT the file, one was written INSIDE it. Both are real edges.
    let e = Extracted {
        links: vec![("references".into(), "node:n9".into())],
        ..Default::default()
    };
    let item = item_from(&facts(), &e);
    assert!(item.links.contains(&("about".into(), "node:n1".into())));
    assert!(item.links.contains(&("references".into(), "node:n9".into())));
}

#[test]
fn duplicate_links_are_not_doubled() {
    let e = Extracted {
        links: vec![("about".into(), "node:n1".into())],
        ..Default::default()
    };
    assert_eq!(item_from(&facts(), &e).links.len(), 1);
}

#[test]
fn an_operators_prop_outranks_an_extracted_one() {
    // A human's assertion about a file beats a parser's inference from its bytes.
    let mut f = facts();
    f.props.insert("status".into(), "approved".into());
    let e = Extracted { props: props(&[("status", "draft")]), ..Default::default() };
    assert_eq!(meta(&item_from(&f, &e).meta, "status"), "approved");
}

#[test]
fn an_unreadable_node_is_still_indexed_and_says_why() {
    // The whole point of degrading: the node stays findable by name, path, tags and links, and
    // an operator can SEE why its content is not searchable.
    let item = item_from(&facts(), &Extracted::unextracted());
    assert_eq!(item.id, "n7");
    assert_eq!(item.title, "trip.ocean");
    assert!(item.text.is_empty());
    assert_eq!(meta(&item.meta, "unextracted"), "true");
    assert_eq!(
        meta(&item.meta, "unextracted_kind"),
        "ocean-doc",
        "name the kind so installing the right app is obvious"
    );
    assert!(item.links.iter().any(|(r, _)| r == "about"), "drive links survive");
}

#[test]
fn a_node_with_no_kind_is_a_plain_file() {
    let mut f = facts();
    f.kind = None;
    assert_eq!(item_from(&f, &Extracted::default()).kind, "file");
}

#[test]
fn dir_is_derived_for_grouping() {
    let item = item_from(&facts(), &Extracted::default());
    assert_eq!(meta(&item.meta, "dir"), "/notes");
    let mut f = facts();
    f.path = "/top.md".into();
    assert_eq!(meta(&item_from(&f, &Extracted::default()).meta, "dir"), "/");
}

#[test]
fn the_locator_is_carried_so_a_hit_can_be_opened() {
    assert_eq!(meta(&item_from(&facts(), &Extracted::default()).meta, "locator"), "blob:deadbeef");
}

#[test]
fn since_zero_is_a_full_crawl() {
    let f = vec![NodeFacts { mtime_ms: 1_000, ..Default::default() }];
    assert_eq!(changed_since(f, 0).len(), 1);
}

#[test]
fn since_keeps_only_what_changed() {
    // The steady-state crawl: the index passes the newest `updated` it holds, and a routine pass
    // costs only what actually moved.
    let facts = vec![
        NodeFacts { path: "/old".into(), mtime_ms: 1_000_000, ..Default::default() },
        NodeFacts { path: "/new".into(), mtime_ms: 5_000_000, ..Default::default() },
    ];
    let kept = changed_since(facts, 2_000);
    assert_eq!(kept.len(), 1);
    assert_eq!(kept[0].path, "/new");
}

#[test]
fn since_is_inclusive_so_a_resumed_crawl_cannot_skip_a_tie() {
    // Two nodes written in the same second as the cursor must not fall through the gap.
    let facts = vec![NodeFacts { path: "/edge".into(), mtime_ms: 3_000_000, ..Default::default() }];
    assert_eq!(changed_since(facts, 3_000).len(), 1, "at the boundary it must be kept");
}

#[test]
fn an_item_in_full() {
    let mut f = facts();
    f.props = props(&[("status", "approved"), ("path", "overruled")]);
    let e = Extracted {
        title: Some("  Trip plan\n".into()),
        text: "prose".into(),
        links: vec![
            ("references".into(), "node:n9".into()),
            ("about".into(), "node:n1".into()),
            ("references".into(), "node:n9".into()),
        ],
        props: props(&[("status", "draft"), ("author", "kim"), ("size", "overruled")]),
        tags: vec!["plan".into(), "travel".into(), "plan".into()],
        unextracted: false,
    };
    let item = item_from(&f, &e);
    assert_eq!(item.title, "Trip plan");
    assert_eq!(item.text, "prose");
    assert_eq!(item.kind, "ocean-doc");
    assert_eq!(item.reference, "/notes/trip.ocean");
    assert_eq!(item.updated, 1_700_000_000);
    assert_eq!(item.tags, vec!["travel".to_string(), "plan".to_string()]);
    assert_eq!(
        item.links,
        vec![
            ("about".to_string(), "node:n1".to_string()),
            ("references".to_string(), "node:n9".to_string()),
        ]
    );
    let entries: Vec<(&str, &str)> =
        item.meta.entries().iter().map(|(k, v)| (k.as_str(), v.as_str())).collect();
    assert_eq!(
        entries,
        vec![
            ("author", "kim"),
            ("dir", "/notes"),
            ("locator", "blob:deadbeef"),
            ("path", "/notes/trip.ocean"),
            ("size", "120"),
            ("status", "approved"),
        ]
    );
}

#[test]
fn an_unreadable_node_without_a_kind_names_none() {
    let mut f = facts();
    f.kind = None;
    f.path = "bare".into();
    let item = item_from(&f, &Extracted::unextracted());
    assert_eq!(item.title, "bare");
    assert_eq!(meta(&item.meta, "dir"), "/");
    assert_eq!(meta(&item.meta, "unextracted"), "true");
    assert!(item.meta.get("unextracted_kind").is_none());
}

#[test]
fn props_stay_in_order_and_hold_the_last_text() {
    let mut p = props(&[("b", "1"), ("a", "2"), ("å", "3"), ("ab", "4"), ("b", "5"), ("", "6")]);
    let keys: Vec<&str> = p.entries().iter().map(|(k, _)| k.as_str()).collect();
    assert_eq!(keys, vec!["", "a", "ab", "b", "å"]);
    assert_eq!(meta(&p, "b"), "5");
    assert!(p.get("c").is_none());
    p.insert("c".into(), "7".into());
    assert_eq!(meta(&p, "c"), "7");
    assert_eq!(p.clone(), p);
    assert_eq!(Props::default(), Props::new());
}
