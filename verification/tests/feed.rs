use ce_drive_serve::{ChangeKind, Feed};

fn k() -> ChangeKind {
    ChangeKind::Created
}

#[test]
fn cursor_advances_per_record() {
    let mut f = Feed::new();
    assert_eq!(f.cursor(), 0);
    assert_eq!(f.record("/a".into(), "n1".into(), k(), "e1".into()), 1);
    assert_eq!(f.record("/b".into(), "n2".into(), k(), "e2".into()), 2);
    assert_eq!(f.cursor(), 2);
}

#[test]
fn poll_is_gap_free_and_resumable() {
    let mut f = Feed::new();
    for i in 0..5 {
        f.record(format!("/f{i}"), format!("n{i}"), k(), format!("e{i}"));
    }
    // First page of 2.
    let (page, cur) = f.poll(0, 2);
    assert_eq!(page.iter().map(|c| c.seq).collect::<Vec<_>>(), vec![1, 2]);
    assert_eq!(cur, 2);
    // Resume from cursor 2 -> next 2.
    let (page, cur) = f.poll(cur, 2);
    assert_eq!(page.iter().map(|c| c.seq).collect::<Vec<_>>(), vec![3, 4]);
    assert_eq!(cur, 4);
    // And the tail.
    let (page, cur) = f.poll(cur, 2);
    assert_eq!(page.iter().map(|c| c.seq).collect::<Vec<_>>(), vec![5]);
    assert_eq!(cur, 5);
    // Nothing left: cursor unchanged.
    let (page, cur) = f.poll(cur, 2);
    assert!(page.is_empty());
    assert_eq!(cur, 5);
}

#[test]
fn a_page_holds_at_least_one_change() {
    let mut f = Feed::new();
    f.record("/a".into(), "n1".into(), ChangeKind::Modified, "e1".into());
    f.record("/b".into(), "n1".into(), ChangeKind::Moved { from: "/a".into() }, "e2".into());
    let (page, cur) = f.poll(0, 0);
    assert_eq!(page.len(), 1);
    assert_eq!(page[0].path, "/a");
    assert_eq!(page[0].kind, ChangeKind::Modified);
    assert_eq!(cur, 1);
    let (page, cur) = f.poll(1, 0);
    assert_eq!(page[0].kind, ChangeKind::Moved { from: "/a".into() });
    assert_eq!(page[0].node_id, "n1");
    assert_eq!(page[0].etag, "e2");
    assert_eq!(cur, 2);
    // A cursor ahead of the feed sees nothing and stays.
    assert_eq!(f.poll(99, 10), (vec![], 99));
}
