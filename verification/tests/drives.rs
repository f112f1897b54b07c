use ce_drive_serve::drive::{
    entry_of, etag_for, list_page, read_plan, stat_entry, Content, DirItem, Found, Manifest,
};
use ce_drive_serve::{Entry, EntryKind};

fn chunked(size: u64, chunk_size: u64) -> Manifest {
    let n = size.div_ceil(chunk_size);
    Manifest {
        total_size: size,
        chunk_size,
        chunks: (0..n).map(|i| format!("cid{i}")).collect(),
    }
}

#[test]
fn ranged_read_pulls_only_intersecting_chunks() {
    let manifest = chunked(3000, 1000);
    assert_eq!(manifest.chunks.len(), 3);
    // Read bytes [1500, 2200): intersects chunk 1 [1000,2000) and chunk 2 [2000,3000).
    let plan = read_plan("obj", &manifest, 1500, Some(700));
    let offsets: Vec<u64> = plan.chunks.iter().map(|c| c.offset).collect();
    assert_eq!(offsets, vec![1000, 2000]);
}

#[test]
fn ranged_read_header_pulls_one_chunk() {
    let manifest = chunked(3000, 1000);
    // Read just the first 10 bytes -> only chunk 0.
    let plan = read_plan("obj", &manifest, 0, Some(10));
    assert_eq!(plan.chunks.len(), 1);
    assert_eq!(plan.chunks[0].offset, 0);
}

#[test]
fn full_read_pulls_all_chunks() {
    let manifest = chunked(2500, 1000);
    let plan = read_plan("obj", &manifest, 0, None);
    assert_eq!(plan.chunks.len(), 3);
    assert_eq!(plan.total_size, 2500);
}

#[test]
fn a_plan_in_full() {
    let plan = read_plan("obj", &chunked(2500, 1000), 2400, Some(u64::MAX));
    assert_eq!(plan.object_cid, "obj");
    assert_eq!(plan.chunk_size, 1000);
    assert!(!plan.encrypted);
    assert_eq!(plan.key_hint, None);
    assert_eq!(plan.chunks.len(), 1);
    assert_eq!(plan.chunks[0].cid, "cid2");
    assert_eq!((plan.chunks[0].offset, plan.chunks[0].len), (2000, 500));
}

#[test]
fn a_plan_holds_exactly_the_chunks_of_the_range() {
    let m = chunked(23, 5);
    for offset in 0..30u64 {
        for len in 0..30u64 {
            let end = (offset + len).min(23);
            let planned: Vec<u64> =
                read_plan("o", &m, offset, Some(len)).chunks.iter().map(|c| c.offset / 5).collect();
            let mut expected: Vec<u64> = (offset..end).map(|b| b / 5).collect();
            expected.dedup();
            assert_eq!(planned, expected, "{offset} {len}");
        }
        if offset >= 23 {
            assert!(read_plan("o", &m, offset, None).chunks.is_empty());
        }
    }
}

#[test]
fn odd_manifests_do_no_harm() {
    let m = |total_size, chunk_size, n: usize| Manifest {
        total_size,
        chunk_size,
        chunks: vec!["c".to_string(); n],
    };
    assert!(read_plan("o", &m(10, 0, 3), 0, None).chunks.is_empty());
    assert!(read_plan("o", &m(0, 5, 1), 0, None).chunks.is_empty());
    // More chunks than the size has room for: the rest are empty.
    assert_eq!(read_plan("o", &m(7, 5, 9), 0, None).chunks.len(), 2);
    let all = read_plan("o", &m(u64::MAX, u64::MAX, 2), 1, Some(u64::MAX)).chunks;
    assert_eq!(all.len(), 1);
    assert_eq!(all[0].len, u64::MAX);
}

fn content(cid: &str, mtime_ms: u64) -> Content {
    Content { cid: cid.into(), size: 3, mode: 0o600, mtime_ms, doc_id: Some("doc".into()) }
}

#[test]
fn an_etag_is_a_content_version_or_the_node() {
    assert_eq!(etag_for(&Some(content("cid", 42)), "n1"), "cid:42");
    assert_eq!(etag_for(&None, "n1"), "dir:n1");
}

#[test]
fn the_root_is_known_without_looking() {
    let root = Entry {
        path: "/".into(),
        kind: EntryKind::Dir,
        size: 0,
        mtime_ms: 0,
        etag: "dir:ROOT".into(),
        node_id: "ROOT".into(),
        object_cid: None,
        doc_id: None,
    };
    assert_eq!(stat_entry(" // ", "ROOT", &None), Some(root));
}

#[test]
fn a_path_is_what_the_tree_holds_there() {
    let file = Found { node_id: "n1".into(), is_dir: Some(false), content: Some(content("c", 7)) };
    assert_eq!(
        stat_entry("a/b/", "ROOT", &Some(file.clone())),
        Some(Entry {
            path: "/a/b".into(),
            kind: EntryKind::File,
            size: 3,
            mtime_ms: 7,
            etag: "c:7".into(),
            node_id: "n1".into(),
            object_cid: Some("c".into()),
            doc_id: Some("doc".into()),
        })
    );
    assert_eq!(stat_entry("/a/b", "ROOT", &None), None);
    assert_eq!(stat_entry("/a/b", "ROOT", &Some(Found { is_dir: None, ..file })), None);
}

fn item(name: &str, is_dir: bool) -> DirItem {
    let c = if is_dir { None } else { Some(content("c", 7)) };
    DirItem { name: name.into(), node_id: format!("n-{name}"), is_dir, content: c.clone(), stored: c }
}

#[test]
fn an_entry_shows_the_listing_and_is_tagged_by_the_content_map() {
    let e = entry_of("/docs", &DirItem { stored: Some(content("d", 8)), ..item("a", false) });
    assert_eq!(e.path, "/docs/a");
    assert_eq!(e.object_cid.as_deref(), Some("c"));
    assert_eq!(e.etag, "d:8");
    let e = entry_of("/", &item("sub", true));
    assert_eq!((e.path.as_str(), e.kind, e.etag.as_str()), ("/sub", EntryKind::Dir, "dir:n-sub"));
}

#[test]
fn a_listing_goes_page_by_page_and_misses_nothing() {
    let items: Vec<DirItem> = ["a", "b", "ba", "c", "d"].iter().map(|n| item(n, false)).collect();
    for limit in 0..7u32 {
        let mut seen: Vec<String> = vec![];
        let mut cursor: Option<String> = None;
        loop {
            let (page, next) = list_page(&items, "/docs", &cursor, limit);
            assert!(page.len() <= limit.max(1) as usize);
            seen.extend(page.into_iter().map(|e| e.path));
            cursor = next;
            if cursor.is_none() {
                break;
            }
        }
        assert_eq!(seen, vec!["/docs/a", "/docs/b", "/docs/ba", "/docs/c", "/docs/d"]);
    }
    let (page, next) = list_page(&items, "/", &Some("b".into()), 2);
    assert_eq!(page.iter().map(|e| e.path.as_str()).collect::<Vec<_>>(), vec!["/ba", "/c"]);
    assert_eq!(next.as_deref(), Some("c"));
    // A cursor between two names, and one behind all of them.
    assert_eq!(list_page(&items, "/", &Some("bb".into()), 1).0[0].path, "/c");
    assert_eq!(list_page(&items, "/", &Some("z".into()), 9), (vec![], None));
    assert_eq!(list_page(&vec![], "/", &None, 9), (vec![], None));
}

#[test]
fn a_read_of_no_bytes_takes_no_chunk() {
    let m = chunked(3000, 1000);
    for offset in [0, 999, 1000, 1500, 2999, 3000, 9000] {
        assert!(read_plan("o", &m, offset, Some(0)).chunks.is_empty(), "{offset}");
    }
    assert_eq!(read_plan("o", &m, 1500, Some(1)).chunks.len(), 1);
}
