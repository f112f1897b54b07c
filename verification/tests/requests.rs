use ce_drive_serve::cap::{derive_nonce, Capability};
use ce_drive_serve::drive::{Content, DirItem, Found, Manifest};
use ce_drive_serve::step::{FetchErr, Judgement, Placed, SnapshotErr, Step};
use ce_drive_serve::{
    encode_req, ChangeKind, DriveErr, DriveOk, DriveOp, DriveReply, DriveReq, DriveServer, Quota,
    Registry, ShareCaveats,
};

const FROM: &str = "aaaaaaaaaaaaaaaaaaaaaaaaaaaaaaaaaaaaaaaaaaaaaaaaaaaaaaaaaaaaaaaa";

fn server() -> DriveServer {
    let mut registry = Registry::new(&[0xbb; 32]);
    registry.create("team", Quota::default()).unwrap();
    registry.create("other", Quota::default()).unwrap();
    DriveServer::new(registry, [0xbb; 32], vec![], "ROOT".into())
}

/// What the world outside says.
struct World {
    judgement: Option<Judgement>,
    snapshot: Option<Result<String, SnapshotErr>>,
    found: Option<Found>,
    items: Option<Vec<DirItem>>,
    manifest: Option<Result<Manifest, FetchErr>>,
    placed: Option<Result<Placed, String>>,
    moved: Option<Result<Option<Content>, String>>,
    removed: Option<Result<(), String>>,
    persisted: Option<Result<(), String>>,
    signed: Option<Result<String, String>>,
    asked: Vec<String>,
}

fn content(cid: &str, mtime_ms: u64) -> Content {
    Content { cid: cid.into(), size: 3, mode: 0o600, mtime_ms, doc_id: None }
}

fn leaf(prefix: &str) -> Capability {
    Capability {
        abilities: vec!["drive:admin".into(), "drive:read".into()],
        path_prefix: Some(prefix.into()),
        not_after: 50,
    }
}

fn world() -> World {
    World {
        judgement: Some(Judgement { chain: vec![leaf("ce-drive/team")], verdict: Ok(()) }),
        snapshot: Some(Ok("snap".into())),
        found: None,
        items: None,
        manifest: None,
        placed: Some(Ok(Placed { node_id: "n1".into(), content: Some(content("cid", 9)) })),
        moved: Some(Ok(Some(content("cid", 9)))),
        removed: Some(Ok(())),
        persisted: Some(Ok(())),
        signed: Some(Ok("token".into())),
        asked: vec![],
    }
}

fn found() -> Option<Found> {
    Some(Found { node_id: "n7".into(), is_dir: Some(false), content: Some(content("old", 4)) })
}

fn follow(s: &mut DriveServer, w: &mut World, mut step: Step) -> Result<DriveOk, DriveErr> {
    loop {
        if let Step::Done(DriveReply { result }) = step {
            return result;
        }
        w.asked.push(match &step {
            Step::Judge { ability, .. } => format!("judge {ability}"),
            Step::Snapshot { drive, .. } => format!("snapshot {drive}"),
            Step::Lookup { drive, path, .. } => format!("lookup {drive} {path}"),
            Step::List { drive, path, .. } => format!("list {drive} {path}"),
            Step::Fetch { cid, .. } => format!("fetch {cid}"),
            Step::AddFile { drive, parent, name, cid, size, mode, .. } => {
                format!("add {drive} {parent} {name} {cid} {size} {mode:o}")
            }
            Step::Mkdir { drive, parent, name, .. } => format!("mkdir {drive} {parent} {name}"),
            Step::Move { drive, from, parent, name, .. } => {
                format!("move {drive} {from} {parent} {name}")
            }
            Step::Remove { drive, path, .. } => format!("remove {drive} {path}"),
            Step::Persist { drive, .. } => format!("persist {drive}"),
            Step::Publish { topic, bytes, .. } => format!("publish {topic} {}", hex::encode(bytes)),
            Step::Sign { mint } => format!("sign {} {}", mint.path_prefix, mint.not_after),
            Step::Done(_) => unreachable!(),
        });
        step = match step {
            Step::Judge { next, .. } => s.judged(next, w.judgement.take()),
            Step::Snapshot { next, .. } => s.opened(next, w.snapshot.take().unwrap()),
            Step::Lookup { next, .. } => s.found(next, w.found.take()),
            Step::List { next, .. } => s.listed(next, w.items.take()),
            Step::Fetch { next, .. } => s.fetched(next, w.manifest.take().unwrap()),
            Step::AddFile { next, .. } => s.added(next, w.placed.take().unwrap()),
            Step::Mkdir { next, .. } => s.added(next, w.placed.take().unwrap()),
            Step::Move { next, .. } => s.moved(next, w.moved.take().unwrap()),
            Step::Remove { next, .. } => s.removed(next, w.removed.take().unwrap()),
            Step::Persist { next, .. } => s.persisted(next, w.persisted.take().unwrap()),
            Step::Publish { next, .. } => s.published(next),
            Step::Sign { .. } => s.signed(w.signed.take().unwrap()),
            Step::Done(_) => unreachable!(),
        };
    }
}

fn ask_as(s: &mut DriveServer, w: &mut World, from: &str, op: DriveOp) -> Result<DriveOk, DriveErr> {
    let step = s.dispatch(from, DriveReq { drive: "team".into(), cap: "chain".into(), op });
    follow(s, w, step)
}

fn ask(s: &mut DriveServer, w: &mut World, op: DriveOp) -> Result<DriveOk, DriveErr> {
    ask_as(s, w, FROM, op)
}

fn write(base_etag: Option<&str>) -> DriveOp {
    DriveOp::Write {
        path: "docs/f".into(),
        object_cid: "cid".into(),
        size: 3,
        base_etag: base_etag.map(str::to_string),
    }
}

fn cursor(s: &mut DriveServer, drive: &str) -> u64 {
    s.registry().get(drive).unwrap().feed.cursor()
}

#[test]
fn a_message_is_decoded_and_dispatched() {
    let s = server();
    let req = DriveReq { drive: "team".into(), cap: "chain".into(), op: DriveOp::Watch };
    let payload = hex::encode(encode_req(&req));
    assert_eq!(s.handle_message(FROM, &payload), Some(s.dispatch(FROM, req)));
    assert_eq!(s.handle_message(FROM, "zz"), None);
    assert_eq!(
        s.handle_message(FROM, "00"),
        Some(Step::Done(DriveReply::err(DriveErr::Internal(
            "decode: io error: unexpected end of file".into()
        ))))
    );
}

#[test]
fn nothing_is_done_before_the_chain_is_checked() {
    let s = server();
    let req = DriveReq { drive: "team".into(), cap: "chain".into(), op: write(None) };
    match s.dispatch(FROM, req) {
        Step::Judge { from, cap, ability, next } => {
            assert_eq!(from, [0xaa; 32]);
            assert_eq!(cap, "chain");
            assert_eq!(ability, "drive:write");
            assert_eq!(next.drive, "team");
        }
        other => panic!("{other:?}"),
    }
}

#[test]
fn a_refused_request_changes_nothing() {
    let mut s = server();
    for (from, judgement, expected) in [
        ("nobody", world().judgement, DriveErr::Unauthorized),
        (FROM, None, DriveErr::Unauthorized),
        (FROM, Some(Judgement { chain: vec![], verdict: Ok(()) }), DriveErr::Unauthorized),
        (
            FROM,
            Some(Judgement { chain: vec![leaf("ce-drive/team")], verdict: Err("Expired".into()) }),
            DriveErr::Expired,
        ),
        (
            FROM,
            Some(Judgement { chain: vec![leaf("ce-drive/other")], verdict: Ok(()) }),
            DriveErr::OutOfScope,
        ),
        (
            FROM,
            Some(Judgement { chain: vec![leaf("ce-drive/team/etc")], verdict: Ok(()) }),
            DriveErr::OutOfScope,
        ),
    ] {
        let mut w = World { judgement, ..world() };
        assert_eq!(ask_as(&mut s, &mut w, from, write(None)), Err(expected));
        assert!(w.asked.len() <= 1);
        assert_eq!(cursor(&mut s, "team"), 0);
    }
}

#[test]
fn open_publishes_a_snapshot_and_notes_it() {
    let mut s = server();
    let mut w = world();
    assert_eq!(
        ask(&mut s, &mut w, DriveOp::Open),
        Ok(DriveOk::Opened {
            drive_root_cid: "snap".into(),
            server_seq: 0,
            granted_abilities: vec!["drive:admin".into(), "drive:read".into()],
            quota: Quota::default(),
        })
    );
    assert_eq!(w.asked, vec!["judge drive:read", "snapshot team"]);
    assert_eq!(s.registry().get("team").unwrap().snapshot, Some(("snap".into(), 0)));
    for (failure, message) in [
        (SnapshotErr::Encode("boom".into()), "boom"),
        (SnapshotErr::Store("boom".into()), "snapshot publish: boom"),
    ] {
        let mut w = World { snapshot: Some(Err(failure)), ..world() };
        assert_eq!(ask(&mut s, &mut w, DriveOp::Open), Err(DriveErr::Internal(message.into())));
    }
}

#[test]
fn stat_knows_the_root_and_looks_the_rest_up() {
    let mut s = server();
    let mut w = world();
    match ask(&mut s, &mut w, DriveOp::Stat { path: "/".into() }) {
        Ok(DriveOk::Entry(e)) => assert_eq!(e.etag, "dir:ROOT"),
        other => panic!("{other:?}"),
    }
    assert_eq!(w.asked, vec!["judge drive:read"]);
    let mut w = World { found: found(), ..world() };
    match ask(&mut s, &mut w, DriveOp::Stat { path: "a//".into() }) {
        Ok(DriveOk::Entry(e)) => {
            assert_eq!(e.etag, "old:4");
            assert_eq!(e.path, "/a");
        }
        other => panic!("{other:?}"),
    }
    assert_eq!(w.asked[1], "lookup team /a");
    let missing = ask(&mut s, &mut world(), DriveOp::Stat { path: "/a".into() });
    assert_eq!(missing, Err(DriveErr::NotFound));
}

#[test]
fn list_pages_through_a_directory() {
    let mut s = server();
    let item = |name: &str| DirItem {
        name: name.into(),
        node_id: name.into(),
        is_dir: true,
        content: None,
        stored: None,
    };
    let list = |cursor: Option<&str>| DriveOp::List {
        path: "docs/".into(),
        cursor: cursor.map(str::to_string),
        limit: 2,
    };
    let items = vec![item("a"), item("b"), item("c")];
    let mut w = World { items: Some(items.clone()), ..world() };
    match ask(&mut s, &mut w, list(None)) {
        Ok(DriveOk::Listing { entries, next_cursor }) => {
            assert_eq!(entries.len(), 2);
            assert_eq!(entries[1].path, "/docs/b");
            assert_eq!(next_cursor.as_deref(), Some("b"));
        }
        other => panic!("{other:?}"),
    }
    assert_eq!(w.asked[1], "list team docs/");
    match ask(&mut s, &mut World { items: Some(items), ..world() }, list(Some("b"))) {
        Ok(DriveOk::Listing { entries, next_cursor }) => {
            assert_eq!(entries.len(), 1);
            assert_eq!(next_cursor, None);
        }
        other => panic!("{other:?}"),
    }
    assert_eq!(ask(&mut s, &mut world(), list(None)), Err(DriveErr::NotFound));
}

#[test]
fn read_plans_from_the_manifest() {
    let mut s = server();
    let read = || DriveOp::Read { path: "/f".into(), offset: 5, len: None };
    let manifest = Manifest { total_size: 8, chunk_size: 4, chunks: vec!["a".into(), "b".into()] };
    let mut w = World { found: found(), manifest: Some(Ok(manifest)), ..world() };
    match ask(&mut s, &mut w, read()) {
        Ok(DriveOk::ReadPlan(p)) => {
            assert_eq!(p.object_cid, "old");
            assert_eq!(p.chunks.len(), 1);
            assert_eq!(p.chunks[0].cid, "b");
        }
        other => panic!("{other:?}"),
    }
    assert_eq!(w.asked, vec!["judge drive:read", "lookup team /f", "fetch old"]);
    for (failure, expected) in [
        (FetchErr::Missing, DriveErr::NotFound),
        (FetchErr::Decode("bad".into()), DriveErr::Internal("manifest decode: bad".into())),
    ] {
        let mut w = World { found: found(), manifest: Some(Err(failure)), ..world() };
        assert_eq!(ask(&mut s, &mut w, read()), Err(expected));
    }
    assert_eq!(ask(&mut s, &mut world(), read()), Err(DriveErr::NotFound));
    let dir = Some(Found { content: None, ..found().unwrap() });
    assert_eq!(ask(&mut s, &mut World { found: dir, ..world() }, read()), Err(DriveErr::NotFound));
}

#[test]
fn write_records_persists_and_announces_in_that_order() {
    let mut s = server();
    let mut w = world();
    assert_eq!(
        ask(&mut s, &mut w, write(Some("stale"))),
        Ok(DriveOk::Written { etag: "cid:9".into(), node_id: "n1".into(), version_seq: 1 })
    );
    assert_eq!(
        w.asked,
        vec![
            "judge drive:write",
            "lookup team /docs/f",
            "add team /docs f cid 3 644",
            "persist team",
            // The drive's name, then the newest change.
            "publish ce-drive/changes/team 04000000000000007465616d0100000000000000",
        ]
    );
    let (changes, _) = s.registry().get("team").unwrap().feed.poll(0, 9);
    assert_eq!(changes.len(), 1);
    assert_eq!(changes[0].path, "/docs/f");
    assert_eq!(changes[0].node_id, "n1");
    assert_eq!(changes[0].kind, ChangeKind::Modified);
    assert_eq!(changes[0].etag, "cid:9");
    assert_eq!(cursor(&mut s, "other"), 0);
}

#[test]
fn a_stale_write_conflicts_and_a_current_one_does_not() {
    let mut s = server();
    let mut w = World { found: found(), ..world() };
    assert_eq!(
        ask(&mut s, &mut w, write(Some("old:3"))),
        Err(DriveErr::Conflict { current_etag: "old:4".into() })
    );
    assert_eq!(cursor(&mut s, "team"), 0);
    for base in [Some("old:4"), None] {
        let mut w = World { found: found(), ..world() };
        assert!(ask(&mut s, &mut w, write(base)).is_ok());
    }
    assert_eq!(cursor(&mut s, "team"), 2);
}

#[test]
fn a_change_that_is_not_on_disk_is_not_acknowledged() {
    let mut s = server();
    let mut w = World { persisted: Some(Err("disk full".into())), ..world() };
    assert_eq!(
        ask(&mut s, &mut w, write(None)),
        Err(DriveErr::Internal("disk full".into()))
    );
    assert_eq!(w.asked.last().unwrap(), "persist team");
}

#[test]
fn what_the_tree_refuses_is_not_recorded() {
    let mut s = server();
    let mut w = World { placed: Some(Err("no such directory".into())), ..world() };
    assert_eq!(
        ask(&mut s, &mut w, DriveOp::Mkdir { path: "/x/y".into() }),
        Err(DriveErr::Internal("no such directory".into()))
    );
    let mut w = World { found: found(), moved: Some(Err("cycle".into())), ..world() };
    assert_eq!(
        ask(&mut s, &mut w, DriveOp::Move { from: "/a".into(), to: "/a/b".into() }),
        Err(DriveErr::Internal("cycle".into()))
    );
    let mut w = World { found: found(), removed: Some(Err("busy".into())), ..world() };
    assert_eq!(
        ask(&mut s, &mut w, DriveOp::Delete { path: "/a".into(), recursive: false }),
        Err(DriveErr::Internal("busy".into()))
    );
    assert_eq!(cursor(&mut s, "team"), 0);
}

#[test]
fn the_other_changes_are_recorded_as_what_they_are() {
    let mut s = server();
    let dir = Some(Ok(Placed { node_id: "d1".into(), content: None }));
    let mut w = World { placed: dir, ..world() };
    assert_eq!(
        ask(&mut s, &mut w, DriveOp::Mkdir { path: "/x".into() }),
        Ok(DriveOk::Made { node_id: "d1".into() })
    );
    assert_eq!(w.asked[1], "mkdir team / x");
    let mut w = World { found: found(), ..world() };
    assert_eq!(
        ask(&mut s, &mut w, DriveOp::Move { from: "a/".into(), to: "/x/b".into() }),
        Ok(DriveOk::Made { node_id: "n7".into() })
    );
    assert_eq!(w.asked[2], "move team /a /x b");
    let mut w = World { found: found(), ..world() };
    assert_eq!(
        ask(&mut s, &mut w, DriveOp::Copy { from: "/a".into(), to: "/c".into() }),
        Ok(DriveOk::Made { node_id: "n1".into() })
    );
    assert_eq!(w.asked[2], "add team / c old 3 600");
    let mut w = World { found: found(), ..world() };
    assert_eq!(
        ask(&mut s, &mut w, DriveOp::Delete { path: "/c".into(), recursive: true }),
        Ok(DriveOk::Deleted)
    );
    let (changes, _) = s.registry().get("team").unwrap().feed.poll(0, 9);
    let seen: Vec<(u64, &str, &str, &str)> = changes
        .iter()
        .map(|c| (c.seq, c.path.as_str(), c.node_id.as_str(), c.etag.as_str()))
        .collect();
    assert_eq!(
        seen,
        vec![
            (1, "/x", "d1", "dir:d1"),
            (2, "/x/b", "n7", "cid:9"),
            (3, "/c", "n1", "cid:9"),
            (4, "/c", "n7", ""),
        ]
    );
    assert_eq!(changes[0].kind, ChangeKind::Created);
    assert_eq!(changes[1].kind, ChangeKind::Moved { from: "/a".into() });
    assert_eq!(changes[2].kind, ChangeKind::Created);
    assert_eq!(changes[3].kind, ChangeKind::Deleted);
}

#[test]
fn the_root_cannot_be_written_and_what_is_not_there_not_found() {
    let mut s = server();
    for op in [
        DriveOp::Write { path: "/".into(), object_cid: "c".into(), size: 1, base_etag: None },
        DriveOp::Mkdir { path: "//".into() },
        DriveOp::Move { from: "/a".into(), to: "/".into() },
        DriveOp::Copy { from: "/a".into(), to: "".into() },
    ] {
        assert_eq!(ask(&mut s, &mut world(), op), Err(DriveErr::BadPath));
    }
    for op in [
        DriveOp::Move { from: "/a".into(), to: "/b".into() },
        DriveOp::Copy { from: "/a".into(), to: "/b".into() },
        DriveOp::Delete { path: "/a".into(), recursive: true },
    ] {
        assert_eq!(ask(&mut s, &mut world(), op), Err(DriveErr::NotFound));
    }
    let dir = Some(Found { content: None, ..found().unwrap() });
    assert_eq!(
        ask(
            &mut s,
            &mut World { found: dir, ..world() },
            DriveOp::Copy { from: "/a".into(), to: "/b".into() }
        ),
        Err(DriveErr::NotFound)
    );
}

#[test]
fn poll_and_watch_tell_where_the_feed_is() {
    let mut s = server();
    ask(&mut s, &mut world(), write(None)).unwrap();
    ask(&mut s, &mut world(), write(None)).unwrap();
    assert_eq!(
        ask(&mut s, &mut world(), DriveOp::Watch),
        Ok(DriveOk::Watching { topic: "ce-drive/changes/team".into(), cursor: 2 })
    );
    match ask(&mut s, &mut world(), DriveOp::Poll { cursor: None, limit: 1 }) {
        Ok(DriveOk::Changes { changes, new_cursor }) => {
            assert_eq!(changes.len(), 1);
            assert_eq!(changes[0].seq, 1);
            assert_eq!(new_cursor, 1);
        }
        other => panic!("{other:?}"),
    }
    match ask(&mut s, &mut world(), DriveOp::Poll { cursor: Some(2), limit: 9 }) {
        Ok(DriveOk::Changes { changes, new_cursor }) => {
            assert!(changes.is_empty());
            assert_eq!(new_cursor, 2);
        }
        other => panic!("{other:?}"),
    }
}

#[test]
fn share_signs_terms_no_wider_than_the_sharers() {
    let mut s = server();
    let op = |audience: &str| DriveOp::Share {
        path: "/docs".into(),
        audience: audience.into(),
        abilities: vec!["drive:read".into(), "drive:write".into()],
        caveats: ShareCaveats { not_after: 99, max_bytes_read: None, max_bytes_write: None },
    };
    let mut w = world();
    assert_eq!(ask(&mut s, &mut w, op(FROM)), Ok(DriveOk::Shared { chain: "token".into() }));
    assert_eq!(w.asked, vec!["judge drive:admin", "sign ce-drive/team/docs 50"]);
    assert_eq!(ask(&mut s, &mut world(), op("nobody")), Err(DriveErr::BadPath));
    let mut w = World { signed: Some(Err("no key".into())), ..world() };
    assert_eq!(ask(&mut s, &mut w, op(FROM)), Err(DriveErr::Internal("no key".into())));
    assert_eq!(derive_nonce(FROM, "/docs"), derive_nonce(FROM, "/docs"));
}

#[test]
fn a_drive_that_is_not_served_is_not_found() {
    let mut s = DriveServer::new(Registry::new(&[0xbb; 32]), [0; 32], vec![], "ROOT".into());
    for op in [
        DriveOp::Open,
        DriveOp::Stat { path: "/".into() },
        DriveOp::List { path: "/".into(), cursor: None, limit: 1 },
        DriveOp::Read { path: "/a".into(), offset: 0, len: None },
        write(None),
        DriveOp::Mkdir { path: "/a".into() },
        DriveOp::Move { from: "/a".into(), to: "/b".into() },
        DriveOp::Copy { from: "/a".into(), to: "/b".into() },
        DriveOp::Delete { path: "/a".into(), recursive: true },
        DriveOp::Poll { cursor: None, limit: 1 },
        DriveOp::Watch,
    ] {
        assert_eq!(ask(&mut s, &mut world(), op), Err(DriveErr::NotFound));
    }
}

#[test]
fn operations_without_a_handler_are_refused() {
    let mut s = server();
    for op in [
        DriveOp::Meta { path: "/a".into() },
        DriveOp::Versions { path: "/a".into() },
        DriveOp::Backlinks { to: "node:n1".into() },
    ] {
        assert_eq!(
            ask(&mut s, &mut world(), op),
            Err(DriveErr::Internal("operation not supported by this host".into()))
        );
    }
}
