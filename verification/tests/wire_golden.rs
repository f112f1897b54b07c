//! Golden vectors of the `ce-drive/v1` wire, computed by hand from the encoding rules. A difference
//! here is a breaking change for every deployed client.

use ce_drive_serve::{
    decode_req, encode_reply, encode_req, Change, ChangeKind, ChunkRef, DriveErr, DriveOk, DriveOp,
    DriveReply, DriveReq, Entry, EntryKind, Quota, ReadPlan, ShareCaveats,
};

/// Every golden request carries drive `"team"` and cap `"deadbeef"`:
///   "team"     -> u64 len 4 + utf8 -> 0400000000000000 7465616d
///   "deadbeef" -> u64 len 8 + utf8 -> 0800000000000000 6465616462656566
const REQ_PREFIX: &str = "04000000000000007465616d08000000000000006465616462656566";

fn req(op: DriveOp) -> String {
    hex::encode(encode_req(&DriveReq {
        drive: "team".into(),
        cap: "deadbeef".into(),
        op,
    }))
}

fn golden(suffix: &str) -> String {
    format!("{REQ_PREFIX}{suffix}")
}

// ---------------------------------------------------------------------------
// requests: every DriveOp variant
// ---------------------------------------------------------------------------

#[test]
fn golden_open() {
    // A fieldless variant still costs a full u32 discriminant.
    assert_eq!(req(DriveOp::Open), golden("00000000"));
}

#[test]
fn golden_stat() {
    assert_eq!(
        req(DriveOp::Stat { path: "/a/b".into() }),
        golden("010000000400000000000000 2f612f62".replace(' ', "").as_str())
    );
}

#[test]
fn golden_list() {
    assert_eq!(
        req(DriveOp::List { path: "/a".into(), cursor: None, limit: 10 }),
        golden("02000000 0200000000000000 2f61 00 0a000000".replace(' ', "").as_str())
    );
    assert_eq!(
        req(DriveOp::List { path: "/a".into(), cursor: Some("x".into()), limit: 0 }),
        golden(
            "02000000 0200000000000000 2f61 01 0100000000000000 78 00000000"
                .replace(' ', "")
                .as_str()
        )
    );
}

#[test]
fn golden_read() {
    assert_eq!(
        req(DriveOp::Read { path: "/f".into(), offset: 0, len: None }),
        golden(
            "03000000 0200000000000000 2f66 0000000000000000 00"
                .replace(' ', "")
                .as_str()
        )
    );
}

#[test]
fn golden_write() {
    assert_eq!(
        req(DriveOp::Write {
            path: "/f".into(),
            object_cid: "cid".into(),
            size: 5,
            base_etag: Some("e".into()),
        }),
        golden(
            "04000000 0200000000000000 2f66 0300000000000000 636964 0500000000000000 01 0100000000000000 65"
                .replace(' ', "")
                .as_str()
        )
    );
}

#[test]
fn golden_mkdir_move_delete() {
    assert_eq!(
        req(DriveOp::Mkdir { path: "/d".into() }),
        golden("05000000 0200000000000000 2f64".replace(' ', "").as_str())
    );
    assert_eq!(
        req(DriveOp::Move { from: "/a".into(), to: "/b".into() }),
        golden(
            "06000000 0200000000000000 2f61 0200000000000000 2f62"
                .replace(' ', "")
                .as_str()
        )
    );
    assert_eq!(
        req(DriveOp::Delete { path: "/f".into(), recursive: true }),
        golden("08000000 0200000000000000 2f66 01".replace(' ', "").as_str())
    );
}

#[test]
fn golden_poll_and_watch() {
    assert_eq!(
        req(DriveOp::Poll { cursor: Some(7), limit: 500 }),
        golden("0a000000 01 0700000000000000 f4010000".replace(' ', "").as_str())
    );
    assert_eq!(req(DriveOp::Watch), golden("0b000000"));
}

#[test]
fn golden_metadata_ops() {
    // Metadata was APPENDED after Watch. Inserting anywhere else would silently repoint every later
    // op for every deployed client, which no round-trip test can catch.
    assert_eq!(
        req(DriveOp::Meta { path: "/a".into() }),
        golden(&["0c000000", "0200000000000000", "2f61"].concat())
    );
    assert_eq!(
        req(DriveOp::Tag { path: "/a".into(), tag: "x".into(), remove: true }),
        golden(&["0e000000", "0200000000000000", "2f61", "0100000000000000", "78", "01"].concat())
    );
}

#[test]
fn golden_share_caveats_field_order() {
    assert_eq!(
        req(DriveOp::Share {
            path: "/p".into(),
            audience: "aud".into(),
            abilities: vec!["read".into()],
            caveats: ShareCaveats { not_after: 1, max_bytes_read: None, max_bytes_write: Some(2) },
        }),
        // path, audience, Vec<String> abilities, then the caveats struct inline
        // (not_after, then Option max_bytes_read, then Option max_bytes_write).
        golden(
            &[
                "09000000",
                "0200000000000000", "2f70",
                "0300000000000000", "617564",
                "0100000000000000", "0400000000000000", "72656164",
                "0100000000000000", "00", "01", "0200000000000000",
            ]
            .concat(),
        )
    );
}

// ---------------------------------------------------------------------------
// replies: `DriveReply { result: Result<DriveOk, DriveErr> }` — Result is itself an enum,
// so every reply starts with its own u32 (0 = Ok, 1 = Err) before the payload variant.
// ---------------------------------------------------------------------------

fn reply(r: DriveReply) -> String {
    hex::encode(encode_reply(&r))
}

#[test]
fn golden_ok_replies() {
    assert_eq!(reply(DriveReply::ok(DriveOk::Deleted)), "0000000006000000");
    assert_eq!(
        reply(DriveReply::ok(DriveOk::Made { node_id: "n1".into() })),
        "00000000 05000000 0200000000000000 6e31".replace(' ', "")
    );
    assert_eq!(
        reply(DriveReply::ok(DriveOk::Written {
            etag: "e".into(),
            node_id: "n".into(),
            version_seq: 3,
        })),
        "00000000 04000000 0100000000000000 65 0100000000000000 6e 0300000000000000"
            .replace(' ', "")
    );
    assert_eq!(
        reply(DriveReply::ok(DriveOk::Watching { topic: "t".into(), cursor: 9 })),
        "00000000 09000000 0100000000000000 74 0900000000000000".replace(' ', "")
    );
}

#[test]
fn golden_err_replies() {
    assert_eq!(reply(DriveReply::err(DriveErr::Unauthorized)), "0100000000000000");
    assert_eq!(reply(DriveReply::err(DriveErr::OutOfScope)), "0100000003000000");
    assert_eq!(reply(DriveReply::err(DriveErr::NotFound)), "0100000004000000");
    assert_eq!(
        reply(DriveReply::err(DriveErr::Conflict { current_etag: "e".into() })),
        "01000000 05000000 0100000000000000 65".replace(' ', "")
    );
    assert_eq!(
        reply(DriveReply::err(DriveErr::Internal("boom".into()))),
        "01000000 09000000 0400000000000000 626f6f6d".replace(' ', "")
    );
}

#[test]
fn error_codes_are_stable_for_clients_that_do_not_decode_variants() {
    // A non-Rust SDK maps the variant INDEX to these codes; both must hold.
    assert_eq!(DriveErr::Unauthorized.code(), 401);
    assert_eq!(DriveErr::Revoked.code(), 410);
    assert_eq!(DriveErr::Expired.code(), 419);
    assert_eq!(DriveErr::OutOfScope.code(), 403);
    assert_eq!(DriveErr::NotFound.code(), 404);
    assert_eq!(DriveErr::Conflict { current_etag: String::new() }.code(), 409);
    assert_eq!(DriveErr::QuotaExceeded.code(), 429);
    assert_eq!(DriveErr::PaymentRequired.code(), 402);
    assert_eq!(DriveErr::BadPath.code(), 400);
    assert_eq!(DriveErr::Internal(String::new()).code(), 500);
}

#[test]
fn variant_indices_are_declaration_order() {
    // The discriminant IS the declaration order. Inserting a variant anywhere but the end
    // silently repoints every later op for every non-Rust client.
    let ops = [
        DriveOp::Open,
        DriveOp::Stat { path: String::new() },
        DriveOp::List { path: String::new(), cursor: None, limit: 0 },
        DriveOp::Read { path: String::new(), offset: 0, len: None },
        DriveOp::Write {
            path: String::new(),
            object_cid: String::new(),
            size: 0,
            base_etag: None,
        },
        DriveOp::Mkdir { path: String::new() },
        DriveOp::Move { from: String::new(), to: String::new() },
        DriveOp::Copy { from: String::new(), to: String::new() },
        DriveOp::Delete { path: String::new(), recursive: false },
        DriveOp::Share {
            path: String::new(),
            audience: String::new(),
            abilities: vec![],
            caveats: ShareCaveats::default(),
        },
        DriveOp::Poll { cursor: None, limit: 0 },
        DriveOp::Watch,
        DriveOp::Meta { path: String::new() },
        DriveOp::SetProp { path: String::new(), key: String::new(), value: None },
        DriveOp::Tag { path: String::new(), tag: String::new(), remove: false },
        DriveOp::Link {
            path: String::new(),
            rel: String::new(),
            to: String::new(),
            remove: false,
        },
        DriveOp::Backlinks { to: String::new() },
        DriveOp::Versions { path: String::new() },
    ];
    for (want, op) in ops.into_iter().enumerate() {
        let encoded = req(op);
        // The op discriminant is the u32 immediately after drive + cap.
        let disc = &encoded[REQ_PREFIX.len()..REQ_PREFIX.len() + 8];
        let got = u32::from_le_bytes(hex::decode(disc).unwrap().try_into().unwrap());
        assert_eq!(got as usize, want, "DriveOp variant {want} moved");
    }
}

// ---------------------------------------------------------------------------
// reading
// ---------------------------------------------------------------------------

fn every_op() -> Vec<DriveOp> {
    vec![
        DriveOp::Open,
        DriveOp::Stat { path: "/å/b".into() },
        DriveOp::List { path: "/a".into(), cursor: Some("x".into()), limit: 7 },
        DriveOp::List { path: "/a".into(), cursor: None, limit: 0 },
        DriveOp::Read { path: "/f".into(), offset: 9, len: Some(u64::MAX) },
        DriveOp::Write {
            path: "/f".into(),
            object_cid: "cid".into(),
            size: 5,
            base_etag: Some("e".into()),
        },
        DriveOp::Mkdir { path: "/d".into() },
        DriveOp::Move { from: "/a".into(), to: "/b".into() },
        DriveOp::Copy { from: "/a".into(), to: "/b".into() },
        DriveOp::Delete { path: "/f".into(), recursive: true },
        DriveOp::Share {
            path: "/p".into(),
            audience: "aud".into(),
            abilities: vec!["drive:read".into(), "drive:write".into()],
            caveats: ShareCaveats { not_after: 1, max_bytes_read: Some(3), max_bytes_write: None },
        },
        DriveOp::Poll { cursor: Some(7), limit: 500 },
        DriveOp::Watch,
        DriveOp::Meta { path: "/a".into() },
        DriveOp::SetProp { path: "/a".into(), key: "k".into(), value: Some("v".into()) },
        DriveOp::Tag { path: "/a".into(), tag: "x".into(), remove: true },
        DriveOp::Link { path: "/a".into(), rel: "r".into(), to: "t".into(), remove: false },
        DriveOp::Backlinks { to: "node:n1".into() },
        DriveOp::Versions { path: "/a".into() },
    ]
}

#[test]
fn a_request_reads_back_as_what_was_written() {
    for op in every_op() {
        let r = DriveReq { drive: "team".into(), cap: "deadbeef".into(), op };
        assert_eq!(decode_req(&encode_req(&r)), Ok(r));
    }
}

#[test]
fn no_two_requests_are_written_alike() {
    let texts: Vec<String> = every_op().into_iter().map(req).collect();
    for (i, a) in texts.iter().enumerate() {
        for b in &texts[i + 1..] {
            assert_ne!(a, b);
        }
    }
}

#[test]
fn no_two_replies_are_written_alike() {
    let entry = |path: &str, kind: EntryKind| Entry {
        path: path.into(),
        kind,
        size: 1,
        mtime_ms: 2,
        etag: "e".into(),
        node_id: "n".into(),
        object_cid: None,
        doc_id: None,
    };
    let change = |kind: ChangeKind| Change {
        seq: 1,
        path: "/p".into(),
        node_id: "n".into(),
        kind,
        etag: "e".into(),
    };
    let plan = |key_hint: Option<String>| ReadPlan {
        object_cid: "o".into(),
        total_size: 4,
        chunk_size: 4,
        chunks: vec![ChunkRef { cid: "c".into(), offset: 0, len: 4 }],
        encrypted: false,
        key_hint,
    };
    let replies = vec![
        DriveReply::ok(DriveOk::Opened {
            drive_root_cid: "c".into(),
            server_seq: 0,
            granted_abilities: vec!["a".into()],
            quota: Quota::default(),
        }),
        DriveReply::ok(DriveOk::Entry(entry("/a", EntryKind::File))),
        DriveReply::ok(DriveOk::Entry(entry("/a", EntryKind::Dir))),
        DriveReply::ok(DriveOk::Listing {
            entries: vec![entry("/a", EntryKind::Dir), entry("/b", EntryKind::Dir)],
            next_cursor: None,
        }),
        DriveReply::ok(DriveOk::Listing {
            entries: vec![entry("/a", EntryKind::Dir)],
            next_cursor: Some("b".into()),
        }),
        DriveReply::ok(DriveOk::ReadPlan(plan(None))),
        DriveReply::ok(DriveOk::ReadPlan(plan(Some("".into())))),
        DriveReply::ok(DriveOk::Made { node_id: "n".into() }),
        DriveReply::ok(DriveOk::Shared { chain: "n".into() }),
        DriveReply::ok(DriveOk::Changes { changes: vec![change(ChangeKind::Created)], new_cursor: 1 }),
        DriveReply::ok(DriveOk::Changes { changes: vec![change(ChangeKind::Modified)], new_cursor: 1 }),
        DriveReply::ok(DriveOk::Changes {
            changes: vec![change(ChangeKind::Moved { from: "".into() })],
            new_cursor: 1,
        }),
        DriveReply::ok(DriveOk::Changes { changes: vec![change(ChangeKind::Deleted)], new_cursor: 1 }),
        DriveReply::err(DriveErr::Revoked),
        DriveReply::err(DriveErr::Expired),
        DriveReply::err(DriveErr::QuotaExceeded),
        DriveReply::err(DriveErr::PaymentRequired),
        DriveReply::err(DriveErr::BadPath),
        DriveReply::err(DriveErr::Internal("".into())),
    ];
    let texts: Vec<String> = replies.into_iter().map(reply).collect();
    for (i, a) in texts.iter().enumerate() {
        for b in &texts[i + 1..] {
            assert_ne!(a, b);
        }
    }
}

#[test]
fn an_early_end_is_told_as_bincode_tells_it() {
    let int = bincode::deserialize::<u32>(&[1, 0]).unwrap_err();
    assert_eq!(decode_req(&[1, 0]).unwrap_err().message(), int.to_string());
    let text = bincode::deserialize::<String>(&[4, 0, 0, 0, 0, 0, 0, 0, 47]).unwrap_err();
    assert_eq!(
        decode_req(&[4, 0, 0, 0, 0, 0, 0, 0, 47]).unwrap_err().message(),
        text.to_string()
    );
    let flag = bincode::deserialize::<bool>(&[2]).unwrap_err();
    assert_eq!(flag.to_string(), "invalid u8 while decoding bool, expected 0 or 1, found 2");
    let tag = bincode::deserialize::<Option<u8>>(&[5]).unwrap_err();
    assert_eq!(tag.to_string(), "tag for enum is not valid, found 5");
}

#[test]
fn bytes_that_are_no_request_are_named() {
    let read = |hex_text: &str| decode_req(&hex::decode(hex_text.replace(' ', "")).unwrap());
    let e = |hex_text: &str| read(&format!("{REQ_PREFIX}{hex_text}")).unwrap_err().message();
    assert_eq!(read("").unwrap_err().message(), "io error: unexpected end of file");
    assert_eq!(e("0100"), "io error: unexpected end of file");
    assert_eq!(e("01000000 0400000000"), "io error: unexpected end of file");
    assert_eq!(e("01000000 0400000000000000 2f61"), "io error: ");
    assert_eq!(e("01000000 0100000000000000 ff"), "string is not valid utf8");
    assert_eq!(
        e("08000000 0100000000000000 2f 02"),
        "invalid u8 while decoding bool, expected 0 or 1, found 2"
    );
    assert_eq!(e("0a000000 05 00000000"), "tag for enum is not valid, found 5");
    assert_eq!(
        e("12000000"),
        "invalid value: integer `18`, expected variant index 0 <= i < 18"
    );
    // A length that no memory can hold is an early end, not a crash.
    assert_eq!(e("01000000 ffffffffffffffff 2f61"), "io error: ");
    // Bytes after a request are ignored.
    assert_eq!(
        read(&format!("{REQ_PREFIX}00000000aabb")).unwrap(),
        DriveReq { drive: "team".into(), cap: "deadbeef".into(), op: DriveOp::Open }
    );
}
