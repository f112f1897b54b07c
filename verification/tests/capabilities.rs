use ce_drive_serve::cap::{
    admit_leaf, authorize_req, decode_hex, derive_nonce, enforce_prefix, is_revoked, nonce_of,
    op_path, parse_node_id, refusal, required_ability, revoked_set, share, Capability,
};
use ce_drive_serve::{drive_caveat_prefix, DriveErr, DriveOp, ShareCaveats};
use sha2::{Digest, Sha256};

const ID: &str = "000102030405060708090a0b0c0d0e0f101112131415161718191a1b1c1d1eFF";

fn cap(prefix: Option<&str>) -> Capability {
    Capability {
        abilities: vec!["drive:read".into(), "drive:admin".into()],
        path_prefix: prefix.map(str::to_string),
        not_after: 0,
    }
}

fn ok() -> Result<(), String> {
    Ok(())
}

fn mv(from: &str, to: &str) -> DriveOp {
    DriveOp::Move { from: from.into(), to: to.into() }
}

fn stat(path: &str) -> DriveOp {
    DriveOp::Stat { path: path.into() }
}

#[test]
fn hexadecimal_is_read_in_either_case() {
    assert_eq!(decode_hex("00fFaB"), Some(vec![0, 255, 171]));
    assert_eq!(decode_hex(""), Some(vec![]));
    for bad in ["0", "0g", "00 ", "å", "0x00"] {
        assert_eq!(decode_hex(bad), None, "{bad}");
    }
}

#[test]
fn a_node_id_is_32_bytes_in_hexadecimal() {
    let id = parse_node_id(&format!(" {ID}\n")).unwrap();
    assert_eq!(id[0], 0);
    assert_eq!(id[30], 30);
    assert_eq!(id[31], 255);
    assert_eq!(parse_node_id(&ID[2..]), None);
    assert_eq!(parse_node_id(&format!("{ID}00")), None);
    assert_eq!(parse_node_id(&ID.replace('F', "g")), None);
    assert_eq!(parse_node_id(""), None);
}

#[test]
fn revocations_that_name_no_node_are_skipped() {
    let list = vec![
        (ID.to_string(), 7),
        ("junk".to_string(), 8),
        (ID.to_lowercase(), 9),
    ];
    let set = revoked_set(&list);
    let id = parse_node_id(ID).unwrap();
    assert_eq!(set, vec![(id, 7), (id, 9)]);
    assert!(is_revoked(&set, &id, 7) && is_revoked(&set, &id, 9));
    assert!(!is_revoked(&set, &id, 8));
    assert!(!is_revoked(&set, &[0; 32], 7));
    assert!(!is_revoked(&vec![], &id, 7));
}

#[test]
fn each_operation_requires_its_ability() {
    let p = || "/p".to_string();
    for (op, ability, path) in [
        (DriveOp::Open, "drive:read", None),
        (stat("/p"), "drive:read", Some("/p")),
        (DriveOp::List { path: p(), cursor: None, limit: 1 }, "drive:read", Some("/p")),
        (DriveOp::Read { path: p(), offset: 0, len: None }, "drive:read", Some("/p")),
        (
            DriveOp::Write { path: p(), object_cid: "c".into(), size: 1, base_etag: None },
            "drive:write",
            Some("/p"),
        ),
        (DriveOp::Mkdir { path: p() }, "drive:write", Some("/p")),
        (mv("/a", "/b"), "drive:write", Some("/b")),
        (DriveOp::Copy { from: p(), to: "/q".into() }, "drive:write", Some("/q")),
        (DriveOp::Delete { path: p(), recursive: true }, "drive:write", Some("/p")),
        (
            DriveOp::Share {
                path: p(),
                audience: ID.into(),
                abilities: vec![],
                caveats: ShareCaveats::default(),
            },
            "drive:admin",
            Some("/p"),
        ),
        (DriveOp::Poll { cursor: None, limit: 1 }, "drive:read", None),
        (DriveOp::Watch, "drive:read", None),
        (DriveOp::Meta { path: p() }, "drive:read", Some("/p")),
        (
            DriveOp::SetProp { path: p(), key: "k".into(), value: None },
            "drive:write",
            Some("/p"),
        ),
        (DriveOp::Backlinks { to: "node:n".into() }, "drive:read", None),
    ] {
        assert_eq!(required_ability(&op), ability, "{op:?}");
        assert_eq!(op_path(&op), path, "{op:?}");
    }
}

#[test]
fn an_objection_is_told_apart_by_its_words() {
    assert_eq!(refusal("capability revoked"), DriveErr::Revoked);
    assert_eq!(refusal("revoked and expired"), DriveErr::Revoked);
    assert_eq!(refusal("link expired at 7"), DriveErr::Expired);
    assert_eq!(refusal("not yet valid"), DriveErr::Expired);
    assert_eq!(refusal("bad signature"), DriveErr::Unauthorized);
    assert_eq!(refusal(""), DriveErr::Unauthorized);
}

#[test]
fn the_words_of_an_objection_count_in_any_case() {
    let chain = vec![cap(Some("ce-drive/team"))];
    let r = |e: &str| authorize_req(&Err(e.to_string()), "team", &DriveOp::Open, &chain);
    assert_eq!(r("Capability REVOKED"), Err(DriveErr::Revoked));
    assert_eq!(r("Not Yet Valid"), Err(DriveErr::Expired));
    assert_eq!(r("wrong audience"), Err(DriveErr::Unauthorized));
}

#[test]
fn a_bound_capability_passes_and_grants_its_abilities() {
    let chain = vec![cap(None), cap(Some("ce-drive/team/docs"))];
    let granted = vec!["drive:read".to_string(), "drive:admin".to_string()];
    assert_eq!(authorize_req(&ok(), "team", &stat("/docs/a"), &chain), Ok(granted.clone()));
    assert_eq!(authorize_req(&ok(), "team", &DriveOp::Watch, &chain), Ok(granted.clone()));
    assert_eq!(admit_leaf("team", &mv("/docs/a", "/docs/b"), &chain), Ok(granted));
}

#[test]
fn the_guard_fails_closed() {
    let chain = vec![cap(Some("ce-drive/team/docs"))];
    let r = |drive: &str, op: DriveOp| authorize_req(&ok(), drive, &op, &chain);
    assert_eq!(authorize_req(&ok(), "team", &DriveOp::Open, &vec![]), Err(DriveErr::Unauthorized));
    // Another drive, whatever the operation.
    assert_eq!(r("other", DriveOp::Open), Err(DriveErr::OutOfScope));
    assert_eq!(r("other", stat("/docs")), Err(DriveErr::OutOfScope));
    assert_eq!(r("other", stat("..")), Err(DriveErr::OutOfScope));
    // Another subtree.
    assert_eq!(r("team", stat("/docsx")), Err(DriveErr::OutOfScope));
    assert_eq!(r("team", stat("/")), Err(DriveErr::OutOfScope));
    // Either end of a move.
    assert_eq!(r("team", mv("/etc", "/docs/a")), Err(DriveErr::OutOfScope));
    assert_eq!(r("team", mv("/docs/a", "/etc")), Err(DriveErr::OutOfScope));
    assert_eq!(r("team", mv("/docs/../etc", "/docs/a")), Err(DriveErr::BadPath));
    // Traversal.
    assert_eq!(r("team", stat("/docs/../etc")), Err(DriveErr::BadPath));
}

#[test]
fn white_space_does_not_hide_a_traversal() {
    let chain = vec![cap(Some("ce-drive/team/docs"))];
    let r = |op: DriveOp| authorize_req(&ok(), "team", &op, &chain);
    for p in ["/docs/.. ", "/docs/..\u{a0}", "\t/docs/../x\n", " ../docs"] {
        assert_eq!(r(stat(p)), Err(DriveErr::BadPath), "{p:?}");
        assert_eq!(r(mv(p, "/docs/a")), Err(DriveErr::BadPath), "{p:?}");
        assert_eq!(r(mv("/docs/a", p)), Err(DriveErr::BadPath), "{p:?}");
        let shared = share(&chain, "team", p, ID, &vec![], &asked(0));
        assert_eq!(shared.map(|m| m.path_prefix), Err(DriveErr::BadPath), "{p:?}");
    }
    // White space inside a component is part of its name.
    assert!(r(stat("/docs/.. /a")).is_ok());
    assert!(r(stat(" /docs/a ")).is_ok());
}

#[test]
fn a_path_that_no_prefix_can_be_bound_to_is_not_shared() {
    let chain = vec![cap(Some("ce-drive/team/docs"))];
    let r = |path: &str| {
        share(&chain, "team", path, ID, &vec![], &asked(0)).map(|m| m.path_prefix)
    };
    // The prefix would lose the white space at its end, and so be bound to another subtree.
    assert_eq!(r("/docs/a /"), Err(DriveErr::BadPath));
    assert_eq!(r("/docs/a\u{a0}/"), Err(DriveErr::BadPath));
    assert_eq!(r("/docs/a / "), Err(DriveErr::BadPath));
    assert_eq!(r("/docs/a "), Ok("ce-drive/team/docs/a".to_string()));
    assert_eq!(r("/docs/a /b"), Ok("ce-drive/team/docs/a /b".to_string()));
}

#[test]
fn a_capability_that_is_not_bound_to_a_drive_authorizes_nothing() {
    for prefix in [None, Some("/"), Some("/docs"), Some(""), Some("ce-db/team"), Some("ce-drive/")] {
        let chain = vec![cap(prefix)];
        for op in [DriveOp::Open, stat("/docs"), DriveOp::Watch] {
            assert_eq!(authorize_req(&ok(), "team", &op, &chain), Err(DriveErr::OutOfScope));
        }
        assert_eq!(enforce_prefix(&cap(prefix), "team", "/docs"), Err(DriveErr::OutOfScope));
    }
    assert_eq!(enforce_prefix(&cap(Some("ce-drive/team")), "team", "/docs"), Ok(()));
}

#[test]
fn the_nonce_of_a_share_is_fixed_by_audience_and_path() {
    let digest = Sha256::digest(format!("{ID}|/docs"));
    let expected = u64::from_le_bytes(digest[..8].try_into().unwrap());
    assert_eq!(derive_nonce(ID, "/docs"), expected);
    assert_ne!(derive_nonce(ID, "/other"), expected);
    assert_eq!(nonce_of(&vec![1, 2, 0, 0, 0, 0, 0, 0x80, 0xff]), 0x8000_0000_0000_0201);
}

fn asked(not_after: u64) -> ShareCaveats {
    ShareCaveats { not_after, max_bytes_read: None, max_bytes_write: None }
}

#[test]
fn a_share_is_cut_down_to_what_the_sharer_holds() {
    let mut held = cap(Some(&drive_caveat_prefix("team", "/docs")));
    held.not_after = 100;
    let chain = vec![held];
    let abilities =
        vec!["drive:write".to_string(), "drive:admin".to_string(), "drive:read".to_string()];
    let m = share(&chain, "team", "docs/a/", ID, &abilities, &asked(500)).unwrap();
    assert_eq!(m.audience, parse_node_id(ID).unwrap());
    assert_eq!(m.abilities, vec!["drive:admin".to_string(), "drive:read".to_string()]);
    assert_eq!(m.not_after, 100);
    assert_eq!(m.path_prefix, "ce-drive/team/docs/a");
    assert_eq!(m.nonce, derive_nonce(ID, "docs/a/"));
    // What was minted reaches the path it was minted for, and no further.
    let minted = Capability {
        abilities: m.abilities,
        path_prefix: Some(m.path_prefix),
        not_after: m.not_after,
    };
    assert_eq!(enforce_prefix(&minted, "team", "/docs/a/b"), Ok(()));
    assert_eq!(enforce_prefix(&minted, "team", "/docs/b"), Err(DriveErr::OutOfScope));
    assert_eq!(enforce_prefix(&minted, "other", "/docs/a/b"), Err(DriveErr::OutOfScope));
}

#[test]
fn a_shared_capability_is_honored() {
    let chain = vec![cap(Some("ce-drive/team/docs"))];
    let asked_for = vec!["drive:read".to_string()];
    let m = share(&chain, "team", "/docs/a", ID, &asked_for, &asked(0)).unwrap();
    let minted = vec![Capability {
        abilities: m.abilities,
        path_prefix: Some(m.path_prefix),
        not_after: m.not_after,
    }];
    for op in [stat("/docs/a"), stat("docs/a/b/"), DriveOp::Open, mv("/docs/a/x", "/docs/a/y")] {
        assert_eq!(admit_leaf("team", &op, &minted), Ok(asked_for.clone()), "{op:?}");
    }
    assert_eq!(admit_leaf("other", &DriveOp::Open, &minted), Err(DriveErr::OutOfScope));
}

#[test]
fn sharing_again_keeps_the_nonce() {
    let one = share(&vec![cap(Some("ce-drive/team"))], "team", "/d", ID, &vec![], &asked(0));
    let other = share(
        &vec![cap(Some("ce-drive/team/d"))],
        "team",
        "/d",
        ID,
        &vec!["drive:admin".to_string()],
        &asked(7),
    );
    assert_eq!(one.unwrap().nonce, other.unwrap().nonce);
}

#[test]
fn a_share_expires_with_the_earlier_of_both() {
    let expiry = |held: u64, wanted: u64| {
        let mut c = cap(Some("ce-drive/team"));
        c.not_after = held;
        share(&vec![c], "team", "/", ID, &vec![], &asked(wanted)).unwrap().not_after
    };
    assert_eq!(expiry(0, 0), 0);
    assert_eq!(expiry(0, 9), 9);
    assert_eq!(expiry(9, 0), 9);
    assert_eq!(expiry(9, 5), 5);
    assert_eq!(expiry(5, 9), 5);
}

#[test]
fn a_share_of_nothing_in_particular_is_to_read() {
    let c = Capability {
        abilities: vec!["drive:admin".into()],
        path_prefix: Some("ce-drive/team".into()),
        not_after: 0,
    };
    let m = share(&vec![c], "team", "/", ID, &vec![], &asked(0)).unwrap();
    assert_eq!(m.abilities, vec!["drive:read".to_string()]);
    assert_eq!(m.path_prefix, "ce-drive/team");
}

#[test]
fn a_share_is_refused_for_the_first_thing_wrong() {
    let chain = vec![cap(Some("ce-drive/team/docs"))];
    let r = |chain: &Vec<Capability>, path: &str, audience: &str, abilities: &[&str]| {
        let abilities = abilities.iter().map(|a| a.to_string()).collect();
        share(chain, "team", path, audience, &abilities, &asked(0)).map(|m| m.path_prefix)
    };
    assert_eq!(r(&vec![], "..", "x", &["y"]), Err(DriveErr::Unauthorized));
    assert_eq!(r(&chain, "/etc", "x", &[]), Err(DriveErr::BadPath));
    assert_eq!(r(&chain, "/etc/..", ID, &[]), Err(DriveErr::BadPath));
    assert_eq!(r(&chain, "/etc", ID, &[]), Err(DriveErr::OutOfScope));
    assert_eq!(r(&chain, "/docs", ID, &["drive:write"]), Err(DriveErr::OutOfScope));
    assert_eq!(r(&chain, "/docs", ID, &["drive:read"]), Ok("ce-drive/team/docs".to_string()));
}
