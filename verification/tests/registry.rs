use ce_drive_serve::{ChangeKind, Quota, Registry, Tenant};

fn registry() -> Registry {
    Registry::new(&[0xab; 32])
}

#[test]
fn create_get_and_list_drives() {
    let mut reg = registry();
    assert!(reg.drive_ids().is_empty());
    assert!(reg.get("nope").is_none());

    reg.create("team", Quota::default()).unwrap();
    reg.create("personal", Quota::default()).unwrap();

    assert!(reg.get("team").is_some());
    assert!(reg.get_mut("personal").is_some());
    let mut ids = reg.drive_ids();
    ids.sort();
    assert_eq!(ids, vec!["personal".to_string(), "team".to_string()]);
}

#[test]
fn duplicate_create_errors() {
    let mut reg = registry();
    reg.create("team", Quota::default()).unwrap();
    let err = reg.create("team", Quota::default()).unwrap_err();
    assert!(err.to_string().contains("already exists"));
    assert_eq!(err, "drive 'team' already exists");
}

#[test]
fn quota_is_carried_per_drive() {
    let mut reg = registry();
    let q = Quota {
        price_per_gib_month: "5".into(),
        price_per_gib_egress: "2".into(),
        free_tier_bytes: 1024,
        channel_required: true,
    };
    reg.create("paid", q.clone()).unwrap();
    let got = &reg.get("paid").unwrap().quota;
    assert_eq!(got.price_per_gib_month, "5");
    assert!(got.channel_required);
    assert_eq!(got.free_tier_bytes, 1024);
}

#[test]
fn a_restored_drive_starts_its_feed_again_and_is_there_once() {
    let mut reg = registry();
    reg.restore("team", Quota::default()).unwrap();
    // The feed restarts at 0 (clients bootstrap again from the snapshot, then poll forward).
    assert_eq!(reg.get("team").unwrap().feed.cursor(), 0);
    assert!(reg.get("team").unwrap().snapshot.is_none());
    // Restoring the same id twice errors.
    assert_eq!(
        reg.restore("team", Quota::default()).unwrap_err(),
        "drive 'team' already exists"
    );
    assert!(reg.create("team", Quota::default()).is_err());
}

#[test]
fn a_drive_changes_alone() {
    let mut reg = registry();
    for id in ["a", "b", "c"] {
        reg.create(id, Quota::default()).unwrap();
    }
    let t = reg.get_mut("b").unwrap();
    t.feed.record("/x".into(), "n".into(), ChangeKind::Created, "e".into());
    t.snapshot = Some(("cid".into(), 1));
    assert!(reg.get_mut("nope").is_none());
    assert_eq!(reg.get("b").unwrap().feed.cursor(), 1);
    assert_eq!(reg.get("b").unwrap().snapshot, Some(("cid".into(), 1)));
    assert_eq!(reg.get("a").unwrap().feed.cursor(), 0);
    assert_eq!(reg.get("c").unwrap().feed.cursor(), 0);
    assert!(reg.room());
    assert_eq!(reg.host_id_hex(), "ab".repeat(32));
}

#[test]
fn a_fresh_tenant_is_empty_however_it_came_about() {
    for t in [Tenant::new(Quota::default()), Tenant::from_state(Quota::default())] {
        assert_eq!(t.feed.cursor(), 0);
        assert_eq!(t.quota, Quota::default());
        assert_eq!(t.snapshot, None);
    }
}

#[test]
fn a_host_is_named_by_64_digits() {
    let mut id = [0u8; 32];
    for (i, b) in id.iter_mut().enumerate() {
        *b = (i * 9) as u8;
    }
    let name = Registry::new(&id).host_id_hex().to_string();
    assert_eq!(name.len(), 64);
    assert!(name.starts_with("0009121b242d363f"));
    assert_eq!(name, Registry::new(&id).host_id_hex());
    assert_eq!(ce_drive_serve::cap::parse_node_id(&name), Some(id));
    id[31] ^= 1;
    assert_ne!(name, Registry::new(&id).host_id_hex());
}
