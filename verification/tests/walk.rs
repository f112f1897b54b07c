use ce_drive_serve::corpus::NodeFacts;
use ce_drive_serve::props::Props;
use ce_drive_serve::walk::{walk_facts, Listed, Meta, Stored};

fn dir(name: &str) -> Listed {
    Listed {
        name: name.into(),
        node_id: format!("d-{name}"),
        is_dir: true,
        content: None,
        meta: None,
    }
}

fn file(name: &str, node_id: &str) -> Listed {
    Listed {
        name: name.into(),
        node_id: node_id.into(),
        is_dir: false,
        content: Some(Stored { size: 5, mtime_ms: 9, locator: format!("blob:{node_id}") }),
        meta: None,
    }
}

fn tree(path: &str) -> Option<Vec<Listed>> {
    match path {
        "/" => Some(vec![file("z", "n1"), dir("b"), dir("a"), dir("gone"), file("a.txt", "n2")]),
        "/a" => Some(vec![file("2", "n3"), dir("deep"), file("1", "n4")]),
        "/a/deep" => Some(vec![file("x", "n5")]),
        "/b" => Some(vec![
            Listed { content: None, ..file("empty", "n6") },
            file("y", "n7"),
            file("y", "n8"),
        ]),
        _ => None,
    }
}

fn walk(top: &str) -> Vec<NodeFacts> {
    let mut w = walk_facts(top);
    while let Some(d) = w.next() {
        w.listed(&d, tree(&d));
    }
    w.facts()
}

#[test]
fn a_walk_finds_every_file_in_the_order_of_paths() {
    let found: Vec<(String, String)> =
        walk("/").into_iter().map(|f| (f.path, f.node_id)).collect();
    let expected: Vec<(String, String)> = [
        ("/a.txt", "n2"),
        ("/a/1", "n4"),
        ("/a/2", "n3"),
        ("/a/deep/x", "n5"),
        ("/b/y", "n7"),
        ("/b/y", "n8"),
        ("/z", "n1"),
    ]
    .iter()
    .map(|(p, n)| (p.to_string(), n.to_string()))
    .collect();
    assert_eq!(found, expected);
    assert_eq!(walk("/a").len(), 3);
    assert!(walk("/nowhere").is_empty());
}

#[test]
fn a_file_is_known_by_its_content_and_metadata() {
    let mut props = Props::new();
    props.insert("kind".into(), "ocean-doc".into());
    let meta = Meta {
        props,
        tags: vec!["t".into()],
        links: vec![("about".into(), "node:n1".into())],
    };
    let mut w = walk_facts("/docs");
    assert_eq!(w.next().as_deref(), Some("/docs"));
    w.listed("/docs", Some(vec![Listed { meta: Some(meta), ..file("f", "n9") }, file("g", "n8")]));
    assert_eq!(w.next(), None);
    let facts = w.facts();
    assert_eq!(facts[0].path, "/docs/f");
    assert_eq!(facts[0].kind.as_deref(), Some("ocean-doc"));
    assert_eq!(facts[0].locator, "blob:n9");
    assert_eq!((facts[0].size, facts[0].mtime_ms), (5, 9));
    assert_eq!(facts[0].tags, vec!["t".to_string()]);
    assert_eq!(facts[0].links, vec![("about".to_string(), "node:n1".to_string())]);
    assert_eq!(facts[0].props.get("kind").unwrap(), "ocean-doc");
    assert_eq!(facts[1].kind, None);
    assert!(facts[1].tags.is_empty() && facts[1].links.is_empty());
}

#[test]
fn many_files_are_sorted_without_changing_places_at_one_path() {
    let mut w = walk_facts("/");
    w.next();
    let items: Vec<Listed> =
        (0..500).map(|i| file(&format!("{:03}", i * 7 % 100), &format!("{i}"))).collect();
    let mut expected: Vec<(String, String)> =
        items.iter().map(|e| (format!("/{}", e.name), e.node_id.clone())).collect();
    expected.sort_by(|a, b| a.0.cmp(&b.0));
    w.listed("/", Some(items));
    let found: Vec<(String, String)> = w.facts().into_iter().map(|f| (f.path, f.node_id)).collect();
    assert_eq!(found, expected);
}

#[test]
fn a_walk_finds_each_file_once() {
    let tree = |path: &str| match path {
        "/" => Some(vec![dir("a"), dir("ab"), file("a.b", "1"), file("b", "2")]),
        "/a" => Some(vec![dir("a"), dir("b"), file("ab", "3")]),
        "/a/a" => Some(vec![file("a", "4"), file("b", "5")]),
        "/a/b" => Some(vec![file("a", "6")]),
        "/ab" => Some(vec![file("a", "7"), file("b", "8")]),
        _ => None,
    };
    for (top, n) in [("/", 8), ("/a", 4), ("/a/b", 1)] {
        let mut w = walk_facts(top);
        while let Some(d) = w.next() {
            w.listed(&d, tree(&d));
        }
        let mut paths: Vec<String> = w.facts().into_iter().map(|f| f.path).collect();
        assert_eq!(paths.len(), n);
        paths.dedup();
        assert_eq!(paths.len(), n);
    }
}
