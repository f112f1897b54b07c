use ce_drive_serve::envelope::{
    content_of, decode_content_reply, err_reply, extract_reply, extract_request, extract_result,
    extracted_value, ok_reply, ItemsArgs, EXTRACT_MAX_BYTES, ITEMS_SERVICE, ITEMS_TOPIC,
};
use ce_drive_serve::corpus::Extracted;
use ce_drive_serve::props::Props;
use serde_json::Value;

fn obj(members: &[(&str, Value)]) -> Value {
    let mut m = serde_json::Map::new();
    for (k, v) in members {
        m.insert(k.to_string(), v.clone());
    }
    Value::Object(m)
}

fn items(args: &[(&str, Value)]) -> Value {
    obj(&[("op", Value::from("items")), ("args", obj(args))])
}

#[test]
fn a_broken_kind_app_degrades_instead_of_poisoning_the_corpus() {
    // Missing, malformed, and error replies must all degrade: one bad format cannot be allowed
    // to stop a whole drive being indexed.
    assert!(extract_reply(b"not json at all").unextracted);
    assert!(extract_reply(br#"{"error":"boom"}"#).unextracted);
    assert!(extract_reply(br#"{"result":{"nonsense":1}}"#).unextracted
        || extract_reply(br#"{"result":{"nonsense":1}}"#).text.is_empty());
}

#[test]
fn a_good_reply_is_read() {
    let e = extract_reply(br#"{"ok":true,"result":{"title":"T","text":"hello","links":[["a","node:x"]],"unextracted":false}}"#);
    assert_eq!(e.text, "hello");
    assert_eq!(e.title.as_deref(), Some("T"));
    assert_eq!(e.links, vec![("a".to_string(), "node:x".to_string())]);
    assert!(!e.unextracted);
}

#[test]
fn the_extract_request_carries_bytes_the_caller_already_has() {
    // The ROUTER supplies the bytes, because the router is what resolved the locator. A kind app
    // that fetched for itself would have had to learn storage.
    let req = extract_request(b"hello", "a.ocean");
    assert_eq!(req["op"], "extract");
    assert_eq!(req["args"]["name"], "a.ocean");
    assert_eq!(req["args"]["base64"], "aGVsbG8=");
}

#[test]
fn since_is_parsed_from_the_request() {
    let v = items(&[("since", Value::from(1700000000))]);
    assert_eq!(ItemsArgs::parse(&v).since, 1_700_000_000);
    assert_eq!(ItemsArgs::parse(&obj(&[("op", Value::from("items"))])).since, 0);
}

#[test]
fn a_page_is_always_bounded() {
    // "give me everything" must still come back as a page.
    let v = items(&[("limit", Value::from(100000))]);
    assert_eq!(ItemsArgs::parse(&v).limit, ItemsArgs::MAX_LIMIT);
    let v = items(&[("limit", Value::from(0))]);
    assert_eq!(ItemsArgs::parse(&v).limit, 1);
}

#[test]
fn defaults_walk_the_whole_drive_from_the_start() {
    let a = ItemsArgs::parse(&obj(&[("op", Value::from("items"))]));
    assert_eq!(a.path, "/");
    assert_eq!(a.offset, 0);
    assert!(a.drive.is_none());
}

#[test]
fn replies_use_the_envelope_every_ce_app_speaks() {
    let raw = ok_reply(obj(&[("x", Value::from(1))]));
    let v: Value = serde_json::from_slice(&raw).unwrap();
    assert_eq!(v["ok"], true);
    assert_eq!(v["result"]["x"], 1);
    let e: Value = serde_json::from_slice(&err_reply("boom")).unwrap();
    assert_eq!(e["error"], "boom");
}

#[test]
fn every_content_app_decodes_the_same_way() {
    // blob, local-fs and stream all answer with base64 in the same envelope; the router must not
    // care which one replied.
    let raw = br#"{"ok":true,"result":{"id":"x","base64":"aGVsbG8="}}"#;
    assert_eq!(decode_content_reply(raw).unwrap(), b"hello");
}

#[test]
fn a_refusal_yields_no_bytes_rather_than_empty_ones() {
    // An error must not look like a zero-length file, or the index would record it as empty.
    assert!(decode_content_reply(br#"{"error":"no such stream"}"#).is_none());
    assert!(decode_content_reply(b"not json").is_none());
}

#[test]
fn the_corpus_is_found_under_these_names() {
    assert_eq!(ITEMS_TOPIC, "ce-drive/items");
    assert_eq!(ITEMS_SERVICE, "ce-drive.corpus");
    assert_eq!(EXTRACT_MAX_BYTES, 8_388_608);
    assert_eq!(ItemsArgs::MAX_LIMIT, 200);
}

#[test]
fn arguments_in_full() {
    let v = items(&[
        ("drive", Value::from("team")),
        ("path", Value::from("/docs")),
        ("offset", Value::from(40)),
        ("limit", Value::from(20)),
        ("since", Value::from(7)),
    ]);
    let a = ItemsArgs::parse(&v);
    assert_eq!(a.drive.as_deref(), Some("team"));
    assert_eq!(a.path, "/docs");
    assert_eq!((a.offset, a.limit, a.since), (40, 20, 7));
}

#[test]
fn arguments_of_the_wrong_type_are_passed_over() {
    let v = items(&[
        ("drive", Value::from(1)),
        ("path", Value::Null),
        ("offset", Value::from(-1)),
        ("limit", Value::from(1.5)),
        ("since", Value::from("7")),
    ]);
    let a = ItemsArgs::parse(&v);
    assert_eq!(a.drive, None);
    assert_eq!(a.path, "/");
    assert_eq!((a.offset, a.limit, a.since), (0, 50, 0));
    let a = ItemsArgs::parse(&obj(&[("args", Value::from("x"))]));
    assert_eq!((a.path.as_str(), a.limit), ("/", 50));
    assert_eq!(ItemsArgs::parse(&Value::Null).limit, 50);
}

#[test]
fn an_extraction_in_full() {
    let e = extract_reply(
        br#"{"result":{"title":null,"text":"t","links":[["r","x"],["s","y"]],"props":{"b":"2","a":"1"},
            "tags":["u","v"],"unextracted":true,"more":[1,2]}}"#,
    );
    assert_eq!(e.title, None);
    assert_eq!(e.text, "t");
    assert_eq!(e.links, vec![("r".into(), "x".into()), ("s".into(), "y".into())]);
    assert_eq!(e.props.get("a").unwrap(), "1");
    assert_eq!(e.props.get("b").unwrap(), "2");
    assert_eq!(e.props.entries().len(), 2);
    assert_eq!(e.tags, vec!["u".to_string(), "v".to_string()]);
    assert!(e.unextracted);
}

#[test]
fn an_extraction_may_come_as_an_array() {
    let e = extract_reply(br#"{"result":["T","prose"]}"#);
    assert_eq!(e.title.as_deref(), Some("T"));
    assert_eq!(e.text, "prose");
    assert!(e.links.is_empty() && e.tags.is_empty() && !e.unextracted);
    let e = extract_reply(br#"{"result":[null,"",[],{"k":"v"},["t"],true]}"#);
    assert_eq!(e.props.get("k").unwrap(), "v");
    assert_eq!(e.tags, vec!["t".to_string()]);
    assert!(e.unextracted);
    let e = extract_reply(br#"{"result":[null,"x",[],{},[],false,7]}"#);
    assert!(e.unextracted && e.text.is_empty());
    assert!(!extract_reply(br#"{"result":[]}"#).unextracted);
}

#[test]
fn one_field_of_the_wrong_form_spoils_an_extraction() {
    for field in [
        r#""title":1"#,
        r#""text":null"#,
        r#""links":[["a"]]"#,
        r#""links":[["a","b","c"]]"#,
        r#""links":[["a",1]]"#,
        r#""links":[[1,"a"]]"#,
        r#""links":["ab"]"#,
        r#""links":{}"#,
        r#""props":{"k":1}"#,
        r#""props":[]"#,
        r#""tags":[1]"#,
        r#""tags":"t""#,
        r#""unextracted":0"#,
    ] {
        let raw = format!("{{\"result\":{{\"text\":\"x\",{field}}}}}");
        let raw = if field.starts_with("\"text\"") { format!("{{\"result\":{{{field}}}}}") } else { raw };
        let e = extract_reply(raw.as_bytes());
        assert!(e.unextracted && e.text.is_empty(), "{field}");
    }
    for result in ["null", "1", "\"x\"", "true"] {
        assert!(extract_reply(format!("{{\"result\":{result}}}").as_bytes()).unextracted);
    }
    assert!(extract_result(&Value::Null).unextracted);
    assert!(!extract_result(&obj(&[("result", obj(&[]))])).unextracted);
}

#[test]
fn content_is_read_back_as_it_was_sent() {
    for n in 0..70usize {
        let bytes: Vec<u8> = (0..n).map(|i| (i * 37 + n * 91) as u8).collect();
        let text = extract_request(&bytes, "f")["args"]["base64"].clone();
        let raw = ok_reply(obj(&[("base64", text)]));
        assert_eq!(decode_content_reply(&raw), Some(bytes));
    }
}

#[test]
fn base64_has_one_text_for_each_content() {
    let text = |bytes: &[u8]| extract_request(bytes, "f")["args"]["base64"].as_str().unwrap().to_string();
    assert_eq!(text(b""), "");
    assert_eq!(text(&[0xff]), "/w==");
    assert_eq!(text(&[0xfb, 0xf0]), "+/A=");
    assert_eq!(text(&[0x00, 0x10, 0x83]), "ABCD");
    let read = |text: &str| content_of(&obj(&[("result", obj(&[("base64", Value::from(text))]))]));
    assert_eq!(read(""), Some(vec![]));
    assert_eq!(read("/w=="), Some(vec![0xff]));
    // Padding that is missing or in excess, bits behind the last byte, strange digits.
    for bad in ["/w", "/w=", "/w===", "/x==", "A", "====", "/w==AAAA", "AB\n=", " ABCD", "AB-_", "å==="] {
        assert_eq!(read(bad), None, "{bad}");
    }
    assert_eq!(content_of(&obj(&[("result", Value::from("x"))])), None);
    assert_eq!(content_of(&obj(&[("result", obj(&[("base64", Value::from(1))]))])), None);
}

#[test]
fn an_error_reply_is_no_extraction() {
    let e = extract_reply(&err_reply("quote \" and \\ and \u{1}"));
    assert!(e.unextracted);
    let v: Value = serde_json::from_slice(&err_reply("quote \" and \\ and \u{1}")).unwrap();
    assert_eq!(v["error"], "quote \" and \\ and \u{1}");
    assert_eq!(err_reply("boom"), br#"{"error":"boom"}"#);
    assert_eq!(ok_reply(Value::Null), br#"{"ok":true,"result":null}"#);
}

#[test]
fn a_reply_nested_as_deep_as_can_be_read_is_read_back() {
    let mut v = Value::from(7);
    for _ in 0..126 {
        v = Value::Array(vec![v]);
    }
    let raw = ok_reply(v.clone());
    let back: Value = serde_json::from_slice(&raw).unwrap();
    assert_eq!(back["result"], v);
    let deeper = ok_reply(Value::Array(vec![v]));
    assert!(serde_json::from_slice::<Value>(&deeper).is_err());
}

fn extraction(title: Option<&str>, n: usize, unextracted: bool) -> Extracted {
    let mut props = Props::new();
    for i in (0..n).rev() {
        props.insert(format!("k{i}"), format!("v \"{i}\""));
    }
    Extracted {
        title: title.map(str::to_string),
        text: "line\nå \\ \u{1f30a}".repeat(n),
        links: (0..n).map(|i| (format!("rel{i}"), format!("node:{i}"))).collect(),
        props,
        tags: (0..n).map(|i| format!("t{i}")).collect(),
        unextracted,
    }
}

#[test]
fn an_extraction_is_read_back_as_it_was_sent() {
    for title in [None, Some(""), Some("T")] {
        for n in 0..4 {
            for unextracted in [false, true] {
                let sent = extraction(title, n, unextracted);
                let got = extract_reply(&ok_reply(extracted_value(&sent)));
                assert_eq!(got.title, sent.title);
                assert_eq!(got.text, sent.text);
                assert_eq!(got.links, sent.links);
                assert_eq!(got.props.entries(), sent.props.entries());
                assert_eq!(got.tags, sent.tags);
                assert_eq!(got.unextracted, sent.unextracted);
            }
        }
    }
}

#[test]
fn an_extraction_is_written_under_its_field_names() {
    let mut e = extraction(Some("T"), 1, true);
    e.text = "x".into();
    let written: Value = serde_json::from_str(
        r#"{"title":"T","text":"x","links":[["rel0","node:0"]],"props":{"k0":"v \"0\""},
            "tags":["t0"],"unextracted":true}"#,
    )
    .unwrap();
    assert_eq!(extracted_value(&e), written);
    let empty: Value = serde_json::from_str(
        r#"{"title":null,"text":"","links":[],"props":{},"tags":[],"unextracted":false}"#,
    )
    .unwrap();
    assert_eq!(extracted_value(&extraction(None, 0, false)), empty);
}
