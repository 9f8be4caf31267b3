use fai_protocol::manifest::{looks_like_manifest, FileManifest};

fn manifest(total_size: u64, chunks: &[&str], filename: Option<&str>) -> FileManifest {
    FileManifest {
        total_size,
        chunks: chunks.iter().map(|c| c.to_string()).collect(),
        filename: filename.map(|f| f.to_string()),
    }
}

#[test]
fn a_manifest_is_written_one_member_to_a_line() {
    let m = manifest(2621440, &["aa", "bb"], None);
    let text = String::from_utf8(m.to_bytes()).unwrap();
    assert_eq!(
        text,
        "{\n  \"total_size\": 2621440,\n  \"chunks\": [\n    \"aa\",\n    \"bb\"\n  ],\n  \"filename\": null\n}"
    );
}

#[test]
fn an_empty_list_of_chunks_is_written_as_two_brackets() {
    let m = manifest(0, &[], Some("x.bin"));
    let text = String::from_utf8(m.to_bytes()).unwrap();
    assert_eq!(text, "{\n  \"total_size\": 0,\n  \"chunks\": [],\n  \"filename\": \"x.bin\"\n}");
}

#[test]
fn what_is_written_is_read_back() {
    let cases = vec![
        manifest(0, &[], None),
        manifest(1, &["a"], Some("")),
        manifest(u64::MAX, &["one", "two", "three"], Some("dir/file name.bin")),
        manifest(10, &["quote\"back\\slash", "tab\tline\nfeed\r", "\u{1}\u{1f}\u{7f}"], Some("\u{8}\u{c}")),
        manifest(7, &["caf\u{e9} \u{1F600}"], Some("\u{4e2d}\u{6587}.bin")),
    ];
    for m in cases {
        let text = m.to_bytes();
        assert!(looks_like_manifest(&text));
        let back = FileManifest::from_bytes(&text).unwrap();
        assert_eq!(back.total_size, m.total_size);
        assert_eq!(back.chunks, m.chunks);
        assert_eq!(back.filename, m.filename);
    }
}

#[test]
fn the_written_text_is_what_serde_json_reads() {
    let m = manifest(42, &["quote\"back\\slash", "tab\tline\nfeed\r\u{1}", "caf\u{e9}"], Some("a\u{0}b"));
    let value: serde_json::Value = serde_json::from_slice(&m.to_bytes()).unwrap();
    assert_eq!(value.get("total_size").and_then(|v| v.as_u64()), Some(42));
    let chunks: Vec<String> = value
        .get("chunks")
        .and_then(|v| v.as_array())
        .unwrap()
        .iter()
        .map(|v| v.as_str().unwrap().to_string())
        .collect();
    assert_eq!(chunks, m.chunks);
    assert_eq!(value.get("filename").and_then(|v| v.as_str()), Some("a\u{0}b"));
}

#[test]
fn the_written_text_is_what_serde_json_writes() {
    // serde_json writes the members of a map in the order of their names.
    let mut map = serde_json::Map::new();
    map.insert("a".to_string(), serde_json::Value::from(5u64));
    map.insert("b".to_string(), serde_json::Value::from(vec!["x\ty", "z"]));
    map.insert("c".to_string(), serde_json::Value::Null);
    let pretty = serde_json::to_string_pretty(&serde_json::Value::Object(map)).unwrap();
    let ours = String::from_utf8(manifest(5, &["x\ty", "z"], None).to_bytes()).unwrap();
    let renamed = ours
        .replace("\"total_size\"", "\"a\"")
        .replace("\"chunks\"", "\"b\"")
        .replace("\"filename\"", "\"c\"");
    assert_eq!(renamed, pretty);
}

#[test]
fn what_serde_json_writes_is_read() {
    let mut map = serde_json::Map::new();
    map.insert("total_size".to_string(), serde_json::Value::from(3u64));
    map.insert("chunks".to_string(), serde_json::Value::from(vec!["one", "t\"wo"]));
    map.insert("filename".to_string(), serde_json::Value::from("n\\ame"));
    map.insert("extra".to_string(), serde_json::Value::from(vec![1, 2, 3]));
    let value = serde_json::Value::Object(map);
    for text in [serde_json::to_string(&value).unwrap(), serde_json::to_string_pretty(&value).unwrap()] {
        let m = FileManifest::from_bytes(text.as_bytes()).unwrap();
        assert_eq!(m.total_size, 3);
        assert_eq!(m.chunks, vec!["one".to_string(), "t\"wo".to_string()]);
        assert_eq!(m.filename, Some("n\\ame".to_string()));
    }
}

#[test]
fn members_may_come_in_any_order_and_others_are_passed_over() {
    let text = br#"
        { "filename" : "f" , "note": {"deep": [1, {"x": "]}"}], "t": true},
          "chunks":["c1" ,"c2"], "n": -1.5e3, "s": "a\"b", "z": null,
          "total_size":12 }
    "#;
    let m = FileManifest::from_bytes(text).unwrap();
    assert_eq!(m.total_size, 12);
    assert_eq!(m.chunks, vec!["c1".to_string(), "c2".to_string()]);
    assert_eq!(m.filename, Some("f".to_string()));
}

#[test]
fn the_file_name_may_be_missing_or_null() {
    let m = FileManifest::from_bytes(b"{\"total_size\":1,\"chunks\":[]}").unwrap();
    assert_eq!(m.filename, None);
    let m = FileManifest::from_bytes(b"{\"total_size\":1,\"chunks\":[],\"filename\":null}").unwrap();
    assert_eq!(m.filename, None);
}

#[test]
fn escapes_in_strings_are_read() {
    let m = FileManifest::from_bytes(br#"{"total_size":1,"chunks":["\"\\\/\b\f\n\r\t\u0041\u007f"]}"#).unwrap();
    assert_eq!(m.chunks, vec!["\"\\/\u{8}\u{c}\n\r\tA\u{7f}".to_string()]);
}

#[test]
fn escaped_code_points_are_read_as_utf8() {
    let text = br#"{"total_size":1,"chunks":["\u0000\u007f\u0080\u00e9\u07ff\u0800\u4e2d\uffff\ud800\udc00\ud83d\ude00\udbff\udfff\u00E9"]}"#;
    let m = FileManifest::from_bytes(text).unwrap();
    assert_eq!(m.chunks, vec!["\u{0}\u{7f}\u{80}\u{e9}\u{7ff}\u{800}\u{4e2d}\u{ffff}\u{10000}\u{1f600}\u{10ffff}\u{e9}".to_string()]);
    // as serde_json reads them
    let value: serde_json::Value = serde_json::from_slice(text).unwrap();
    let read = value.get("chunks").and_then(|c| c.get(0)).and_then(|c| c.as_str()).unwrap();
    assert_eq!(read, m.chunks[0]);
}

#[test]
fn texts_that_are_no_manifests_are_refused() {
    let bad: Vec<&[u8]> = vec![
        b"",
        b"{",
        b"{}",
        b"[]",
        b"{\"total_size\":1}",
        b"{\"chunks\":[]}",
        b"{\"total_size\":1,\"chunks\":[],}",
        b"{\"total_size\":1,\"chunks\":[]} x",
        b"{\"total_size\":01,\"chunks\":[]}",
        b"{\"total_size\":-1,\"chunks\":[]}",
        b"{\"total_size\":1.0,\"chunks\":[]}",
        b"{\"total_size\":18446744073709551616,\"chunks\":[]}",
        b"{\"total_size\":\"1\",\"chunks\":[]}",
        b"{\"total_size\":1,\"chunks\":[1]}",
        b"{\"total_size\":1,\"chunks\":[\"a\",]}",
        b"{\"total_size\":1,\"chunks\":[\"a\" \"b\"]}",
        b"{\"total_size\":1,\"chunks\":\"a\"}",
        b"{\"total_size\":1,\"chunks\":[],\"filename\":7}",
        b"{\"total_size\":1,\"total_size\":1,\"chunks\":[]}",
        b"{\"total_size\":1,\"chunks\":[],\"chunks\":[]}",
        b"{\"total_size\":1,\"chunks\":[],\"filename\":null,\"filename\":null}",
        b"{\"total_size\":1,\"chunks\":[\"a\nb\"]}",
        b"{\"total_size\":1,\"chunks\":[\"\\x\"]}",
        b"{\"total_size\":1,\"chunks\":[\"\\ud83d\"]}",
        b"{\"total_size\":1,\"chunks\":[\"\\ud83dx\"]}",
        b"{\"total_size\":1,\"chunks\":[\"\\ud83d\\u0041\"]}",
        b"{\"total_size\":1,\"chunks\":[\"\\ude00\"]}",
        b"{\"total_size\":1,\"chunks\":[\"\\ude00\\ud83d\"]}",
        b"{\"total_size\":1,\"chunks\":[\"\\u12\"]}",
        b"{\"total_size\":1,\"chunks\":[\"\\u12g4\"]}",
        b"{\"total_size\":1,\"chunks\":[\"\xff\"]}",
        b"{\"total_size\":1,\"chunks\":[\"open]}",
        b"{\"total_size\":1,\"chunks\":[],\"x\":}",
        b"{\"total_size\":1,\"chunks\":[],\"x\":[1,2}",
        b"{total_size:1,\"chunks\":[]}",
        b"\x0b{\"total_size\":1,\"chunks\":[]}",
    ];
    for text in bad {
        assert!(FileManifest::from_bytes(text).is_none(), "{:?}", String::from_utf8_lossy(text));
    }
}

#[test]
fn the_largest_size_is_read() {
    let m = FileManifest::from_bytes(b"{\"total_size\":18446744073709551615,\"chunks\":[]}").unwrap();
    assert_eq!(m.total_size, u64::MAX);
    let m = FileManifest::from_bytes(b"{\"total_size\":0,\"chunks\":[]}").unwrap();
    assert_eq!(m.total_size, 0);
}

#[test]
fn a_manifest_is_known_by_its_first_byte_that_is_not_blank() {
    assert!(looks_like_manifest(b"{"));
    assert!(looks_like_manifest(b" \t\r\n\x0b\x0c{\"a\""));
    assert!(!looks_like_manifest(b""));
    assert!(!looks_like_manifest(b"   "));
    assert!(!looks_like_manifest(b"x{"));
    assert!(!looks_like_manifest(b"\x00{"));
    assert!(!looks_like_manifest(b"ZZZZ"));
}
