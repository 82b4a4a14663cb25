use emmm_core::names::NameMap;
use emmm_core::path::{file_name, join};
use emmm_core::rewrite::{rewrite_for_pack, rewrite_for_unpack};

fn entries(map: &NameMap) -> Vec<(String, String)> {
    (0..map.len()).map(|i| (map.key_at(i).clone(), map.value_at(i).clone())).collect()
}

#[test]
fn pack_single_reference() {
    let (doc, map) = rewrite_for_pack("see file:/tmp/a.png;");
    assert_eq!(doc, "see asset:a.png;");
    assert_eq!(entries(&map), vec![("a.png".to_string(), "/tmp/a.png".to_string())]);
}

#[test]
fn pack_same_base_name_twice() {
    let (doc, map) = rewrite_for_pack("file:/a/x.png;file:/b/x.png]");
    assert_eq!(doc, "asset:x.png;asset:0_x.png]");
    assert_eq!(
        entries(&map),
        vec![
            ("x.png".to_string(), "/a/x.png".to_string()),
            ("0_x.png".to_string(), "/b/x.png".to_string()),
        ]
    );
}

#[test]
fn pack_counter_skips_taken_names() {
    let (doc, map) = rewrite_for_pack("file:/q/0_x.png;\nfile:/a/x.png;\nfile:/b/x.png;\nfile:/c/x.png;\n");
    assert_eq!(doc, "asset:0_x.png;\nasset:x.png;\nasset:1_x.png;\nasset:2_x.png;\n");
    let keys: Vec<String> = entries(&map).into_iter().map(|e| e.0).collect();
    assert_eq!(keys, vec!["0_x.png", "x.png", "1_x.png", "2_x.png"]);
}

#[test]
fn pack_counter_reaches_two_digits() {
    let mut text = String::new();
    for i in 0..12 {
        text.push_str(&format!("file:/d{i}/x.png\n"));
    }
    let (doc, map) = rewrite_for_pack(&text);
    assert_eq!(map.len(), 12);
    assert_eq!(map.key_at(11), "10_x.png");
    assert!(doc.ends_with("asset:10_x.png\n"));
}

#[test]
fn pack_same_path_twice_gets_two_identifiers() {
    let (doc, map) = rewrite_for_pack("file:/a/x.png; file:/a/x.png;");
    assert_eq!(doc, "asset:x.png; asset:0_x.png;");
    assert_eq!(map.len(), 2);
}

#[test]
fn pack_leaves_tokens_without_base_name() {
    let (doc, map) = rewrite_for_pack("root file:/; empty file:; up file:/a/..; end");
    assert_eq!(doc, "root file:/; empty file:; up file:/a/..; end");
    assert_eq!(map.len(), 0);
}

#[test]
fn pack_needs_a_terminator() {
    let (doc, map) = rewrite_for_pack("file:/a/b.png");
    assert_eq!(doc, "file:/a/b.png");
    assert_eq!(map.len(), 0);
}

#[test]
fn pack_keeps_text_and_terminators() {
    let (doc, map) = rewrite_for_pack("![img](file:/p/é.png]\nline file:/p/q.txt\n");
    assert_eq!(doc, "![img](asset:é.png]\nline asset:q.txt\n");
    assert_eq!(map.len(), 2);
}

#[test]
fn pack_empty_text() {
    let (doc, map) = rewrite_for_pack("");
    assert_eq!(doc, "");
    assert_eq!(map.len(), 0);
}

#[test]
fn unpack_resolves_known_identifiers() {
    let mut map = NameMap::new();
    map.insert("a.png".to_string(), "/out/a.png".to_string());
    let text = rewrite_for_unpack("see asset:a.png; and asset:b.png]", &map);
    assert_eq!(text, "see file:/out/a.png; and asset:b.png]");
}

#[test]
fn unpack_unresolved_twice_is_stable() {
    let mut map = NameMap::new();
    map.insert("a.png".to_string(), "/out/a.png".to_string());
    let once = rewrite_for_unpack("x asset:missing.png;\nasset:nope]", &map);
    assert_eq!(once, "x asset:missing.png;\nasset:nope]");
    let twice = rewrite_for_unpack(&once, &map);
    assert_eq!(twice, once);
}

#[test]
fn pack_then_unpack_restores_references() {
    let (doc, packed) = rewrite_for_pack("a file:/a/x.png; b file:/b/x.png;");
    let mut restored = NameMap::new();
    for i in 0..packed.len() {
        let id = packed.key_at(i).clone();
        restored.insert(id.clone(), join("/out", &id));
    }
    let text = rewrite_for_unpack(&doc, &restored);
    assert_eq!(text, "a file:/out/x.png; b file:/out/0_x.png;");
}

#[test]
fn name_map_insert_replaces() {
    let mut map = NameMap::new();
    map.insert("k".to_string(), "/1".to_string());
    map.insert("k".to_string(), "/2".to_string());
    assert_eq!(map.len(), 1);
    assert_eq!(map.get(&"k".to_string()), Some(&"/2".to_string()));
    assert!(map.contains_key(&"k".to_string()));
    assert_eq!(map.get(&"other".to_string()), None);
}

#[test]
fn file_names() {
    assert_eq!(file_name("/a/b.png"), Some("b.png".to_string()));
    assert_eq!(file_name("a/b/"), Some("b".to_string()));
    assert_eq!(file_name("foo.txt/."), Some("foo.txt".to_string()));
    assert_eq!(file_name("plain"), Some("plain".to_string()));
    assert_eq!(file_name("a/.."), None);
    assert_eq!(file_name("/"), None);
    assert_eq!(file_name("."), None);
    assert_eq!(file_name(""), None);
}

#[test]
fn joins() {
    assert_eq!(join("/out", "a.png"), "/out/a.png");
    assert_eq!(join("/out/", "a.png"), "/out/a.png");
    assert_eq!(join("", "a.png"), "a.png");
}
