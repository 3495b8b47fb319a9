use elio::path::FilePath;
use elio::restore::{
    remove_from_origins_map, remove_restore_origins_at_path_checked, strip_collision_suffix,
    write_failure, Origins, StoreRead, StoreUpdate,
};
use elio::utf16::decode_utf16be;

fn origins(entries: &[(&str, &str)]) -> Origins {
    let mut map = Origins::new();
    for (name, origin) in entries {
        map.insert(name.to_string(), origin.to_string());
    }
    map
}

fn store() -> FilePath {
    FilePath::from_text("/tmp/origins.json")
}

#[test]
fn decode_utf16be_decodes_ascii_string() {
    let bytes = b"\x00H\x00i";
    assert_eq!(decode_utf16be(bytes), Some("Hi".to_string()));
}

#[test]
fn decode_utf16be_decodes_non_ascii() {
    let bytes = b"\x00\xe9";
    assert_eq!(decode_utf16be(bytes), Some("é".to_string()));
}

#[test]
fn decode_utf16be_rejects_odd_byte_count() {
    assert_eq!(decode_utf16be(b"\x00H\x00"), None);
}

#[test]
fn decode_utf16be_empty_slice_gives_empty_string() {
    assert_eq!(decode_utf16be(b""), Some(String::new()));
}

#[test]
fn decode_utf16be_agrees_with_std() {
    for text in ["", "plain", "\u{1f600} face", "a\u{10ffff}b", "\u{d7ff}\u{e000}\u{ffff}"] {
        let mut bytes = Vec::new();
        for unit in text.encode_utf16() {
            bytes.extend_from_slice(&unit.to_be_bytes());
        }
        assert_eq!(decode_utf16be(&bytes), Some(text.to_string()));
    }
}

#[test]
fn decode_utf16be_rejects_lone_surrogates() {
    assert_eq!(decode_utf16be(b"\xd8\x3d"), None);
    assert_eq!(decode_utf16be(b"\xde\x00"), None);
    assert_eq!(decode_utf16be(b"\xd8\x3d\x00a"), None);
    assert_eq!(decode_utf16be(b"\xd8\x3d\xd8\x3d"), None);
}

#[test]
fn remove_from_origins_map_removes_exact_match() {
    let mut map = origins(&[
        ("report.pdf", "/home/user/report.pdf"),
        ("notes.txt", "/home/user/notes.txt"),
    ]);
    let changed = remove_from_origins_map(&mut map, &["report.pdf"]);
    assert!(changed);
    assert!(
        !map.contains_key("report.pdf"),
        "target entry should be removed"
    );
    assert!(
        map.contains_key("notes.txt"),
        "unrelated entry should be untouched"
    );
}

#[test]
fn remove_from_origins_map_handles_collision_suffix_with_extension() {
    let mut map = origins(&[("report.pdf", "/home/user/report.pdf")]);
    let changed = remove_from_origins_map(&mut map, &["report 2.pdf"]);
    assert!(changed);
    assert!(
        map.is_empty(),
        "collision-suffixed name should strip and remove base key"
    );
}

#[test]
fn remove_from_origins_map_handles_collision_suffix_without_extension() {
    let mut map = origins(&[("notes", "/home/user/notes")]);
    let changed = remove_from_origins_map(&mut map, &["notes 2"]);
    assert!(changed);
    assert!(map.is_empty());
}

#[test]
fn remove_from_origins_map_returns_false_when_key_not_found() {
    let mut map = origins(&[("other.txt", "/home/user/other.txt")]);
    let changed = remove_from_origins_map(&mut map, &["missing.txt"]);
    assert!(
        !changed,
        "no match should return false and leave map untouched"
    );
    assert_eq!(map.len(), 1);
}

#[test]
fn remove_from_origins_map_removes_multiple_names() {
    let mut map = origins(&[
        ("a.txt", "/home/user/a.txt"),
        ("b.txt", "/home/user/b.txt"),
        ("c.txt", "/home/user/c.txt"),
    ]);
    let changed = remove_from_origins_map(&mut map, &["a.txt", "c.txt"]);
    assert!(changed);
    assert!(!map.contains_key("a.txt"));
    assert!(map.contains_key("b.txt"), "untargeted entry must survive");
    assert!(!map.contains_key("c.txt"));
}

#[test]
fn remove_from_origins_map_no_op_on_empty_map() {
    let mut map = Origins::new();
    let changed = remove_from_origins_map(&mut map, &["foo.txt"]);
    assert!(!changed);
}

#[test]
fn exact_name_goes_before_the_unnumbered_one() {
    let mut map = origins(&[("report.pdf", "/a"), ("report 2.pdf", "/b")]);
    assert!(remove_from_origins_map(&mut map, &["report 2.pdf"]));
    assert_eq!(map.get("report.pdf"), Some("/a"));
    assert_eq!(map.get("report 2.pdf"), None);
}

#[test]
fn numbers_are_stripped_only_behind_a_space() {
    assert_eq!(
        strip_collision_suffix("report 2.pdf"),
        Some("report.pdf".to_string())
    );
    assert_eq!(strip_collision_suffix("a 12"), Some("a".to_string()));
    assert_eq!(
        strip_collision_suffix("archive 3.tar.gz"),
        None,
        "the extension is the last one"
    );
    assert_eq!(strip_collision_suffix("report2.pdf"), None);
    assert_eq!(strip_collision_suffix("report .pdf"), None);
    assert_eq!(strip_collision_suffix(" 2.pdf"), None);
    assert_eq!(strip_collision_suffix(""), None);
    assert_eq!(strip_collision_suffix(".hidden 2"), Some(".hidden".to_string()));
}

#[test]
fn later_origin_replaces_the_earlier_one() {
    let map = origins(&[("a", "/1"), ("b", "/2"), ("a", "/3")]);
    assert_eq!(map.len(), 2);
    assert_eq!(map.get("a"), Some("/3"));
}

#[test]
fn checked_origin_removal_accepts_missing_store() {
    let update = remove_restore_origins_at_path_checked(&store(), StoreRead::Missing, &["foo.txt"]);
    assert!(matches!(update, StoreUpdate::Keep));
}

#[test]
fn checked_origin_removal_accepts_missing_key_without_rewriting() {
    let contents = br#"{"other.txt":"/Users/paco/other.txt"}"#;
    let update = remove_restore_origins_at_path_checked(
        &store(),
        StoreRead::Contents(contents.to_vec()),
        &["foo.txt"],
    );
    assert!(matches!(update, StoreUpdate::Keep));
}

#[test]
fn checked_origin_removal_persists_matching_mutation() {
    let contents =
        br#"{"report.pdf":"/Users/paco/report.pdf","notes.txt":"/Users/paco/notes.txt"}"#;
    let update = remove_restore_origins_at_path_checked(
        &store(),
        StoreRead::Contents(contents.to_vec()),
        &["report.pdf"],
    );
    let StoreUpdate::Write(written) = update else {
        panic!("matching key should be removed");
    };
    let map: std::collections::HashMap<String, String> = serde_json::from_slice(&written).unwrap();
    assert!(!map.contains_key("report.pdf"));
    assert_eq!(
        map.get("notes.txt").map(String::as_str),
        Some("/Users/paco/notes.txt")
    );
}

#[test]
fn checked_origin_removal_rejects_malformed_store() {
    let update = remove_restore_origins_at_path_checked(
        &store(),
        StoreRead::Contents(b"{".to_vec()),
        &["report.pdf"],
    );
    let StoreUpdate::Fail(error) = update else {
        panic!("malformed store should be refused");
    };
    assert!(error.contains("cannot parse"));
}

#[test]
fn checked_origin_removal_reports_read_failure() {
    let update =
        remove_restore_origins_at_path_checked(&store(), StoreRead::Failed, &["report.pdf"]);
    let StoreUpdate::Fail(error) = update else {
        panic!("unreadable store should be refused");
    };
    assert!(error.contains("cannot read"));
}

#[test]
fn checked_origin_removal_reports_write_failure() {
    let error = write_failure(&store());
    assert!(error.contains("cannot write"));
    assert_eq!(error, "cannot write /tmp/origins.json");
}

#[test]
fn origins_survive_being_written() {
    let map = origins(&[
        ("a \"quoted\" name", "/tmp/\u{e9}\n"),
        ("\u{1f600}", "\\back\u{0}slash"),
    ]);
    let text = map.to_json();
    let read = Origins::from_json(&text).unwrap();
    assert_eq!(read.len(), 2);
    assert_eq!(read.get("a \"quoted\" name"), Some("/tmp/\u{e9}\n"));
    assert_eq!(read.get("\u{1f600}"), Some("\\back\u{0}slash"));
}

#[test]
fn only_objects_of_strings_are_origins() {
    assert!(Origins::from_json(b"{}").unwrap().is_empty());
    assert!(Origins::from_json(b"[]").is_none());
    assert!(Origins::from_json(b"{\"a\":1}").is_none());
    assert!(Origins::from_json(b"{\"a\":\"b\"} x").is_none());
    assert_eq!(
        Origins::from_json(b" {\"a\":\"b\",\"a\":\"c\"} ")
            .unwrap()
            .get("a"),
        Some("c")
    );
}
