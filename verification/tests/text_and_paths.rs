use tool_stubs::digest::{hash_sha256, hash_sha256_to_str};
use tool_stubs::error::decimal_of;
use tool_stubs::name_map::NameMap;
use tool_stubs::node::Node;
use tool_stubs::owner::{bundle_owner, bundle_owner_of_bytes};
use tool_stubs::paths::{
    components_of, extension_of, file_name_of, file_stem_of, insert_path, join, path_eq, path_less,
};
use tool_stubs::text;

#[test]
fn digests_are_sha256_in_hexadecimal() {
    assert_eq!(
        hash_sha256(b"abc"),
        "ba7816bf8f01cfea414140de5dae2223b00361a396177a9cb410ff61f20015ad"
    );
    assert_eq!(
        hash_sha256_to_str(""),
        "e3b0c44298fc1c149afbf4c8996fb92427ae41e4649b934ca495991b7852b855"
    );
}

#[test]
fn texts_are_ordered_like_strings() {
    let words = ["", "a", "a-b", "a.b", "ab", "b", "Z", "é", "😀", "\u{ffff}"];
    for a in words {
        for b in words {
            assert_eq!(text::text_less(a, b), a < b, "{a:?} {b:?}");
            assert_eq!(text::text_eq(a, b), a == b);
            assert_eq!(text::starts_with(a, b), a.starts_with(b));
        }
    }
}

#[test]
fn texts_are_joined_and_padded() {
    let parts = vec!["a".to_string(), "b".to_string(), "c".to_string()];
    assert_eq!(text::join(&parts, "; "), "a; b; c");
    assert_eq!(text::join(&Vec::new(), "; "), "");
    assert_eq!(text::pad_right("stale", 9), "stale    ");
    assert_eq!(text::pad_right("a longer word", 9), "a longer word");
    assert_eq!(text::concat("a", "b"), "ab");
    assert!(text::contains_char("a/b", '/'));
    assert!(!text::contains_char("ab", '/'));
}

#[test]
fn numbers_are_written_in_decimal() {
    assert_eq!(decimal_of(0), "0");
    assert_eq!(decimal_of(7), "7");
    assert_eq!(decimal_of(40), "40");
    assert_eq!(decimal_of(255), "255");
}

#[test]
fn paths_agree_with_the_standard_library() {
    let samples = [
        "", "/", ".", "..", "a", "a/b", "/a/b", "/a//b/", "./a", "a/./b", "/./a", "a/.", "a/..",
        "../a", "//a", "a.b", ".hidden", "a/.hidden", "x.tar.gz", "a.", "é/ü.json", "a/b/..",
    ];
    for a in samples {
        let path = std::path::Path::new(a);
        assert_eq!(components_of(a).len(), path.components().count(), "{a:?}");
        assert_eq!(
            file_name_of(a).as_deref(),
            path.file_name().and_then(|name| name.to_str()),
            "{a:?}"
        );
        assert_eq!(
            file_stem_of(a).as_deref(),
            path.file_stem().and_then(|name| name.to_str()),
            "{a:?}"
        );
        assert_eq!(
            extension_of(a).as_deref(),
            path.extension().and_then(|name| name.to_str()),
            "{a:?}"
        );
        for b in samples {
            let other = std::path::Path::new(b);
            assert_eq!(path_eq(a, b), path == other, "{a:?} {b:?}");
            assert_eq!(path_less(a, b), path < other, "{a:?} {b:?}");
            assert_eq!(join(a, b), path.join(b).to_str().unwrap(), "{a:?} {b:?}");
        }
    }
}

#[test]
fn a_joined_name_is_found_again() {
    assert_eq!(file_name_of(&join("/opt/bin/", "rg")).as_deref(), Some("rg"));
    assert!(path_eq("/opt/bin/rg", "/opt//bin/./rg/"));
    assert!(!path_eq("/opt/bin/rg", "/opt/bin/fd"));
}

#[test]
fn paths_are_kept_in_order_and_once() {
    let mut list = Vec::new();
    for path in ["/b/x", "/a/y", "/b//x", "/a/x", "/a"] {
        list = insert_path(list, path.to_string());
    }
    assert_eq!(list, vec!["/a", "/a/x", "/a/y", "/b//x"]);
}

#[test]
fn name_maps_are_sorted_and_replace() {
    let map = NameMap::new()
        .insert("rg".to_string(), Node::Absent)
        .insert("fd".to_string(), Node::Directory)
        .insert("zoxide".to_string(), Node::Absent)
        .insert("rg".to_string(), Node::Special);
    assert_eq!(map.len(), 3);
    assert_eq!(map.name_at(0), "fd");
    assert_eq!(map.name_at(1), "rg");
    assert_eq!(map.name_at(2), "zoxide");
    assert!(matches!(map.get("rg"), Some(Node::Special)));
    assert!(matches!(map.get("fd"), Some(Node::Directory)));
    assert!(map.get("bat").is_none());
    assert!(map.contains("zoxide"));
}

#[test]
fn the_first_marker_line_names_the_owner() {
    let marker = "# managed by mise tool-stubs bundle ";
    assert_eq!(
        bundle_owner(&format!("#!/bin/sh\n{marker}one\n{marker}two\n")).as_deref(),
        Some("one")
    );
    assert_eq!(
        bundle_owner(&format!("a\r\n{marker}one\r\n")).as_deref(),
        Some("one")
    );
    assert_eq!(
        bundle_owner(&format!("{marker}one")).as_deref(),
        Some("one")
    );
    assert_eq!(bundle_owner(&format!(" {marker}one\n")), None);
    assert_eq!(bundle_owner(""), None);
    assert_eq!(
        bundle_owner_of_bytes(&format!("{marker}ü\n").into_bytes()).as_deref(),
        Some("ü")
    );
    let mut broken = format!("{marker}one\n").into_bytes();
    broken.push(0xff);
    assert_eq!(bundle_owner_of_bytes(&broken), None);
}
