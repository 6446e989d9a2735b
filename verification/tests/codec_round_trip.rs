//! Front-matter codec behaviour on concrete documents.

use novel_store::codec::{parse_front_matter, serialize_front_matter};
use novel_store::domain::{parse_meta_block, serialize_meta_block, ProjectMeta};

fn b(s: &str) -> Vec<u8> {
    s.as_bytes().to_vec()
}

fn sample_meta() -> ProjectMeta {
    ProjectMeta {
        name: b("My Novel"),
        created_unix: 1700000000,
        format_version: 1,
        update_url: Some(b("https://example.com/feed.json")),
        theme: Some(b("dark")),
        left_pane_permille: Some(280),
    }
}

#[test]
fn round_trip_full_meta() {
    let meta = sample_meta();
    let body = b("# Hello\n\nSome text with: colons and --- dashes.\n");
    let doc = serialize_front_matter(&meta, &body);
    let (parsed, out_body) = parse_front_matter(&doc);
    let parsed = parsed.expect("metadata should parse back");
    assert_eq!(parsed.name, meta.name);
    assert_eq!(parsed.created_unix, meta.created_unix);
    assert_eq!(parsed.format_version, meta.format_version);
    assert_eq!(parsed.update_url, meta.update_url);
    assert_eq!(parsed.theme, meta.theme);
    assert_eq!(parsed.left_pane_permille, meta.left_pane_permille);
    assert_eq!(out_body, b("# Hello\n\nSome text with: colons and --- dashes."));
}

#[test]
fn round_trip_minimal_meta() {
    let meta = ProjectMeta {
        name: b(""),
        created_unix: 0,
        format_version: 1,
        update_url: None,
        theme: None,
        left_pane_permille: None,
    };
    let doc = serialize_front_matter(&meta, &b("  body with leading spaces"));
    let (parsed, out_body) = parse_front_matter(&doc);
    let parsed = parsed.unwrap();
    assert_eq!(parsed.name, b(""));
    assert_eq!(parsed.created_unix, 0);
    assert_eq!(out_body, b("body with leading spaces"));
}

#[test]
fn serialize_is_stable_under_reload() {
    let meta = sample_meta();
    let doc1 = serialize_front_matter(&meta, &b("body\n"));
    let (m2, b2) = parse_front_matter(&doc1);
    let doc2 = serialize_front_matter(&m2.unwrap(), &b2);
    assert_eq!(doc1, doc2);
}

#[test]
fn bom_is_stripped() {
    let mut doc = Vec::new();
    doc.extend_from_slice(&[0xEF, 0xBB, 0xBF]);
    doc.extend_from_slice(b"---\nname: X\ncreated_unix: 5\nformat_version: 1\n---\n\nbody\n");
    let (meta, body) = parse_front_matter(&doc);
    let meta = meta.unwrap();
    assert_eq!(meta.name, b("X"));
    assert_eq!(meta.created_unix, 5);
    assert_eq!(body, b("body"));
}

#[test]
fn crlf_delimiters_are_accepted() {
    let doc = b("---\r\nname: Y\r\ncreated_unix: 7\r\nformat_version: 2\r\n---\r\n\r\nhello");
    let (meta, body) = parse_front_matter(&doc);
    let meta = meta.unwrap();
    assert_eq!(meta.name, b("Y"));
    assert_eq!(meta.format_version, 2);
    assert_eq!(body, b("hello"));
}

#[test]
fn missing_open_delimiter_yields_body_only() {
    let doc = b("just a document\nwith no front matter\n");
    let (meta, body) = parse_front_matter(&doc);
    assert!(meta.is_none());
    assert_eq!(body, doc);
}

#[test]
fn unparsable_block_yields_no_meta_but_body() {
    let doc = b("---\ngarbage without the required keys\n---\n\nreal body\n");
    let (meta, body) = parse_front_matter(&doc);
    assert!(meta.is_none());
    assert_eq!(body, b("real body"));
}

#[test]
fn unknown_keys_are_ignored() {
    let block = b("name: N\nmystery: value\ncreated_unix: 1\nformat_version: 1\n");
    let meta = parse_meta_block(&block).unwrap();
    assert_eq!(meta.name, b("N"));
}

#[test]
fn bad_number_rejects_block() {
    let block = b("name: N\ncreated_unix: not-a-number\nformat_version: 1\n");
    assert!(parse_meta_block(&block).is_none());
}

#[test]
fn meta_block_round_trip() {
    let meta = sample_meta();
    let block = serialize_meta_block(&meta);
    let back = parse_meta_block(&block).unwrap();
    assert_eq!(back.name, meta.name);
    assert_eq!(back.created_unix, meta.created_unix);
    assert_eq!(back.format_version, meta.format_version);
    assert_eq!(back.update_url, meta.update_url);
    assert_eq!(back.theme, meta.theme);
    assert_eq!(back.left_pane_permille, meta.left_pane_permille);
}
