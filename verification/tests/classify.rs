use tree_magic::mime::{fallback, has_top_level, is_inode, is_text, rank, same_text};
use tree_magic::{from_u8, from_u8_node, graph_init, load_types, match_u8, root, starts_with};
use tree_magic::{Checker, Registry, Signature, TypeStruct, Walker};

fn s(x: &str) -> String {
    x.to_string()
}

fn pair(child: &str, parent: &str) -> (String, String) {
    (s(child), s(parent))
}

fn sig(mime: &str, magic: &[u8]) -> Signature {
    Signature { mime: s(mime), magic: magic.to_vec() }
}

const PNG: [u8; 8] = [0x89, 0x50, 0x4E, 0x47, 0x0D, 0x0A, 0x1A, 0x0A];

fn base() -> Checker {
    Checker {
        supported: vec![
            s("all/all"),
            s("all/allfiles"),
            s("inode/directory"),
            s("text/plain"),
            s("application/octet-stream"),
        ],
        subclasses: vec![
            pair("all/allfiles", "all/all"),
            pair("inode/directory", "all/all"),
            pair("application/octet-stream", "all/allfiles"),
            pair("text/plain", "application/octet-stream"),
        ],
        signatures: vec![sig("all/allfiles", &[]), sig("application/octet-stream", &[])],
    }
}

fn magic() -> Checker {
    Checker {
        supported: vec![
            s("image/png"),
            s("application/zip"),
            s("application/epub+zip"),
            s("application/pdf"),
            s("text/x-shellscript"),
            s("image/png"),
        ],
        subclasses: vec![
            pair("application/epub+zip", "application/zip"),
            pair("application/epub+zip", "application/zip"),
            pair("application/json", "text/plain"),
        ],
        signatures: vec![
            sig("image/png", &PNG),
            sig("application/zip", b"PK\x03\x04"),
            sig("application/epub+zip", b"PK\x03\x04epub"),
            sig("application/pdf", b"%PDF-"),
            sig("text/x-shellscript", b"#!"),
        ],
    }
}

fn setup() -> (TypeStruct, Registry) {
    let checkers = vec![magic(), base()];
    let ts = load_types(&checkers).unwrap();
    (ts, Registry::new(checkers))
}

fn children(ts: &TypeStruct, mime: &str) -> Vec<String> {
    let node = ts.node(mime).unwrap();
    ts.children_in_order(node).into_iter().map(|n| ts.label(n)).collect()
}

#[test]
fn empty_input_reaches_a_fallback() {
    let (ts, reg) = setup();
    assert_eq!(from_u8(&ts, &reg, &[]), Some(s("application/octet-stream")));
}

#[test]
fn png_signature_is_png() {
    let (ts, reg) = setup();
    let mut bytes = PNG.to_vec();
    bytes.extend_from_slice(b"rest of the picture");
    assert_eq!(from_u8(&ts, &reg, &bytes), Some(s("image/png")));
}

#[test]
fn same_bytes_same_answer() {
    let (ts, reg) = setup();
    let first = from_u8(&ts, &reg, b"%PDF-1.7");
    let second = from_u8(&ts, &reg, b"%PDF-1.7");
    assert_eq!(first, Some(s("application/pdf")));
    assert_eq!(first, second);
}

#[test]
fn deeper_match_wins() {
    let (ts, reg) = setup();
    assert_eq!(from_u8(&ts, &reg, b"PK\x03\x04epub..."), Some(s("application/epub+zip")));
    assert_eq!(from_u8(&ts, &reg, b"PK\x03\x04other"), Some(s("application/zip")));
}

#[test]
fn dangling_relation_is_dropped() {
    let (ts, _) = setup();
    assert_eq!(ts.node("application/json"), None);
    assert!(!children(&ts, "text/plain").contains(&s("application/json")));
}

#[test]
fn one_node_per_type_and_one_edge_per_pair() {
    let (ts, _) = setup();
    assert_eq!(ts.node_count(), 10);
    for n in 0..ts.node_count() {
        assert_eq!(ts.node(&ts.label(n)), Some(n));
    }
    assert_eq!(children(&ts, "application/zip"), vec![s("application/epub+zip")]);
}

#[test]
fn orphans_go_under_their_fallback() {
    let (ts, _) = setup();
    assert_eq!(children(&ts, "text/plain"), vec![s("text/x-shellscript")]);
    let all = children(&ts, "all/all");
    assert!(all.contains(&s("inode/directory")));
    assert!(all.contains(&s("all/allfiles")));
    let octet = children(&ts, "application/octet-stream");
    assert_eq!(
        octet,
        vec![s("image/png"), s("application/zip"), s("application/pdf"), s("text/plain")]
    );
}

#[test]
fn fallbacks_exist_without_any_checker() {
    let ts = graph_init(&Vec::new(), &Vec::new());
    assert_eq!(ts.node_count(), 4);
    for name in ["all/all", "all/allfiles", "text/plain", "application/octet-stream"] {
        assert!(ts.node(name).is_some());
        assert!(children(&ts, name).is_empty());
    }
    let reg = Registry::new(Vec::new());
    assert_eq!(from_u8(&ts, &reg, b"anything"), None);
}

#[test]
fn root_is_the_first_type_without_parent() {
    let (ts, _) = setup();
    assert_eq!(root(&ts), ts.node("all/all"));
}

#[test]
fn unknown_type_never_matches() {
    let (_, reg) = setup();
    assert!(!match_u8(&reg, "application/x-unknown", &PNG));
    assert!(match_u8(&reg, "image/png", &PNG));
    assert!(!match_u8(&reg, "image/png", b"GIF89a"));
    assert!(!match_u8(&reg, "all/all", b""));
}

#[test]
fn later_checker_owns_a_shared_type() {
    let first = Checker {
        supported: vec![s("image/png")],
        subclasses: vec![],
        signatures: vec![sig("image/png", &PNG)],
    };
    let second = Checker { supported: vec![s("image/png")], subclasses: vec![], signatures: vec![] };
    let reg = Registry::new(vec![first, second]);
    assert_eq!(reg.find("image/png"), Some(1));
    assert!(!match_u8(&reg, "image/png", &PNG));
    assert_eq!(reg.find("image/gif"), None);
}

#[test]
fn walk_from_a_chosen_node() {
    let (ts, reg) = setup();
    let zip = ts.node("application/zip").unwrap();
    assert_eq!(from_u8_node(&ts, &reg, zip, b"PK\x03\x04epub"), Some(s("application/epub+zip")));
    assert_eq!(from_u8_node(&ts, &reg, zip, b"PK\x03\x04"), None);
    let text = ts.node("text/plain").unwrap();
    assert_eq!(from_u8_node(&ts, &reg, text, b"#!/bin/sh"), Some(s("text/x-shellscript")));
}

#[test]
fn priority_type_is_tested_first() {
    let both = Checker {
        supported: vec![s("application/x-first"), s("application/pdf"), s("image/png")],
        subclasses: vec![],
        signatures: vec![
            sig("application/x-first", b"%"),
            sig("application/pdf", b"%PDF"),
            sig("image/png", b"%P"),
            sig("application/octet-stream", &[]),
        ],
    };
    let supported = both.supported.clone();
    let reg = Registry::new(vec![
        both,
        Checker {
            supported: vec![s("application/octet-stream")],
            subclasses: vec![],
            signatures: vec![sig("application/octet-stream", &[])],
        },
    ]);
    let ts = graph_init(&supported, &Vec::new());
    let octet = ts.node("application/octet-stream").unwrap();
    assert_eq!(
        children(&ts, "application/octet-stream"),
        vec![s("image/png"), s("application/pdf"), s("application/x-first")]
    );
    assert_eq!(from_u8_node(&ts, &reg, octet, b"%PDF-1.4"), Some(s("image/png")));
    assert_eq!(from_u8_node(&ts, &reg, octet, b"%!PS"), Some(s("application/x-first")));
}

#[test]
fn cyclic_relations_end() {
    let loops = Checker {
        supported: vec![s("a/x"), s("a/y")],
        subclasses: vec![pair("a/x", "a/y"), pair("a/y", "a/x")],
        signatures: vec![sig("a/x", &[]), sig("a/y", &[])],
    };
    let ts = graph_init(&loops.supported, &loops.subclasses);
    let reg = Registry::new(vec![loops]);
    let x = ts.node("a/x").unwrap();
    let found = from_u8_node(&ts, &reg, x, b"");
    assert!(found == Some(s("a/x")) || found == Some(s("a/y")));
}

fn labels(ts: &TypeStruct) -> Vec<String> {
    (0..ts.node_count()).map(|n| ts.label(n)).collect()
}

#[test]
fn nodes_are_numbered_by_first_mention() {
    let supported = vec![s("b/b"), s("text/plain"), s("a/a"), s("b/b"), s("all/all")];
    let ts = graph_init(&supported, &Vec::new());
    assert_eq!(
        labels(&ts),
        vec![
            s("b/b"),
            s("text/plain"),
            s("a/a"),
            s("all/all"),
            s("application/octet-stream"),
            s("all/allfiles"),
        ]
    );
    assert_eq!(ts.node("a/a"), Some(2));
    assert_eq!(ts.node("A/a"), None);
}

#[test]
fn load_types_takes_every_checker() {
    let (ts, _) = setup();
    assert_eq!(
        labels(&ts),
        vec![
            s("image/png"),
            s("application/zip"),
            s("application/epub+zip"),
            s("application/pdf"),
            s("text/x-shellscript"),
            s("all/all"),
            s("all/allfiles"),
            s("inode/directory"),
            s("text/plain"),
            s("application/octet-stream"),
        ]
    );
    assert_eq!(labels(&load_types(&Vec::new()).unwrap()).len(), 4);
}

#[test]
fn relation_between_unsupported_fallbacks_is_dropped() {
    let supported = vec![s("text/x-c")];
    let subclasses = vec![pair("text/plain", "application/octet-stream"), pair("text/x-c", "text/plain")];
    let ts = graph_init(&supported, &subclasses);
    assert!(children(&ts, "application/octet-stream").is_empty());
    assert_eq!(children(&ts, "text/plain"), vec![s("text/x-c")]);
    assert_eq!(root(&ts), ts.node("text/plain"));
}

#[test]
fn inode_types_go_under_the_universal_root() {
    let supported = vec![s("inode/socket"), s("inodes/x"), s("text"), s("textual/x"), s("/x")];
    let ts = graph_init(&supported, &Vec::new());
    assert_eq!(children(&ts, "all/all"), vec![s("inode/socket")]);
    assert_eq!(children(&ts, "text/plain"), vec![s("text")]);
    assert_eq!(
        children(&ts, "application/octet-stream"),
        vec![s("/x"), s("textual/x"), s("inodes/x")]
    );
}

#[test]
fn walker_in_steps_agrees_with_the_walk() {
    let (ts, reg) = setup();
    let start = root(&ts).unwrap();
    for bytes in [&b"PK\x03\x04epub"[..], &PNG[..], &b""[..], &b"#!/bin/sh"[..]] {
        let mut w = Walker::start(&ts, start);
        let mut asked = 0;
        while let Some(mime) = w.pending(&ts) {
            let matched = match_u8(&reg, &mime, bytes);
            w.answer(&ts, matched);
            asked += 1;
            assert!(asked < 100);
        }
        assert_eq!(w.finish(&ts), from_u8_node(&ts, &reg, start, bytes));
    }
}

#[test]
fn walker_asks_priority_types_first() {
    let (ts, _) = setup();
    let octet = ts.node("application/octet-stream").unwrap();
    let mut w = Walker::start(&ts, octet);
    assert_eq!(w.pending(&ts), Some(s("image/png")));
    w.answer(&ts, false);
    assert_eq!(w.pending(&ts), Some(s("application/zip")));
    w.answer(&ts, true);
    assert_eq!(w.pending(&ts), Some(s("application/epub+zip")));
    w.answer(&ts, false);
    assert_eq!(w.pending(&ts), None);
    assert_eq!(w.finish(&ts), Some(s("application/zip")));
}

#[test]
fn rank_follows_the_priority_list() {
    assert_eq!(rank("image/png"), 0);
    assert_eq!(rank("image/jpeg"), 1);
    assert_eq!(rank("image/gif"), 2);
    assert_eq!(rank("application/zip"), 3);
    assert_eq!(rank("application/x-msdos-executable"), 4);
    assert_eq!(rank("application/pdf"), 5);
    assert_eq!(rank("text/plain"), 6);
    assert_eq!(rank("Image/png"), 6);
}

#[test]
fn text_helpers() {
    assert!(same_text("a/b", "a/b"));
    assert!(!same_text("a/b", "a/c"));
    assert!(!same_text("a/b", "a/b "));
    assert!(fallback("all/all") && fallback("all/allfiles"));
    assert!(fallback("text/plain") && fallback("application/octet-stream"));
    assert!(!fallback("text/html"));
    assert!(is_text("text/html") && is_text("text") && !is_text("texts/x") && !is_text("tex"));
    assert!(is_inode("inode/directory") && !is_inode("inodes"));
    assert!(has_top_level("image/png", "image") && !has_top_level("image/png", "imag"));
    assert!(has_top_level("é/x", "é"));
}

#[test]
fn starts_with_is_a_prefix_test() {
    assert!(starts_with(b"abc", &b"ab".to_vec()));
    assert!(starts_with(b"abc", &Vec::new()));
    assert!(starts_with(b"", &Vec::new()));
    assert!(!starts_with(b"ab", &b"abc".to_vec()));
    assert!(!starts_with(b"abd", &b"abc".to_vec()));
}

#[test]
fn nothing_matches_gives_none() {
    let (ts, _) = setup();
    let mut w = Walker::start(&ts, root(&ts).unwrap());
    let mut asked = Vec::new();
    while let Some(mime) = w.pending(&ts) {
        asked.push(mime);
        w.answer(&ts, false);
    }
    assert_eq!(w.finish(&ts), None);
    assert_eq!(asked, vec![s("inode/directory"), s("all/allfiles")]);
}

#[test]
fn segment_with_a_slash_is_no_top_level() {
    assert!(!has_top_level("a/b/c", "a/b"));
    assert!(!has_top_level("a/b", "a/b"));
    assert!(has_top_level("a", "a"));
    assert!(has_top_level("/a", ""));
    assert!(!has_top_level("a", ""));
}
