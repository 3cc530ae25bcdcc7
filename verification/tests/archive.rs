use std::collections::BTreeMap;
use std::io::Read;

use flate2::read::GzDecoder;
use tar::Archive;

use hector_build::archive::{build_archive, collect_sources};
use hector_build::respond::{archive_file_name, respond, route_path};
use hector_build::selector::{FsNode, SourceFile};

fn file(name: &str, content: &[u8]) -> FsNode {
    FsNode::File { name: name.to_string(), content: content.to_vec() }
}

fn dir(name: &str, children: Vec<FsNode>) -> FsNode {
    FsNode::Dir { name: name.to_string(), children }
}

fn extract(blob: &[u8]) -> BTreeMap<String, Vec<u8>> {
    let mut archive = Archive::new(GzDecoder::new(blob));
    let mut out = BTreeMap::new();
    for entry in archive.entries().unwrap() {
        let mut entry = entry.unwrap();
        let name = entry.path().unwrap().to_string_lossy().into_owned();
        let mut content = Vec::new();
        entry.read_to_end(&mut content).unwrap();
        out.insert(name, content);
    }
    out
}

#[test]
fn round_trip_reconstructs_every_included_file() {
    let binary: Vec<u8> = (0..=255u8).collect();
    let tree = dir(
        "",
        vec![
            file("Cargo.toml", b"[package]\nname = \"x\"\n"),
            dir("src", vec![file("lib.rs", b"pub fn f() -> u8 { 7 }\n"), file("bin.rs", &binary)]),
            file("README", b"read me\n"),
        ],
    );
    let blob = collect_sources(&tree).unwrap();
    let got = extract(&blob);
    assert_eq!(got.len(), 4);
    assert_eq!(got["Cargo.toml"], b"[package]\nname = \"x\"\n".to_vec());
    assert_eq!(got["src/lib.rs"], b"pub fn f() -> u8 { 7 }\n".to_vec());
    assert_eq!(got["src/bin.rs"], binary);
    assert_eq!(got["README"], b"read me\n".to_vec());
}

#[test]
fn end_to_end_tree_yields_exactly_three_entries() {
    let tree = dir(
        "",
        vec![
            file("Cargo.toml", b"[package]"),
            dir("src", vec![file("lib.rs", b"// lib")]),
            file("README", b"docs"),
            dir("target", vec![dir("debug", vec![file("build-artifact", b"bin")])]),
            file("notes.txt", b"scratch"),
        ],
    );
    let blob = collect_sources(&tree).unwrap();
    let got = extract(&blob);
    let keys: Vec<&String> = got.keys().collect();
    assert_eq!(keys, vec!["Cargo.toml", "README", "src/lib.rs"]);
}

#[test]
fn pipeline_twice_on_unchanged_tree_extracts_identically() {
    let tree = dir(
        "",
        vec![
            file("Cargo.toml", b"[package]"),
            dir("src", vec![file("lib.rs", b"// lib")]),
            file("Cargo.lock", b"# lock"),
        ],
    );
    let first = extract(&collect_sources(&tree).unwrap());
    let second = extract(&collect_sources(&tree).unwrap());
    assert_eq!(first, second);
}

#[test]
fn blob_opens_with_gzip_magic() {
    let tree = dir("", vec![file("lib.rs", b"x")]);
    let blob = collect_sources(&tree).unwrap();
    assert!(blob.len() >= 2);
    assert_eq!(blob[0], 0x1f);
    assert_eq!(blob[1], 0x8b);
    let empty = collect_sources(&dir("", vec![])).unwrap();
    assert_eq!(empty[0], 0x1f);
    assert_eq!(empty[1], 0x8b);
    assert!(extract(&empty).is_empty());
}

#[test]
fn entries_carry_fixed_mode_and_exact_size() {
    let files = vec![
        SourceFile { name: "a.rs".to_string(), content: b"abc".to_vec() },
        SourceFile { name: "B/C.toml".to_string(), content: vec![] },
    ];
    let blob = build_archive(&files).unwrap();
    let mut archive = Archive::new(GzDecoder::new(blob.as_slice()));
    let mut seen: usize = 0;
    for entry in archive.entries().unwrap() {
        let entry = entry.unwrap();
        assert_eq!(entry.header().mode().unwrap(), 0o644);
        if entry.path().unwrap().to_string_lossy() == "a.rs" {
            assert_eq!(entry.header().size().unwrap(), 3);
        } else {
            assert_eq!(entry.header().size().unwrap(), 0);
        }
        seen += 1;
    }
    assert_eq!(seen, 2);
}

#[test]
fn archiving_succeeds_for_every_selected_name() {
    // Deep and long relative paths are accepted; tar stores names longer
    // than the header field through its long-name extension.
    let long_name = format!("{}/deep.rs", "d/".repeat(80));
    let files = vec![
        SourceFile { name: "a.rs".to_string(), content: b"a".to_vec() },
        SourceFile { name: long_name.clone(), content: b"deep".to_vec() },
    ];
    let blob = build_archive(&files).unwrap();
    let got = extract(&blob);
    assert_eq!(got.len(), 2);
    assert_eq!(got[&long_name], b"deep".to_vec());
}

#[test]
fn invalid_entry_names_are_refused() {
    let evil = vec![SourceFile { name: "../escape.rs".to_string(), content: b"x".to_vec() }];
    assert!(matches!(build_archive(&evil), Err(hector_build::archive::ArchiveError::Append)));
    let absolute = vec![SourceFile { name: "/etc/owned.rs".to_string(), content: b"x".to_vec() }];
    assert!(matches!(
        build_archive(&absolute),
        Err(hector_build::archive::ArchiveError::Append)
    ));
}

#[test]
fn responder_serves_the_blob_verbatim() {
    let tree = dir("", vec![file("lib.rs", b"pub fn f() {}")]);
    let blob = collect_sources(&tree).unwrap();
    let resp = respond(&blob);
    assert_eq!(resp.status, 200);
    assert_eq!(resp.body, blob);
    assert!(!resp.body.is_empty());
    assert_eq!(resp.body[0], 0x1f);
    assert_eq!(resp.body[1], 0x8b);
    assert_eq!(resp.content_type.as_str(), "application/gzip");
    assert_eq!(resp.content_disposition.as_str(), "attachment; filename=\"sources.tar.gz\"");
    assert_eq!(route_path().as_str(), "/hector");
    assert_eq!(archive_file_name().as_str(), "hector_sources.tar.gz");
}
