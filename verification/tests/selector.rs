use hector_build::selector::{
    include_file, is_excluded_dir, rerun_directive, select_tree, FsNode, SourceFile,
};

fn file(name: &str, content: &[u8]) -> FsNode {
    FsNode::File { name: name.to_string(), content: content.to_vec() }
}

fn dir(name: &str, children: Vec<FsNode>) -> FsNode {
    FsNode::Dir { name: name.to_string(), children }
}

fn link(name: &str) -> FsNode {
    FsNode::Symlink { name: name.to_string() }
}

fn names(files: &[SourceFile]) -> Vec<String> {
    files.iter().map(|f| f.name.clone()).collect()
}

#[test]
fn allow_listed_extensions_included_regardless_of_base_name() {
    assert!(include_file("main.rs"));
    assert!(include_file("lib.rs"));
    assert!(include_file("Cargo.toml"));
    assert!(include_file("a.b.rs"));
    assert!(include_file("weird name!.toml"));
    assert!(include_file(".hidden.rs"));
}

#[test]
fn no_extension_included_iff_lock_file_or_all_uppercase() {
    assert!(include_file("Cargo.lock"));
    assert!(include_file("README"));
    assert!(include_file("LICENSE"));
    assert!(include_file("COPYING"));
    assert!(!include_file("readme"));
    assert!(!include_file("Makefile"));
    assert!(!include_file("READ.ME"));
    assert!(!include_file(".gitignore"));
    assert!(!include_file("Readme"));
}

#[test]
fn other_extensions_excluded() {
    assert!(!include_file("notes.txt"));
    assert!(!include_file("image.png"));
    assert!(!include_file("LICENSE.md"));
    assert!(!include_file("foo.rs.bak"));
}

#[test]
fn excluded_directory_names() {
    assert!(is_excluded_dir("target"));
    assert!(is_excluded_dir(".git"));
    assert!(is_excluded_dir(".hg"));
    assert!(is_excluded_dir(".svn"));
    assert!(is_excluded_dir("node_modules"));
    assert!(!is_excluded_dir("src"));
    assert!(!is_excluded_dir("targets"));
    assert!(!is_excluded_dir(""));
}

#[test]
fn selection_prunes_excluded_directories() {
    let tree = dir(
        "",
        vec![
            file("Cargo.toml", b"[package]"),
            dir("src", vec![file("lib.rs", b"pub fn f() {}")]),
            file("README", b"hello"),
            dir("target", vec![dir("debug", vec![file("build.rs", b"artifact")])]),
            file("notes.txt", b"scratch"),
        ],
    );
    let files = select_tree(&tree);
    let mut got = names(&files);
    got.sort();
    assert_eq!(got, vec!["Cargo.toml", "README", "src/lib.rs"]);
}

#[test]
fn symlinks_never_traversed_or_selected() {
    let tree = dir(
        "",
        vec![
            file("a.rs", b"a"),
            link("b.rs"),
            link("target"),
            dir("sub", vec![link("LICENSE"), file("c.rs", b"c")]),
        ],
    );
    let files = select_tree(&tree);
    let mut got = names(&files);
    got.sort();
    assert_eq!(got, vec!["a.rs", "sub/c.rs"]);
}

#[test]
fn selection_carries_content_verbatim() {
    let content: Vec<u8> = vec![0, 159, 146, 150, 255, 10, 13];
    let tree = dir("", vec![file("bin.rs", &content)]);
    let files = select_tree(&tree);
    assert_eq!(files.len(), 1);
    assert_eq!(files[0].name, "bin.rs");
    assert_eq!(files[0].content, content);
}

#[test]
fn rerun_directive_names_the_path() {
    assert_eq!(rerun_directive("src/lib.rs").as_str(), "cargo:rerun-if-changed=src/lib.rs");
    assert_eq!(rerun_directive(".").as_str(), "cargo:rerun-if-changed=.");
}
