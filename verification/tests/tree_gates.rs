// The size and licence gates, exercised against trees that are wrong.

use xtask::scan::{files, is_skipped_dir, TreeFile};
use xtask::{licence, size};

/// The notice every licensed Rust file opens with.
const NOTICE: &str = "// Copyright 2026 RegaliumOS™.\n\
                      // SPDX-License-Identifier: Apache-2.0\n\n";

/// A tree being built: paths relative to its root, and their text.
struct Tree {
    entries: Vec<(String, String)>,
}

impl Tree {
    fn new(_label: &str) -> Self {
        Tree { entries: Vec::new() }
    }

    /// Writes a file, replacing one at the same path.
    fn file(&mut self, rel: &str, contents: &str) -> &mut Self {
        self.entries.retain(|(r, _)| r != rel);
        self.entries.push((rel.to_owned(), contents.to_owned()));
        self
    }

    /// What a walk of the tree yields: every file outside a skipped
    /// directory, in path order, with its text.
    fn walk(&self) -> Vec<TreeFile> {
        let found: Vec<String> = self
            .entries
            .iter()
            .filter(|(rel, _)| {
                let parts: Vec<&str> = rel.split('/').collect();
                !parts[..parts.len() - 1].iter().any(|d| is_skipped_dir(d))
            })
            .map(|(rel, _)| rel.clone())
            .collect();
        files(found)
            .into_iter()
            .map(|rel| {
                let text = self
                    .entries
                    .iter()
                    .find(|(r, _)| *r == rel)
                    .map(|(_, t)| t.clone());
                TreeFile { rel, text }
            })
            .collect()
    }
}

#[test]
fn size_rejects_a_file_over_the_limit() {
    let mut tree = Tree::new("size-over");
    let body = "// a line\n".repeat(size::MAX_LINES);
    tree.file("crates/a/src/lib.rs", &format!("{NOTICE}{body}"));

    let error = size::run(&tree.walk()).expect_err("a file over the limit must be refused");
    assert!(error.contains("over the 200-line limit"), "{error}");
}

#[test]
fn size_accepts_a_file_exactly_at_the_limit() {
    let mut tree = Tree::new("size-exact");
    let body = "// a line\n".repeat(size::MAX_LINES - 3);
    tree.file("crates/a/src/lib.rs", &format!("{NOTICE}{body}"));

    size::run(&tree.walk()).expect("exactly 200 lines is within the limit, not over it");
}

#[test]
fn size_checks_documentation_too() {
    let mut tree = Tree::new("size-markdown");
    tree.file("docs/long.md", &"a line\n".repeat(size::MAX_LINES + 1));

    let error = size::run(&tree.walk()).expect_err("markdown is subject to the limit");
    assert!(error.contains("long.md"), "{error}");
}

#[test]
fn size_refuses_to_pass_on_an_empty_tree() {
    let tree = Tree::new("size-empty");

    let error = size::run(&tree.walk()).expect_err("a gate that examined nothing has not passed");
    assert!(error.contains("checking nothing"), "{error}");
}

#[test]
fn licence_rejects_a_file_without_the_notice() {
    let mut tree = Tree::new("licence-missing");
    tree.file("crates/a/src/lib.rs", "pub fn decode() {}\n");

    let error = licence::run(&tree.walk()).expect_err("an unlicensed file must be refused");
    assert!(error.contains("missing the licence notice"), "{error}");
}

#[test]
fn licence_rejects_a_notice_below_the_header() {
    let mut tree = Tree::new("licence-buried");
    tree.file("crates/a/src/lib.rs", &format!("\n\n\n\n\n{NOTICE}"));

    let error = licence::run(&tree.walk()).expect_err("a buried notice is not a notice");
    assert!(error.contains("first 4 lines"), "{error}");
}

#[test]
fn licence_rejects_the_wrong_comment_syntax() {
    let mut tree = Tree::new("licence-syntax");
    tree.file("config/a.yaml", &NOTICE.replace("//", "--"));

    let error = licence::run(&tree.walk()).expect_err("a YAML notice is written with #");
    assert!(error.contains("a.yaml"), "{error}");
}

#[test]
fn licence_refuses_to_pass_on_an_empty_tree() {
    let tree = Tree::new("licence-empty");

    let error =
        licence::run(&tree.walk()).expect_err("a gate that examined nothing has not passed");
    assert!(error.contains("checking nothing"), "{error}");
}

#[test]
fn generated_trees_are_exempt_from_both() {
    let mut tree = Tree::new("generated");
    tree.file("crates/a/src/lib.rs", NOTICE);
    tree.file(
        "protobuf/generated/huge.rs",
        &"// generated\n".repeat(size::MAX_LINES + 1),
    );

    size::run(&tree.walk()).expect("generated output is rewritten wholesale, not authored here");
    licence::run(&tree.walk()).expect("generated output carries no notice of ours");
}
