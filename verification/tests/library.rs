// Exact outcomes of the library on chosen inputs: messages, edge cases of
// paths and lines, and one instance of each law it proves.

use xtask::metadata::{
    members_of_output, parse_output, resolved_crates, resolved_of_output, workspace_members,
    Dependency, Json, Member, Resolved,
};
use xtask::purity::CrateFiles;
use xtask::scan::{declares_workspace, files, is_skipped_dir, Findings, TreeFile};
use xtask::{arch, deps, is_gate, licence, purity, size, unknown_gate, wanted_gates};

const HEADER: &str = "// Copyright 2026 RegaliumOS™.\n// SPDX-License-Identifier: Apache-2.0\n\n";

fn one(rel: &str, text: &str) -> Vec<TreeFile> {
    vec![TreeFile { rel: rel.to_owned(), text: Some(text.to_owned()) }]
}

fn member(name: &str, siblings: &[&str], direct: &[(&str, &str)]) -> Member {
    Member {
        name: name.to_owned(),
        workspace_deps: siblings.iter().map(|s| s.to_string()).collect(),
        direct_deps: direct
            .iter()
            .map(|(n, k)| Dependency { name: n.to_string(), kind: k.to_string() })
            .collect(),
    }
}

fn table_members() -> Vec<Member> {
    arch::layers().iter().map(|l| member(l.krate, &[], &[])).collect()
}

fn obj(fields: Vec<(&str, Json)>) -> Json {
    Json::Object(fields.into_iter().map(|(k, v)| (k.to_owned(), v)).collect())
}

fn text(s: &str) -> Json {
    Json::Str(s.to_owned())
}

#[test]
fn verdict_of_an_empty_scan_says_it_checked_nothing() {
    let findings = Findings::default();
    assert_eq!(findings.count(), 0);
    assert_eq!(
        findings.verdict("x"),
        Err("x: examined nothing, so this gate is checking nothing".to_owned())
    );
}

#[test]
fn verdict_counts_what_it_examined() {
    let mut findings = Findings::default();
    for _ in 0..12 {
        findings.checked();
    }
    assert_eq!(findings.count(), 12);
    assert_eq!(findings.verdict("size"), Ok("size: 12 items, clean".to_owned()));
}

#[test]
fn count_is_the_number_of_checks_whatever_else_is_recorded() {
    let mut findings = Findings::default();
    findings.violation("first".to_owned());
    findings.checked();
    findings.violation("second".to_owned());
    findings.checked();
    findings.checked();
    assert_eq!(findings.count(), 3);
    assert_eq!(
        findings.verdict("g"),
        Err("g: 2 of 3 items failed\n  first\n  second".to_owned())
    );
}

#[test]
fn verdict_lists_every_violation() {
    let mut findings = Findings::default();
    findings.checked();
    findings.checked();
    findings.violation("first".to_owned());
    findings.violation("second".to_owned());
    assert_eq!(
        findings.verdict("arch"),
        Err("arch: 2 of 2 items failed\n  first\n  second".to_owned())
    );
}

#[test]
fn size_reports_the_line_count_and_the_limit() {
    let error = size::run(&one("docs/long.md", &"a\n".repeat(201))).unwrap_err();
    assert_eq!(
        error,
        "size: 1 of 1 items failed\n  docs/long.md is 201 lines, over the 200-line limit; \
         split it along a seam that already exists, and never by deleting documentation -- \
         a file that only fits without its comments was doing two jobs"
    );
}

#[test]
fn size_skips_locked_and_unsized_files_and_counts_unreadable_ones() {
    let tree = vec![
        TreeFile { rel: "Cargo.lock".to_owned(), text: Some("x\n".repeat(500)) },
        TreeFile { rel: "notes.txt".to_owned(), text: Some("x\n".repeat(500)) },
        TreeFile { rel: "bin/data.rs".to_owned(), text: None },
        TreeFile { rel: "justfile".to_owned(), text: Some("a\n".to_owned()) },
    ];
    assert_eq!(size::run(&tree), Ok("size: 2 items, clean".to_owned()));
}

#[test]
fn sized_paths_go_by_name_or_extension() {
    assert!(size::is_sized("justfile"));
    assert!(size::is_sized("crates/a/src/lib.rs"));
    assert!(size::is_sized("docs/usage.md"));
    assert!(!size::is_sized("notes.txt"));
    assert!(!size::is_sized(".md"));
    assert!(!size::is_sized("a/.."));
    assert!(!size::is_sized(""));
    assert!(size::is_sized("a/./b.toml/"));
}

#[test]
fn line_count_agrees_with_str_lines() {
    for t in ["", "\n", "a", "a\n", "a\r\n", "a\nb", "\n\n", "a\r\nb\r", "x\n\ny\n"] {
        assert_eq!(size::count_lines(t), t.lines().count(), "{t:?}");
    }
}

#[test]
fn comment_prefix_follows_name_then_extension() {
    assert_eq!(licence::comment_prefix("crates/a/src/lib.rs"), Some("//"));
    assert_eq!(licence::comment_prefix("config/a.yaml"), Some("#"));
    assert_eq!(licence::comment_prefix("justfile"), Some("#"));
    assert_eq!(licence::comment_prefix(".gitattributes"), Some("#"));
    assert_eq!(licence::comment_prefix("proto/a.capnp"), Some("#"));
    assert_eq!(licence::comment_prefix("docs/a.md"), None);
    assert_eq!(licence::comment_prefix("a/.."), None);
    assert_eq!(licence::comment_prefix(""), None);
}

#[test]
fn missing_notice_names_the_missing_part() {
    assert_eq!(licence::missing_notice(HEADER, "//"), None);
    assert_eq!(
        licence::missing_notice("// SPDX-License-Identifier: Apache-2.0\n", "//"),
        Some("the copyright line")
    );
    assert_eq!(
        licence::missing_notice("// Copyright 2026 RegaliumOS\n", "//"),
        Some("the SPDX identifier")
    );
    assert_eq!(licence::missing_notice("fn main() {}\n", "//"), Some("the licence notice"));
    assert_eq!(licence::missing_notice(HEADER, "#"), Some("the licence notice"));
    let crlf = "  // Copyright 2026 RegaliumOS\r\n// SPDX-License-Identifier: Apache-2.0\r\n";
    assert_eq!(licence::missing_notice(crlf, "//"), None);
}

#[test]
fn the_fourth_line_is_inside_the_header_and_the_fifth_is_not() {
    let fourth = format!("\n\n{HEADER}");
    assert_eq!(licence::missing_notice(&fourth, "//"), None);
    let fifth = format!("\n\n\n{HEADER}");
    assert_eq!(licence::missing_notice(&fifth, "//"), Some("the SPDX identifier"));
}

#[test]
fn notice_below_a_full_header_changes_nothing() {
    let head = "a\nb\nc\nd\n";
    let buried = format!("{head}{HEADER}");
    assert_eq!(
        licence::missing_notice(&buried, "//"),
        licence::missing_notice(head, "//")
    );
}

#[test]
fn licence_message_says_how_to_open_the_file() {
    let error = licence::run(&one("config/a.yaml", "key: 1\n")).unwrap_err();
    assert_eq!(
        error,
        "licence: 1 of 1 items failed\n  config/a.yaml is missing the licence notice in its \
         first 4 lines; open it with `# Copyright 2026 RegaliumOS™.` then \
         `# SPDX-License-Identifier: Apache-2.0`, blank line after"
    );
}

#[test]
fn unlicensed_trees_and_names_are_not_examined() {
    let tree = vec![
        TreeFile { rel: "target/debug/a.rs".to_owned(), text: Some(String::new()) },
        TreeFile { rel: "a/generated/b.rs".to_owned(), text: Some(String::new()) },
        TreeFile { rel: ".gitignore".to_owned(), text: Some(String::new()) },
        TreeFile { rel: "src/lib.rs".to_owned(), text: Some(HEADER.to_owned()) },
    ];
    assert_eq!(licence::run(&tree), Ok("licence: 1 items, clean".to_owned()));
    assert!(licence::is_unlicensed("a/generated/b.rs"));
    assert!(!licence::is_unlicensed("a/generated-b.rs"));
}

#[test]
fn comments_and_indentation_are_not_uses() {
    assert!(!purity::names("   // std::fs\n * std::fs\n", "std::fs"));
    assert!(purity::names("//! docs\n    let f = std::fs::read(p);\n", "std::fs"));
    assert!(!purity::names("", "std::fs"));
    assert!(purity::names("\tlog::info!(x)", "log::"));
}

#[test]
fn a_trailing_comment_is_not_a_use() {
    assert!(!purity::names("let n = 1; // not std::fs\n", "std::fs"));
    assert!(!purity::names("let n = 1; //std::fs\nlet m = 2;\n", "std::fs"));
    assert!(purity::names("let f = std::fs::read(p); // reads\n", "std::fs"));
    assert!(!purity::names("x / std::fs // y\n", "std::net"));
    assert!(purity::names("let a = b / c; std::net::bind();\n", "std::net"));
}

#[test]
fn slashes_inside_literals_open_no_comment() {
    assert!(purity::names("let u = \"http://h\"; std::fs::read(u);\n", "std::fs"));
    assert!(purity::names("\"//\";std::fs", "std::fs"));
    assert!(purity::names("let q = \"a\\\"//\"; std::fs::read(q);\n", "std::fs"));
    assert!(purity::names("let c = '\"'; std::fs::read(c);\n", "std::fs"));
    assert!(!purity::names("let s = \"x\"; // std::fs\n", "std::fs"));
}

#[test]
fn block_comments_on_a_code_line_are_not_uses() {
    assert!(!purity::names("let x = 1; /* std::fs */\n", "std::fs"));
    assert!(purity::names("let x = 1; /* note */ std::fs::read(p);\n", "std::fs"));
    assert!(!purity::names("let x = /* std::fs */ 1;\n", "std::fs"));
}

#[test]
fn purity_names_the_file_the_path_and_the_reason() {
    let members = table_members();
    let trees = vec![CrateFiles {
        krate: "regalium-bacnet-core".to_owned(),
        files: vec![
            TreeFile { rel: "src/lib.rs".to_owned(), text: Some("use std::fs;\n".to_owned()) },
            TreeFile { rel: "README.md".to_owned(), text: Some("use std::fs;\n".to_owned()) },
        ],
    }];
    assert_eq!(
        purity::run(&members, &trees),
        Err("purity: 1 of 3 items failed\n  regalium-bacnet-core/src/lib.rs names std::fs: \
             the pure core reads no files"
            .to_owned())
    );
}

#[test]
fn purity_permits_the_seam_and_nothing_else() {
    let mut members = table_members();
    members[1] = member(
        "regalium-bacnet-core",
        &[],
        &[("regalium-bacnet-telemetry", "normal"), ("serde", "normal")],
    );
    assert_eq!(
        purity::run(&members, &Vec::new()),
        Err("purity: 1 of 2 items failed\n  regalium-bacnet-core depends on serde; a pure \
             layer's only permitted dependency is regalium-bacnet-telemetry, and that closes \
             its graph"
            .to_owned())
    );
}

#[test]
fn the_layer_table_has_two_pure_layers_that_reach_nothing() {
    let layers = arch::layers();
    assert_eq!(layers.len(), 10);
    let pure: Vec<&str> = layers.iter().filter(|l| l.pure).map(|l| l.krate).collect();
    assert_eq!(pure, vec!["regalium-bacnet-telemetry", "regalium-bacnet-core"]);
    for (i, layer) in layers.iter().enumerate() {
        for allowed in &layer.allowed {
            assert!(layers[..i].iter().any(|l| l.krate == *allowed), "{allowed}");
        }
    }
}

#[test]
fn arch_says_what_a_layer_may_reach() {
    let mut members = table_members();
    members[2] = member(
        "regalium-bacnet-ip",
        &["regalium-bacnet-telemetry", "regalium-bacnet-core", "regalium-bacnet-mstp"],
        &[],
    );
    members.push(member("xtask", &[], &[]));
    assert_eq!(
        arch::run(&members),
        Err("arch: 1 of 10 items failed\n  regalium-bacnet-ip depends on regalium-bacnet-mstp, \
             which it may not: a dependency in this direction inverts the hexagon. Permitted \
             here: [\"regalium-bacnet-core\"] (plus regalium-bacnet-telemetry, always)"
            .to_owned())
    );
}

#[test]
fn arch_passes_the_table_itself() {
    assert_eq!(arch::run(&table_members()), Ok("arch: 10 items, clean".to_owned()));
}

#[test]
fn deps_messages_name_the_crate_and_the_cure() {
    let members = vec![member("a", &[], &[("cc", "build"), ("tracing-opentelemetry", "dev")])];
    let resolved = vec![
        Resolved { name: "libz-sys".to_owned(), links: Some("z".to_owned()) },
        Resolved { name: "cc".to_owned(), links: None },
    ];
    let error = deps::run(&members, &resolved).unwrap_err();
    assert!(error.starts_with("deps: 4 of 3 items failed\n  "), "{error}");
    assert!(error.contains(
        "a depends on tracing-opentelemetry; only regalium-bacnet-telemetry-otel may, and every \
         other layer records through the telemetry seam instead"
    ));
    assert!(error.contains("a depends on cc, which compiles C."));
    assert!(error.contains(
        "libz-sys is in the resolved graph and links the native library z; find what pulled \
         it in with `cargo tree -i libz-sys` and replace that dependency"
    ));
    assert!(error.contains("cc is in the resolved graph, so some dependency compiles C"));
}

#[test]
fn deps_refuses_an_empty_graph() {
    assert_eq!(
        deps::run(&Vec::new(), &Vec::new()),
        Err("deps: examined nothing, so this gate is checking nothing".to_owned())
    );
}

#[test]
fn a_normal_cc_dependency_is_not_a_build_one() {
    let members = vec![member("a", &[], &[("cc", "normal")])];
    assert_eq!(deps::run(&members, &Vec::new()), Ok("deps: 1 items, clean".to_owned()));
}

#[test]
fn metadata_reads_members_and_their_siblings() {
    let json = obj(vec![
        ("version", Json::Number("1".to_owned())),
        (
            "packages",
            Json::Array(vec![
                obj(vec![
                    ("name", text("a")),
                    (
                        "dependencies",
                        Json::Array(vec![
                            obj(vec![("name", text("b")), ("kind", Json::Null)]),
                            obj(vec![("name", text("serde")), ("kind", text("dev"))]),
                            obj(vec![("kind", text("build"))]),
                        ]),
                    ),
                ]),
                obj(vec![("name", text("b")), ("dependencies", Json::Array(vec![]))]),
                obj(vec![("name", text("c"))]),
                obj(vec![("dependencies", Json::Array(vec![]))]),
            ]),
        ),
    ]);
    let members = workspace_members(&json).unwrap();
    assert_eq!(members.len(), 2);
    assert_eq!(members[0].name, "a");
    assert_eq!(members[0].workspace_deps, vec!["b".to_owned()]);
    let kinds: Vec<(&str, &str)> = members[0]
        .direct_deps
        .iter()
        .map(|d| (d.name.as_str(), d.kind.as_str()))
        .collect();
    assert_eq!(kinds, vec![("b", "normal"), ("serde", "dev")]);
    assert_eq!(members[1].name, "b");
    assert!(members[1].direct_deps.is_empty());
}

#[test]
fn metadata_reads_links_of_resolved_crates() {
    let json = obj(vec![(
        "packages",
        Json::Array(vec![
            obj(vec![("name", text("libc")), ("links", text("c"))]),
            obj(vec![("name", text("serde")), ("links", Json::Null)]),
            obj(vec![("links", text("ssl"))]),
        ]),
    )]);
    let crates = resolved_crates(&json).unwrap();
    assert_eq!(crates.len(), 2);
    assert_eq!(crates[0].name, "libc");
    assert_eq!(crates[0].links, Some("c".to_owned()));
    assert_eq!(crates[1].links, None);
}

#[test]
fn metadata_without_packages_is_an_error() {
    let wrong = obj(vec![("packages", text("none"))]);
    assert_eq!(
        resolved_crates(&wrong).err(),
        Some("cargo metadata produced no packages array".to_owned())
    );
    assert_eq!(
        workspace_members(&Json::Array(vec![])).err(),
        Some("cargo metadata produced no packages array".to_owned())
    );
}

#[test]
fn files_come_out_in_path_order() {
    let found = vec!["b".to_owned(), "a-b".to_owned(), "a/b".to_owned(), "a".to_owned()];
    assert_eq!(files(found), vec!["a", "a/b", "a-b", "b"]);
    let shuffled = vec!["a/b".to_owned(), "b".to_owned(), "a".to_owned(), "a-b".to_owned()];
    assert_eq!(files(shuffled), vec!["a", "a/b", "a-b", "b"]);
}

#[test]
fn walks_skip_machinery_by_whole_name() {
    assert!(is_skipped_dir("target"));
    assert!(is_skipped_dir(".git"));
    assert!(is_skipped_dir("node_modules"));
    assert!(is_skipped_dir("bazel-out"));
    assert!(!is_skipped_dir(".github"));
    assert!(!is_skipped_dir("targets"));
}

#[test]
fn a_workspace_manifest_declares_itself() {
    assert!(declares_workspace("[workspace]\nmembers = []\n"));
    assert!(!declares_workspace("[package]\nname = \"a\"\n"));
}

#[test]
fn gates_run_in_order_or_one_at_a_time() {
    let all = vec!["size", "licence", "arch", "purity", "deps"];
    assert_eq!(wanted_gates(None), all);
    assert_eq!(wanted_gates(Some("all")), all);
    assert_eq!(wanted_gates(Some("deps")), vec!["deps"]);
    assert!(is_gate("purity"));
    assert!(!is_gate("lint"));
    assert_eq!(
        unknown_gate("lint"),
        "no gate named lint; try one of size, licence, arch, purity, deps"
    );
}

/// What std's `Path` says of a path, the way the size and licence rules read it.
fn std_prefix(rel: &str) -> Option<&'static str> {
    let rel = std::path::Path::new(rel);
    let name = rel.file_name().and_then(|n| n.to_str())?;
    match name {
        "justfile" | ".gitattributes" => return Some("#"),
        _ => {}
    }
    match rel.extension().and_then(|e| e.to_str())? {
        "rs" | "proto" | "fbs" => Some("//"),
        "capnp" | "toml" | "yaml" | "yml" | "just" | "hex" | "kat" => Some("#"),
        _ => None,
    }
}

fn std_sized(rel: &str) -> bool {
    let rel = std::path::Path::new(rel);
    let name = rel.file_name().and_then(|n| n.to_str()).unwrap_or_default();
    if name == "justfile" {
        return true;
    }
    rel.extension().and_then(|e| e.to_str()).is_some_and(|ext| {
        ["rs", "md", "toml", "proto", "yaml", "yml", "just", "hex", "kat", "fbs", "capnp"]
            .contains(&ext)
    })
}

#[test]
fn path_rules_agree_with_std_path() {
    let paths = [
        "", ".", "..", "a", "a.rs", ".rs", "..rs", "a..rs", "a.", "a/b.rs", "a/b.rs/",
        "a//b.toml", "a/./b.yaml", "./justfile", "a/justfile/.", "a/..", "a/../b.md",
        "/abs/c.kat", ".gitattributes", "x/.gitattributes", "a.b.c.capnp", "dir.rs/file",
        "a/.hidden.md", "tar.gz", "a/b/",
    ];
    for p in paths {
        assert_eq!(size::is_sized(p), std_sized(p), "{p:?}");
        assert_eq!(licence::comment_prefix(p), std_prefix(p), "{p:?}");
    }
}

#[test]
fn cargo_output_is_parsed_then_read() {
    let stdout = br#"{"packages":[
        {"name":"a","dependencies":[{"name":"b","kind":null},{"name":"serde","kind":"dev"}]},
        {"name":"b","dependencies":[]}
    ],"version":1}"#;
    let members = members_of_output("metadata --no-deps --format-version 1", stdout).unwrap();
    assert_eq!(members.len(), 2);
    assert_eq!(members[0].name, "a");
    assert_eq!(members[0].workspace_deps, vec!["b".to_owned()]);
    let kinds: Vec<(&str, &str)> = members[0]
        .direct_deps
        .iter()
        .map(|d| (d.name.as_str(), d.kind.as_str()))
        .collect();
    assert_eq!(kinds, vec![("b", "normal"), ("serde", "dev")]);
    assert_eq!(members[1].name, "b");

    let graph = br#"{"packages":[{"name":"libc","links":"c"},{"name":"serde","links":null}]}"#;
    let crates = resolved_of_output("metadata --format-version 1", graph).unwrap();
    assert_eq!(crates.len(), 2);
    assert_eq!(crates[0].name, "libc");
    assert_eq!(crates[0].links, Some("c".to_owned()));
    assert_eq!(crates[1].name, "serde");
    assert_eq!(crates[1].links, None);
}

#[test]
fn cargo_output_that_is_not_json_names_the_command() {
    assert_eq!(
        members_of_output("metadata --no-deps --format-version 1", b"}").err(),
        Some(
            "cargo metadata --no-deps --format-version 1 produced unparseable JSON: \
             expected value at line 1 column 1"
                .to_owned()
        )
    );
    assert_eq!(
        resolved_of_output("metadata --format-version 1", b"").err(),
        Some(
            "cargo metadata --format-version 1 produced unparseable JSON: \
             EOF while parsing a value at line 1 column 0"
                .to_owned()
        )
    );
    assert_eq!(
        resolved_of_output("metadata --format-version 1", b"[]").err(),
        Some("cargo metadata produced no packages array".to_owned())
    );
}

#[test]
fn parsed_output_keeps_numbers_and_members() {
    match parse_output("metadata", br#"{"n":[1,2.5,-3],"s":"x","t":true,"z":null}"#) {
        Ok(Json::Object(fields)) => {
            let keys: Vec<&str> = fields.iter().map(|(k, _)| k.as_str()).collect();
            assert_eq!(keys, vec!["n", "s", "t", "z"]);
            match &fields[0].1 {
                Json::Array(items) => {
                    let numbers: Vec<&str> = items
                        .iter()
                        .map(|v| match v {
                            Json::Number(n) => n.as_str(),
                            _ => "not a number",
                        })
                        .collect();
                    assert_eq!(numbers, vec!["1", "2.5", "-3"]);
                }
                _ => panic!("n is an array"),
            }
            assert!(matches!(&fields[1].1, Json::Str(s) if s == "x"));
            assert!(matches!(&fields[2].1, Json::Bool(true)));
            assert!(matches!(&fields[3].1, Json::Null));
        }
        _ => panic!("the document is an object"),
    }
}
