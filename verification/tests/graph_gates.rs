// The arch, purity and deps gates, exercised against workspaces that are wrong.
//
// Each test starts from a legal workspace and damages exactly one manifest,
// so a failure names the damage rather than some unrelated gap in the fixture.

use xtask::metadata::{Dependency, Member, Resolved};
use xtask::purity::CrateFiles;
use xtask::scan::TreeFile;
use xtask::{arch, deps, purity};

/// The notice every licensed Rust file opens with.
const NOTICE: &str = "// Copyright 2026 RegaliumOS™.\n\
                      // SPDX-License-Identifier: Apache-2.0\n\n";

/// The workspace crates and the dependencies the layer table permits them.
const LEGAL: &[(&str, &[&str])] = &[
    ("regalium-bacnet-telemetry", &[]),
    ("regalium-bacnet-core", &["regalium-bacnet-telemetry"]),
    ("regalium-bacnet-ip", &["regalium-bacnet-core"]),
    ("regalium-bacnet-mstp", &["regalium-bacnet-core"]),
    ("regalium-bacnet-sc", &["regalium-bacnet-core"]),
    ("regalium-bacnet-ipv6", &["regalium-bacnet-core"]),
    ("regalium-bacnet-schema", &["regalium-bacnet-telemetry"]),
    (
        "regalium-bacnet-telemetry-otel",
        &["regalium-bacnet-telemetry"],
    ),
    (
        "regalium-bacnet-runtime",
        &["regalium-bacnet-core", "regalium-bacnet-ip"],
    ),
    ("regalium-bacnet", &["regalium-bacnet-runtime"]),
];

/// One crate of a fixture workspace: its dependencies with their kinds, the
/// native library it links, and its source files.
struct Krate {
    name: String,
    deps: Vec<(String, String)>,
    links: Option<String>,
    sources: Vec<(String, String)>,
}

/// A fixture workspace: its members, in order.
struct Workspace {
    crates: Vec<Krate>,
}

impl Workspace {
    fn krate(&mut self, name: &str) -> &mut Krate {
        if !self.crates.iter().any(|k| k.name == name) {
            self.crates.push(Krate {
                name: name.to_owned(),
                deps: Vec::new(),
                links: None,
                sources: vec![("src/lib.rs".to_owned(), NOTICE.to_owned())],
            });
        }
        self.crates.iter_mut().find(|k| k.name == name).expect("just added")
    }

    /// Keeps only the named crates as members.
    fn members_only(&mut self, names: &[&str]) {
        self.crates.retain(|k| names.contains(&k.name.as_str()));
        for name in names {
            self.krate(name);
        }
    }

    /// What `cargo metadata --no-deps` says of the members.
    fn members(&self) -> Vec<Member> {
        let names: Vec<&String> = self.crates.iter().map(|k| &k.name).collect();
        self.crates
            .iter()
            .map(|k| Member {
                name: k.name.clone(),
                workspace_deps: k
                    .deps
                    .iter()
                    .filter(|(d, _)| names.contains(&d))
                    .map(|(d, _)| d.clone())
                    .collect(),
                direct_deps: k
                    .deps
                    .iter()
                    .map(|(d, kind)| Dependency { name: d.clone(), kind: kind.clone() })
                    .collect(),
            })
            .collect()
    }

    /// What `cargo metadata` says of the resolved graph.
    fn resolved(&self) -> Vec<Resolved> {
        self.crates
            .iter()
            .map(|k| Resolved { name: k.name.clone(), links: k.links.clone() })
            .collect()
    }

    /// The files under each crate's directory.
    fn trees(&self) -> Vec<CrateFiles> {
        self.crates
            .iter()
            .map(|k| {
                let mut files = vec![TreeFile {
                    rel: "Cargo.toml".to_owned(),
                    text: Some(format!("[package]\nname = \"{}\"\n", k.name)),
                }];
                for (rel, text) in &k.sources {
                    files.push(TreeFile { rel: rel.clone(), text: Some(text.clone()) });
                }
                CrateFiles { krate: k.name.clone(), files }
            })
            .collect()
    }
}

/// A complete, legal workspace that the graph gates pass.
fn legal_workspace(_label: &str) -> Workspace {
    let mut ws = Workspace { crates: Vec::new() };
    for (name, deps) in LEGAL {
        rewrite_crate(&mut ws, name, deps);
    }
    ws
}

/// Replaces one crate's dependencies, to plant a violation in it.
fn rewrite_crate(ws: &mut Workspace, name: &str, deps: &[&str]) {
    ws.krate(name).deps = deps.iter().map(|d| (d.to_string(), "normal".to_owned())).collect();
}

/// Adds a crate to the fixture workspace under its own name.
fn stub_crate(ws: &mut Workspace, name: &str) {
    ws.krate(name);
}

#[test]
fn a_legal_workspace_passes_all_three() {
    let tree = legal_workspace("legal");

    arch::run(&tree.members()).expect("the fixture models the layer table");
    purity::run(&tree.members(), &tree.trees())
        .expect("the fixture's pure crates depend only on the seam");
    deps::run(&tree.members(), &tree.resolved()).expect("the fixture names no banned crate");
}

#[test]
fn arch_rejects_a_dependency_that_inverts_the_hexagon() {
    let mut tree = legal_workspace("arch-inverted");
    rewrite_crate(&mut tree, "regalium-bacnet-core", &["regalium-bacnet-ip"]);

    let error = arch::run(&tree.members()).expect_err("the core may not depend on a datalink");
    assert!(error.contains("inverts the hexagon"), "{error}");
}

#[test]
fn arch_rejects_a_crate_missing_from_the_layer_table() {
    let mut tree = legal_workspace("arch-ungoverned");
    tree.members_only(&["regalium-bacnet-stray"]);
    rewrite_crate(&mut tree, "regalium-bacnet-stray", &[]);

    let error = arch::run(&tree.members()).expect_err("an ungoverned crate must be reported");
    assert!(error.contains("not in the layer table"), "{error}");
}

#[test]
fn arch_reports_a_layer_that_has_gone_missing() {
    let mut tree = legal_workspace("arch-absent");
    tree.members_only(&["regalium-bacnet-core"]);

    let error = arch::run(&tree.members())
        .expect_err("a table describing an absent tree checks nothing");
    assert!(error.contains("absent from the workspace"), "{error}");
}

#[test]
fn purity_rejects_a_dependency_on_the_pure_core() {
    let mut tree = legal_workspace("purity-dep");
    rewrite_crate(&mut tree, "regalium-bacnet-core", &["regalium-bacnet-schema"]);

    let error = purity::run(&tree.members(), &tree.trees())
        .expect_err("a pure layer's only dependency is the seam");
    assert!(
        error.contains("pure layer's only permitted dependency"),
        "{error}"
    );
}

#[test]
fn purity_rejects_io_in_a_pure_layer() {
    let mut tree = legal_workspace("purity-io");
    tree.krate("regalium-bacnet-core").sources =
        vec![("src/lib.rs".to_owned(), format!("{}use std::fs::File;\n", NOTICE))];

    let error = purity::run(&tree.members(), &tree.trees())
        .expect_err("the pure core reads no files");
    assert!(error.contains("std::fs"), "{error}");
}

#[test]
fn purity_rejects_a_clock_read_in_a_pure_layer() {
    let mut tree = legal_workspace("purity-clock");
    tree.krate("regalium-bacnet-core").sources = vec![(
        "src/lib.rs".to_owned(),
        format!("{}fn now() {{ std::time::Instant::now(); }}\n", NOTICE),
    )];

    let error = purity::run(&tree.members(), &tree.trees())
        .expect_err("time is injected, never read");
    assert!(error.contains("time is injected"), "{error}");
}

#[test]
fn deps_rejects_opentelemetry_outside_the_adapter() {
    let mut tree = legal_workspace("deps-otel");
    stub_crate(&mut tree, "opentelemetry");
    rewrite_crate(&mut tree, "regalium-bacnet-core", &["opentelemetry"]);

    let error = deps::run(&tree.members(), &tree.resolved())
        .expect_err("only the adapter may name OpenTelemetry");
    assert!(
        error.contains("records through the telemetry seam"),
        "{error}"
    );
}

#[test]
fn deps_permits_opentelemetry_inside_the_adapter() {
    let mut tree = legal_workspace("deps-otel-ok");
    stub_crate(&mut tree, "opentelemetry");
    rewrite_crate(&mut tree, "regalium-bacnet-telemetry-otel", &["opentelemetry"]);

    deps::run(&tree.members(), &tree.resolved())
        .expect("the adapter exists precisely to hold this dependency");
}

#[test]
fn deps_rejects_a_crate_that_compiles_c() {
    let mut tree = legal_workspace("deps-cc");
    stub_crate(&mut tree, "cc");
    tree.krate("regalium-bacnet-ip").deps = vec![("cc".to_owned(), "build".to_owned())];

    let error = deps::run(&tree.members(), &tree.resolved())
        .expect_err("a C toolchain breaks the one-flag cross build");
    assert!(error.contains("compiles C"), "{error}");
}

#[test]
fn deps_rejects_a_transitive_native_library() {
    let mut tree = legal_workspace("deps-links");
    stub_crate(&mut tree, "openssl-sys");
    tree.krate("openssl-sys").links = Some("ssl".to_owned());
    rewrite_crate(&mut tree, "regalium-bacnet-ip", &["openssl-sys"]);

    let error = deps::run(&tree.members(), &tree.resolved())
        .expect_err("a native library breaks the cross build");
    assert!(error.contains("links the native library ssl"), "{error}");
}

#[test]
fn deps_permits_a_links_key_used_as_a_version_marker() {
    let mut tree = legal_workspace("deps-marker");
    stub_crate(&mut tree, "wasm-bindgen-shared");
    tree.krate("wasm-bindgen-shared").links = Some("wasm_bindgen".to_owned());
    rewrite_crate(&mut tree, "regalium-bacnet-ip", &["wasm-bindgen-shared"]);

    deps::run(&tree.members(), &tree.resolved())
        .expect("wasm_bindgen names a version marker, not a C library");
}
