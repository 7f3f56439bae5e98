// The rules each gate is built from, on the inputs that show them.

use xtask::deps::is_otel;
use xtask::licence::{is_unlicensed, missing_notice};
use xtask::purity::names;
use xtask::size::count_lines;

#[test]
fn otel_crates_are_recognised_by_prefix() {
    assert!(is_otel("opentelemetry"));
    assert!(is_otel("opentelemetry_sdk"));
    assert!(is_otel("opentelemetry-otlp"));
    assert!(!is_otel("telemetry"));
}

#[test]
fn dot_github_is_not_excluded_along_with_dot_git() {
    assert!(is_unlicensed(".git/config"));
    assert!(!is_unlicensed(".github/workflows/ci.yml"));
}

#[test]
fn a_notice_below_the_header_does_not_count() {
    let buried = "\n\n\n\n// SPDX-License-Identifier: Apache-2.0\n";
    assert!(missing_notice(buried, "//").is_some());
}

#[test]
fn a_layer_contract_may_say_what_the_layer_must_not_do() {
    assert!(!names("//! Must not: touch std::fs.\n", "std::fs"));
    assert!(names("use std::fs::File;\n", "std::fs"));
}

#[test]
fn a_file_without_a_trailing_newline_still_counts_its_last_line() {
    assert_eq!(count_lines("a\nb\n"), 2);
    assert_eq!(count_lines("a\nb"), 2);
    assert_eq!(count_lines(""), 0);
}
