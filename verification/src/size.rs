//! The line limit on hand-written files.

use vstd::prelude::*;
use crate::path::{strs, file_name, extension, file_name_range, extension_range, in_list};
use crate::scan::{Findings, Tally, TreeFile, outcome, verdict_of};
use crate::text::{
    chars_of, count_char, count_in, lines, index_of, to_decimal, decimal, lemma_count_concat,
    lemma_count_none, lemma_index_of_props,
};

verus! {

/// No hand-written file exceeds this, documentation included.
///
/// The limit is about comprehension. A file that fits in two screens can be
/// held in the head while reading it, and a protocol codec nobody can hold in
/// their head is a codec where the off-by-one lives.
pub const MAX_LINES: usize = 200;

/// File kinds the limit applies to.
///
/// Markdown is in the list deliberately. A reference document nobody finishes
/// is as useless as a function nobody can follow, and the same remedy applies:
/// split it along a seam that already exists.
pub open spec fn sized_extensions() -> Seq<Seq<char>> {
    seq![
        "rs"@, "md"@, "toml"@, "proto"@, "yaml"@, "yml"@, "just"@, "hex"@, "kat"@, "fbs"@,
        "capnp"@,
    ]
}

/// Extensionless files the limit still applies to.
pub open spec fn sized_names() -> Seq<Seq<char>> {
    seq!["justfile"@]
}

/// Files that are generated or locked, and so not anyone's design decision.
pub open spec fn exempt_names() -> Seq<Seq<char>> {
    seq!["Cargo.lock"@, "buffers.lock"@, "buf.lock"@, "MODULE.bazel.lock"@]
}

fn sized_extensions_list() -> (r: Vec<&'static str>)
    ensures
        strs(r@) == sized_extensions(),
{
    let r = vec!["rs", "md", "toml", "proto", "yaml", "yml", "just", "hex", "kat", "fbs", "capnp"];
    assert(strs(r@) =~= sized_extensions());
    r
}

fn sized_names_list() -> (r: Vec<&'static str>)
    ensures
        strs(r@) == sized_names(),
{
    let r = vec!["justfile"];
    assert(strs(r@) =~= sized_names());
    r
}

fn exempt_names_list() -> (r: Vec<&'static str>)
    ensures
        strs(r@) == exempt_names(),
{
    let r = vec!["Cargo.lock", "buffers.lock", "buf.lock", "MODULE.bazel.lock"];
    assert(strs(r@) =~= exempt_names());
    r
}

/// The file name of a path, or nothing when it has none.
pub open spec fn name_or_empty(rel: Seq<char>) -> Seq<char> {
    match file_name(rel) {
        Some(n) => n,
        None => seq![],
    }
}

/// Whether the limit applies to this path.
pub open spec fn sized(rel: Seq<char>) -> bool {
    ||| sized_names().contains(name_or_empty(rel))
    ||| extension(rel) matches Some(e) && sized_extensions().contains(e)
}

/// How many lines a person reading the file would count.
pub open spec fn line_count(text: Seq<char>) -> nat {
    if text.len() == 0 {
        0
    } else if text.last() == '\n' {
        count_char(text, '\n')
    } else {
        count_char(text, '\n') + 1
    }
}

/// The objection to a file of `n` lines.
pub open spec fn size_message(rel: Seq<char>, n: nat) -> Seq<char> {
    rel + " is "@ + decimal(n) + " lines, over the "@ + decimal(MAX_LINES as nat)
        + "-line limit; split it along a seam that already exists, and never by deleting documentation -- a file that only fits without its comments was doing two jobs"@
}

/// The tally after one file.
pub open spec fn size_step(t: Tally, f: TreeFile) -> Tally {
    if exempt_names().contains(name_or_empty(f.rel@)) || !sized(f.rel@) {
        t
    } else {
        match f.text {
            None => t.check(),
            Some(x) => if line_count(x@) > MAX_LINES {
                t.check().flag(size_message(f.rel@, line_count(x@)))
            } else {
                t.check()
            },
        }
    }
}

/// The tally after a list of files, in order.
pub open spec fn size_tally(files: Seq<TreeFile>) -> Tally
    decreases files.len(),
{
    if files.len() == 0 {
        Tally::empty()
    } else {
        size_step(size_tally(files.drop_last()), files.last())
    }
}

/// A file the limit applies to, and so one that is examined.
pub open spec fn examined(f: TreeFile) -> bool {
    !exempt_names().contains(name_or_empty(f.rel@)) && sized(f.rel@)
}

/// A file that draws an objection: examined, readable, and over the limit.
pub open spec fn over_limit(f: TreeFile) -> bool {
    examined(f) && (f.text matches Some(x) && line_count(x@) > MAX_LINES)
}

/// What the tally of a list of files holds: one item for each examined file,
/// and an objection for each file over the limit.
proof fn lemma_size_tally_counts(files: Seq<TreeFile>)
    ensures
        size_tally(files).checked == 0 <==> forall|i: int|
            0 <= i < files.len() ==> !examined(#[trigger] files[i]),
        size_tally(files).violations.len() == 0 <==> forall|i: int|
            0 <= i < files.len() ==> !over_limit(#[trigger] files[i]),
    decreases files.len(),
{
    if files.len() > 0 {
        let init = files.drop_last();
        lemma_size_tally_counts(init);
        assert forall|i: int| 0 <= i < init.len() implies #[trigger] init[i] == files[i] by {}
        if size_tally(files).checked == 0 {
            assert forall|i: int| 0 <= i < files.len() implies !examined(#[trigger] files[i]) by {
                if i < init.len() {
                    assert(!examined(init[i]));
                }
            }
        }
        if forall|i: int| 0 <= i < files.len() ==> !examined(#[trigger] files[i]) {
            assert(!examined(files[files.len() - 1]));
            assert forall|i: int| 0 <= i < init.len() implies !examined(#[trigger] init[i]) by {
                assert(!examined(files[i]));
            }
        }
        if size_tally(files).violations.len() == 0 {
            assert forall|i: int| 0 <= i < files.len() implies !over_limit(#[trigger] files[i]) by {
                if i < init.len() {
                    assert(!over_limit(init[i]));
                }
            }
        }
        if forall|i: int| 0 <= i < files.len() ==> !over_limit(#[trigger] files[i]) {
            assert(!over_limit(files[files.len() - 1]));
            assert forall|i: int| 0 <= i < init.len() implies !over_limit(#[trigger] init[i]) by {
                assert(!over_limit(files[i]));
            }
        }
    }
}

/// The size gate passes exactly when it examined at least one file and no
/// examined file is over the limit.
pub proof fn lemma_size_passes_iff(files: Seq<TreeFile>)
    ensures
        verdict_of("size"@, size_tally(files)) is Ok <==> (exists|i: int|
            0 <= i < files.len() && examined(#[trigger] files[i])) && (forall|i: int|
            0 <= i < files.len() ==> !over_limit(#[trigger] files[i])),
{
    lemma_size_tally_counts(files);
}

/// The range of the file name, or an empty range.
fn name_range(rel: &Vec<char>) -> (r: (usize, usize))
    ensures
        r.0 <= r.1 <= rel.len(),
        rel@.subrange(r.0 as int, r.1 as int) == name_or_empty(rel@),
{
    match file_name_range(rel) {
        Some(r) => r,
        None => {
            assert(rel@.subrange(0, 0) =~= Seq::<char>::empty());
            (0, 0)
        },
    }
}

fn sized_chars(rel: &Vec<char>) -> (r: bool)
    ensures
        r == sized(rel@),
{
    let (lo, hi) = name_range(rel);
    if in_list(rel, lo, hi, &sized_names_list()) {
        return true;
    }
    match extension_range(rel) {
        Some((lo, hi)) => in_list(rel, lo, hi, &sized_extensions_list()),
        None => false,
    }
}

/// Whether the limit applies to this path.
pub fn is_sized(rel: &str) -> (r: bool)
    ensures
        r == sized(rel@),
{
    sized_chars(&chars_of(rel))
}

/// Counts lines the way a person reading the file would.
///
/// A trailing newline terminates the last line rather than starting another,
/// so a file ending without one still has its final line counted.
pub fn count_lines(text: &str) -> (n: usize)
    ensures
        n == line_count(text@),
{
    let t = chars_of(text);
    if t.len() == 0 {
        return 0;
    }
    let breaks = count_in(&t, '\n');
    if t[t.len() - 1] == '\n' {
        breaks
    } else {
        assert(breaks < t.len()) by {
            lemma_count_bound(t@, '\n');
        }
        breaks + 1
    }
}

/// `count_char` counts at most every character, and fewer when the last is
/// not the one counted.
proof fn lemma_count_bound(s: Seq<char>, c: char)
    requires
        s.len() > 0,
        s.last() != c,
    ensures
        count_char(s, c) < s.len(),
{
    lemma_count_le(s.drop_last(), c);
}

proof fn lemma_count_le(s: Seq<char>, c: char)
    ensures
        count_char(s, c) <= s.len(),
    decreases s.len(),
{
    if s.len() > 0 {
        lemma_count_le(s.drop_last(), c);
    }
}

/// The line count is the number of lines `str::lines` yields.
pub proof fn lemma_line_count_is_lines(text: Seq<char>)
    ensures
        line_count(text) == lines(text).len(),
    decreases text.len(),
{
    if text.len() > 0 {
        let i = index_of(text, '\n');
        lemma_index_of_props(text, '\n');
        if i >= text.len() {
            lemma_count_none(text, '\n');
        } else {
            let head = text.take(i as int);
            let rest = text.skip(i + 1int);
            lemma_count_none(head, '\n');
            assert(text =~= head + seq!['\n'] + rest);
            lemma_count_concat(head + seq!['\n'], rest, '\n');
            lemma_count_concat(head, seq!['\n'], '\n');
            assert(count_char(seq!['\n'], '\n') == 1) by {
                assert(seq!['\n'].drop_last() =~= Seq::<char>::empty());
                assert(count_char(Seq::<char>::empty(), '\n') == 0);
            }
            lemma_line_count_is_lines(rest);
            if rest.len() > 0 {
                assert(text.last() == rest.last());
            }
        }
    }
}

/// Checks every hand-written file against [`MAX_LINES`].
///
/// Fails when a file is over the limit, or when no file was examined.
pub fn run(files: &Vec<TreeFile>) -> (r: Result<String, String>)
    ensures
        outcome(r) == verdict_of("size"@, size_tally(files@)),
{
    let mut findings = Findings::default();
    let exempt = exempt_names_list();
    let mut i: usize = 0;
    while i < files.len()
        invariant
            i <= files.len(),
            findings@ == size_tally(files@.take(i as int)),
            findings@.checked <= i,
            strs(exempt@) == exempt_names(),
        decreases files.len() - i,
    {
        assert(files@.take(i + 1).drop_last() =~= files@.take(i as int));
        let f = &files[i];
        let rel = chars_of(f.rel.as_str());
        let (lo, hi) = name_range(&rel);
        if !in_list(&rel, lo, hi, &exempt) && sized_chars(&rel) {
            findings.checked();
            match &f.text {
                None => {},
                Some(text) => {
                    let n = count_lines(text.as_str());
                    if n > MAX_LINES {
                        let mut m = f.rel.clone();
                        m.append(" is ");
                        m.append(to_decimal(n).as_str());
                        m.append(" lines, over the ");
                        m.append(to_decimal(MAX_LINES).as_str());
                        m.append(
                            "-line limit; split it along a seam that already exists, and never by deleting documentation -- a file that only fits without its comments was doing two jobs",
                        );
                        findings.violation(m);
                    }
                },
            }
        }
        i = i + 1;
    }
    assert(files@.take(files.len() as int) =~= files@);
    findings.verdict("size")
}

} // verus!
