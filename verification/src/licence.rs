//! Every hand-written file carries the Apache-2.0 notice.

use vstd::prelude::*;
use crate::path::{strs, file_name, extension, file_name_range, extension_range, any_in,
    any_piece_in};
use crate::scan::{Findings, Tally, TreeFile, outcome, verdict_of};
use crate::size::name_or_empty;
use crate::text::{
    chars_of, contains, contains_in, lines, next_line, skip_ws, split, starts_with,
    starts_with_in, trim_start, to_decimal, decimal, eq_range,
};

verus! {

/// The identifier every licensed file declares.
pub const SPDX: &'static str = "SPDX-License-Identifier: Apache-2.0";

/// The copyright line that precedes it.
pub const COPYRIGHT: &'static str = "Copyright 2026 RegaliumOS";

/// How many lines from the top the notice must appear within.
///
/// An identifier buried halfway down a file is not a licence notice, and a
/// scanner looking for one will not find it there either.
pub const HEADER_LINES: usize = 4;

/// A table of string pairs, taken by their characters.
pub open spec fn pairs(t: Seq<(&'static str, &'static str)>) -> Seq<(Seq<char>, Seq<char>)> {
    t.map_values(|p: (&'static str, &'static str)| (p.0@, p.1@))
}

/// The value of the first entry whose key is `key`.
pub open spec fn lookup(t: Seq<(Seq<char>, Seq<char>)>, key: Seq<char>) -> Option<Seq<char>>
    decreases t.len(),
{
    if t.len() == 0 {
        None
    } else if t[0].0 == key {
        Some(t[0].1)
    } else {
        lookup(t.drop_first(), key)
    }
}

/// File extension to the comment syntax its notice is written in.
pub open spec fn by_extension() -> Seq<(Seq<char>, Seq<char>)> {
    seq![
        ("rs"@, "//"@), ("proto"@, "//"@), ("fbs"@, "//"@), ("capnp"@, "#"@), ("toml"@, "#"@),
        ("yaml"@, "#"@), ("yml"@, "#"@), ("just"@, "#"@), ("hex"@, "#"@), ("kat"@, "#"@),
    ]
}

/// Extensionless files that carry a notice, and how.
pub open spec fn by_name() -> Seq<(Seq<char>, Seq<char>)> {
    seq![("justfile"@, "#"@), (".gitattributes"@, "#"@)]
}

/// Trees whose contents are generated or locked, so not ours to notice.
pub open spec fn unlicensed() -> Seq<Seq<char>> {
    seq!["generated"@, "target"@, ".git"@]
}

/// Files that are pure data or machine-owned.
pub open spec fn unlicensed_names() -> Seq<Seq<char>> {
    seq!["Cargo.lock"@, "buffers.lock"@, "buf.lock"@, "MODULE.bazel.lock"@, ".gitignore"@]
}

fn by_extension_table() -> (r: Vec<(&'static str, &'static str)>)
    ensures
        pairs(r@) == by_extension(),
{
    let r = vec![
        ("rs", "//"),
        ("proto", "//"),
        ("fbs", "//"),
        ("capnp", "#"),
        ("toml", "#"),
        ("yaml", "#"),
        ("yml", "#"),
        ("just", "#"),
        ("hex", "#"),
        ("kat", "#"),
    ];
    assert(pairs(r@) =~= by_extension());
    r
}

fn by_name_table() -> (r: Vec<(&'static str, &'static str)>)
    ensures
        pairs(r@) == by_name(),
{
    let r = vec![("justfile", "#"), (".gitattributes", "#")];
    assert(pairs(r@) =~= by_name());
    r
}

fn unlicensed_list() -> (r: Vec<&'static str>)
    ensures
        strs(r@) == unlicensed(),
{
    let r = vec!["generated", "target", ".git"];
    assert(strs(r@) =~= unlicensed());
    r
}

fn unlicensed_names_list() -> (r: Vec<&'static str>)
    ensures
        strs(r@) == unlicensed_names(),
{
    let r = vec!["Cargo.lock", "buffers.lock", "buf.lock", "MODULE.bazel.lock", ".gitignore"];
    assert(strs(r@) =~= unlicensed_names());
    r
}

/// An optional constant, taken by its characters.
pub open spec fn opt_str(o: Option<&'static str>) -> Option<Seq<char>> {
    match o {
        Some(s) => Some(s@),
        None => None,
    }
}

/// The first entry of `table` whose key is `s[lo..hi]`.
fn lookup_range(s: &Vec<char>, lo: usize, hi: usize, table: &Vec<(&'static str, &'static str)>) -> (r:
    Option<&'static str>)
    requires
        lo <= hi <= s.len(),
    ensures
        opt_str(r) == lookup(pairs(table@), s@.subrange(lo as int, hi as int)),
{
    let ghost key = s@.subrange(lo as int, hi as int);
    let mut i: usize = 0;
    assert(pairs(table@).skip(0) =~= pairs(table@));
    while i < table.len()
        invariant
            i <= table.len(),
            lo <= hi <= s.len(),
            key == s@.subrange(lo as int, hi as int),
            lookup(pairs(table@), key) == lookup(pairs(table@).skip(i as int), key),
        decreases table.len() - i,
    {
        assert(pairs(table@).skip(i as int).drop_first() =~= pairs(table@).skip(i + 1));
        let (k, v) = table[i];
        if eq_range(s, lo, hi, &chars_of(k)) {
            return Some(v);
        }
        i = i + 1;
    }
    assert(pairs(table@).skip(i as int) =~= Seq::<(Seq<char>, Seq<char>)>::empty());
    None
}

/// The comment syntax for a file kind, or nothing when it carries no notice.
pub open spec fn prefix_of(rel: Seq<char>) -> Option<Seq<char>> {
    match file_name(rel) {
        None => None,
        Some(n) => match lookup(by_name(), n) {
            Some(p) => Some(p),
            None => match extension(rel) {
                Some(e) => lookup(by_extension(), e),
                None => None,
            },
        },
    }
}

fn prefix_chars(rel: &Vec<char>) -> (r: Option<&'static str>)
    ensures
        opt_str(r) == prefix_of(rel@),
{
    match file_name_range(rel) {
        None => None,
        Some((lo, hi)) => match lookup_range(rel, lo, hi, &by_name_table()) {
            Some(p) => Some(p),
            None => match extension_range(rel) {
                Some((lo, hi)) => lookup_range(rel, lo, hi, &by_extension_table()),
                None => None,
            },
        },
    }
}

/// The comment syntax for this file kind, or `None` if it carries no notice.
pub fn comment_prefix(rel: &str) -> (r: Option<&'static str>)
    ensures
        opt_str(r) == prefix_of(rel@),
{
    prefix_chars(&chars_of(rel))
}

/// Whether any whole path element of `rel` names an unlicensed tree.
///
/// Whole elements, never a bare prefix: testing `starts_with(".git")` would
/// exclude `.github` along with `.git`, and quietly stop checking every CI
/// workflow in the repository.
pub fn is_unlicensed(rel: &str) -> (r: bool)
    ensures
        r == any_in(split(rel@, '/'), unlicensed()),
{
    any_piece_in(&chars_of(rel), &unlicensed_list())
}

/// The first `n` lines of a text, or all of them when it has fewer.
pub open spec fn first_lines(text: Seq<char>, n: nat) -> Seq<Seq<char>> {
    let ls = lines(text);
    if ls.len() <= n {
        ls
    } else {
        ls.take(n as int)
    }
}

/// Some line opens with the comment prefix and holds the needle.
pub open spec fn declares(head: Seq<Seq<char>>, prefix: Seq<char>, needle: Seq<char>) -> bool
    decreases head.len(),
{
    head.len() > 0 && (declares(head.drop_last(), prefix, needle) || (starts_with(
        trim_start(head.last()),
        prefix,
    ) && contains(head.last(), needle)))
}

/// Which notice line, if any, a text with this comment prefix fails to declare.
pub open spec fn missing_of(text: Seq<char>, prefix: Seq<char>) -> Option<Seq<char>> {
    let head = first_lines(text, HEADER_LINES as nat);
    let c = declares(head, prefix, COPYRIGHT@);
    let s = declares(head, prefix, SPDX@);
    if c && s {
        None
    } else if !c && s {
        Some("the copyright line"@)
    } else if c && !s {
        Some("the SPDX identifier"@)
    } else {
        Some("the licence notice"@)
    }
}

/// Which notice line, if any, this file fails to declare.
pub fn missing_notice(text: &str, prefix: &str) -> (r: Option<&'static str>)
    ensures
        opt_str(r) == missing_of(text@, prefix@),
{
    let t = chars_of(text);
    let p = chars_of(prefix);
    let copyright = chars_of(COPYRIGHT);
    let spdx = chars_of(SPDX);
    let mut has_c = false;
    let mut has_s = false;
    let mut count: usize = 0;
    let mut pos: usize = 0;
    let ghost mut done: Seq<Seq<char>> = seq![];
    assert(t@.skip(0) =~= t@);
    while count < HEADER_LINES && pos < t.len()
        invariant
            pos <= t.len(),
            count <= HEADER_LINES,
            done.len() == count,
            lines(t@) == done + lines(t@.skip(pos as int)),
            has_c == declares(done, p@, copyright@),
            has_s == declares(done, p@, spdx@),
            t@ == text@,
            p@ == prefix@,
            copyright@ == COPYRIGHT@,
            spdx@ == SPDX@,
        decreases t.len() - pos,
    {
        let (end, next) = next_line(&t, pos);
        let k = skip_ws(&t, pos, end);
        let opens = starts_with_in(&t, k, end, &p);
        if opens && contains_in(&t, pos, end, &copyright) {
            has_c = true;
        }
        if opens && contains_in(&t, pos, end, &spdx) {
            has_s = true;
        }
        proof {
            let line = t@.subrange(pos as int, end as int);
            assert(done.push(line).drop_last() =~= done);
            assert(done + lines(t@.skip(pos as int)) =~= done.push(line) + lines(
                t@.skip(next as int),
            ));
            done = done.push(line);
        }
        pos = next;
        count = count + 1;
    }
    proof {
        if pos == t.len() {
            assert(t@.skip(pos as int) =~= Seq::<char>::empty());
            assert(lines(t@) =~= done);
        } else {
            assert(lines(t@).take(HEADER_LINES as int) =~= done);
        }
    }
    if has_c && has_s {
        None
    } else if !has_c && has_s {
        Some("the copyright line")
    } else if has_c && !has_s {
        Some("the SPDX identifier")
    } else {
        Some("the licence notice")
    }
}

/// A notice below the header does not count: whatever follows the first
/// [`HEADER_LINES`] complete lines of a file cannot change what it lacks.
pub proof fn lemma_notice_only_in_header(head: Seq<char>, rest: Seq<char>, prefix: Seq<char>)
    requires
        head.len() > 0,
        head.last() == '\n',
        lines(head).len() >= HEADER_LINES,
    ensures
        missing_of(head + rest, prefix) == missing_of(head, prefix),
{
    crate::text::lemma_lines_concat(head, rest);
    assert((lines(head) + lines(rest)).take(HEADER_LINES as int) =~= lines(head).take(
        HEADER_LINES as int,
    ));
    assert(first_lines(head + rest, HEADER_LINES as nat) == first_lines(head, HEADER_LINES as nat));
}

/// Some line of `head` opens with the prefix and holds the needle, wherever
/// it stands among them.
proof fn lemma_declares_any_line(head: Seq<Seq<char>>, prefix: Seq<char>, needle: Seq<char>)
    ensures
        declares(head, prefix, needle) <==> exists|i: int|
            0 <= i < head.len() && starts_with(trim_start(#[trigger] head[i]), prefix) && contains(
                head[i],
                needle,
            ),
    decreases head.len(),
{
    if head.len() > 0 {
        let init = head.drop_last();
        lemma_declares_any_line(init, prefix, needle);
        if declares(init, prefix, needle) {
            let i = choose|i: int|
                0 <= i < init.len() && starts_with(trim_start(#[trigger] init[i]), prefix)
                    && contains(init[i], needle);
            assert(head[i] == init[i]);
        }
        if exists|i: int|
            0 <= i < head.len() && starts_with(trim_start(#[trigger] head[i]), prefix) && contains(
                head[i],
                needle,
            ) {
            let i = choose|i: int|
                0 <= i < head.len() && starts_with(trim_start(#[trigger] head[i]), prefix)
                    && contains(head[i], needle);
            if i < head.len() - 1 {
                assert(init[i] == head[i]);
            }
        }
    }
}

/// What a header declares does not hang on the order of its lines: a file
/// lacks nothing exactly when some line among its first [`HEADER_LINES`]
/// opens with the comment prefix and holds the copyright, and some such line
/// holds the SPDX identifier; otherwise it lacks the part that no such line
/// holds, or both.
pub proof fn lemma_notice_lines_in_any_order(text: Seq<char>, prefix: Seq<char>)
    ensures
        ({
            let ls = lines(text);
            let c = exists|i: int|
                0 <= i < ls.len() && i < HEADER_LINES && starts_with(
                    trim_start(#[trigger] ls[i]),
                    prefix,
                ) && contains(ls[i], COPYRIGHT@);
            let s = exists|i: int|
                0 <= i < ls.len() && i < HEADER_LINES && starts_with(
                    trim_start(#[trigger] ls[i]),
                    prefix,
                ) && contains(ls[i], SPDX@);
            &&& (missing_of(text, prefix) is None <==> c && s)
            &&& (missing_of(text, prefix) == Some("the copyright line"@) <==> !c && s)
            &&& (missing_of(text, prefix) == Some("the SPDX identifier"@) <==> c && !s)
            &&& (missing_of(text, prefix) == Some("the licence notice"@) <==> !c && !s)
        }),
{
    reveal_strlit("the copyright line");
    reveal_strlit("the SPDX identifier");
    reveal_strlit("the licence notice");
    let ls = lines(text);
    let head = first_lines(text, HEADER_LINES as nat);
    assert forall|i: int| 0 <= i < head.len() implies #[trigger] head[i] == ls[i] && i
        < HEADER_LINES by {}
    assert(head.len() == ls.len() || (head.len() == HEADER_LINES && HEADER_LINES < ls.len()));
    lemma_declares_any_line(head, prefix, COPYRIGHT@);
    lemma_declares_any_line(head, prefix, SPDX@);
    assert forall|i: int| 0 <= i < ls.len() && i < HEADER_LINES implies #[trigger] ls[i]
        == head[i] && i < head.len() by {}
    let c = exists|i: int|
        0 <= i < ls.len() && i < HEADER_LINES && starts_with(trim_start(#[trigger] ls[i]), prefix)
            && contains(ls[i], COPYRIGHT@);
    let s = exists|i: int|
        0 <= i < ls.len() && i < HEADER_LINES && starts_with(trim_start(#[trigger] ls[i]), prefix)
            && contains(ls[i], SPDX@);
    if c {
        let i = choose|i: int|
            0 <= i < ls.len() && i < HEADER_LINES && starts_with(trim_start(#[trigger] ls[i]), prefix)
                && contains(ls[i], COPYRIGHT@);
        assert(head[i] == ls[i]);
    }
    if s {
        let i = choose|i: int|
            0 <= i < ls.len() && i < HEADER_LINES && starts_with(trim_start(#[trigger] ls[i]), prefix)
                && contains(ls[i], SPDX@);
        assert(head[i] == ls[i]);
    }
    assert(declares(head, prefix, COPYRIGHT@) == c);
    assert(declares(head, prefix, SPDX@) == s);
    assert("the copyright line"@.len() != "the SPDX identifier"@.len());
    assert("the copyright line"@[4] != "the licence notice"@[4]);
    assert("the SPDX identifier"@.len() != "the licence notice"@.len());
}

/// Two complete opening lines may swap places without changing what a file
/// lacks: the copyright line may come before or after the identifier.
pub proof fn lemma_notice_order_free(a: Seq<char>, b: Seq<char>, rest: Seq<char>, prefix: Seq<char>)
    requires
        a.len() > 0 && a.last() == '\n' && lines(a).len() == 1,
        b.len() > 0 && b.last() == '\n' && lines(b).len() == 1,
    ensures
        missing_of(a + b + rest, prefix) == missing_of(b + a + rest, prefix),
{
    crate::text::lemma_lines_concat(b, rest);
    crate::text::lemma_lines_concat(a, rest);
    crate::text::lemma_lines_concat(a, b + rest);
    crate::text::lemma_lines_concat(b, a + rest);
    assert(a + b + rest =~= a + (b + rest));
    assert(b + a + rest =~= b + (a + rest));
    let x = lines(a + b + rest);
    let y = lines(b + a + rest);
    assert(x =~= lines(a) + (lines(b) + lines(rest)));
    assert(y =~= lines(b) + (lines(a) + lines(rest)));
    assert(x.len() == y.len());
    assert(x[0] == y[1] && x[1] == y[0]);
    assert forall|i: int| 2 <= i < x.len() implies #[trigger] x[i] == y[i] by {}
    lemma_notice_lines_in_any_order(a + b + rest, prefix);
    lemma_notice_lines_in_any_order(b + a + rest, prefix);
    lemma_swap_keeps_declared(x, y, prefix, COPYRIGHT@);
    lemma_swap_keeps_declared(x, y, prefix, SPDX@);
}

proof fn lemma_swap_keeps_declared(x: Seq<Seq<char>>, y: Seq<Seq<char>>, p: Seq<char>, n: Seq<char>)
    requires
        x.len() == y.len(),
        x.len() >= 2,
        x[0] == y[1] && x[1] == y[0],
        forall|i: int| 2 <= i < x.len() ==> #[trigger] x[i] == y[i],
    ensures
        (exists|i: int|
            0 <= i < x.len() && i < HEADER_LINES && starts_with(trim_start(#[trigger] x[i]), p)
                && contains(x[i], n)) <==> (exists|i: int|
            0 <= i < y.len() && i < HEADER_LINES && starts_with(trim_start(#[trigger] y[i]), p)
                && contains(y[i], n)),
{
    if exists|i: int|
        0 <= i < x.len() && i < HEADER_LINES && starts_with(trim_start(#[trigger] x[i]), p)
            && contains(x[i], n) {
        let i = choose|i: int|
            0 <= i < x.len() && i < HEADER_LINES && starts_with(trim_start(#[trigger] x[i]), p)
                && contains(x[i], n);
        let j = if i == 0 { 1int } else if i == 1 { 0int } else { i };
        assert(y[j] == x[i]);
    }
    if exists|i: int|
        0 <= i < y.len() && i < HEADER_LINES && starts_with(trim_start(#[trigger] y[i]), p)
            && contains(y[i], n) {
        let i = choose|i: int|
            0 <= i < y.len() && i < HEADER_LINES && starts_with(trim_start(#[trigger] y[i]), p)
                && contains(y[i], n);
        let j = if i == 0 { 1int } else if i == 1 { 0int } else { i };
        assert(x[j] == y[i]);
    }
}

/// The objection to a file that lacks part of its notice.
pub open spec fn licence_message(rel: Seq<char>, missing: Seq<char>, prefix: Seq<char>) -> Seq<
    char,
> {
    rel + " is missing "@ + missing + " in its first "@ + decimal(HEADER_LINES as nat)
        + " lines; open it with `"@ + prefix + " "@ + COPYRIGHT@ + "™.` then `"@ + prefix + " "@
        + SPDX@ + "`, blank line after"@
}

/// The tally after one file.
pub open spec fn licence_step(t: Tally, f: TreeFile) -> Tally {
    if unlicensed_names().contains(name_or_empty(f.rel@)) || any_in(
        split(f.rel@, '/'),
        unlicensed(),
    ) {
        t
    } else {
        match prefix_of(f.rel@) {
            None => t,
            Some(prefix) => match f.text {
                None => t.check(),
                Some(x) => match missing_of(x@, prefix) {
                    None => t.check(),
                    Some(m) => t.check().flag(licence_message(f.rel@, m, prefix)),
                },
            },
        }
    }
}

/// A file inside a generated or locked tree is never examined: it carries no
/// notice of ours.
pub proof fn lemma_unlicensed_trees_unexamined(t: Tally, f: TreeFile)
    requires
        any_in(split(f.rel@, '/'), unlicensed()),
    ensures
        licence_step(t, f) == t,
{
}

/// The tally after a list of files, in order.
pub open spec fn licence_tally(files: Seq<TreeFile>) -> Tally
    decreases files.len(),
{
    if files.len() == 0 {
        Tally::empty()
    } else {
        licence_step(licence_tally(files.drop_last()), files.last())
    }
}

/// A file that carries a notice, and so one that is examined.
pub open spec fn examined(f: TreeFile) -> bool {
    &&& !unlicensed_names().contains(name_or_empty(f.rel@))
    &&& !any_in(split(f.rel@, '/'), unlicensed())
    &&& prefix_of(f.rel@) is Some
}

/// A file that draws an objection: examined, readable, and without its whole
/// notice in the header.
pub open spec fn lacks_notice(f: TreeFile) -> bool {
    examined(f) && (f.text matches Some(x) && missing_of(x@, prefix_of(f.rel@)->0) is Some)
}

proof fn lemma_licence_step(t: Tally, f: TreeFile)
    ensures
        licence_step(t, f).checked == t.checked + if examined(f) {
            1nat
        } else {
            0nat
        },
        licence_step(t, f).violations.len() == t.violations.len() + if lacks_notice(f) {
            1nat
        } else {
            0nat
        },
{
}

proof fn lemma_licence_tally_counts(files: Seq<TreeFile>)
    ensures
        licence_tally(files).checked == 0 <==> forall|i: int|
            0 <= i < files.len() ==> !examined(#[trigger] files[i]),
        licence_tally(files).violations.len() == 0 <==> forall|i: int|
            0 <= i < files.len() ==> !lacks_notice(#[trigger] files[i]),
    decreases files.len(),
{
    if files.len() > 0 {
        let init = files.drop_last();
        let last = files.last();
        lemma_licence_tally_counts(init);
        lemma_licence_step(licence_tally(init), last);
        assert forall|i: int| 0 <= i < init.len() implies #[trigger] init[i] == files[i] by {}
        if licence_tally(files).checked == 0 {
            assert forall|i: int| 0 <= i < files.len() implies !examined(#[trigger] files[i]) by {
                if i < init.len() {
                    assert(!examined(init[i]));
                }
            }
        }
        if forall|i: int| 0 <= i < files.len() ==> !examined(#[trigger] files[i]) {
            assert(!examined(files[files.len() - 1]));
            assert forall|i: int| 0 <= i < init.len() implies !examined(#[trigger] init[i]) by {
                assert(!examined(files[i]));
            }
        }
        if licence_tally(files).violations.len() == 0 {
            assert forall|i: int| 0 <= i < files.len() implies !lacks_notice(
                #[trigger] files[i],
            ) by {
                if i < init.len() {
                    assert(!lacks_notice(init[i]));
                }
            }
        }
        if forall|i: int| 0 <= i < files.len() ==> !lacks_notice(#[trigger] files[i]) {
            assert(!lacks_notice(files[files.len() - 1]));
            assert forall|i: int| 0 <= i < init.len() implies !lacks_notice(#[trigger] init[i]) by {
                assert(!lacks_notice(files[i]));
            }
        }
    }
}

/// The licence gate passes exactly when it examined at least one file and
/// every examined file declares both notice lines in its header.
pub proof fn lemma_licence_passes_iff(files: Seq<TreeFile>)
    ensures
        verdict_of("licence"@, licence_tally(files)) is Ok <==> (exists|i: int|
            0 <= i < files.len() && examined(#[trigger] files[i])) && (forall|i: int|
            0 <= i < files.len() ==> !lacks_notice(#[trigger] files[i])),
{
    lemma_licence_tally_counts(files);
}

/// Checks the notice on every file kind that carries one.
///
/// Fails when a notice is missing or malformed, or when nothing was examined.
pub fn run(files: &Vec<TreeFile>) -> (r: Result<String, String>)
    ensures
        outcome(r) == verdict_of("licence"@, licence_tally(files@)),
{
    let mut findings = Findings::default();
    let names = unlicensed_names_list();
    let trees = unlicensed_list();
    let mut i: usize = 0;
    while i < files.len()
        invariant
            i <= files.len(),
            findings@ == licence_tally(files@.take(i as int)),
            findings@.checked <= i,
            strs(names@) == unlicensed_names(),
            strs(trees@) == unlicensed(),
        decreases files.len() - i,
    {
        assert(files@.take(i + 1).drop_last() =~= files@.take(i as int));
        let f = &files[i];
        let rel = chars_of(f.rel.as_str());
        let (lo, hi) = match file_name_range(&rel) {
            Some(r) => r,
            None => {
                assert(rel@.subrange(0, 0) =~= Seq::<char>::empty());
                (0, 0)
            },
        };
        if !crate::path::in_list(&rel, lo, hi, &names) && !any_piece_in(&rel, &trees) {
            match prefix_chars(&rel) {
                None => {},
                Some(prefix) => {
                    findings.checked();
                    match &f.text {
                        None => {},
                        Some(text) => match missing_notice(text.as_str(), prefix) {
                            None => {},
                            Some(missing) => {
                                let mut m = f.rel.clone();
                                m.append(" is missing ");
                                m.append(missing);
                                m.append(" in its first ");
                                m.append(to_decimal(HEADER_LINES).as_str());
                                m.append(" lines; open it with `");
                                m.append(prefix);
                                m.append(" ");
                                m.append(COPYRIGHT);
                                m.append("™.` then `");
                                m.append(prefix);
                                m.append(" ");
                                m.append(SPDX);
                                m.append("`, blank line after");
                                findings.violation(m);
                            },
                        },
                    }
                },
            }
        }
        i = i + 1;
    }
    assert(files@.take(files.len() as int) =~= files@);
    findings.verdict("licence")
}

} // verus!
