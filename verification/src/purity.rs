//! The pure layers perform no I/O and read no clock.

use vstd::prelude::*;
use crate::arch::{SEAM, LayerView, layers, layer_views, layer_table, find_member, member_index};
use crate::licence::pairs;
use crate::metadata::{Member, MemberView, DependencyView, member_views};
use crate::path::{extension, extension_range};
use crate::scan::{Findings, Tally, TreeFile, outcome, verdict_of};
use crate::text::{
    is_ws, chars_of, contains, contains_in, lines, next_line, skip_ws, starts_with, starts_with_in,
    trim_start, same_text, eq_range,
};

verus! {

/// Standard library paths a pure layer may not name, each with the reason.
///
/// `log` and `tracing` are here beside the I/O modules deliberately. A
/// protocol codec that logs has made a policy decision on its caller's
/// behalf, and a library that narrates into somebody else's stdout is a
/// library they cannot embed. The core returns errors and spans; it does not
/// narrate.
pub open spec fn banned() -> Seq<(Seq<char>, Seq<char>)> {
    seq![
        ("std::fs"@, "the pure core reads no files"@),
        ("std::net"@, "the pure core opens no sockets"@),
        ("std::process"@, "the pure core spawns nothing"@),
        ("std::io::stdout"@, "the pure core writes to nobody's terminal"@),
        ("std::time::SystemTime"@, "time is injected, never read"@),
        ("std::time::Instant"@, "time is injected, never read"@),
        ("std::thread::sleep"@, "the core returns a deadline; the runtime waits"@),
        ("log::"@, "the core returns errors and spans; it does not narrate"@),
        ("tracing::"@, "observability goes through the telemetry seam"@),
    ]
}

fn banned_table() -> (r: Vec<(&'static str, &'static str)>)
    ensures
        pairs(r@) == banned(),
{
    let r = vec![
        ("std::fs", "the pure core reads no files"),
        ("std::net", "the pure core opens no sockets"),
        ("std::process", "the pure core spawns nothing"),
        ("std::io::stdout", "the pure core writes to nobody's terminal"),
        ("std::time::SystemTime", "time is injected, never read"),
        ("std::time::Instant", "time is injected, never read"),
        ("std::thread::sleep", "the core returns a deadline; the runtime waits"),
        ("log::", "the core returns errors and spans; it does not narrate"),
        ("tracing::", "observability goes through the telemetry seam"),
    ];
    assert(pairs(r@) =~= banned());
    r
}

/// Where a scan of a line stands: in code, in a string literal, just after a
/// backslash in a string literal, or in a block comment.
pub enum Lex {
    Code,
    Str,
    Escape,
    Block,
}

/// The code of a line, read from state `st`: the line without its comments.
///
/// A `//` outside a string literal ends the line; a block comment opened on
/// the line stands for one space and ends at `*/`. A string literal runs
/// from `"` to the next `"` that no backslash escapes, and the character
/// literals `'"'` and `'\x'` are taken whole, so a `//` or a quote inside a
/// literal opens nothing. The scan reads one line: a literal or a block
/// comment that goes on past the line's end is not followed onto the next.
pub open spec fn code_text(s: Seq<char>, st: Lex) -> Seq<char>
    decreases s.len(),
{
    if s.len() == 0 {
        seq![]
    } else {
        match st {
            Lex::Code => if s.len() >= 2 && s[0] == '/' && s[1] == '/' {
                seq![]
            } else if s.len() >= 2 && s[0] == '/' && s[1] == '*' {
                seq![' '] + code_text(s.skip(2), Lex::Block)
            } else if s[0] == '"' {
                seq![s[0]] + code_text(s.skip(1), Lex::Str)
            } else if s[0] == '\'' && s.len() >= 3 && s[1] == '"' && s[2] == '\'' {
                s.take(3) + code_text(s.skip(3), Lex::Code)
            } else if s[0] == '\'' && s.len() >= 4 && s[1] == '\\' && s[3] == '\'' {
                s.take(4) + code_text(s.skip(4), Lex::Code)
            } else {
                seq![s[0]] + code_text(s.skip(1), Lex::Code)
            },
            Lex::Str => if s[0] == '\\' {
                seq![s[0]] + code_text(s.skip(1), Lex::Escape)
            } else if s[0] == '"' {
                seq![s[0]] + code_text(s.skip(1), Lex::Code)
            } else {
                seq![s[0]] + code_text(s.skip(1), Lex::Str)
            },
            Lex::Escape => seq![s[0]] + code_text(s.skip(1), Lex::Str),
            Lex::Block => if s.len() >= 2 && s[0] == '*' && s[1] == '/' {
                code_text(s.skip(2), Lex::Code)
            } else {
                code_text(s.skip(1), Lex::Block)
            },
        }
    }
}

/// A line that is code, not a comment (nor a line that continues a block
/// comment), and names `path` in its code, outside any comment on it.
pub open spec fn line_names(line: Seq<char>, path: Seq<char>) -> bool {
    let code = trim_start(line);
    !starts_with(code, "//"@) && !starts_with(code, "*"@) && contains(
        code_text(code, Lex::Code),
        path,
    )
}

/// The code of `s[lo..hi]`, read from its start.
fn code_of(s: &Vec<char>, lo: usize, hi: usize) -> (r: Vec<char>)
    requires
        lo <= hi <= s.len(),
    ensures
        r@ == code_text(s@.subrange(lo as int, hi as int), Lex::Code),
{
    let mut out: Vec<char> = Vec::new();
    let mut st = Lex::Code;
    let mut i = lo;
    assert(out@ + code_text(s@.subrange(i as int, hi as int), st) =~= code_text(
        s@.subrange(lo as int, hi as int),
        Lex::Code,
    ));
    while i < hi
        invariant
            lo <= i <= hi <= s.len(),
            out@ + code_text(s@.subrange(i as int, hi as int), st) == code_text(
                s@.subrange(lo as int, hi as int),
                Lex::Code,
            ),
        ensures
            i == hi,
        decreases hi - i,
    {
        let ghost rest = s@.subrange(i as int, hi as int);
        let ghost before = out@;
        assert(rest[0] == s@[i as int]);
        let c = s[i];
        let n: usize;
        match st {
            Lex::Code => {
                if hi - i >= 2 && c == '/' && s[i + 1] == '/' {
                    assert(rest[1] == s@[i + 1]);
                    assert(code_text(rest, Lex::Code) =~= Seq::<char>::empty());
                    assert(out@ + code_text(s@.subrange(hi as int, hi as int), Lex::Code) =~= out@);
                    i = hi;
                    break;
                } else if hi - i >= 2 && c == '/' && s[i + 1] == '*' {
                    assert(rest[1] == s@[i + 1]);
                    out.push(' ');
                    st = Lex::Block;
                    n = 2;
                } else if c == '"' {
                    out.push(c);
                    st = Lex::Str;
                    n = 1;
                } else if c == '\'' && hi - i >= 3 && s[i + 1] == '"' && s[i + 2] == '\'' {
                    assert(rest[1] == s@[i + 1] && rest[2] == s@[i + 2]);
                    out.push(c);
                    out.push(s[i + 1]);
                    out.push(s[i + 2]);
                    assert(out@ =~= before + rest.take(3));
                    n = 3;
                } else if c == '\'' && hi - i >= 4 && s[i + 1] == '\\' && s[i + 3] == '\'' {
                    assert(rest[1] == s@[i + 1] && rest[2] == s@[i + 2] && rest[3] == s@[i + 3]);
                    out.push(c);
                    out.push(s[i + 1]);
                    out.push(s[i + 2]);
                    out.push(s[i + 3]);
                    assert(out@ =~= before + rest.take(4));
                    n = 4;
                } else {
                    if hi - i >= 2 {
                        assert(rest[1] == s@[i + 1]);
                    }
                    if hi - i >= 3 {
                        assert(rest[2] == s@[i + 2]);
                    }
                    if hi - i >= 4 {
                        assert(rest[3] == s@[i + 3]);
                    }
                    out.push(c);
                    n = 1;
                }
            },
            Lex::Str => {
                out.push(c);
                if c == '\\' {
                    st = Lex::Escape;
                } else if c == '"' {
                    st = Lex::Code;
                }
                n = 1;
            },
            Lex::Escape => {
                out.push(c);
                st = Lex::Str;
                n = 1;
            },
            Lex::Block => {
                if hi - i >= 2 && c == '*' && s[i + 1] == '/' {
                    assert(rest[1] == s@[i + 1]);
                    st = Lex::Code;
                    n = 2;
                } else {
                    if hi - i >= 2 {
                        assert(rest[1] == s@[i + 1]);
                    }
                    n = 1;
                }
            },
        }
        assert(rest.skip(n as int) =~= s@.subrange(i + n, hi as int));
        assert(before + (rest.take(n as int) + code_text(rest.skip(n as int), st)) =~= (before
            + rest.take(n as int)) + code_text(rest.skip(n as int), st));
        i = i + n;
    }
    assert(s@.subrange(i as int, hi as int) =~= Seq::<char>::empty());
    assert(out@ + code_text(s@.subrange(i as int, hi as int), st) =~= out@);
    out
}

/// Some line names `path`.
pub open spec fn some_line_names(ls: Seq<Seq<char>>, path: Seq<char>) -> bool
    decreases ls.len(),
{
    ls.len() > 0 && (some_line_names(ls.drop_last(), path) || line_names(ls.last(), path))
}

/// A line that is a comment: after its indentation it opens with `//` or `*`.
pub open spec fn is_comment(line: Seq<char>) -> bool {
    starts_with(trim_start(line), "//"@) || starts_with(trim_start(line), "*"@)
}

/// A line that is a comment, or whose code outside its comments does not
/// hold `path`.
pub open spec fn mentions_only_in_comment(line: Seq<char>, path: Seq<char>) -> bool {
    is_comment(line) || !contains(code_text(trim_start(line), Lex::Code), path)
}

/// A mention only inside comments is no use: a source each of whose lines is
/// a comment, or holds the path only in comments on it, names
/// nothing. Documentation may say what the layer must not do.
pub proof fn lemma_comments_name_nothing(source: Seq<char>, path: Seq<char>)
    requires
        forall|i: int|
            0 <= i < lines(source).len() ==> mentions_only_in_comment(
                #[trigger] lines(source)[i],
                path,
            ),
    ensures
        !source_names(source, path),
{
    lemma_comment_lines_name_nothing(lines(source), path);
}

proof fn lemma_comment_lines_name_nothing(ls: Seq<Seq<char>>, path: Seq<char>)
    requires
        forall|i: int| 0 <= i < ls.len() ==> mentions_only_in_comment(#[trigger] ls[i], path),
    ensures
        !some_line_names(ls, path),
    decreases ls.len(),
{
    if ls.len() > 0 {
        assert(mentions_only_in_comment(ls[ls.len() - 1], path));
        lemma_comment_lines_name_nothing(ls.drop_last(), path);
    }
}

/// Text with no `/`, no quote and no apostrophe holds no comment and no
/// literal: all of it is code.
pub proof fn lemma_plain_text_is_code(s: Seq<char>)
    requires
        forall|i: int| 0 <= i < s.len() ==> #[trigger] s[i] != '/' && s[i] != '"' && s[i] != '\'',
    ensures
        code_text(s, Lex::Code) == s,
    decreases s.len(),
{
    if s.len() > 0 {
        let rest = s.skip(1);
        assert forall|i: int| 0 <= i < rest.len() implies #[trigger] rest[i] != '/' && rest[i]
            != '"' && rest[i] != '\'' by {
            assert(rest[i] == s[i + 1]);
        }
        lemma_plain_text_is_code(rest);
        assert(seq![s[0]] + rest =~= s);
    }
}

/// A source names a path exactly when one of its lines does: a line that,
/// after its indentation, opens with neither `//` nor `*` and holds the path
/// in its code. No other kind of line is passed over, whatever character it
/// opens with.
pub proof fn lemma_a_code_line_names(source: Seq<char>, path: Seq<char>)
    ensures
        source_names(source, path) <==> exists|i: int|
            0 <= i < lines(source).len() && !starts_with(
                trim_start(#[trigger] lines(source)[i]),
                "//"@,
            ) && !starts_with(trim_start(lines(source)[i]), "*"@) && contains(
                code_text(trim_start(lines(source)[i]), Lex::Code),
                path,
            ),
{
    lemma_some_line_names_iff(lines(source), path);
}

/// In particular a line with no `/`, no quote and no apostrophe that holds
/// the path, and whose text does not open with `*`, makes the source name it:
/// an attribute such as `#[tracing::instrument]` is code like any other.
pub proof fn lemma_plain_line_names(source: Seq<char>, path: Seq<char>, i: int)
    requires
        0 <= i < lines(source).len(),
        forall|j: int|
            0 <= j < lines(source)[i].len() ==> #[trigger] lines(source)[i][j] != '/' && lines(
                source,
            )[i][j] != '"' && lines(source)[i][j] != '\'',
        !starts_with(trim_start(lines(source)[i]), "*"@),
        contains(trim_start(lines(source)[i]), path),
    ensures
        source_names(source, path),
{
    let l = lines(source)[i];
    let t = trim_start(l);
    lemma_trim_start_suffix(l);
    assert forall|j: int| 0 <= j < t.len() implies #[trigger] t[j] != '/' && t[j] != '"' && t[j]
        != '\'' by {
        let k = l.len() - t.len();
        assert(t[j] == l[k + j]);
    }
    lemma_plain_text_is_code(t);
    if starts_with(t, "//"@) {
        reveal_strlit("//");
        assert(t.subrange(0, 2)[0] == t[0]);
        assert(t[0] == '/');
    }
    lemma_a_code_line_names(source, path);
}

/// `trim_start` drops a prefix.
proof fn lemma_trim_start_suffix(l: Seq<char>)
    ensures
        trim_start(l).len() <= l.len(),
        trim_start(l) == l.skip(l.len() - trim_start(l).len()),
    decreases l.len(),
{
    if l.len() > 0 && is_ws(l[0]) {
        lemma_trim_start_suffix(l.skip(1));
        assert(l.skip(1).skip(l.skip(1).len() - trim_start(l.skip(1)).len()) =~= l.skip(
            l.len() - trim_start(l.skip(1)).len(),
        ));
    } else {
        assert(l.skip(0) =~= l);
    }
}

proof fn lemma_some_line_names_iff(ls: Seq<Seq<char>>, path: Seq<char>)
    ensures
        some_line_names(ls, path) <==> exists|i: int|
            0 <= i < ls.len() && !starts_with(trim_start(#[trigger] ls[i]), "//"@) && !starts_with(
                trim_start(ls[i]),
                "*"@,
            ) && contains(code_text(trim_start(ls[i]), Lex::Code), path),
    decreases ls.len(),
{
    if ls.len() > 0 {
        let init = ls.drop_last();
        lemma_some_line_names_iff(init, path);
        if some_line_names(init, path) {
            let i = choose|i: int|
                0 <= i < init.len() && !starts_with(trim_start(#[trigger] init[i]), "//"@)
                    && !starts_with(trim_start(init[i]), "*"@) && contains(
                    code_text(trim_start(init[i]), Lex::Code),
                    path,
                );
            assert(ls[i] == init[i]);
        }
        if exists|i: int|
            0 <= i < ls.len() && !starts_with(trim_start(#[trigger] ls[i]), "//"@) && !starts_with(
                trim_start(ls[i]),
                "*"@,
            ) && contains(code_text(trim_start(ls[i]), Lex::Code), path) {
            let i = choose|i: int|
                0 <= i < ls.len() && !starts_with(trim_start(#[trigger] ls[i]), "//"@)
                    && !starts_with(trim_start(ls[i]), "*"@) && contains(
                    code_text(trim_start(ls[i]), Lex::Code),
                    path,
                );
            if i < ls.len() - 1 {
                assert(init[i] == ls[i]);
            }
        }
    }
}

/// Whether the source names a banned path outside a comment.
pub open spec fn source_names(source: Seq<char>, path: Seq<char>) -> bool {
    some_line_names(lines(source), path)
}

fn names_chars(t: &Vec<char>, p: &Vec<char>) -> (r: bool)
    ensures
        r == source_names(t@, p@),
{
    let slashes = chars_of("//");
    let star = chars_of("*");
    let mut pos: usize = 0;
    let ghost mut done: Seq<Seq<char>> = seq![];
    assert(t@.skip(0) =~= t@);
    while pos < t.len()
        invariant
            pos <= t.len(),
            lines(t@) == done + lines(t@.skip(pos as int)),
            !some_line_names(done, p@),
            slashes@ == "//"@,
            star@ == "*"@,
        decreases t.len() - pos,
    {
        let (end, next) = next_line(t, pos);
        let k = skip_ws(t, pos, end);
        let ghost line = t@.subrange(pos as int, end as int);
        let code = code_of(t, k, end);
        assert(code@.subrange(0, code@.len() as int) =~= code@);
        let found = !starts_with_in(t, k, end, &slashes) && !starts_with_in(t, k, end, &star)
            && contains_in(&code, 0, code.len(), p);
        assert(done.push(line).drop_last() =~= done);
        if found {
            assert(some_line_names(done.push(line), p@));
            proof {
                lemma_some_line_names_prefix(done.push(line), lines(t@.skip(next as int)), p@);
                assert(done + lines(t@.skip(pos as int)) =~= done.push(line) + lines(
                    t@.skip(next as int),
                ));
            }
            return true;
        }
        proof {
            assert(done + lines(t@.skip(pos as int)) =~= done.push(line) + lines(
                t@.skip(next as int),
            ));
            done = done.push(line);
        }
        pos = next;
    }
    assert(t@.skip(pos as int) =~= Seq::<char>::empty());
    assert(lines(t@) =~= done);
    false
}

/// A line that names the path keeps doing so when more lines follow.
proof fn lemma_some_line_names_prefix(a: Seq<Seq<char>>, b: Seq<Seq<char>>, p: Seq<char>)
    requires
        some_line_names(a, p),
    ensures
        some_line_names(a + b, p),
    decreases b.len(),
{
    if b.len() == 0 {
        assert(a + b =~= a);
    } else {
        lemma_some_line_names_prefix(a, b.drop_last(), p);
        assert((a + b).drop_last() =~= a + b.drop_last());
    }
}

/// Whether the source names a banned path outside a comment.
///
/// Documentation may discuss what the layer must not do — these contracts are
/// written down precisely so a reader knows — so a line that is a comment, a
/// line that continues a block comment, a block comment inside a line of
/// code and the comment that ends a line of code are not a use of the thing
/// they mention. A `//` inside a string or character literal starts no
/// comment: `let u = "http://h"; std::fs::read(u);` names `std::fs`.
/// Each line is read on its own (see `code_text`).
pub fn names(source: &str, path: &str) -> (r: bool)
    ensures
        r == source_names(source@, path@),
{
    names_chars(&chars_of(source), &chars_of(path))
}

/// The files of one crate, with paths relative to the crate's directory.
pub struct CrateFiles {
    pub krate: String,
    pub files: Vec<TreeFile>,
}

/// Where a crate's files live, relative to the workspace root.
pub fn crate_dir(krate: &str) -> (r: String)
    ensures
        r@ == "crates/"@ + krate@,
{
    let mut r = "crates/".to_owned();
    r.append(krate);
    r
}

/// The files of the first crate named `krate`, or none.
pub open spec fn tree_of(trees: Seq<CrateFiles>, krate: Seq<char>) -> Seq<TreeFile>
    decreases trees.len(),
{
    if trees.len() == 0 {
        seq![]
    } else if trees[0].krate@ == krate {
        trees[0].files@
    } else {
        tree_of(trees.drop_first(), krate)
    }
}

/// The objection to a pure layer's dependency on anything but the seam.
pub open spec fn dep_message(krate: Seq<char>, dep: Seq<char>) -> Seq<char> {
    krate + " depends on "@ + dep + "; a pure layer's only permitted dependency is "@ + SEAM@
        + ", and that closes its graph"@
}

/// The objection to a source file that names a banned path.
pub open spec fn banned_message(krate: Seq<char>, rel: Seq<char>, path: Seq<char>, why: Seq<
    char,
>) -> Seq<char> {
    krate + "/"@ + rel + " names "@ + path + ": "@ + why
}

/// The tally after a pure layer's direct dependencies, in order.
pub open spec fn pure_deps_tally(t: Tally, krate: Seq<char>, deps: Seq<DependencyView>) -> Tally
    decreases deps.len(),
{
    if deps.len() == 0 {
        t
    } else {
        let before = pure_deps_tally(t, krate, deps.drop_last());
        if deps.last().name != SEAM@ {
            before.flag(dep_message(krate, deps.last().name))
        } else {
            before
        }
    }
}

/// The tally after a source text against the banned paths, in order.
pub open spec fn banned_tally(t: Tally, krate: Seq<char>, rel: Seq<char>, text: Seq<char>, list: Seq<
    (Seq<char>, Seq<char>),
>) -> Tally
    decreases list.len(),
{
    if list.len() == 0 {
        t
    } else {
        let before = banned_tally(t, krate, rel, text, list.drop_last());
        let (path, why) = list.last();
        if source_names(text, path) {
            before.flag(banned_message(krate, rel, path, why))
        } else {
            before
        }
    }
}

/// The tally after one file of a pure layer.
pub open spec fn file_step(t: Tally, krate: Seq<char>, f: TreeFile) -> Tally {
    if extension(f.rel@) != Some("rs"@) {
        t
    } else {
        match f.text {
            None => t.check(),
            Some(x) => banned_tally(t.check(), krate, f.rel@, x@, banned()),
        }
    }
}

/// The tally after a pure layer's files, in order.
pub open spec fn files_tally(t: Tally, krate: Seq<char>, files: Seq<TreeFile>) -> Tally
    decreases files.len(),
{
    if files.len() == 0 {
        t
    } else {
        file_step(files_tally(t, krate, files.drop_last()), krate, files.last())
    }
}

/// The tally after one layer.
pub open spec fn layer_step(t: Tally, layer: LayerView, members: Seq<MemberView>, trees: Seq<
    CrateFiles,
>) -> Tally {
    if !layer.pure {
        t
    } else {
        let t1 = match find_member(members, layer.krate) {
            Some(m) => pure_deps_tally(t.check(), layer.krate, m.direct_deps),
            None => t,
        };
        files_tally(t1, layer.krate, tree_of(trees, layer.krate))
    }
}

/// The tally after the layer table, in order.
pub open spec fn layers_tally(layers: Seq<LayerView>, members: Seq<MemberView>, trees: Seq<
    CrateFiles,
>) -> Tally
    decreases layers.len(),
{
    if layers.len() == 0 {
        Tally::empty()
    } else {
        layer_step(layers_tally(layers.drop_last(), members, trees), layers.last(), members, trees)
    }
}

/// What the purity gate finds.
pub open spec fn purity_tally(members: Seq<MemberView>, trees: Seq<CrateFiles>) -> Tally {
    layers_tally(layer_table(), members, trees)
}

/// A Rust source file.
pub open spec fn rust_file(f: TreeFile) -> bool {
    extension(f.rel@) == Some("rs"@)
}

/// A file that draws no objection: not Rust source, unreadable, or
/// naming no banned path outside a comment.
pub open spec fn file_clean(f: TreeFile) -> bool {
    rust_file(f) && f.text is Some ==> forall|b: int|
        0 <= b < banned().len() ==> !source_names(f.text->0@, #[trigger] banned()[b].0)
}

/// A pure layer whose crate, when in the workspace, depends on the seam alone.
pub open spec fn deps_clean(layer: LayerView, members: Seq<MemberView>) -> bool {
    match find_member(members, layer.krate) {
        Some(m) => forall|k: int|
            0 <= k < m.direct_deps.len() ==> (#[trigger] m.direct_deps[k]).name == SEAM@,
        None => true,
    }
}

/// A layer that draws no objection.
pub open spec fn layer_clean(layer: LayerView, members: Seq<MemberView>, trees: Seq<CrateFiles>) -> bool {
    layer.pure ==> deps_clean(layer, members) && forall|i: int|
        0 <= i < tree_of(trees, layer.krate).len() ==> file_clean(
            #[trigger] tree_of(trees, layer.krate)[i],
        )
}

/// A layer in which something is examined: a pure layer whose crate is
/// in the workspace or holds Rust source.
pub open spec fn layer_examined(layer: LayerView, members: Seq<MemberView>, trees: Seq<CrateFiles>) -> bool {
    layer.pure && (find_member(members, layer.krate) is Some || exists|i: int|
        0 <= i < tree_of(trees, layer.krate).len() && rust_file(
            #[trigger] tree_of(trees, layer.krate)[i],
        ))
}

proof fn lemma_banned_tally(t: Tally, krate: Seq<char>, rel: Seq<char>, text: Seq<char>, list: Seq<
    (Seq<char>, Seq<char>),
>)
    ensures
        banned_tally(t, krate, rel, text, list).checked == t.checked,
        banned_tally(t, krate, rel, text, list).violations.len() >= t.violations.len(),
        banned_tally(t, krate, rel, text, list).violations.len() == t.violations.len() <==> forall|
            b: int,
        | 0 <= b < list.len() ==> !source_names(text, #[trigger] list[b].0),
    decreases list.len(),
{
    if list.len() > 0 {
        let init = list.drop_last();
        lemma_banned_tally(t, krate, rel, text, init);
        assert forall|b: int| 0 <= b < init.len() implies #[trigger] init[b] == list[b] by {}
        if forall|b: int| 0 <= b < list.len() ==> !source_names(text, #[trigger] list[b].0) {
            assert(!source_names(text, list[list.len() - 1].0));
            assert forall|b: int| 0 <= b < init.len() implies !source_names(
                text,
                #[trigger] init[b].0,
            ) by {
                assert(!source_names(text, list[b].0));
            }
        }
        if banned_tally(t, krate, rel, text, list).violations.len() == t.violations.len() {
            assert forall|b: int| 0 <= b < list.len() implies !source_names(
                text,
                #[trigger] list[b].0,
            ) by {
                if b < init.len() {
                    assert(!source_names(text, init[b].0));
                }
            }
        }
    }
}

proof fn lemma_files_tally(t: Tally, krate: Seq<char>, files: Seq<TreeFile>)
    ensures
        files_tally(t, krate, files).checked >= t.checked,
        files_tally(t, krate, files).checked == t.checked <==> forall|i: int|
            0 <= i < files.len() ==> !rust_file(#[trigger] files[i]),
        files_tally(t, krate, files).violations.len() >= t.violations.len(),
        files_tally(t, krate, files).violations.len() == t.violations.len() <==> forall|i: int|
            0 <= i < files.len() ==> file_clean(#[trigger] files[i]),
    decreases files.len(),
{
    if files.len() > 0 {
        let init = files.drop_last();
        let f = files.last();
        let before = files_tally(t, krate, init);
        lemma_files_tally(t, krate, init);
        match f.text {
            Some(x) => {
                lemma_banned_tally(before.check(), krate, f.rel@, x@, banned());
            },
            None => {},
        }
        assert forall|i: int| 0 <= i < init.len() implies #[trigger] init[i] == files[i] by {}
        if forall|i: int| 0 <= i < files.len() ==> !rust_file(#[trigger] files[i]) {
            assert(!rust_file(files[files.len() - 1]));
            assert forall|i: int| 0 <= i < init.len() implies !rust_file(#[trigger] init[i]) by {
                assert(!rust_file(files[i]));
            }
        }
        if files_tally(t, krate, files).checked == t.checked {
            assert forall|i: int| 0 <= i < files.len() implies !rust_file(#[trigger] files[i]) by {
                if i < init.len() {
                    assert(!rust_file(init[i]));
                }
            }
        }
        if forall|i: int| 0 <= i < files.len() ==> file_clean(#[trigger] files[i]) {
            assert(file_clean(files[files.len() - 1]));
            assert forall|i: int| 0 <= i < init.len() implies file_clean(#[trigger] init[i]) by {
                assert(file_clean(files[i]));
            }
        }
        if files_tally(t, krate, files).violations.len() == t.violations.len() {
            assert forall|i: int| 0 <= i < files.len() implies file_clean(#[trigger] files[i]) by {
                if i < init.len() {
                    assert(file_clean(init[i]));
                }
            }
        }
    }
}

proof fn lemma_pure_deps_tally(t: Tally, krate: Seq<char>, deps: Seq<DependencyView>)
    ensures
        pure_deps_tally(t, krate, deps).checked == t.checked,
        pure_deps_tally(t, krate, deps).violations.len() >= t.violations.len(),
        pure_deps_tally(t, krate, deps).violations.len() == t.violations.len() <==> forall|k: int|
            0 <= k < deps.len() ==> (#[trigger] deps[k]).name == SEAM@,
    decreases deps.len(),
{
    if deps.len() > 0 {
        let init = deps.drop_last();
        lemma_pure_deps_tally(t, krate, init);
        assert forall|k: int| 0 <= k < init.len() implies #[trigger] init[k] == deps[k] by {}
        if forall|k: int| 0 <= k < deps.len() ==> (#[trigger] deps[k]).name == SEAM@ {
            assert(deps[deps.len() - 1].name == SEAM@);
            assert forall|k: int| 0 <= k < init.len() implies (#[trigger] init[k]).name == SEAM@ by {
                assert(deps[k].name == SEAM@);
            }
        }
        if pure_deps_tally(t, krate, deps).violations.len() == t.violations.len() {
            assert forall|k: int| 0 <= k < deps.len() implies (#[trigger] deps[k]).name == SEAM@ by {
                if k < init.len() {
                    assert(init[k].name == SEAM@);
                }
            }
        }
    }
}

proof fn lemma_layer_step(t: Tally, layer: LayerView, members: Seq<MemberView>, trees: Seq<
    CrateFiles,
>)
    ensures
        layer_step(t, layer, members, trees).checked >= t.checked,
        layer_step(t, layer, members, trees).checked == t.checked <==> !layer_examined(
            layer,
            members,
            trees,
        ),
        layer_step(t, layer, members, trees).violations.len() >= t.violations.len(),
        layer_step(t, layer, members, trees).violations.len() == t.violations.len()
            <==> layer_clean(layer, members, trees),
{
    if layer.pure {
        let t1 = match find_member(members, layer.krate) {
            Some(m) => pure_deps_tally(t.check(), layer.krate, m.direct_deps),
            None => t,
        };
        match find_member(members, layer.krate) {
            Some(m) => {
                lemma_pure_deps_tally(t.check(), layer.krate, m.direct_deps);
            },
            None => {},
        }
        lemma_files_tally(t1, layer.krate, tree_of(trees, layer.krate));
    }
}

proof fn lemma_layers_tally(layers: Seq<LayerView>, members: Seq<MemberView>, trees: Seq<CrateFiles>)
    ensures
        layers_tally(layers, members, trees).checked == 0 <==> forall|i: int|
            0 <= i < layers.len() ==> !layer_examined(#[trigger] layers[i], members, trees),
        layers_tally(layers, members, trees).violations.len() == 0 <==> forall|i: int|
            0 <= i < layers.len() ==> layer_clean(#[trigger] layers[i], members, trees),
    decreases layers.len(),
{
    if layers.len() > 0 {
        let init = layers.drop_last();
        lemma_layers_tally(init, members, trees);
        lemma_layer_step(layers_tally(init, members, trees), layers.last(), members, trees);
        assert forall|i: int| 0 <= i < init.len() implies #[trigger] init[i] == layers[i] by {}
        if forall|i: int| 0 <= i < layers.len() ==> !layer_examined(#[trigger] layers[i], members, trees) {
            assert(!layer_examined(layers[layers.len() - 1], members, trees));
            assert forall|i: int| 0 <= i < init.len() implies !layer_examined(
                #[trigger] init[i],
                members,
                trees,
            ) by {
                assert(!layer_examined(layers[i], members, trees));
            }
        }
        if layers_tally(layers, members, trees).checked == 0 {
            assert forall|i: int| 0 <= i < layers.len() implies !layer_examined(
                #[trigger] layers[i],
                members,
                trees,
            ) by {
                if i < init.len() {
                    assert(!layer_examined(init[i], members, trees));
                }
            }
        }
        if forall|i: int| 0 <= i < layers.len() ==> layer_clean(#[trigger] layers[i], members, trees) {
            assert(layer_clean(layers[layers.len() - 1], members, trees));
            assert forall|i: int| 0 <= i < init.len() implies layer_clean(
                #[trigger] init[i],
                members,
                trees,
            ) by {
                assert(layer_clean(layers[i], members, trees));
            }
        }
        if layers_tally(layers, members, trees).violations.len() == 0 {
            assert forall|i: int| 0 <= i < layers.len() implies layer_clean(
                #[trigger] layers[i],
                members,
                trees,
            ) by {
                if i < init.len() {
                    assert(layer_clean(init[i], members, trees));
                }
            }
        }
    }
}

/// The purity gate passes exactly when it examined something in a pure
/// layer, every pure layer's crate depends on the seam alone, and no Rust
/// source of a pure layer names a banned path outside a comment.
pub proof fn lemma_purity_passes_iff(members: Seq<MemberView>, trees: Seq<CrateFiles>)
    ensures
        verdict_of("purity"@, purity_tally(members, trees)) is Ok <==> (exists|i: int|
            0 <= i < layer_table().len() && layer_examined(#[trigger] layer_table()[i], members, trees))
            && (forall|i: int|
            0 <= i < layer_table().len() ==> layer_clean(#[trigger] layer_table()[i], members, trees)),
{
    lemma_layers_tally(layer_table(), members, trees);
}

/// The index of the first tree of `krate`, or the number of trees.
fn tree_index(trees: &Vec<CrateFiles>, krate: &str) -> (j: usize)
    ensures
        j <= trees.len(),
        j < trees.len() ==> tree_of(trees@, krate@) == trees@[j as int].files@,
        j == trees.len() ==> tree_of(trees@, krate@) == Seq::<TreeFile>::empty(),
{
    let mut j: usize = 0;
    assert(trees@.skip(0) =~= trees@);
    while j < trees.len() && !same_text(trees[j].krate.as_str(), krate)
        invariant
            j <= trees.len(),
            tree_of(trees@, krate@) == tree_of(trees@.skip(j as int), krate@),
        decreases trees.len() - j,
    {
        assert(trees@.skip(j as int).drop_first() =~= trees@.skip(j + 1));
        j = j + 1;
    }
    if j == trees.len() {
        assert(trees@.skip(j as int) =~= Seq::<CrateFiles>::empty());
    } else {
        assert(trees@.skip(j as int)[0] == trees@[j as int]);
    }
    j
}

/// The bound on one crate's file count that keeps every count in range.
pub open spec fn within_limit(trees: Seq<CrateFiles>) -> bool {
    forall|i: int| 0 <= i < trees.len() ==> #[trigger] trees[i].files@.len() <= usize::MAX / 32
}

/// Checks that pure crates stay pure, in their sources and their manifests:
/// a pure layer depends on the seam alone, and no Rust source of it names a
/// banned path outside a comment.
///
/// `trees` holds each pure crate's files, found under `crates/<crate>`.
/// Fails when a pure crate performs I/O, reads a clock, or grows a
/// dependency, or when nothing was examined.
pub fn run(members: &Vec<Member>, trees: &Vec<CrateFiles>) -> (r: Result<String, String>)
    requires
        within_limit(trees@),
    ensures
        outcome(r) == verdict_of("purity"@, purity_tally(member_views(members@), trees@)),
{
    let ghost mv = member_views(members@);
    let table = layers();
    let list = banned_table();
    let rs = chars_of("rs");
    let mut findings = Findings::default();
    let mut i: usize = 0;
    while i < table.len()
        invariant
            i <= table.len(),
            mv == member_views(members@),
            layer_views(table@) == layer_table(),
            pairs(list@) == banned(),
            rs@ == "rs"@,
            within_limit(trees@),
            findings@ == layers_tally(layer_table().take(i as int), mv, trees@),
            findings@.checked <= i * (usize::MAX / 16),
            table.len() == 10,
        decreases table.len() - i,
    {
        assert(layer_table().take(i + 1).drop_last() =~= layer_table().take(i as int));
        let layer = &table[i];
        assert(layer_table().take(i + 1).last() == layer@);
        let ghost before = findings@;
        assert(i * (usize::MAX / 16) <= 9 * (usize::MAX / 16)) by (nonlinear_arith)
            requires
                i <= 9,
        ;
        if layer.pure {
            let j = member_index(members, layer.krate);
            if j < members.len() {
                let member = &members[j];
                assert(mv[j as int] == member@);
                findings.checked();
                let ghost start = findings@;
                let ghost dv = member@.direct_deps;
                let mut k: usize = 0;
                while k < member.direct_deps.len()
                    invariant
                        k <= member.direct_deps.len(),
                        dv == member@.direct_deps,
                        findings@ == pure_deps_tally(start, layer@.krate, dv.take(k as int)),
                        findings@.checked == start.checked,
                    decreases member.direct_deps.len() - k,
                {
                    assert(dv.take(k + 1).drop_last() =~= dv.take(k as int));
                    let dep = &member.direct_deps[k];
                    assert(dv.take(k + 1).last() == dep@);
                    if !same_text(dep.name.as_str(), SEAM) {
                        let mut m = layer.krate.to_owned();
                        m.append(" depends on ");
                        m.append(dep.name.as_str());
                        m.append("; a pure layer's only permitted dependency is ");
                        m.append(SEAM);
                        m.append(", and that closes its graph");
                        findings.violation(m);
                    }
                    k = k + 1;
                }
                assert(dv.take(dv.len() as int) =~= dv);
            }
            let t = tree_index(trees, layer.krate);
            if t < trees.len() {
                let files = &trees[t].files;
                let ghost fs = files@;
                assert(files@.len() <= usize::MAX / 32);
                let ghost start = findings@;
                let mut n: usize = 0;
                while n < files.len()
                    invariant
                        n <= files.len(),
                        fs == files@,
                        files@.len() <= usize::MAX / 32,
                        pairs(list@) == banned(),
                        rs@ == "rs"@,
                        findings@ == files_tally(start, layer@.krate, fs.take(n as int)),
                        findings@.checked <= start.checked + n,
                        start.checked <= 9 * (usize::MAX / 16) + 1,
                        findings@.checked <= before.checked + 1 + n,
                        before.checked <= i * (usize::MAX / 16),
                    decreases files.len() - n,
                {
                    assert(fs.take(n + 1).drop_last() =~= fs.take(n as int));
                    let f = &files[n];
                    assert(fs.take(n + 1).last() == *f);
                    let rel = chars_of(f.rel.as_str());
                    let is_rs = match extension_range(&rel) {
                        Some((lo, hi)) => eq_range(&rel, lo, hi, &rs),
                        None => false,
                    };
                    if is_rs {
                        findings.checked();
                        match &f.text {
                            None => {},
                            Some(text) => {
                                let tc = chars_of(text.as_str());
                                let ghost mid = findings@;
                                let mut b: usize = 0;
                                while b < list.len()
                                    invariant
                                        b <= list.len(),
                                        pairs(list@) == banned(),
                                        tc@ == text@,
                                        findings@ == banned_tally(
                                            mid,
                                            layer@.krate,
                                            f.rel@,
                                            text@,
                                            banned().take(b as int),
                                        ),
                                        findings@.checked == mid.checked,
                                    decreases list.len() - b,
                                {
                                    assert(banned().take(b + 1).drop_last() =~= banned().take(
                                        b as int,
                                    ));
                                    let (path, why) = list[b];
                                    assert(banned().take(b + 1).last() == (path@, why@));
                                    if names_chars(&tc, &chars_of(path)) {
                                        let mut m = layer.krate.to_owned();
                                        m.append("/");
                                        m.append(f.rel.as_str());
                                        m.append(" names ");
                                        m.append(path);
                                        m.append(": ");
                                        m.append(why);
                                        findings.violation(m);
                                    }
                                    b = b + 1;
                                }
                                assert(banned().take(list.len() as int) =~= banned());
                            },
                        }
                    }
                    n = n + 1;
                }
                assert(fs.take(fs.len() as int) =~= fs);
            } else {
                assert(files_tally(findings@, layer@.krate, Seq::<TreeFile>::empty()) == findings@);
            }
        }
        assert(i * (usize::MAX / 16) + usize::MAX / 16 == (i + 1) * (usize::MAX / 16))
            by (nonlinear_arith);
        i = i + 1;
    }
    assert(layer_table().take(table.len() as int) =~= layer_table());
    findings.verdict("purity")
}

} // verus!
