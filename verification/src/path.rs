//! Relative paths as the gates see them: text with `/` between components.
//!
//! The spec functions say what std's `Path::file_name` and `Path::extension`
//! return for such a path: empty components and `.` are skipped, a final `..`
//! has no file name, and a name whose only dot leads it has no extension.

use vstd::prelude::*;
use crate::text::{same_text, split, eq_range, find_char, chars_of, lemma_index_of};

verus! {

/// A list of string constants, taken by their characters.
pub open spec fn strs(list: Seq<&'static str>) -> Seq<Seq<char>> {
    list.map_values(|x: &'static str| x@)
}

/// A component that names something: not empty and not `.`.
pub open spec fn is_named(p: Seq<char>) -> bool {
    p.len() > 0 && p != "."@
}

/// The last piece that names something.
pub open spec fn last_named(ps: Seq<Seq<char>>) -> Option<Seq<char>>
    decreases ps.len(),
{
    if ps.len() == 0 {
        None
    } else {
        match last_named(ps.drop_first()) {
            Some(x) => Some(x),
            None => if is_named(ps[0]) {
                Some(ps[0])
            } else {
                None
            },
        }
    }
}

/// `Path::file_name`: the last component, unless it is `..`.
pub open spec fn file_name(path: Seq<char>) -> Option<Seq<char>> {
    match last_named(split(path, '/')) {
        Some(p) => if p == ".."@ {
            None
        } else {
            Some(p)
        },
        None => None,
    }
}

/// Index of the last `c` in `s`, or -1.
pub open spec fn rindex_of(s: Seq<char>, c: char) -> int
    decreases s.len(),
{
    if s.len() == 0 {
        -1
    } else if s.last() == c {
        s.len() - 1
    } else {
        rindex_of(s.drop_last(), c)
    }
}

/// `Path::extension`: what follows the last dot of the file name, when that
/// dot is not its first character.
pub open spec fn extension(path: Seq<char>) -> Option<Seq<char>> {
    match file_name(path) {
        Some(n) => {
            let k = rindex_of(n, '.');
            if k <= 0 {
                None
            } else {
                Some(n.skip(k + 1))
            }
        },
        None => None,
    }
}

/// The later of two answers, as `last_named` combines them.
pub open spec fn later(a: Option<Seq<char>>, b: Option<Seq<char>>) -> Option<Seq<char>> {
    match b {
        Some(x) => Some(x),
        None => a,
    }
}

/// A range of `s`, taken by what it holds.
pub open spec fn range_of(s: Seq<char>, r: Option<(usize, usize)>) -> Option<Seq<char>> {
    match r {
        Some((lo, hi)) => Some(s.subrange(lo as int, hi as int)),
        None => None,
    }
}

/// `split` at the first separator at or after `start`.
pub proof fn lemma_split_step(s: Seq<char>, start: int, k: int)
    requires
        0 <= start <= k <= s.len(),
        forall|j: int| start <= j < k ==> s[j] != '/',
        k < s.len() ==> s[k] == '/',
    ensures
        k == s.len() ==> split(s.skip(start), '/') == seq![s.subrange(start, k)],
        k < s.len() ==> split(s.skip(start), '/') == seq![s.subrange(start, k)] + split(
            s.skip(k + 1),
            '/',
        ),
{
    let t = s.skip(start);
    lemma_index_of(t, '/', k - start);
    if k == s.len() {
        assert(t =~= s.subrange(start, k));
    } else {
        assert(t.take(k - start) =~= s.subrange(start, k));
        assert(t.skip(k - start + 1) =~= s.skip(k + 1));
    }
}

/// The range of the last component of `s` that names something.
fn last_named_range(s: &Vec<char>) -> (r: Option<(usize, usize)>)
    ensures
        range_of(s@, r) == last_named(split(s@, '/')),
        r matches Some((lo, hi)) ==> lo <= hi <= s.len(),
{
    proof {
        reveal_strlit(".");
    }
    let mut acc: Option<(usize, usize)> = None;
    let mut start: usize = 0;
    assert(s@.skip(0) =~= s@);
    loop
        invariant
            start <= s.len(),
            acc matches Some((lo, hi)) ==> lo <= hi <= s.len(),
            later(range_of(s@, acc), last_named(split(s@.skip(start as int), '/'))) == last_named(
                split(s@, '/'),
            ),
        decreases s.len() - start,
    {
        let k = find_char(s, start, '/');
        proof {
            lemma_split_step(s@, start as int, k as int);
        }
        let ghost piece = s@.subrange(start as int, k as int);
        let named = k > start && !(k == start + 1 && s[start] == '.');
        assert(named == is_named(piece)) by {
            reveal_strlit(".");
            assert("."@ =~= seq!['.']);
            if k == start + 1 {
                assert(piece =~= seq![s@[start as int]]);
            }
            if piece == "."@ {
                assert(piece.len() == 1 && piece[0] == '.');
            }
        }
        let ghost rest = if k < s.len() {
            split(s@.skip(k + 1), '/')
        } else {
            seq![]
        };
        assert((seq![piece] + rest).drop_first() =~= rest);
        assert(seq![piece] + rest =~= split(s@.skip(start as int), '/'));
        if named {
            acc = Some((start, k));
        }
        if k == s.len() {
            assert(last_named(rest) is None);
            return acc;
        }
        start = k + 1;
    }
}

/// The range of `Path::file_name` within `s`.
pub fn file_name_range(s: &Vec<char>) -> (r: Option<(usize, usize)>)
    ensures
        range_of(s@, r) == file_name(s@),
        r matches Some((lo, hi)) ==> lo <= hi <= s.len(),
{
    proof {
        reveal_strlit("..");
    }
    match last_named_range(s) {
        Some((lo, hi)) => {
            if hi - lo == 2 && s[lo] == '.' && s[lo + 1] == '.' {
                assert(s@.subrange(lo as int, hi as int) =~= ".."@);
                None
            } else {
                assert(s@.subrange(lo as int, hi as int) != ".."@ ) by {
                    if s@.subrange(lo as int, hi as int) == ".."@ {
                        assert(s@.subrange(lo as int, hi as int)[0] == '.');
                        assert(s@.subrange(lo as int, hi as int)[1] == '.');
                    }
                }
                Some((lo, hi))
            }
        },
        None => None,
    }
}

/// The range of `Path::extension` within `s`.
pub fn extension_range(s: &Vec<char>) -> (r: Option<(usize, usize)>)
    ensures
        range_of(s@, r) == extension(s@),
        r matches Some((lo, hi)) ==> lo <= hi <= s.len(),
{
    match file_name_range(s) {
        Some((lo, hi)) => {
            let ghost n = s@.subrange(lo as int, hi as int);
            let mut k = hi;
            assert(n.take(hi - lo) =~= n);
            while k > lo && s[k - 1] != '.'
                invariant
                    lo <= k <= hi <= s.len(),
                    n == s@.subrange(lo as int, hi as int),
                    rindex_of(n, '.') == rindex_of(n.take(k - lo), '.'),
                decreases k - lo,
            {
                assert(n.take(k - lo).drop_last() =~= n.take(k - lo - 1));
                k = k - 1;
            }
            // `k` is one past the last dot, or `lo` when there is none
            if k > lo {
                assert(n.take(k - lo).last() == '.');
            } else {
                assert(n.take(0) =~= Seq::<char>::empty());
            }
            if k - lo <= 1 {
                None
            } else {
                assert(n.skip(k - lo) =~= s@.subrange(k as int, hi as int));
                Some((k, hi))
            }
        },
        None => None,
    }
}

/// Whether `s[lo..hi]` is one of `list`.
pub fn in_list(s: &Vec<char>, lo: usize, hi: usize, list: &Vec<&'static str>) -> (r: bool)
    requires
        lo <= hi <= s.len(),
    ensures
        r == strs(list@).contains(s@.subrange(lo as int, hi as int)),
{
    let ghost x = s@.subrange(lo as int, hi as int);
    let mut i: usize = 0;
    while i < list.len()
        invariant
            i <= list.len(),
            x == s@.subrange(lo as int, hi as int),
            lo <= hi <= s.len(),
            forall|j: int| 0 <= j < i ==> strs(list@)[j] != x,
        decreases list.len() - i,
    {
        let item = chars_of(list[i]);
        if eq_range(s, lo, hi, &item) {
            assert(strs(list@)[i as int] == x);
            return true;
        }
        i = i + 1;
    }
    false
}

/// Whether `s` is one of `list`.
pub fn has_str(list: &Vec<&'static str>, s: &str) -> (r: bool)
    ensures
        r == strs(list@).contains(s@),
{
    let mut i: usize = 0;
    while i < list.len()
        invariant
            i <= list.len(),
            forall|j: int| 0 <= j < i ==> strs(list@)[j] != s@,
        decreases list.len() - i,
    {
        if same_text(list[i], s) {
            assert(strs(list@)[i as int] == s@);
            return true;
        }
        i = i + 1;
    }
    false
}

/// Whether some piece is one of `list`.
pub open spec fn any_in(ps: Seq<Seq<char>>, list: Seq<Seq<char>>) -> bool
    decreases ps.len(),
{
    ps.len() > 0 && (list.contains(ps[0]) || any_in(ps.drop_first(), list))
}

/// Whether some `/`-separated piece of `s` is one of `list`.
pub fn any_piece_in(s: &Vec<char>, list: &Vec<&'static str>) -> (r: bool)
    ensures
        r == any_in(split(s@, '/'), strs(list@)),
{
    let mut start: usize = 0;
    assert(s@.skip(0) =~= s@);
    loop
        invariant
            start <= s.len(),
            any_in(split(s@.skip(start as int), '/'), strs(list@)) == any_in(
                split(s@, '/'),
                strs(list@),
            ),
        decreases s.len() - start,
    {
        let k = find_char(s, start, '/');
        proof {
            lemma_split_step(s@, start as int, k as int);
        }
        let ghost piece = s@.subrange(start as int, k as int);
        let ghost rest = if k < s.len() {
            split(s@.skip(k + 1), '/')
        } else {
            seq![]
        };
        assert((seq![piece] + rest).drop_first() =~= rest);
        assert(seq![piece] + rest =~= split(s@.skip(start as int), '/'));
        if in_list(s, start, k, list) {
            return true;
        }
        if k == s.len() {
            assert(!any_in(rest, strs(list@)));
            return false;
        }
        start = k + 1;
    }
}

/// Directories no gate ever descends into.
///
/// `generated` is here because generated output is rewritten wholesale: it
/// carries no licence notice of ours and its line count is not a design
/// decision. Everything else is machinery rather than source.
pub open spec fn skip_dirs_spec() -> Seq<Seq<char>> {
    seq!["target"@, ".git"@, "generated"@, "node_modules"@]
}

/// [`skip_dirs_spec`], as constants.
pub fn skip_dirs() -> (r: Vec<&'static str>)
    ensures
        strs(r@) == skip_dirs_spec(),
{
    let r = vec!["target", ".git", "generated", "node_modules"];
    assert(strs(r@) =~= skip_dirs_spec());
    r
}

} // verus!
