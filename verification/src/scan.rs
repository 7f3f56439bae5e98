//! What a gate saw, what it objected to, and the verdict it reaches; and the
//! rules for walking a tree.

use vstd::prelude::*;
use crate::path::{skip_dirs, skip_dirs_spec, has_str};
use crate::text::{decimal, join, to_decimal, join_with, chars_of, contains, contains_in, starts_with,
    starts_with_in};

verus! {

/// The abstract state of a [`Findings`]: how many items were examined, and the
/// objections in the order they were raised.
pub struct Tally {
    pub checked: nat,
    pub violations: Seq<Seq<char>>,
}

impl Tally {
    /// Nothing examined, nothing found.
    pub open spec fn empty() -> Tally {
        Tally { checked: 0, violations: seq![] }
    }

    /// One more item examined.
    pub open spec fn check(self) -> Tally {
        Tally { checked: self.checked + 1, violations: self.violations }
    }

    /// One more objection.
    pub open spec fn flag(self, message: Seq<char>) -> Tally {
        Tally { checked: self.checked, violations: self.violations.push(message) }
    }
}

/// A call that records something on a [`Findings`]: `checked()`, or
/// `violation` with its message.
pub enum Record {
    Check,
    Flag(Seq<char>),
}

/// The tally reached from `t` by the records in order.
pub open spec fn after(t: Tally, records: Seq<Record>) -> Tally
    decreases records.len(),
{
    if records.len() == 0 {
        t
    } else {
        match records.last() {
            Record::Check => after(t, records.drop_last()).check(),
            Record::Flag(m) => after(t, records.drop_last()).flag(m),
        }
    }
}

/// How many of the records are `checked()` calls.
pub open spec fn checks_in(records: Seq<Record>) -> nat
    decreases records.len(),
{
    if records.len() == 0 {
        0
    } else {
        checks_in(records.drop_last()) + if records.last() is Check {
            1nat
        } else {
            0nat
        }
    }
}

/// The messages of the `violation` calls among the records, in order.
pub open spec fn flags_in(records: Seq<Record>) -> Seq<Seq<char>>
    decreases records.len(),
{
    if records.len() == 0 {
        seq![]
    } else {
        match records.last() {
            Record::Check => flags_in(records.drop_last()),
            Record::Flag(m) => flags_in(records.drop_last()).push(m),
        }
    }
}

/// Whatever the order of the calls, a [`Findings`] counts exactly the
/// `checked()` calls made on it and keeps exactly the messages of the
/// `violation` calls, in the order they were made: from a fresh one
/// (`Findings::default()`), `count()` is the number of `checked()` calls.
pub proof fn lemma_count_is_checks(records: Seq<Record>)
    ensures
        after(Tally::empty(), records).checked == checks_in(records),
        after(Tally::empty(), records).violations == flags_in(records),
    decreases records.len(),
{
    if records.len() > 0 {
        lemma_count_is_checks(records.drop_last());
    }
}

/// The verdict a gate named `gate` reaches on what it found: it fails when it
/// examined nothing, passes when it found nothing, and otherwise lists every
/// objection.
pub open spec fn verdict_of(gate: Seq<char>, t: Tally) -> Result<Seq<char>, Seq<char>> {
    if t.checked == 0 {
        Err(gate + ": examined nothing, so this gate is checking nothing"@)
    } else if t.violations.len() == 0 {
        Ok(gate + ": "@ + decimal(t.checked) + " items, clean"@)
    } else {
        Err(gate + ": "@ + decimal(t.violations.len()) + " of "@ + decimal(t.checked)
            + " items failed\n  "@ + join(t.violations, "\n  "@))
    }
}

/// A gate passes exactly when it examined something and objected to nothing:
/// a gate that examined nothing has not passed, it has failed to run.
pub proof fn lemma_verdict_passes_iff_clean(gate: Seq<char>, t: Tally)
    ensures
        verdict_of(gate, t) is Ok <==> (t.checked > 0 && t.violations.len() == 0),
        t.checked == 0 ==> verdict_of(gate, t) == Err::<Seq<char>, Seq<char>>(
            gate + ": examined nothing, so this gate is checking nothing"@,
        ),
{
}

/// A gate's outcome, taken by the views of its messages.
pub open spec fn outcome(r: Result<String, String>) -> Result<Seq<char>, Seq<char>> {
    match r {
        Ok(s) => Ok(s@),
        Err(e) => Err(e@),
    }
}

/// A file of the tree a gate walks: its path relative to the tree's root, with
/// `/` between components, and its text, or nothing when it could not be read
/// as UTF-8.
pub struct TreeFile {
    pub rel: String,
    pub text: Option<String>,
}

/// What a gate saw and what it objected to.
///
/// The count matters as much as the objections: a gate that examined nothing
/// has not passed, it has failed to run.
#[derive(Debug)]
pub struct Findings {
    checked: usize,
    violations: Vec<String>,
}

impl View for Findings {
    type V = Tally;

    closed spec fn view(&self) -> Tally {
        Tally { checked: self.checked as nat, violations: self.violations@.map_values(|v: String| v@) }
    }
}

impl Default for Findings {
    fn default() -> (r: Findings)
        ensures
            r@ == Tally::empty(),
    {
        let r = Findings { checked: 0, violations: Vec::new() };
        assert(r@.violations =~= Seq::<Seq<char>>::empty());
        r
    }
}

impl Findings {
    /// Records that one more item was examined.
    pub fn checked(&mut self)
        requires
            old(self)@.checked < usize::MAX,
        ensures
            final(self)@ == old(self)@.check(),
    {
        self.checked = self.checked + 1;
        assert(final(self)@.violations =~= old(self)@.violations);
    }

    /// Records an objection.
    pub fn violation(&mut self, message: String)
        ensures
            final(self)@ == old(self)@.flag(message@),
    {
        self.violations.push(message);
        assert(final(self)@.violations =~= old(self)@.violations.push(message@));
    }

    /// How many items this gate examined.
    pub fn count(&self) -> (n: usize)
        ensures
            n == self@.checked,
    {
        self.checked
    }

    /// Turns findings into a verdict, failing an empty scan.
    pub fn verdict(self, gate: &str) -> (r: Result<String, String>)
        ensures
            outcome(r) == verdict_of(gate@, self@),
    {
        let ghost t = self@;
        let mut out = gate.to_owned();
        if self.checked == 0 {
            out.append(": examined nothing, so this gate is checking nothing");
            return Err(out);
        }
        if self.violations.len() == 0 {
            out.append(": ");
            out.append(to_decimal(self.checked).as_str());
            out.append(" items, clean");
            return Ok(out);
        }
        out.append(": ");
        out.append(to_decimal(self.violations.len()).as_str());
        out.append(" of ");
        out.append(to_decimal(self.checked).as_str());
        out.append(" items failed\n  ");
        out.append(join_with(&self.violations, "\n  ").as_str());
        Err(out)
    }
}

/// Character order on paths: the separator sorts before every other
/// character, so that paths compare component by component.
pub open spec fn char_before(a: char, b: char) -> bool {
    if a == '/' {
        b != '/'
    } else if b == '/' {
        false
    } else {
        a < b
    }
}

/// Path order: component by component, each compared character by character
/// (as `PathBuf`'s order does on paths without empty components).
pub open spec fn path_le(a: Seq<char>, b: Seq<char>) -> bool
    decreases a.len(),
{
    if a.len() == 0 {
        true
    } else if b.len() == 0 {
        false
    } else if a[0] != b[0] {
        char_before(a[0], b[0])
    } else {
        path_le(a.drop_first(), b.drop_first())
    }
}

/// Every path is no later than every path after it.
pub open spec fn sorted_paths(s: Seq<Seq<char>>) -> bool {
    forall|i: int, j: int| 0 <= i < j < s.len() ==> path_le(#[trigger] s[i], #[trigger] s[j])
}

/// Any two paths are ordered one way or the other.
pub proof fn lemma_path_le_total(a: Seq<char>, b: Seq<char>)
    ensures
        path_le(a, b) || path_le(b, a),
    decreases a.len(),
{
    if a.len() > 0 && b.len() > 0 && a[0] == b[0] {
        lemma_path_le_total(a.drop_first(), b.drop_first());
    }
}

/// Path order is transitive.
pub proof fn lemma_path_le_trans(a: Seq<char>, b: Seq<char>, c: Seq<char>)
    requires
        path_le(a, b),
        path_le(b, c),
    ensures
        path_le(a, c),
    decreases a.len(),
{
    if a.len() > 0 && b.len() > 0 && c.len() > 0 && a[0] == b[0] && b[0] == c[0] {
        lemma_path_le_trans(a.drop_first(), b.drop_first(), c.drop_first());
    }
}

/// Whether `a` comes no later than `b` in path order.
fn path_le_chars(a: &Vec<char>, b: &Vec<char>) -> (r: bool)
    ensures
        r == path_le(a@, b@),
{
    let mut i: usize = 0;
    assert(a@.skip(0) =~= a@);
    assert(b@.skip(0) =~= b@);
    loop
        invariant
            i <= a.len(),
            i <= b.len(),
            path_le(a@, b@) == path_le(a@.skip(i as int), b@.skip(i as int)),
        decreases a.len() - i,
    {
        if i == a.len() {
            return true;
        }
        if i == b.len() {
            return false;
        }
        let x = a[i];
        let y = b[i];
        assert(a@.skip(i as int)[0] == x && b@.skip(i as int)[0] == y);
        if x != y {
            if x == '/' {
                return true;
            }
            if y == '/' {
                return false;
            }
            return x < y;
        }
        assert(a@.skip(i as int).drop_first() =~= a@.skip(i + 1));
        assert(b@.skip(i as int).drop_first() =~= b@.skip(i + 1));
        i = i + 1;
    }
}

/// A list of paths, taken by their text.
pub open spec fn path_views(v: Seq<String>) -> Seq<Seq<char>> {
    v.map_values(|s: String| s@)
}

/// Inserting at an index adds one to the count of what was inserted.
proof fn lemma_insert_multiset<A>(s: Seq<A>, i: int, x: A)
    requires
        0 <= i <= s.len(),
    ensures
        s.insert(i, x).to_multiset() =~= s.to_multiset().insert(x),
{
    broadcast use vstd::seq_lib::group_to_multiset_ensures;

    let t = s.insert(i, x);
    assert(t.remove(i) =~= s);
    assert(t[i] == x);
    assert(t.contains(x));
}

/// Every file found, in path order, so that a failure report reads the same
/// on every machine.
///
/// `found` holds paths relative to the tree's root, with `/` between
/// components, in whatever order the walk met them.
pub fn files(found: Vec<String>) -> (r: Vec<String>)
    ensures
        r@.to_multiset() == found@.to_multiset(),
        path_views(r@).to_multiset() == path_views(found@).to_multiset(),
        sorted_paths(path_views(r@)),
{
    broadcast use vstd::seq_lib::group_to_multiset_ensures;

    let ghost all = found@;
    let mut rest = found;
    let mut out: Vec<String> = Vec::new();
    let mut keys: Vec<Vec<char>> = Vec::new();
    while rest.len() > 0
        invariant
            all.to_multiset() == rest@.to_multiset().add(out@.to_multiset()),
            path_views(all).to_multiset() == path_views(rest@).to_multiset().add(
                path_views(out@).to_multiset(),
            ),
            keys.len() == out.len(),
            forall|k: int| 0 <= k < out.len() ==> #[trigger] keys@[k]@ == out@[k]@,
            sorted_paths(path_views(out@)),
        decreases rest.len(),
    {
        let ghost before = rest@;
        let s = rest.pop().unwrap();
        assert(before =~= rest@.push(s));
        let key = chars_of(s.as_str());
        let mut j: usize = 0;
        while j < keys.len() && path_le_chars(&keys[j], &key)
            invariant
                j <= keys.len(),
                keys.len() == out.len(),
                key@ == s@,
                forall|k: int| 0 <= k < out.len() ==> #[trigger] keys@[k]@ == out@[k]@,
                forall|k: int| 0 <= k < j ==> path_le(#[trigger] out@[k]@, s@),
            decreases keys.len() - j,
        {
            j = j + 1;
        }
        proof {
            let v = path_views(out@);
            if j < out.len() {
                lemma_path_le_total(v[j as int], s@);
                assert forall|k: int| j <= k < out.len() implies path_le(s@, #[trigger] v[k]) by {
                    if k > j {
                        lemma_path_le_trans(s@, v[j as int], v[k]);
                    }
                }
            }
            let w = path_views(out@.insert(j as int, s));
            assert(w =~= v.insert(j as int, s@));
            assert forall|p: int, q: int| 0 <= p < q < w.len() implies path_le(
                #[trigger] w[p],
                #[trigger] w[q],
            ) by {
                if q < j {
                    assert(w[p] == v[p] && w[q] == v[q]);
                } else if p < j && q == j {
                } else if p < j && q > j {
                    assert(w[p] == v[p] && w[q] == v[q - 1]);
                } else if p == j {
                    assert(w[q] == v[q - 1]);
                } else {
                    assert(w[p] == v[p - 1] && w[q] == v[q - 1]);
                }
            }
            lemma_insert_multiset(out@, j as int, s);
            rest@.to_multiset_ensures();
            assert(rest@.push(s).to_multiset() =~= rest@.to_multiset().insert(s));
            assert(all.to_multiset() =~= rest@.to_multiset().add(out@.insert(j as int, s).to_multiset()));
            lemma_insert_multiset(v, j as int, s@);
            let rv = path_views(rest@);
            assert(path_views(before) =~= rv.push(s@));
            rv.to_multiset_ensures();
            assert(rv.push(s@).to_multiset() =~= rv.to_multiset().insert(s@));
            assert(path_views(all).to_multiset() =~= rv.to_multiset().add(w.to_multiset()));
        }
        out.insert(j, s);
        keys.insert(j, key);
    }
    assert(rest@.to_multiset() =~= vstd::multiset::Multiset::empty());
    assert(path_views(rest@).to_multiset() =~= vstd::multiset::Multiset::empty());
    out
}

/// Every path is ordered before itself.
pub proof fn lemma_path_le_refl(a: Seq<char>)
    ensures
        path_le(a, a),
    decreases a.len(),
{
    if a.len() > 0 {
        lemma_path_le_refl(a.drop_first());
    }
}

/// Path order is antisymmetric: paths ordered both ways are the same path.
pub proof fn lemma_path_le_antisym(a: Seq<char>, b: Seq<char>)
    requires
        path_le(a, b),
        path_le(b, a),
    ensures
        a == b,
    decreases a.len(),
{
    if a.len() > 0 && b.len() > 0 {
        lemma_path_le_antisym(a.drop_first(), b.drop_first());
        assert(a =~= seq![a[0]] + a.drop_first());
        assert(b =~= seq![b[0]] + b.drop_first());
    } else {
        assert(a.len() == 0 && b.len() == 0);
        assert(a =~= b);
    }
}

/// A walk reads the same on every machine: two lists of the same paths, each
/// in path order, are the same list, whatever order the paths were met in.
pub proof fn lemma_sorted_paths_unique(a: Seq<Seq<char>>, b: Seq<Seq<char>>)
    requires
        sorted_paths(a),
        sorted_paths(b),
        a.to_multiset() == b.to_multiset(),
    ensures
        a == b,
    decreases a.len(),
{
    broadcast use vstd::seq_lib::group_to_multiset_ensures;

    a.to_multiset_ensures();
    b.to_multiset_ensures();
    if a.len() == 0 {
        assert(b.len() == 0);
        assert(a =~= b);
    } else {
        assert(b.len() == a.len());
        assert(a.to_multiset().count(a[0]) > 0) by {
            assert(a.contains(a[0]));
        }
        assert(b.contains(a[0]));
        let j = choose|j: int| 0 <= j < b.len() && b[j] == a[0];
        assert(b.to_multiset().count(b[0]) > 0) by {
            assert(b.contains(b[0]));
        }
        assert(a.contains(b[0]));
        let k = choose|k: int| 0 <= k < a.len() && a[k] == b[0];
        if j > 0 {
            assert(path_le(b[0], b[j]));
        } else {
            lemma_path_le_refl(b[0]);
        }
        if k > 0 {
            assert(path_le(a[0], a[k]));
        } else {
            lemma_path_le_refl(a[0]);
        }
        lemma_path_le_antisym(a[0], b[0]);
        assert(a.remove(0) =~= a.drop_first());
        assert(b.remove(0) =~= b.drop_first());
        assert(a.drop_first().to_multiset() =~= b.drop_first().to_multiset());
        assert(sorted_paths(a.drop_first())) by {
            assert forall|p: int, q: int| 0 <= p < q < a.drop_first().len() implies path_le(
                #[trigger] a.drop_first()[p],
                #[trigger] a.drop_first()[q],
            ) by {
                assert(path_le(a[p + 1], a[q + 1]));
            }
        }
        assert(sorted_paths(b.drop_first())) by {
            assert forall|p: int, q: int| 0 <= p < q < b.drop_first().len() implies path_le(
                #[trigger] b.drop_first()[p],
                #[trigger] b.drop_first()[q],
            ) by {
                assert(path_le(b[p + 1], b[q + 1]));
            }
        }
        lemma_sorted_paths_unique(a.drop_first(), b.drop_first());
        assert(a =~= b) by {
            assert forall|i: int| 0 <= i < a.len() implies a[i] == b[i] by {
                if i > 0 {
                    assert(a[i] == a.drop_first()[i - 1]);
                    assert(b[i] == b.drop_first()[i - 1]);
                }
            }
        }
    }
}

/// Whether a walk skips a directory of this name: machinery rather than
/// source, or one of Bazel's output links.
///
/// Whole names, never bare prefixes: a prefix test for `.git` would swallow
/// `.github` and quietly stop checking CI.
pub fn is_skipped_dir(name: &str) -> (r: bool)
    ensures
        r == (skip_dirs_spec().contains(name@) || starts_with(name@, "bazel-"@)),
{
    if has_str(&skip_dirs(), name) {
        return true;
    }
    let n = chars_of(name);
    assert(n@.subrange(0, n@.len() as int) =~= n@);
    starts_with_in(&n, 0, n.len(), &chars_of("bazel-"))
}

/// Whether a manifest's text declares a workspace.
pub fn declares_workspace(manifest: &str) -> (r: bool)
    ensures
        r == contains(manifest@, "[workspace]"@),
{
    let n = chars_of(manifest);
    assert(n@.subrange(0, n@.len() as int) =~= n@);
    contains_in(&n, 0, n.len(), &chars_of("[workspace]"))
}

} // verus!
