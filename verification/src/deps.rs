//! What may never enter the dependency graph.

use vstd::prelude::*;
use crate::metadata::{
    Member, MemberView, DependencyView, Resolved, ResolvedView, member_views, resolved_views,
};
use crate::path::{strs, has_str};
use crate::scan::{Findings, Tally, outcome, verdict_of};
use crate::text::{chars_of, starts_with, starts_with_in, same_text};

verus! {

/// The crate permitted to name an OpenTelemetry type.
pub const OTEL_ADAPTER: &'static str = "regalium-bacnet-telemetry-otel";

/// `links` values that mark a version, not a native library.
///
/// The `links` key exists to let cargo refuse two crates claiming the same
/// native library. A few crates borrow it for an unrelated purpose -- one
/// copy of me per build -- and link no C at all. Each entry here is a crate
/// that was checked by hand; add one only after reading its build script.
pub open spec fn link_markers() -> Seq<Seq<char>> {
    seq!["wasm_bindgen"@]
}

/// Dependency name prefixes nobody but [`OTEL_ADAPTER`] may declare.
///
/// Two things deciding how a span is made is how instrumentation rots.
pub open spec fn otel_prefixes() -> Seq<Seq<char>> {
    seq!["opentelemetry"@, "tracing-opentelemetry"@]
}

fn link_markers_list() -> (r: Vec<&'static str>)
    ensures
        strs(r@) == link_markers(),
{
    let r = vec!["wasm_bindgen"];
    assert(strs(r@) =~= link_markers());
    r
}

fn otel_prefixes_list() -> (r: Vec<&'static str>)
    ensures
        strs(r@) == otel_prefixes(),
{
    let r = vec!["opentelemetry", "tracing-opentelemetry"];
    assert(strs(r@) =~= otel_prefixes());
    r
}

/// A dependency name that starts with an OpenTelemetry prefix.
pub open spec fn otel_name(name: Seq<char>) -> bool {
    exists|i: int| 0 <= i < otel_prefixes().len() && starts_with(name, #[trigger] otel_prefixes()[i])
}

/// Whether a dependency name is an OpenTelemetry crate.
pub fn is_otel(name: &str) -> (r: bool)
    ensures
        r == otel_name(name@),
{
    let n = chars_of(name);
    let prefixes = otel_prefixes_list();
    let mut i: usize = 0;
    while i < prefixes.len()
        invariant
            i <= prefixes.len(),
            n@ == name@,
            strs(prefixes@) == otel_prefixes(),
            forall|j: int| 0 <= j < i ==> !starts_with(name@, #[trigger] otel_prefixes()[j]),
        decreases prefixes.len() - i,
    {
        assert(n@.subrange(0, n@.len() as int) =~= n@);
        if starts_with_in(&n, 0, n.len(), &chars_of(prefixes[i])) {
            assert(starts_with(name@, otel_prefixes()[i as int]));
            return true;
        }
        i = i + 1;
    }
    false
}

/// The objection to an OpenTelemetry dependency outside the adapter.
pub open spec fn otel_message(member: Seq<char>, dep: Seq<char>) -> Seq<char> {
    member + " depends on "@ + dep + "; only "@ + OTEL_ADAPTER@
        + " may, and every other layer records through the telemetry seam instead"@
}

/// The objection to a build dependency on `cc`.
pub open spec fn cc_build_message(member: Seq<char>, dep: Seq<char>) -> Seq<char> {
    member + " depends on "@ + dep
        + ", which compiles C. These panels are ARM, and what keeps `--target armv7-unknown-linux-gnueabihf` a one-flag build is that nothing in the graph needs a C toolchain"@
}

/// The objection to a crate that links a native library.
pub open spec fn links_message(krate: Seq<char>, library: Seq<char>) -> Seq<char> {
    krate + " is in the resolved graph and links the native library "@ + library
        + "; find what pulled it in with `cargo tree -i "@ + krate
        + "` and replace that dependency"@
}

/// The objection to `cc` anywhere in the resolved graph.
pub open spec fn cc_resolved_message() -> Seq<char> {
    "cc is in the resolved graph, so some dependency compiles C at build time; find it with `cargo tree -i cc`. These panels are ARM, and a C toolchain is what turns a one-flag cross build into a cross-compilation project"@
}

/// The tally after one direct dependency of a member.
pub open spec fn dep_step(t: Tally, member: Seq<char>, dep: DependencyView) -> Tally {
    let t1 = if member != OTEL_ADAPTER@ && otel_name(dep.name) {
        t.flag(otel_message(member, dep.name))
    } else {
        t
    };
    if dep.name == "cc"@ && dep.kind == "build"@ {
        t1.flag(cc_build_message(member, dep.name))
    } else {
        t1
    }
}

/// The tally after a member's direct dependencies, in order.
pub open spec fn deps_tally(t: Tally, member: Seq<char>, deps: Seq<DependencyView>) -> Tally
    decreases deps.len(),
{
    if deps.len() == 0 {
        t
    } else {
        dep_step(deps_tally(t, member, deps.drop_last()), member, deps.last())
    }
}

/// The tally after the workspace's members, in order.
pub open spec fn members_tally(members: Seq<MemberView>) -> Tally
    decreases members.len(),
{
    if members.len() == 0 {
        Tally::empty()
    } else {
        let m = members.last();
        deps_tally(members_tally(members.drop_last()).check(), m.name, m.direct_deps)
    }
}

/// The tally after one crate of the resolved graph.
pub open spec fn resolved_step(t: Tally, krate: ResolvedView) -> Tally {
    let t1 = match krate.links {
        Some(library) => if !link_markers().contains(library) {
            t.check().flag(links_message(krate.name, library))
        } else {
            t.check()
        },
        None => t.check(),
    };
    if krate.name == "cc"@ {
        t1.flag(cc_resolved_message())
    } else {
        t1
    }
}

/// The tally after the resolved graph, in order, after `t`.
pub open spec fn resolved_tally(t: Tally, crates: Seq<ResolvedView>) -> Tally
    decreases crates.len(),
{
    if crates.len() == 0 {
        t
    } else {
        resolved_step(resolved_tally(t, crates.drop_last()), crates.last())
    }
}

/// A direct dependency that draws an objection: OpenTelemetry outside the
/// adapter, or `cc` as a build dependency.
pub open spec fn dep_banned(member: Seq<char>, dep: DependencyView) -> bool {
    ||| member != OTEL_ADAPTER@ && otel_name(dep.name)
    ||| dep.name == "cc"@ && dep.kind == "build"@
}

/// A member none of whose direct dependencies is banned.
pub open spec fn member_clean(m: MemberView) -> bool {
    forall|k: int| 0 <= k < m.direct_deps.len() ==> !dep_banned(m.name, #[trigger] m.direct_deps[k])
}

/// A crate of the resolved graph that draws an objection: it links a native
/// library that is no version marker, or it is `cc`.
pub open spec fn crate_banned(c: ResolvedView) -> bool {
    ||| c.links matches Some(l) && !link_markers().contains(l)
    ||| c.name == "cc"@
}

proof fn lemma_deps_tally(t: Tally, member: Seq<char>, deps: Seq<DependencyView>)
    ensures
        deps_tally(t, member, deps).checked == t.checked,
        deps_tally(t, member, deps).violations.len() >= t.violations.len(),
        deps_tally(t, member, deps).violations.len() == t.violations.len() <==> forall|k: int|
            0 <= k < deps.len() ==> !dep_banned(member, #[trigger] deps[k]),
    decreases deps.len(),
{
    if deps.len() > 0 {
        let init = deps.drop_last();
        lemma_deps_tally(t, member, init);
        assert forall|k: int| 0 <= k < init.len() implies #[trigger] init[k] == deps[k] by {}
        if forall|k: int| 0 <= k < deps.len() ==> !dep_banned(member, #[trigger] deps[k]) {
            assert(!dep_banned(member, deps[deps.len() - 1]));
            assert forall|k: int| 0 <= k < init.len() implies !dep_banned(
                member,
                #[trigger] init[k],
            ) by {
                assert(!dep_banned(member, deps[k]));
            }
        }
        if deps_tally(t, member, deps).violations.len() == t.violations.len() {
            assert forall|k: int| 0 <= k < deps.len() implies !dep_banned(
                member,
                #[trigger] deps[k],
            ) by {
                if k < init.len() {
                    assert(!dep_banned(member, init[k]));
                }
            }
        }
    }
}

proof fn lemma_members_tally(members: Seq<MemberView>)
    ensures
        members_tally(members).checked == members.len(),
        members_tally(members).violations.len() == 0 <==> forall|j: int|
            0 <= j < members.len() ==> member_clean(#[trigger] members[j]),
    decreases members.len(),
{
    if members.len() > 0 {
        let init = members.drop_last();
        let m = members.last();
        lemma_members_tally(init);
        lemma_deps_tally(members_tally(init).check(), m.name, m.direct_deps);
        assert forall|j: int| 0 <= j < init.len() implies #[trigger] init[j] == members[j] by {}
        if forall|j: int| 0 <= j < members.len() ==> member_clean(#[trigger] members[j]) {
            assert(member_clean(members[members.len() - 1]));
            assert forall|j: int| 0 <= j < init.len() implies member_clean(#[trigger] init[j]) by {
                assert(member_clean(members[j]));
            }
        }
        if members_tally(members).violations.len() == 0 {
            assert forall|j: int| 0 <= j < members.len() implies member_clean(
                #[trigger] members[j],
            ) by {
                if j < init.len() {
                    assert(member_clean(init[j]));
                }
            }
        }
    }
}

proof fn lemma_resolved_tally(t: Tally, crates: Seq<ResolvedView>)
    ensures
        resolved_tally(t, crates).checked == t.checked + crates.len(),
        resolved_tally(t, crates).violations.len() >= t.violations.len(),
        resolved_tally(t, crates).violations.len() == t.violations.len() <==> forall|k: int|
            0 <= k < crates.len() ==> !crate_banned(#[trigger] crates[k]),
    decreases crates.len(),
{
    if crates.len() > 0 {
        let init = crates.drop_last();
        lemma_resolved_tally(t, init);
        assert forall|k: int| 0 <= k < init.len() implies #[trigger] init[k] == crates[k] by {}
        if forall|k: int| 0 <= k < crates.len() ==> !crate_banned(#[trigger] crates[k]) {
            assert(!crate_banned(crates[crates.len() - 1]));
            assert forall|k: int| 0 <= k < init.len() implies !crate_banned(#[trigger] init[k]) by {
                assert(!crate_banned(crates[k]));
            }
        }
        if resolved_tally(t, crates).violations.len() == t.violations.len() {
            assert forall|k: int| 0 <= k < crates.len() implies !crate_banned(
                #[trigger] crates[k],
            ) by {
                if k < init.len() {
                    assert(!crate_banned(init[k]));
                }
            }
        }
    }
}

/// The deps gate passes exactly when it examined at least one crate, no
/// member declares a banned dependency, and no crate of the resolved graph
/// is banned.
pub proof fn lemma_deps_passes_iff(members: Seq<MemberView>, crates: Seq<ResolvedView>)
    ensures
        verdict_of("deps"@, deps_gate_tally(members, crates)) is Ok <==> members.len()
            + crates.len() > 0 && (forall|j: int|
            0 <= j < members.len() ==> member_clean(#[trigger] members[j])) && (forall|k: int|
            0 <= k < crates.len() ==> !crate_banned(#[trigger] crates[k])),
{
    lemma_members_tally(members);
    lemma_resolved_tally(members_tally(members), crates);
}

/// What the deps gate finds in a workspace and its resolved graph.
pub open spec fn deps_gate_tally(members: Seq<MemberView>, crates: Seq<ResolvedView>) -> Tally {
    resolved_tally(members_tally(members), crates)
}

/// Nothing in the resolved graph may link a native library: one crate that
/// does, and is not a known version marker, fails the deps gate, whatever the
/// rest of the workspace looks like.
pub proof fn lemma_native_library_fails(
    members: Seq<MemberView>,
    crates: Seq<ResolvedView>,
    k: int,
)
    requires
        0 <= k < crates.len(),
        crates[k].links matches Some(l) && !link_markers().contains(l),
    ensures
        verdict_of("deps"@, deps_gate_tally(members, crates)) is Err,
{
    lemma_deps_passes_iff(members, crates);
    assert(crate_banned(crates[k]));
}

/// Checks the bans that keep the driver pure Rust and free of a second
/// telemetry stack.
///
/// Fails when a banned crate appears, or when nothing was examined.
pub fn run(members: &Vec<Member>, resolved: &Vec<Resolved>) -> (r: Result<String, String>)
    requires
        members.len() + resolved.len() <= usize::MAX,
    ensures
        outcome(r) == verdict_of(
            "deps"@,
            deps_gate_tally(member_views(members@), resolved_views(resolved@)),
        ),
{
    let ghost mv = member_views(members@);
    let ghost rv = resolved_views(resolved@);
    let markers = link_markers_list();
    let mut findings = Findings::default();
    let mut i: usize = 0;
    while i < members.len()
        invariant
            i <= members.len(),
            mv == member_views(members@),
            findings@ == members_tally(mv.take(i as int)),
            findings@.checked <= i,
        decreases members.len() - i,
    {
        assert(mv.take(i + 1).drop_last() =~= mv.take(i as int));
        let member = &members[i];
        assert(mv.take(i + 1).last() == member@);
        findings.checked();
        let ghost start = findings@;
        let ghost dv = member@.direct_deps;
        let adapter = same_text(member.name.as_str(), OTEL_ADAPTER);
        let mut k: usize = 0;
        while k < member.direct_deps.len()
            invariant
                k <= member.direct_deps.len(),
                dv == member@.direct_deps,
                adapter == (member@.name == OTEL_ADAPTER@),
                findings@ == deps_tally(start, member@.name, dv.take(k as int)),
                findings@.checked == start.checked,
            decreases member.direct_deps.len() - k,
        {
            assert(dv.take(k + 1).drop_last() =~= dv.take(k as int));
            let dep = &member.direct_deps[k];
            assert(dv.take(k + 1).last() == dep@);
            if !adapter && is_otel(dep.name.as_str()) {
                let mut m = member.name.clone();
                m.append(" depends on ");
                m.append(dep.name.as_str());
                m.append("; only ");
                m.append(OTEL_ADAPTER);
                m.append(" may, and every other layer records through the telemetry seam instead");
                findings.violation(m);
            }
            if same_text(dep.name.as_str(), "cc") && same_text(dep.kind.as_str(), "build") {
                let mut m = member.name.clone();
                m.append(" depends on ");
                m.append(dep.name.as_str());
                m.append(
                    ", which compiles C. These panels are ARM, and what keeps `--target armv7-unknown-linux-gnueabihf` a one-flag build is that nothing in the graph needs a C toolchain",
                );
                findings.violation(m);
            }
            k = k + 1;
        }
        assert(dv.take(dv.len() as int) =~= dv);
        i = i + 1;
    }
    assert(mv.take(members.len() as int) =~= mv);
    let ghost after_members = findings@;
    let mut j: usize = 0;
    while j < resolved.len()
        invariant
            j <= resolved.len(),
            members.len() + resolved.len() <= usize::MAX,
            rv == resolved_views(resolved@),
            strs(markers@) == link_markers(),
            findings@ == resolved_tally(after_members, rv.take(j as int)),
            findings@.checked <= members.len() + j,
        decreases resolved.len() - j,
    {
        assert(rv.take(j + 1).drop_last() =~= rv.take(j as int));
        let krate = &resolved[j];
        assert(rv.take(j + 1).last() == krate@);
        findings.checked();
        match &krate.links {
            Some(library) => {
                if !has_str(&markers, library.as_str()) {
                    let mut m = krate.name.clone();
                    m.append(" is in the resolved graph and links the native library ");
                    m.append(library.as_str());
                    m.append("; find what pulled it in with `cargo tree -i ");
                    m.append(krate.name.as_str());
                    m.append("` and replace that dependency");
                    findings.violation(m);
                }
            },
            None => {},
        }
        if same_text(krate.name.as_str(), "cc") {
            findings.violation(
                "cc is in the resolved graph, so some dependency compiles C at build time; find it with `cargo tree -i cc`. These panels are ARM, and a C toolchain is what turns a one-flag cross build into a cross-compilation project".to_owned(),
            );
        }
        j = j + 1;
    }
    assert(rv.take(resolved.len() as int) =~= rv);
    findings.verdict("deps")
}

} // verus!
