//! Imports only ever point inward.

use vstd::prelude::*;
use crate::metadata::{Member, MemberView, member_views};
use crate::path::{strs, has_str};
use crate::scan::{Findings, Tally, outcome, verdict_of};
use crate::text::{join, same_text};

verus! {

/// One crate's position in the hexagon.
pub struct Layer {
    /// The crate this rule governs.
    pub krate: &'static str,
    /// Workspace siblings it may depend on, besides the telemetry seam.
    pub allowed: Vec<&'static str>,
    /// Whether it must perform no I/O and read no clock.
    pub pure: bool,
}

/// A [`Layer`], taken by its text.
pub struct LayerView {
    pub krate: Seq<char>,
    pub allowed: Seq<Seq<char>>,
    pub pure: bool,
}

impl View for Layer {
    type V = LayerView;

    open spec fn view(&self) -> LayerView {
        LayerView { krate: self.krate@, allowed: strs(self.allowed@), pure: self.pure }
    }
}

/// The seam every layer may reach.
pub const SEAM: &'static str = "regalium-bacnet-telemetry";

const CORE: &'static str = "regalium-bacnet-core";

/// What the runtime may reach: every datalink, the core, and the schema.
pub open spec fn datalinks() -> Seq<Seq<char>> {
    seq![
        "regalium-bacnet-core"@, "regalium-bacnet-ip"@, "regalium-bacnet-mstp"@, "regalium-bacnet-sc"@,
        "regalium-bacnet-ipv6"@, "regalium-bacnet-schema"@,
    ]
}

/// The facade re-exports, so it reaches everything.
pub open spec fn everything() -> Seq<Seq<char>> {
    seq![
        "regalium-bacnet-core"@, "regalium-bacnet-ip"@, "regalium-bacnet-mstp"@, "regalium-bacnet-sc"@,
        "regalium-bacnet-ipv6"@, "regalium-bacnet-schema"@, "regalium-bacnet-runtime"@,
        "regalium-bacnet-telemetry-otel"@,
    ]
}

/// The hexagon, stated once.
///
/// Each entry is a crate, the workspace siblings it may depend on, and whether
/// it is pure. `regalium-bacnet-telemetry` is importable everywhere and so is
/// never listed: the seam is what every layer records through, and a rule
/// forbidding it would only be worked around.
///
/// This table is the authority. Change it here, deliberately, and say why in
/// the commit — never by routing an import around it.
pub open spec fn layer_table() -> Seq<LayerView> {
    seq![
        LayerView { krate: "regalium-bacnet-telemetry"@, allowed: seq![], pure: true },
        LayerView { krate: "regalium-bacnet-core"@, allowed: seq![], pure: true },
        LayerView { krate: "regalium-bacnet-ip"@, allowed: seq!["regalium-bacnet-core"@], pure: false },
        LayerView { krate: "regalium-bacnet-mstp"@, allowed: seq!["regalium-bacnet-core"@], pure: false },
        LayerView { krate: "regalium-bacnet-sc"@, allowed: seq!["regalium-bacnet-core"@], pure: false },
        LayerView { krate: "regalium-bacnet-ipv6"@, allowed: seq!["regalium-bacnet-core"@], pure: false },
        LayerView { krate: "regalium-bacnet-schema"@, allowed: seq![], pure: false },
        LayerView { krate: "regalium-bacnet-telemetry-otel"@, allowed: seq![], pure: false },
        LayerView { krate: "regalium-bacnet-runtime"@, allowed: datalinks(), pure: false },
        LayerView { krate: "regalium-bacnet"@, allowed: everything(), pure: false },
    ]
}

/// A layer of this name comes before position `i` of the table.
pub open spec fn declared_before(name: Seq<char>, i: int) -> bool {
    exists|j: int| 0 <= j < i && #[trigger] layer_table()[j].krate == name
}

/// The table is layered: every sibling a layer may depend on is a layer
/// declared before it, so permitted dependencies only ever point inward and
/// can never form a cycle; and a pure layer may depend on no sibling at all.
pub proof fn lemma_layers_point_inward()
    ensures
        forall|i: int, k: int|
            0 <= i < layer_table().len() && 0 <= k < layer_table()[i].allowed.len()
                ==> declared_before(#[trigger] layer_table()[i].allowed[k], i),
        forall|i: int|
            0 <= i < layer_table().len() && #[trigger] layer_table()[i].pure
                ==> layer_table()[i].allowed.len() == 0,
{
    let t = layer_table();
    assert forall|i: int, k: int|
        0 <= i < t.len() && 0 <= k < t[i].allowed.len() implies declared_before(
        #[trigger] t[i].allowed[k],
        i,
    ) by {
        let a = t[i].allowed[k];
        if a == t[1].krate {
            assert(0 <= 1 < i);
        } else if a == t[2].krate {
            assert(0 <= 2 < i);
        } else if a == t[3].krate {
            assert(0 <= 3 < i);
        } else if a == t[4].krate {
            assert(0 <= 4 < i);
        } else if a == t[5].krate {
            assert(0 <= 5 < i);
        } else if a == t[6].krate {
            assert(0 <= 6 < i);
        } else if a == t[7].krate {
            assert(0 <= 7 < i);
        } else {
            assert(a == t[8].krate);
            assert(0 <= 8 < i);
        }
    }
}

/// A list of layers, taken by their views.
pub open spec fn layer_views(v: Seq<Layer>) -> Seq<LayerView> {
    v.map_values(|l: Layer| l@)
}

fn datalinks_list() -> (r: Vec<&'static str>)
    ensures
        strs(r@) == datalinks(),
{
    let r = vec![
        CORE,
        "regalium-bacnet-ip",
        "regalium-bacnet-mstp",
        "regalium-bacnet-sc",
        "regalium-bacnet-ipv6",
        "regalium-bacnet-schema",
    ];
    assert(strs(r@) =~= datalinks());
    r
}

fn everything_list() -> (r: Vec<&'static str>)
    ensures
        strs(r@) == everything(),
{
    let r = vec![
        CORE,
        "regalium-bacnet-ip",
        "regalium-bacnet-mstp",
        "regalium-bacnet-sc",
        "regalium-bacnet-ipv6",
        "regalium-bacnet-schema",
        "regalium-bacnet-runtime",
        "regalium-bacnet-telemetry-otel",
    ];
    assert(strs(r@) =~= everything());
    r
}

fn no_siblings() -> (v: Vec<&'static str>)
    ensures
        strs(v@) == Seq::<Seq<char>>::empty(),
{
    let v: Vec<&'static str> = Vec::new();
    assert(strs(v@) =~= Seq::<Seq<char>>::empty());
    v
}

fn core_only() -> (v: Vec<&'static str>)
    ensures
        strs(v@) == seq!["regalium-bacnet-core"@],
{
    let v = vec![CORE];
    assert(strs(v@) =~= seq!["regalium-bacnet-core"@]);
    v
}

/// The layer table, in order.
pub fn layers() -> (r: Vec<Layer>)
    ensures
        layer_views(r@) == layer_table(),
{
    let r = vec![
        Layer { krate: "regalium-bacnet-telemetry", allowed: no_siblings(), pure: true },
        Layer { krate: "regalium-bacnet-core", allowed: no_siblings(), pure: true },
        Layer { krate: "regalium-bacnet-ip", allowed: core_only(), pure: false },
        Layer { krate: "regalium-bacnet-mstp", allowed: core_only(), pure: false },
        Layer { krate: "regalium-bacnet-sc", allowed: core_only(), pure: false },
        Layer { krate: "regalium-bacnet-ipv6", allowed: core_only(), pure: false },
        Layer { krate: "regalium-bacnet-schema", allowed: no_siblings(), pure: false },
        Layer { krate: "regalium-bacnet-telemetry-otel", allowed: no_siblings(), pure: false },
        Layer { krate: "regalium-bacnet-runtime", allowed: datalinks_list(), pure: false },
        Layer { krate: "regalium-bacnet", allowed: everything_list(), pure: false },
    ];
    assert(layer_views(r@) =~= layer_table());
    r
}

/// The first member named `name`.
pub open spec fn find_member(members: Seq<MemberView>, name: Seq<char>) -> Option<MemberView>
    decreases members.len(),
{
    if members.len() == 0 {
        None
    } else if members[0].name == name {
        Some(members[0])
    } else {
        find_member(members.drop_first(), name)
    }
}

/// A string as `{:?}` writes it, for text that holds nothing it escapes.
pub open spec fn quoted(s: Seq<char>) -> Seq<char> {
    "\""@ + s + "\""@
}

/// A list of names as `{:?}` writes it, for names that hold nothing it
/// escapes, as every name in the layer table is.
pub open spec fn debug_list(names: Seq<Seq<char>>) -> Seq<char> {
    "["@ + join(names.map_values(|s: Seq<char>| quoted(s)), ", "@) + "]"@
}

/// The objection to a layer with no crate in the workspace.
pub open spec fn absent_message(krate: Seq<char>) -> Seq<char> {
    krate
        + " is declared in the layer table but absent from the workspace; a table describing a tree that is not there checks nothing"@
}

/// The objection to a dependency that points outward.
pub open spec fn inverted_message(layer: LayerView, dep: Seq<char>) -> Seq<char> {
    layer.krate + " depends on "@ + dep
        + ", which it may not: a dependency in this direction inverts the hexagon. Permitted here: "@
        + debug_list(layer.allowed) + " (plus "@ + SEAM@ + ", always)"@
}

/// The objection to a crate the table does not govern.
pub open spec fn ungoverned_message(name: Seq<char>) -> Seq<char> {
    name
        + " is in the workspace but not in the layer table; add it there with the imports it may make, rather than leaving it ungoverned"@
}

/// The tally after a layer's workspace dependencies, in order.
pub open spec fn dep_tally(t: Tally, layer: LayerView, deps: Seq<Seq<char>>) -> Tally
    decreases deps.len(),
{
    if deps.len() == 0 {
        t
    } else {
        let before = dep_tally(t, layer, deps.drop_last());
        let dep = deps.last();
        if dep == SEAM@ || layer.allowed.contains(dep) {
            before
        } else {
            before.flag(inverted_message(layer, dep))
        }
    }
}

/// The seam is importable everywhere: a dependency on it is never an
/// objection, whatever the layer.
pub proof fn lemma_seam_always_permitted(t: Tally, layer: LayerView, deps: Seq<Seq<char>>)
    requires
        forall|i: int| 0 <= i < deps.len() ==> #[trigger] deps[i] == SEAM@,
    ensures
        dep_tally(t, layer, deps) == t,
    decreases deps.len(),
{
    if deps.len() > 0 {
        assert(deps[deps.len() - 1] == SEAM@);
        lemma_seam_always_permitted(t, layer, deps.drop_last());
    }
}

/// The tally after one layer.
pub open spec fn layer_step(t: Tally, layer: LayerView, members: Seq<MemberView>) -> Tally {
    match find_member(members, layer.krate) {
        None => t.check().flag(absent_message(layer.krate)),
        Some(m) => dep_tally(t.check(), layer, m.workspace_deps),
    }
}

/// The tally after the layer table, in order.
pub open spec fn layers_tally(layers: Seq<LayerView>, members: Seq<MemberView>) -> Tally
    decreases layers.len(),
{
    if layers.len() == 0 {
        Tally::empty()
    } else {
        layer_step(layers_tally(layers.drop_last(), members), layers.last(), members)
    }
}

/// Whether the table governs a crate of this name.
pub open spec fn governed(name: Seq<char>) -> bool {
    exists|i: int| 0 <= i < layer_table().len() && #[trigger] layer_table()[i].krate == name
}

/// The tally after the workspace's crates, in order, after the table.
pub open spec fn members_tally(t: Tally, members: Seq<MemberView>) -> Tally
    decreases members.len(),
{
    if members.len() == 0 {
        t
    } else {
        let before = members_tally(t, members.drop_last());
        let name = members.last().name;
        if name == "xtask"@ || governed(name) {
            before
        } else {
            before.flag(ungoverned_message(name))
        }
    }
}

/// What the arch gate finds in a workspace.
pub open spec fn arch_tally(members: Seq<MemberView>) -> Tally {
    members_tally(layers_tally(layer_table(), members), members)
}

/// The index of the first member named `name`, or the number of members.
pub fn member_index(members: &Vec<Member>, name: &str) -> (j: usize)
    ensures
        j <= members.len(),
        j < members.len() ==> find_member(member_views(members@), name@) == Some(
            member_views(members@)[j as int],
        ),
        j == members.len() ==> find_member(member_views(members@), name@) is None,
{
    let ghost mv = member_views(members@);
    let mut j: usize = 0;
    assert(mv.skip(0) =~= mv);
    while j < members.len() && !same_text(members[j].name.as_str(), name)
        invariant
            j <= members.len(),
            mv == member_views(members@),
            find_member(mv, name@) == find_member(mv.skip(j as int), name@),
        decreases members.len() - j,
    {
        assert(mv.skip(j as int).drop_first() =~= mv.skip(j + 1));
        j = j + 1;
    }
    if j == members.len() {
        assert(mv.skip(j as int) =~= Seq::<MemberView>::empty());
    } else {
        assert(mv.skip(j as int)[0] == mv[j as int]);
    }
    j
}

/// A dependency a layer may have: the seam, or a sibling the table allows it.
pub open spec fn permitted(layer: LayerView, dep: Seq<char>) -> bool {
    dep == SEAM@ || layer.allowed.contains(dep)
}

/// A layer with a crate in the workspace whose every sibling dependency is
/// permitted.
pub open spec fn layer_clean(layer: LayerView, members: Seq<MemberView>) -> bool {
    match find_member(members, layer.krate) {
        Some(m) => forall|k: int|
            0 <= k < m.workspace_deps.len() ==> permitted(layer, #[trigger] m.workspace_deps[k]),
        None => false,
    }
}

/// A crate accepted in the workspace: this tool, or one the table
/// governs.
pub open spec fn accepted(name: Seq<char>) -> bool {
    name == "xtask"@ || governed(name)
}

proof fn lemma_dep_tally(t: Tally, layer: LayerView, deps: Seq<Seq<char>>)
    ensures
        dep_tally(t, layer, deps).checked == t.checked,
        dep_tally(t, layer, deps).violations.len() >= t.violations.len(),
        dep_tally(t, layer, deps).violations.len() == t.violations.len() <==> forall|k: int|
            0 <= k < deps.len() ==> permitted(layer, #[trigger] deps[k]),
    decreases deps.len(),
{
    if deps.len() > 0 {
        let init = deps.drop_last();
        lemma_dep_tally(t, layer, init);
        assert forall|k: int| 0 <= k < init.len() implies #[trigger] init[k] == deps[k] by {}
        if forall|k: int| 0 <= k < deps.len() ==> permitted(layer, #[trigger] deps[k]) {
            assert(permitted(layer, deps[deps.len() - 1]));
            assert forall|k: int| 0 <= k < init.len() implies permitted(layer, #[trigger] init[k]) by {
                assert(permitted(layer, deps[k]));
            }
        }
        if dep_tally(t, layer, deps).violations.len() == t.violations.len() {
            assert forall|k: int| 0 <= k < deps.len() implies permitted(layer, #[trigger] deps[k]) by {
                if k < init.len() {
                    assert(permitted(layer, init[k]));
                }
            }
        }
    }
}

proof fn lemma_layers_tally(layers: Seq<LayerView>, members: Seq<MemberView>)
    ensures
        layers_tally(layers, members).checked == layers.len(),
        layers_tally(layers, members).violations.len() == 0 <==> forall|i: int|
            0 <= i < layers.len() ==> layer_clean(#[trigger] layers[i], members),
    decreases layers.len(),
{
    if layers.len() > 0 {
        let init = layers.drop_last();
        let last = layers.last();
        let t = layers_tally(init, members);
        lemma_layers_tally(init, members);
        assert forall|i: int| 0 <= i < init.len() implies #[trigger] init[i] == layers[i] by {}
        match find_member(members, last.krate) {
            Some(m) => {
                lemma_dep_tally(t.check(), last, m.workspace_deps);
            },
            None => {},
        }
        if forall|i: int| 0 <= i < layers.len() ==> layer_clean(#[trigger] layers[i], members) {
            assert(layer_clean(layers[layers.len() - 1], members));
            assert forall|i: int| 0 <= i < init.len() implies layer_clean(
                #[trigger] init[i],
                members,
            ) by {
                assert(layer_clean(layers[i], members));
            }
        }
        if layers_tally(layers, members).violations.len() == 0 {
            assert forall|i: int| 0 <= i < layers.len() implies layer_clean(
                #[trigger] layers[i],
                members,
            ) by {
                if i < init.len() {
                    assert(layer_clean(init[i], members));
                }
            }
        }
    }
}

proof fn lemma_members_tally(t: Tally, members: Seq<MemberView>)
    ensures
        members_tally(t, members).checked == t.checked,
        members_tally(t, members).violations.len() >= t.violations.len(),
        members_tally(t, members).violations.len() == t.violations.len() <==> forall|j: int|
            0 <= j < members.len() ==> accepted(#[trigger] members[j].name),
    decreases members.len(),
{
    if members.len() > 0 {
        let init = members.drop_last();
        lemma_members_tally(t, init);
        assert forall|j: int| 0 <= j < init.len() implies #[trigger] init[j] == members[j] by {}
        if forall|j: int| 0 <= j < members.len() ==> accepted(#[trigger] members[j].name) {
            assert(accepted(members[members.len() - 1].name));
            assert forall|j: int| 0 <= j < init.len() implies accepted(#[trigger] init[j].name) by {
                assert(accepted(members[j].name));
            }
        }
        if members_tally(t, members).violations.len() == t.violations.len() {
            assert forall|j: int| 0 <= j < members.len() implies accepted(
                #[trigger] members[j].name,
            ) by {
                if j < init.len() {
                    assert(accepted(init[j].name));
                }
            }
        }
    }
}

/// The arch gate passes exactly when every layer of the table has its crate
/// in the workspace and that crate depends only on the seam and the siblings
/// the table allows it, and every crate of the workspace is governed by the
/// table (or is this tool).
pub proof fn lemma_arch_passes_iff(members: Seq<MemberView>)
    ensures
        verdict_of("arch"@, arch_tally(members)) is Ok <==> (forall|i: int|
            0 <= i < layer_table().len() ==> layer_clean(#[trigger] layer_table()[i], members))
            && (forall|j: int| 0 <= j < members.len() ==> accepted(#[trigger] members[j].name)),
{
    lemma_layers_tally(layer_table(), members);
    lemma_members_tally(layers_tally(layer_table(), members), members);
}

/// `list` as `{:?}` writes it.
fn debug_names(list: &Vec<&'static str>) -> (r: String)
    ensures
        r@ == debug_list(strs(list@)),
{
    let ghost items = strs(list@).map_values(|s: Seq<char>| quoted(s));
    let mut r = String::new();
    let mut i: usize = 0;
    while i < list.len()
        invariant
            i <= list.len(),
            items == strs(list@).map_values(|s: Seq<char>| quoted(s)),
            r@ == join(items.take(i as int), ", "@),
        decreases list.len() - i,
    {
        if i != 0 {
            r.append(", ");
        }
        r.append("\"");
        r.append(list[i]);
        r.append("\"");
        assert(items.take(i + 1).drop_last() =~= items.take(i as int));
        i = i + 1;
    }
    assert(items.take(list.len() as int) =~= items);
    let mut out = "[".to_owned();
    out.append(r.as_str());
    out.append("]");
    out
}

/// Checks that every declared layer exists and depends only inward.
///
/// Fails when a layer is missing, an undeclared crate appears in the
/// workspace, or a dependency inverts the hexagon.
pub fn run(members: &Vec<Member>) -> (r: Result<String, String>)
    ensures
        outcome(r) == verdict_of("arch"@, arch_tally(member_views(members@))),
{
    let ghost mv = member_views(members@);
    let table = layers();
    let mut findings = Findings::default();
    let mut i: usize = 0;
    while i < table.len()
        invariant
            i <= table.len(),
            mv == member_views(members@),
            layer_views(table@) == layer_table(),
            findings@ == layers_tally(layer_table().take(i as int), mv),
            findings@.checked <= i,
        decreases table.len() - i,
    {
        assert(layer_table().take(i + 1).drop_last() =~= layer_table().take(i as int));
        let layer = &table[i];
        assert(layer_table().take(i + 1).last() == layer@);
        findings.checked();
        let j = member_index(members, layer.krate);
        if j == members.len() {
            let mut m = layer.krate.to_owned();
            m.append(
                " is declared in the layer table but absent from the workspace; a table describing a tree that is not there checks nothing",
            );
            findings.violation(m);
        } else {
            let member = &members[j];
            let ghost deps = member@.workspace_deps;
            let ghost start = findings@;
            let mut k: usize = 0;
            while k < member.workspace_deps.len()
                invariant
                    k <= member.workspace_deps.len(),
                    deps == member@.workspace_deps,
                    findings@ == dep_tally(start, layer@, deps.take(k as int)),
                    findings@.checked == start.checked,
                decreases member.workspace_deps.len() - k,
            {
                assert(deps.take(k + 1).drop_last() =~= deps.take(k as int));
                let dep = &member.workspace_deps[k];
                assert(deps.take(k + 1).last() == dep@);
                if !same_text(dep.as_str(), SEAM) && !has_str(&layer.allowed, dep.as_str()) {
                    let mut m = layer.krate.to_owned();
                    m.append(" depends on ");
                    m.append(dep.as_str());
                    m.append(
                        ", which it may not: a dependency in this direction inverts the hexagon. Permitted here: ",
                    );
                    m.append(debug_names(&layer.allowed).as_str());
                    m.append(" (plus ");
                    m.append(SEAM);
                    m.append(", always)");
                    findings.violation(m);
                }
                k = k + 1;
            }
            assert(deps.take(deps.len() as int) =~= deps);
        }
        i = i + 1;
    }
    assert(layer_table().take(table.len() as int) =~= layer_table());
    let ghost after_layers = findings@;
    let mut j: usize = 0;
    while j < members.len()
        invariant
            j <= members.len(),
            mv == member_views(members@),
            layer_views(table@) == layer_table(),
            findings@ == members_tally(after_layers, mv.take(j as int)),
            findings@.checked == after_layers.checked,
        decreases members.len() - j,
    {
        assert(mv.take(j + 1).drop_last() =~= mv.take(j as int));
        let name = &members[j].name;
        assert(mv.take(j + 1).last().name == name@);
        let mut known = same_text(name.as_str(), "xtask");
        let mut l: usize = 0;
        while l < table.len() && !known
            invariant
                l <= table.len(),
                layer_views(table@) == layer_table(),
                known ==> (name@ == "xtask"@ || governed(name@)),
                !known ==> name@ != "xtask"@ && forall|x: int|
                    0 <= x < l ==> layer_table()[x].krate != name@,
            decreases table.len() - l,
        {
            if same_text(table[l].krate, name.as_str()) {
                assert(layer_table()[l as int].krate == name@);
                known = true;
            }
            l = l + 1;
        }
        if !known {
            let mut m = name.clone();
            m.append(
                " is in the workspace but not in the layer table; add it there with the imports it may make, rather than leaving it ungoverned",
            );
            findings.violation(m);
        }
        j = j + 1;
    }
    assert(mv.take(members.len() as int) =~= mv);
    findings.verdict("arch")
}

} // verus!
