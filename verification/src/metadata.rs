//! Reading the dependency graph cargo has already resolved.
//!
//! The gates read the graph rather than our own manifests, because a banned
//! crate usually arrives transitively. No amount of reading what we wrote
//! would reveal it; asking cargo what it actually resolved does.
//!
//! What cargo prints is JSON; `serde_json` parses it, [`Json`] holds it as
//! plain values, and the functions here read the packages out of it.

use vstd::prelude::*;

verus! {

/// A JSON document. An object keeps its members in order; a number keeps its
/// text.
pub enum Json {
    Null,
    Bool(bool),
    Number(String),
    Str(String),
    Array(Vec<Json>),
    Object(Vec<(String, Json)>),
}

/// The value of the first member named `key`.
pub open spec fn member_named(fields: Seq<(String, Json)>, key: Seq<char>) -> Option<Json>
    decreases fields.len(),
{
    if fields.len() == 0 {
        None
    } else if fields[0].0@ == key {
        Some(fields[0].1)
    } else {
        member_named(fields.drop_first(), key)
    }
}

/// `Value::get`: the member `key` of an object, and nothing for anything else.
pub open spec fn field_of(v: Json, key: Seq<char>) -> Option<Json> {
    match v {
        Json::Object(fields) => member_named(fields@, key),
        _ => None,
    }
}

/// A string field, or `None` when it is absent or not a string.
pub open spec fn str_field(v: Json, key: Seq<char>) -> Option<Seq<char>> {
    match field_of(v, key) {
        Some(Json::Str(s)) => Some(s@),
        _ => None,
    }
}

/// An array field, or `None` when it is absent or not an array.
pub open spec fn array_field(v: Json, key: Seq<char>) -> Option<Seq<Json>> {
    match field_of(v, key) {
        Some(Json::Array(a)) => Some(a@),
        _ => None,
    }
}

/// The member `key` of an object.
pub fn get<'a>(v: &'a Json, key: &str) -> (r: Option<&'a Json>)
    ensures
        r matches Some(x) ==> field_of(*v, key@) == Some(*x),
        r is None ==> field_of(*v, key@) is None,
{
    match v {
        Json::Object(fields) => {
            let k = key.to_owned();
            let mut i: usize = 0;
            assert(fields@.skip(0) =~= fields@);
            while i < fields.len()
                invariant
                    i <= fields.len(),
                    k@ == key@,
                    field_of(*v, key@) == member_named(fields@, key@),
                    member_named(fields@, key@) == member_named(fields@.skip(i as int), key@),
                decreases fields.len() - i,
            {
                assert(fields@.skip(i as int).drop_first() =~= fields@.skip(i + 1));
                if fields[i].0 == k {
                    assert(fields@.skip(i as int)[0] == fields@[i as int]);
                    return Some(&fields[i].1);
                }
                i = i + 1;
            }
            assert(fields@.skip(i as int) =~= Seq::<(String, Json)>::empty());
            None
        },
        _ => None,
    }
}

/// A string field, or `None` when it is absent or not a string.
pub fn string(v: &Json, field: &str) -> (r: Option<String>)
    ensures
        match r {
            Some(s) => str_field(*v, field@) == Some(s@),
            None => str_field(*v, field@) is None,
        },
{
    match get(v, field) {
        Some(Json::Str(s)) => Some(s.clone()),
        _ => None,
    }
}

/// An array field, or `None` when it is absent or not an array.
fn array<'a>(v: &'a Json, field: &str) -> (r: Option<&'a Vec<Json>>)
    ensures
        match r {
            Some(a) => array_field(*v, field@) == Some(a@),
            None => array_field(*v, field@) is None,
        },
{
    match get(v, field) {
        Some(Json::Array(a)) => Some(a),
        _ => None,
    }
}

/// One declared dependency.
pub struct Dependency {
    /// The crate depended on.
    pub name: String,
    /// `normal`, `build` or `dev`.
    pub kind: String,
}

/// A [`Dependency`], taken by its text.
pub struct DependencyView {
    pub name: Seq<char>,
    pub kind: Seq<char>,
}

impl View for Dependency {
    type V = DependencyView;

    open spec fn view(&self) -> DependencyView {
        DependencyView { name: self.name@, kind: self.kind@ }
    }
}

/// A workspace crate and what it depends on.
pub struct Member {
    /// The crate name.
    pub name: String,
    /// Workspace siblings it depends on, any kind.
    pub workspace_deps: Vec<String>,
    /// Every dependency it names directly, including build and dev.
    pub direct_deps: Vec<Dependency>,
}

/// A [`Member`], taken by its text.
pub struct MemberView {
    pub name: Seq<char>,
    pub workspace_deps: Seq<Seq<char>>,
    pub direct_deps: Seq<DependencyView>,
}

impl View for Member {
    type V = MemberView;

    open spec fn view(&self) -> MemberView {
        MemberView {
            name: self.name@,
            workspace_deps: self.workspace_deps@.map_values(|d: String| d@),
            direct_deps: self.direct_deps@.map_values(|d: Dependency| d@),
        }
    }
}

/// A crate in the resolved graph.
pub struct Resolved {
    /// The crate name.
    pub name: String,
    /// The native library it links, when it declares one.
    ///
    /// This is cargo's own answer to "does building this need a C toolchain",
    /// and it is why this rule does not guess from the name. `js-sys` ends in
    /// `-sys` and binds JavaScript; `libc` does not and binds a C library.
    pub links: Option<String>,
}

/// A [`Resolved`], taken by its text.
pub struct ResolvedView {
    pub name: Seq<char>,
    pub links: Option<Seq<char>>,
}

impl View for Resolved {
    type V = ResolvedView;

    open spec fn view(&self) -> ResolvedView {
        ResolvedView {
            name: self.name@,
            links: match self.links {
                Some(l) => Some(l@),
                None => None,
            },
        }
    }
}

/// What the metadata holds under `packages`, when that is an array.
pub open spec fn packages(json: Json) -> Option<Seq<Json>> {
    array_field(json, "packages"@)
}

/// The error when it is not.
pub open spec fn no_packages() -> Seq<char> {
    "cargo metadata produced no packages array"@
}

/// The names of the packages that have one, in order.
pub open spec fn names_of(ps: Seq<Json>) -> Seq<Seq<char>>
    decreases ps.len(),
{
    if ps.len() == 0 {
        seq![]
    } else {
        match str_field(ps.last(), "name"@) {
            Some(n) => names_of(ps.drop_last()).push(n),
            None => names_of(ps.drop_last()),
        }
    }
}

/// A dependency entry that names its crate; its kind is `normal` when unsaid.
pub open spec fn dependency_of(d: Json) -> Option<DependencyView> {
    match str_field(d, "name"@) {
        Some(n) => Some(
            DependencyView {
                name: n,
                kind: match str_field(d, "kind"@) {
                    Some(k) => k,
                    None => "normal"@,
                },
            },
        ),
        None => None,
    }
}

/// The dependency entries that name their crate, in order.
pub open spec fn dependencies_of(ds: Seq<Json>) -> Seq<DependencyView>
    decreases ds.len(),
{
    if ds.len() == 0 {
        seq![]
    } else {
        match dependency_of(ds.last()) {
            Some(d) => dependencies_of(ds.drop_last()).push(d),
            None => dependencies_of(ds.drop_last()),
        }
    }
}

/// The names of the dependencies that are among `names`, in order.
pub open spec fn siblings(deps: Seq<DependencyView>, names: Seq<Seq<char>>) -> Seq<Seq<char>>
    decreases deps.len(),
{
    if deps.len() == 0 {
        seq![]
    } else if names.contains(deps.last().name) {
        siblings(deps.drop_last(), names).push(deps.last().name)
    } else {
        siblings(deps.drop_last(), names)
    }
}

/// A package with a name and a dependency array, as a workspace member.
pub open spec fn member_of(p: Json, names: Seq<Seq<char>>) -> Option<MemberView> {
    match (str_field(p, "name"@), array_field(p, "dependencies"@)) {
        (Some(n), Some(ds)) => Some(
            MemberView {
                name: n,
                workspace_deps: siblings(dependencies_of(ds), names),
                direct_deps: dependencies_of(ds),
            },
        ),
        _ => None,
    }
}

/// The packages that make members, in order.
pub open spec fn members_of(ps: Seq<Json>, names: Seq<Seq<char>>) -> Seq<MemberView>
    decreases ps.len(),
{
    if ps.len() == 0 {
        seq![]
    } else {
        match member_of(ps.last(), names) {
            Some(m) => members_of(ps.drop_last(), names).push(m),
            None => members_of(ps.drop_last(), names),
        }
    }
}

/// The workspace crates of `cargo metadata --no-deps` output.
pub open spec fn workspace_members_of(json: Json) -> Result<Seq<MemberView>, Seq<char>> {
    match packages(json) {
        Some(ps) => Ok(members_of(ps, names_of(ps))),
        None => Err(no_packages()),
    }
}

/// A package with a name, as a resolved crate.
pub open spec fn resolved_of(p: Json) -> Option<ResolvedView> {
    match str_field(p, "name"@) {
        Some(n) => Some(ResolvedView { name: n, links: str_field(p, "links"@) }),
        None => None,
    }
}

/// The packages that have a name, as resolved crates, in order.
pub open spec fn resolved_list(ps: Seq<Json>) -> Seq<ResolvedView>
    decreases ps.len(),
{
    if ps.len() == 0 {
        seq![]
    } else {
        match resolved_of(ps.last()) {
            Some(r) => resolved_list(ps.drop_last()).push(r),
            None => resolved_list(ps.drop_last()),
        }
    }
}

/// The crates of `cargo metadata` output, transitive dependencies included.
pub open spec fn resolved_crates_of(json: Json) -> Result<Seq<ResolvedView>, Seq<char>> {
    match packages(json) {
        Some(ps) => Ok(resolved_list(ps)),
        None => Err(no_packages()),
    }
}

/// A dependency on a package of the workspace is a sibling whatever its kind
/// (normal, build or dev): every dependency whose name is among `names` has
/// its name among the siblings, and the siblings are nothing but such names.
pub proof fn lemma_siblings_are_workspace_deps(deps: Seq<DependencyView>, names: Seq<Seq<char>>)
    ensures
        forall|k: int|
            0 <= k < deps.len() && names.contains(#[trigger] deps[k].name) ==> siblings(
                deps,
                names,
            ).contains(deps[k].name),
        forall|x: Seq<char>|
            #[trigger] siblings(deps, names).contains(x) ==> names.contains(x) && exists|k: int|
                0 <= k < deps.len() && deps[k].name == x,
    decreases deps.len(),
{
    if deps.len() > 0 {
        let init = deps.drop_last();
        lemma_siblings_are_workspace_deps(init, names);
        let sib = siblings(deps, names);
        assert forall|k: int|
            0 <= k < deps.len() && names.contains(#[trigger] deps[k].name) implies sib.contains(
            deps[k].name,
        ) by {
            if k < deps.len() - 1 {
                assert(init[k] == deps[k]);
                let j = choose|j: int|
                    0 <= j < siblings(init, names).len() && siblings(init, names)[j]
                        == deps[k].name;
                assert(sib[j] == deps[k].name);
            } else {
                assert(sib[sib.len() - 1] == deps[k].name);
            }
        }
        assert forall|x: Seq<char>| #[trigger] sib.contains(x) implies names.contains(x)
            && exists|k: int| 0 <= k < deps.len() && deps[k].name == x by {
            let j = choose|j: int| 0 <= j < sib.len() && sib[j] == x;
            if j < siblings(init, names).len() {
                assert(siblings(init, names).contains(x));
                let k = choose|k: int| 0 <= k < init.len() && init[k].name == x;
                assert(deps[k] == init[k]);
            } else {
                assert(deps[deps.len() - 1].name == x);
            }
        }
    }
}

/// A name is among the package names exactly when some package has it.
proof fn lemma_names_of(ps: Seq<Json>)
    ensures
        forall|n: Seq<char>|
            #[trigger] names_of(ps).contains(n) <==> exists|j: int|
                0 <= j < ps.len() && str_field(ps[j], "name"@) == Some(n),
    decreases ps.len(),
{
    if ps.len() > 0 {
        let init = ps.drop_last();
        lemma_names_of(init);
        assert forall|n: Seq<char>| #[trigger] names_of(ps).contains(n) <==> exists|j: int|
            0 <= j < ps.len() && str_field(ps[j], "name"@) == Some(n) by {
            if names_of(ps).contains(n) {
                let t = choose|t: int| 0 <= t < names_of(ps).len() && names_of(ps)[t] == n;
                if t < names_of(init).len() {
                    assert(names_of(init)[t] == n);
                    assert(names_of(init).contains(n));
                    let j = choose|j: int| 0 <= j < init.len() && str_field(init[j], "name"@) == Some(n);
                    assert(ps[j] == init[j]);
                } else {
                    assert(str_field(ps[ps.len() - 1], "name"@) == Some(n));
                }
            }
            if exists|j: int| 0 <= j < ps.len() && str_field(ps[j], "name"@) == Some(n) {
                let j = choose|j: int| 0 <= j < ps.len() && str_field(ps[j], "name"@) == Some(n);
                if j < ps.len() - 1 {
                    assert(init[j] == ps[j]);
                    assert(names_of(init).contains(n));
                    let t = choose|t: int| 0 <= t < names_of(init).len() && names_of(init)[t] == n;
                    assert(names_of(ps)[t] == n);
                } else {
                    assert(names_of(ps)[names_of(ps).len() - 1] == n);
                }
            }
        }
    }
}

/// Every member read from `cargo metadata --no-deps` counts as a workspace
/// dependency each of its direct dependencies that names a package of the
/// workspace, whatever that dependency's kind, and counts nothing else.
pub proof fn lemma_members_keep_every_sibling(json: Json)
    requires
        array_field(json, "packages"@) is Some,
    ensures
        workspace_members_of(json) is Ok,
        forall|i: int, k: int|
            0 <= i < workspace_members_of(json)->Ok_0.len() && 0 <= k
                < workspace_members_of(json)->Ok_0[i].direct_deps.len() && (exists|j: int|
                0 <= j < array_field(json, "packages"@)->0.len() && str_field(
                    array_field(json, "packages"@)->0[j],
                    "name"@,
                ) == Some(#[trigger] workspace_members_of(json)->Ok_0[i].direct_deps[k].name))
                ==> workspace_members_of(json)->Ok_0[i].workspace_deps.contains(
                workspace_members_of(json)->Ok_0[i].direct_deps[k].name,
            ),
        forall|i: int, x: Seq<char>|
            0 <= i < workspace_members_of(json)->Ok_0.len()
                && #[trigger] workspace_members_of(json)->Ok_0[i].workspace_deps.contains(x)
                ==> (exists|j: int|
                0 <= j < array_field(json, "packages"@)->0.len() && str_field(
                    array_field(json, "packages"@)->0[j],
                    "name"@,
                ) == Some(x)) && exists|k: int|
                0 <= k < workspace_members_of(json)->Ok_0[i].direct_deps.len()
                    && workspace_members_of(json)->Ok_0[i].direct_deps[k].name == x,
{
    let ps = array_field(json, "packages"@)->0;
    let names = names_of(ps);
    let ms = workspace_members_of(json)->Ok_0;
    assert(ms == members_of(ps, names));
    lemma_members_siblings(ps, names);
    lemma_names_of(ps);
    assert forall|i: int, k: int|
        0 <= i < ms.len() && 0 <= k < ms[i].direct_deps.len() && (exists|j: int|
            0 <= j < ps.len() && str_field(ps[j], "name"@) == Some(
                #[trigger] ms[i].direct_deps[k].name,
            )) implies ms[i].workspace_deps.contains(ms[i].direct_deps[k].name) by {
        assert(names.contains(ms[i].direct_deps[k].name));
        lemma_siblings_are_workspace_deps(ms[i].direct_deps, names);
    }
    assert forall|i: int, x: Seq<char>|
        0 <= i < ms.len() && #[trigger] ms[i].workspace_deps.contains(x) implies (exists|j: int|
            0 <= j < ps.len() && str_field(ps[j], "name"@) == Some(x)) && exists|k: int|
            0 <= k < ms[i].direct_deps.len() && ms[i].direct_deps[k].name == x by {
        lemma_siblings_are_workspace_deps(ms[i].direct_deps, names);
        assert(names.contains(x));
    }
}

proof fn lemma_members_siblings(ps: Seq<Json>, names: Seq<Seq<char>>)
    ensures
        forall|i: int|
            0 <= i < members_of(ps, names).len() ==> #[trigger] members_of(ps, names)[i].workspace_deps
                == siblings(members_of(ps, names)[i].direct_deps, names),
    decreases ps.len(),
{
    if ps.len() > 0 {
        lemma_members_siblings(ps.drop_last(), names);
    }
    assert forall|i: int| 0 <= i < members_of(ps, names).len() implies #[trigger] members_of(
        ps,
        names,
    )[i].workspace_deps == siblings(members_of(ps, names)[i].direct_deps, names) by {
        lemma_siblings_are_workspace_deps(members_of(ps, names)[i].direct_deps, names);
        if ps.len() > 0 {
            let init = members_of(ps.drop_last(), names);
            if i < init.len() {
                assert(members_of(ps, names)[i] == init[i]);
            }
        }
    }
}

/// Each resolved crate is a package with a name, and its `links` is exactly
/// that package's `links` string, whatever else the package holds: every
/// named package gives an entry with its name and its `links`, and every
/// entry comes from such a package.
pub proof fn lemma_resolved_links_as_declared(ps: Seq<Json>)
    ensures
        forall|i: int|
            0 <= i < ps.len() && #[trigger] str_field(ps[i], "name"@) is Some ==> resolved_list(
                ps,
            ).contains(
                ResolvedView {
                    name: str_field(ps[i], "name"@)->0,
                    links: str_field(ps[i], "links"@),
                },
            ),
        forall|r: ResolvedView|
            #[trigger] resolved_list(ps).contains(r) ==> exists|i: int|
                0 <= i < ps.len() && str_field(ps[i], "name"@) == Some(r.name) && str_field(
                    ps[i],
                    "links"@,
                ) == r.links,
    decreases ps.len(),
{
    if ps.len() > 0 {
        let init = ps.drop_last();
        lemma_resolved_links_as_declared(init);
        let all = resolved_list(ps);
        let before = resolved_list(init);
        assert forall|i: int|
            0 <= i < ps.len() && #[trigger] str_field(ps[i], "name"@) is Some implies all.contains(
            ResolvedView { name: str_field(ps[i], "name"@)->0, links: str_field(ps[i], "links"@) },
        ) by {
            let v = ResolvedView {
                name: str_field(ps[i], "name"@)->0,
                links: str_field(ps[i], "links"@),
            };
            if i < ps.len() - 1 {
                assert(init[i] == ps[i]);
                assert(str_field(init[i], "name"@) is Some);
                let j = choose|j: int| 0 <= j < before.len() && before[j] == v;
                assert(all[j] == v);
            } else {
                assert(all[all.len() - 1] == v);
            }
        }
        assert forall|r: ResolvedView| #[trigger] all.contains(r) implies exists|i: int|
            0 <= i < ps.len() && str_field(ps[i], "name"@) == Some(r.name) && str_field(
                ps[i],
                "links"@,
            ) == r.links by {
            let j = choose|j: int| 0 <= j < all.len() && all[j] == r;
            if j < before.len() {
                assert(before.contains(r));
                let i = choose|i: int|
                    0 <= i < init.len() && str_field(init[i], "name"@) == Some(r.name) && str_field(
                        init[i],
                        "links"@,
                    ) == r.links;
                assert(ps[i] == init[i]);
            } else {
                assert(ps[ps.len() - 1] == ps.last());
            }
        }
    }
}

/// The resolved crates of `cargo metadata` output are its named packages,
/// each with exactly the `links` string it declares, whatever else it holds.
pub proof fn lemma_resolved_crates_as_declared(json: Json)
    requires
        array_field(json, "packages"@) is Some,
    ensures
        resolved_crates_of(json) is Ok,
        forall|i: int|
            0 <= i < array_field(json, "packages"@)->0.len() && #[trigger] str_field(
                array_field(json, "packages"@)->0[i],
                "name"@,
            ) is Some ==> resolved_crates_of(json)->Ok_0.contains(
                ResolvedView {
                    name: str_field(array_field(json, "packages"@)->0[i], "name"@)->0,
                    links: str_field(array_field(json, "packages"@)->0[i], "links"@),
                },
            ),
        forall|r: ResolvedView|
            #[trigger] resolved_crates_of(json)->Ok_0.contains(r) ==> exists|i: int|
                0 <= i < array_field(json, "packages"@)->0.len() && str_field(
                    array_field(json, "packages"@)->0[i],
                    "name"@,
                ) == Some(r.name) && str_field(array_field(json, "packages"@)->0[i], "links"@)
                    == r.links,
{
    lemma_resolved_links_as_declared(array_field(json, "packages"@)->0);
}

/// A list of members, taken by their views.
pub open spec fn member_views(v: Seq<Member>) -> Seq<MemberView> {
    v.map_values(|m: Member| m@)
}

/// A list of resolved crates, taken by their views.
pub open spec fn resolved_views(v: Seq<Resolved>) -> Seq<ResolvedView> {
    v.map_values(|r: Resolved| r@)
}

/// The packages array, or cargo's answer was not what it claims to produce.
fn packages_of(json: &Json) -> (r: Result<&Vec<Json>, String>)
    ensures
        match r {
            Ok(a) => packages(*json) == Some(a@),
            Err(e) => packages(*json) is None && e@ == no_packages(),
        },
{
    match array(json, "packages") {
        Some(a) => Ok(a),
        None => Err("cargo metadata produced no packages array".to_owned()),
    }
}

/// The names of the packages that have one.
fn package_names(ps: &Vec<Json>) -> (r: Vec<String>)
    ensures
        r@.map_values(|s: String| s@) == names_of(ps@),
{
    let mut r: Vec<String> = Vec::new();
    let mut i: usize = 0;
    while i < ps.len()
        invariant
            i <= ps.len(),
            r@.map_values(|s: String| s@) == names_of(ps@.take(i as int)),
        decreases ps.len() - i,
    {
        assert(ps@.take(i + 1).drop_last() =~= ps@.take(i as int));
        match string(&ps[i], "name") {
            Some(n) => {
                r.push(n);
                assert(r@.map_values(|s: String| s@) =~= names_of(ps@.take(i as int)).push(
                    r@.last()@,
                ));
            },
            None => {},
        }
        i = i + 1;
    }
    assert(ps@.take(ps.len() as int) =~= ps@);
    r
}

/// Whether `names` holds `name`.
fn holds(names: &Vec<String>, name: &String) -> (r: bool)
    ensures
        r == names@.map_values(|s: String| s@).contains(name@),
{
    let ghost views = names@.map_values(|s: String| s@);
    let mut i: usize = 0;
    while i < names.len()
        invariant
            i <= names.len(),
            views == names@.map_values(|s: String| s@),
            forall|j: int| 0 <= j < i ==> views[j] != name@,
        decreases names.len() - i,
    {
        if names[i] == *name {
            assert(views[i as int] == name@);
            return true;
        }
        i = i + 1;
    }
    false
}

/// The dependency entries that name their crate.
fn dependencies(ds: &Vec<Json>) -> (r: Vec<Dependency>)
    ensures
        r@.map_values(|d: Dependency| d@) == dependencies_of(ds@),
{
    let mut r: Vec<Dependency> = Vec::new();
    let mut i: usize = 0;
    while i < ds.len()
        invariant
            i <= ds.len(),
            r@.map_values(|d: Dependency| d@) == dependencies_of(ds@.take(i as int)),
        decreases ds.len() - i,
    {
        assert(ds@.take(i + 1).drop_last() =~= ds@.take(i as int));
        match string(&ds[i], "name") {
            Some(name) => {
                let kind = match string(&ds[i], "kind") {
                    Some(k) => k,
                    None => "normal".to_owned(),
                };
                r.push(Dependency { name, kind });
                assert(r@.map_values(|d: Dependency| d@) =~= dependencies_of(
                    ds@.take(i as int),
                ).push(r@.last()@));
            },
            None => {},
        }
        i = i + 1;
    }
    assert(ds@.take(ds.len() as int) =~= ds@);
    r
}

/// The names of the dependencies that are among `names`.
fn sibling_names(deps: &Vec<Dependency>, names: &Vec<String>) -> (r: Vec<String>)
    ensures
        r@.map_values(|s: String| s@) == siblings(
            deps@.map_values(|d: Dependency| d@),
            names@.map_values(|s: String| s@),
        ),
{
    let ghost dv = deps@.map_values(|d: Dependency| d@);
    let ghost nv = names@.map_values(|s: String| s@);
    let mut r: Vec<String> = Vec::new();
    let mut i: usize = 0;
    while i < deps.len()
        invariant
            i <= deps.len(),
            dv == deps@.map_values(|d: Dependency| d@),
            nv == names@.map_values(|s: String| s@),
            r@.map_values(|s: String| s@) == siblings(dv.take(i as int), nv),
        decreases deps.len() - i,
    {
        assert(dv.take(i + 1).drop_last() =~= dv.take(i as int));
        assert(dv.take(i + 1).last() == deps@[i as int]@);
        if holds(names, &deps[i].name) {
            r.push(deps[i].name.clone());
            assert(r@.map_values(|s: String| s@) =~= siblings(dv.take(i as int), nv).push(
                deps@[i as int].name@,
            ));
        }
        i = i + 1;
    }
    assert(dv.take(deps.len() as int) =~= dv);
    r
}

#[verifier::external_type_specification]
#[verifier::external_body]
pub struct ExValue(serde_json::Value);

/// What `serde_json::from_slice` reads out of `bytes`, held as a [`Json`]:
/// the document, or the text of the error it reports.
pub uninterp spec fn json_of(bytes: Seq<u8>) -> Result<Json, Seq<char>>;

/// A `serde_json::Value` held as a [`Json`], variant for variant; a number
/// keeps the text `Number`'s `Display` gives it. Nothing about the result is
/// stated here: what a parse gives back is named by [`json_of`] as a whole.
#[verifier::external_body]
fn json_from_value(v: &serde_json::Value) -> Json {
    match v {
        serde_json::Value::Null => Json::Null,
        serde_json::Value::Bool(b) => Json::Bool(*b),
        serde_json::Value::Number(n) => Json::Number(n.to_string()),
        serde_json::Value::String(s) => Json::Str(s.clone()),
        serde_json::Value::Array(a) => Json::Array(a.iter().map(json_from_value).collect()),
        serde_json::Value::Object(m) => Json::Object(
            m.iter().map(|(k, x)| (k.clone(), json_from_value(x))).collect(),
        ),
    }
}

/// Parses JSON text with `serde_json::from_slice` into a `serde_json::Value`
/// and holds it as a [`Json`]; on failure, the error's `Display` text.
///
/// Trusted: the result is [`json_of`] of the bytes. That the parse is a
/// function of the bytes alone holds because serde_json keeps an object's
/// members in a `BTreeMap` and its errors name the line and column only.
#[verifier::external_body]
fn parse_json(bytes: &[u8]) -> (r: Result<Json, String>)
    ensures
        match r {
            Ok(j) => json_of(bytes@) == Ok::<Json, Seq<char>>(j),
            Err(e) => json_of(bytes@) == Err::<Json, Seq<char>>(e@),
        },
{
    match serde_json::from_slice::<serde_json::Value>(bytes) {
        Ok(v) => Ok(json_from_value(&v)),
        Err(e) => Err(e.to_string()),
    }
}

/// The error when `cargo <command>` printed something that is not JSON.
pub open spec fn unparseable(command: Seq<char>, err: Seq<char>) -> Seq<char> {
    "cargo "@ + command + " produced unparseable JSON: "@ + err
}

/// Reads what `cargo <command>` printed as JSON.
///
/// Fails, naming the command and the parser's complaint, when it is not JSON.
pub fn parse_output(command: &str, stdout: &[u8]) -> (r: Result<Json, String>)
    ensures
        match json_of(stdout@) {
            Ok(j) => r == Ok::<Json, String>(j),
            Err(e) => r matches Err(m) && m@ == unparseable(command@, e),
        },
{
    match parse_json(stdout) {
        Ok(j) => Ok(j),
        Err(e) => {
            let mut m = "cargo ".to_owned();
            m.append(command);
            m.append(" produced unparseable JSON: ");
            m.append(e.as_str());
            Err(m)
        },
    }
}

/// The workspace crates and their declared dependencies, out of what
/// `cargo <command>` printed: the bytes parsed as JSON, then read as
/// [`workspace_members`] reads them.
pub fn members_of_output(command: &str, stdout: &[u8]) -> (r: Result<Vec<Member>, String>)
    ensures
        match json_of(stdout@) {
            Err(e) => r matches Err(m) && m@ == unparseable(command@, e),
            Ok(j) => match r {
                Ok(v) => workspace_members_of(j) == Ok::<Seq<MemberView>, Seq<char>>(
                    member_views(v@),
                ),
                Err(m) => workspace_members_of(j) == Err::<Seq<MemberView>, Seq<char>>(m@),
            },
        },
{
    match parse_output(command, stdout) {
        Ok(j) => workspace_members(&j),
        Err(m) => Err(m),
    }
}

/// Every crate in the resolved graph, out of what `cargo <command>` printed:
/// the bytes parsed as JSON, then read as [`resolved_crates`] reads them.
pub fn resolved_of_output(command: &str, stdout: &[u8]) -> (r: Result<Vec<Resolved>, String>)
    ensures
        match json_of(stdout@) {
            Err(e) => r matches Err(m) && m@ == unparseable(command@, e),
            Ok(j) => match r {
                Ok(v) => resolved_crates_of(j) == Ok::<Seq<ResolvedView>, Seq<char>>(
                    resolved_views(v@),
                ),
                Err(m) => resolved_crates_of(j) == Err::<Seq<ResolvedView>, Seq<char>>(m@),
            },
        },
{
    match parse_output(command, stdout) {
        Ok(j) => resolved_crates(&j),
        Err(m) => Err(m),
    }
}

/// The workspace crates and their declared dependencies, out of the JSON that
/// `cargo metadata --no-deps --format-version 1` prints.
///
/// Fails when the JSON holds no packages array.
pub fn workspace_members(json: &Json) -> (r: Result<Vec<Member>, String>)
    ensures
        match r {
            Ok(v) => workspace_members_of(*json) == Ok::<Seq<MemberView>, Seq<char>>(
                member_views(v@),
            ),
            Err(e) => workspace_members_of(*json) == Err::<Seq<MemberView>, Seq<char>>(e@),
        },
{
    let ps = match packages_of(json) {
        Ok(ps) => ps,
        Err(e) => return Err(e),
    };
    let names = package_names(ps);
    let mut r: Vec<Member> = Vec::new();
    let mut i: usize = 0;
    while i < ps.len()
        invariant
            i <= ps.len(),
            packages(*json) == Some(ps@),
            names@.map_values(|s: String| s@) == names_of(ps@),
            member_views(r@) == members_of(ps@.take(i as int), names_of(ps@)),
        decreases ps.len() - i,
    {
        assert(ps@.take(i + 1).drop_last() =~= ps@.take(i as int));
        let p = &ps[i];
        match string(p, "name") {
            Some(name) => match array(p, "dependencies") {
                Some(ds) => {
                    let direct_deps = dependencies(ds);
                    let workspace_deps = sibling_names(&direct_deps, &names);
                    r.push(Member { name, workspace_deps, direct_deps });
                    assert(member_views(r@) =~= members_of(
                        ps@.take(i as int),
                        names_of(ps@),
                    ).push(r@.last()@));
                },
                None => {},
            },
            None => {},
        }
        i = i + 1;
    }
    assert(ps@.take(ps.len() as int) =~= ps@);
    Ok(r)
}

/// Every crate in the fully resolved graph, transitive dependencies included,
/// out of the JSON that `cargo metadata --format-version 1` prints.
///
/// Fails when the JSON holds no packages array.
pub fn resolved_crates(json: &Json) -> (r: Result<Vec<Resolved>, String>)
    ensures
        match r {
            Ok(v) => resolved_crates_of(*json) == Ok::<Seq<ResolvedView>, Seq<char>>(
                resolved_views(v@),
            ),
            Err(e) => resolved_crates_of(*json) == Err::<Seq<ResolvedView>, Seq<char>>(e@),
        },
{
    let ps = match packages_of(json) {
        Ok(ps) => ps,
        Err(e) => return Err(e),
    };
    let mut r: Vec<Resolved> = Vec::new();
    let mut i: usize = 0;
    while i < ps.len()
        invariant
            i <= ps.len(),
            packages(*json) == Some(ps@),
            resolved_views(r@) == resolved_list(ps@.take(i as int)),
        decreases ps.len() - i,
    {
        assert(ps@.take(i + 1).drop_last() =~= ps@.take(i as int));
        let p = &ps[i];
        match string(p, "name") {
            Some(name) => {
                let links = string(p, "links");
                r.push(Resolved { name, links });
                assert(resolved_views(r@) =~= resolved_list(ps@.take(i as int)).push(r@.last()@));
            },
            None => {},
        }
        i = i + 1;
    }
    assert(ps@.take(ps.len() as int) =~= ps@);
    Ok(r)
}

} // verus!
