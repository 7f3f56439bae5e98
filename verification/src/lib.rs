//! Conformance gates for a layered workspace, as a verified library.
//!
//! Every gate here fails when it examined nothing at all, so that a gate that
//! could not find the tree it was meant to inspect is not mistaken for one that
//! found the tree clean.

pub mod arch;
pub mod deps;
pub mod licence;
pub mod metadata;
pub mod path;
pub mod purity;
pub mod scan;
pub mod size;
pub mod text;

use vstd::prelude::*;
use crate::path::{strs, has_str};
use crate::text::join;

verus! {

/// Every gate, in the order they run: cheapest and most local first, so a
/// file over the limit or missing its notice, a one-line fix, is reported
/// before a `cargo metadata` is spent on the graph.
pub open spec fn gate_order() -> Seq<Seq<char>> {
    seq!["size"@, "licence"@, "arch"@, "purity"@, "deps"@]
}

/// Every name, in [`gate_order`].
pub fn gate_names() -> (r: Vec<&'static str>)
    ensures
        strs(r@) == gate_order(),
{
    let r = vec!["size", "licence", "arch", "purity", "deps"];
    assert(strs(r@) =~= gate_order());
    r
}

/// The names, owned, in [`gate_order`].
fn owned_gate_names() -> (v: Vec<String>)
    ensures
        v@.map_values(|s: String| s@) == gate_order(),
{
    let names = gate_names();
    let mut v: Vec<String> = Vec::new();
    let mut i: usize = 0;
    while i < names.len()
        invariant
            i <= names.len(),
            strs(names@) == gate_order(),
            v@.map_values(|s: String| s@) == gate_order().take(i as int),
        decreases names.len() - i,
    {
        let ghost before = v@.map_values(|s: String| s@);
        assert(strs(names@)[i as int] == names@[i as int]@);
        v.push(names[i].to_owned());
        assert(v@.map_values(|s: String| s@) =~= before.push(names@[i as int]@));
        assert(gate_order().take(i + 1) =~= gate_order().take(i as int).push(gate_order()[i as int]));
        i = i + 1;
    }
    assert(gate_order().take(names.len() as int) =~= gate_order());
    v
}

/// Which gates a command line asks for: every gate when it names none or
/// `all`, and otherwise the one it names.
pub open spec fn wanted(first: Option<Seq<char>>) -> Seq<Seq<char>> {
    match first {
        None => gate_order(),
        Some(name) => if name == "all"@ {
            gate_order()
        } else {
            seq![name]
        },
    }
}

/// A command line that names a gate asks for that gate alone, and one that
/// names anything but `all` asks for exactly that name (which is then refused
/// when no gate has it); naming nothing or `all` asks for all five gates, in
/// order.
pub proof fn lemma_a_named_gate_runs_alone(name: Seq<char>)
    ensures
        name != "all"@ ==> wanted(Some(name)) == seq![name],
        name != "all"@ ==> wanted(Some(name)).len() == 1 && wanted(Some(name))[0] == name,
        wanted(None) == seq!["size"@, "licence"@, "arch"@, "purity"@, "deps"@],
        wanted(Some("all"@)) == wanted(None),
{
}

/// Which gates a command line asks for, given its first argument.
pub fn wanted_gates(first: Option<&str>) -> (r: Vec<String>)
    ensures
        r@.map_values(|s: String| s@) == wanted(
            match first {
                Some(s) => Some(s@),
                None => None,
            },
        ),
{
    match first {
        None => owned_gate_names(),
        Some(name) => {
            if crate::text::same_text(name, "all") {
                owned_gate_names()
            } else {
                let v = vec![name.to_owned()];
                assert(v@.map_values(|s: String| s@) =~= seq![name@]);
                v
            }
        },
    }
}

/// Whether a gate of this name exists.
pub fn is_gate(name: &str) -> (r: bool)
    ensures
        r == gate_order().contains(name@),
{
    has_str(&gate_names(), name)
}

/// The refusal of a gate name that does not exist, naming those that do.
pub fn unknown_gate(name: &str) -> (r: String)
    ensures
        r@ == "no gate named "@ + name@ + "; try one of "@ + join(gate_order(), ", "@),
{
    let owned = owned_gate_names();
    let mut r = "no gate named ".to_owned();
    r.append(name);
    r.append("; try one of ");
    r.append(crate::text::join_with(&owned, ", ").as_str());
    r
}

} // verus!
