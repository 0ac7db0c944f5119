//! The resource graph a dependency walk follows.
//!
//! A resource is an edge's source when it is live in the mounted partitions; it leads to
//! each of its references that is not excluded, is live, and has a followed data type. The
//! walk's results are stated over this graph: the resources reachable from a start, the
//! ALOCs they reference, and the PRIM recorded for each owner of ALOCs.
use vstd::prelude::*;
use crate::package::package_scan::{resource_lookup, MountedParts};
use crate::package::resource_ids::{hex16, normalized_rrid, rrid_is_valid};

verus! {

/// What a walk's rules mean: the excluded texts, the followed data types, and whether
/// references to visited resources are passed over.
pub type WalkPolicy = (Set<Seq<char>>, Set<Seq<char>>, bool);

/// Contents of mounted partitions, as `mounted_contents` gives them.
pub open spec fn lookup(parts: MountedParts, x: u64) -> Option<(Seq<char>, Seq<char>, Seq<u64>)> {
    resource_lookup(parts, normalized_rrid(x))
}

/// A referenced resource that the walk looks at: not excluded by its text, and live.
pub open spec fn dep_ok(parts: MountedParts, rules: WalkPolicy, d: u64) -> bool {
    !rules.0.contains(hex16(normalized_rrid(d))) && lookup(parts, d) is Some
}

/// Whether the walk, having visited `found`, looks at the referenced resource `d`.
pub open spec fn counted(parts: MountedParts, rules: WalkPolicy, found: Set<u64>, d: u64) -> bool {
    !(rules.2 && found.contains(d)) && dep_ok(parts, rules, d)
}

/// The references of a live resource.
pub open spec fn refs_of(parts: MountedParts, y: u64) -> Seq<u64> {
    lookup(parts, y).unwrap().2
}

/// The data type of a live resource.
pub open spec fn type_of(parts: MountedParts, d: u64) -> Seq<char> {
    lookup(parts, d).unwrap().1
}

/// `y` is live and references `d`, which is looked at and has a followed type.
pub open spec fn edge(parts: MountedParts, rules: WalkPolicy, y: u64, d: u64) -> bool {
    &&& lookup(parts, y) is Some
    &&& refs_of(parts, y).contains(d)
    &&& dep_ok(parts, rules, d)
    &&& rules.1.contains(type_of(parts, d))
}

/// `s` holds, with each resource, every resource that an edge leads to.
pub open spec fn closed(parts: MountedParts, rules: WalkPolicy, s: Set<u64>) -> bool {
    forall|y: u64, d: u64| #[trigger] s.contains(y) && #[trigger] edge(parts, rules, y, d) ==> s.contains(normalized_rrid(d))
}

/// `y` is in every set that holds `start` and is closed under the edges: it can be
/// reached from `start`.
pub open spec fn reachable(parts: MountedParts, rules: WalkPolicy, start: u64, y: u64) -> bool {
    forall|s: Set<u64>| #[trigger] closed(parts, rules, s) && s.contains(start) ==> s.contains(y)
}

/// `d` is an ALOC that the walk counts for `y`.
pub open spec fn aloc_of(parts: MountedParts, rules: WalkPolicy, found: Set<u64>, y: u64, d: u64) -> bool {
    &&& lookup(parts, y) is Some
    &&& refs_of(parts, y).contains(d)
    &&& counted(parts, rules, found, d)
    &&& rules.1.contains(type_of(parts, d))
    &&& type_of(parts, d) == "ALOC"@
}

/// The last of `refs` that the walk counts and whose type is PRIM.
pub open spec fn last_prim(parts: MountedParts, rules: WalkPolicy, found: Set<u64>, refs: Seq<u64>) -> Option<u64>
    decreases refs.len(),
{
    if refs.len() == 0 {
        None
    } else if counted(parts, rules, found, refs.last()) && type_of(parts, refs.last()) == "PRIM"@ {
        Some(refs.last())
    } else {
        last_prim(parts, rules, found, refs.drop_last())
    }
}

/// `y` owns an ALOC that the walk counts.
pub open spec fn has_aloc(parts: MountedParts, rules: WalkPolicy, found: Set<u64>, y: u64) -> bool {
    exists|d: u64| aloc_of(parts, rules, found, y, d)
}

/// The PRIM recorded for `y`: its last counted PRIM, if it owns a counted ALOC.
pub open spec fn prim_of(parts: MountedParts, rules: WalkPolicy, found: Set<u64>, y: u64) -> Option<u64> {
    if lookup(parts, y) is Some && has_aloc(parts, rules, found, y) {
        last_prim(parts, rules, found, refs_of(parts, y))
    } else {
        None
    }
}

/// A referenced resource that the walk records as an ALOC when it counts it.
pub open spec fn aloc_like(parts: MountedParts, rules: WalkPolicy, d: u64) -> bool {
    dep_ok(parts, rules, d) && rules.1.contains(type_of(parts, d)) && type_of(parts, d) == "ALOC"@
}

/// Resources reachable from `start` that own an ALOC.
pub open spec fn aloc_owners(parts: MountedParts, rules: WalkPolicy, start: u64) -> Set<u64> {
    Set::new(|y: u64| reachable(parts, rules, start, y) && lookup(parts, y) is Some && has_aloc(parts, rules, Set::empty(), y))
}

/// ALOCs referenced by resources reachable from `start`.
pub open spec fn reachable_alocs(parts: MountedParts, rules: WalkPolicy, start: u64) -> Set<u64> {
    Set::new(|d: u64| exists|y: u64| reachable(parts, rules, start, y) && aloc_of(parts, rules, Set::empty(), y, d))
}

/// The PRIMs recorded for the ALOC owners reachable from `start`.
pub open spec fn reachable_prims(parts: MountedParts, rules: WalkPolicy, start: u64) -> Set<u64> {
    Set::new(|p: u64| exists|y: u64| reachable(parts, rules, start, y) && prim_of(parts, rules, Set::empty(), y) == Some(p))
}

/// PRIMs that resources reachable from `start` reference and that the walk looks at.
pub open spec fn referenced_prims(parts: MountedParts, rules: WalkPolicy, start: u64) -> Set<u64> {
    Set::new(|p: u64| exists|y: u64| reachable(parts, rules, start, y) && lookup(parts, y) is Some
        && refs_of(parts, y).contains(p) && dep_ok(parts, rules, p) && type_of(parts, p) == "PRIM"@)
}

/// An edge from a reachable resource to a reference that is not a valid identifier.
pub open spec fn bad_edge(parts: MountedParts, rules: WalkPolicy, start: u64) -> bool {
    exists|y: u64, d: u64| reachable(parts, rules, start, y) && #[trigger] edge(parts, rules, y, d) && !rrid_is_valid(d)
}

pub(crate) proof fn lemma_last_prim_indep(parts: MountedParts, rules: WalkPolicy, found: Set<u64>, refs: Seq<u64>)
    requires
        !rules.2,
    ensures
        last_prim(parts, rules, found, refs) == last_prim(parts, rules, Set::empty(), refs),
    decreases refs.len(),
{
    if refs.len() > 0 {
        lemma_last_prim_indep(parts, rules, found, refs.drop_last());
    }
}

pub(crate) proof fn lemma_last_prim_member(parts: MountedParts, rules: WalkPolicy, found: Set<u64>, refs: Seq<u64>)
    ensures
        last_prim(parts, rules, found, refs) matches Some(p) ==> refs.contains(p) && dep_ok(parts, rules, p)
            && type_of(parts, p) == "PRIM"@,
    decreases refs.len(),
{
    if refs.len() > 0 {
        lemma_last_prim_member(parts, rules, found, refs.drop_last());
        if let Some(p) = last_prim(parts, rules, found, refs.drop_last()) {
            if !(counted(parts, rules, found, refs.last()) && type_of(parts, refs.last()) == "PRIM"@) {
                let j = choose|j: int| 0 <= j < refs.drop_last().len() && refs.drop_last()[j] == p;
                assert(refs[j] == p);
            }
        }
        assert(refs[refs.len() - 1] == refs.last());
    }
}

/// A resource reachable from `start` is `start` itself or is led to by an edge from a
/// reachable resource.
proof fn lemma_reachable_step(parts: MountedParts, rules: WalkPolicy, start: u64, y: u64)
    requires
        reachable(parts, rules, start, y),
    ensures
        y == start || exists|z: u64, d: u64| reachable(parts, rules, start, z) && #[trigger] edge(parts, rules, z, d)
            && normalized_rrid(d) == y,
{
    let s = Set::new(|v: u64| v == start || exists|z: u64, d: u64| reachable(parts, rules, start, z)
        && #[trigger] edge(parts, rules, z, d) && normalized_rrid(d) == v);
    assert(closed(parts, rules, s)) by {
        assert forall|v: u64, d: u64| #[trigger] s.contains(v) && #[trigger] edge(parts, rules, v, d) implies
            s.contains(normalized_rrid(d)) by {
            assert(reachable(parts, rules, start, v)) by {
                if v != start {
                    let (z, d1) = choose|z: u64, d1: u64| reachable(parts, rules, start, z)
                        && #[trigger] edge(parts, rules, z, d1) && normalized_rrid(d1) == v;
                    assert forall|t: Set<u64>| #[trigger] closed(parts, rules, t) && t.contains(start) implies t.contains(v) by {
                        assert(t.contains(z));
                    }
                }
            }
        }
    }
    assert(s.contains(start));
    assert(s.contains(y));
}

/// The excluded texts keep the walk away: no resource it reaches from `start`, other than
/// `start`, and no ALOC or PRIM it records or looks at, is spelled by an excluded text.
pub proof fn law_excluded_never_reached(parts: MountedParts, rules: WalkPolicy, start: u64, x: u64)
    ensures
        reachable(parts, rules, start, x) && x != start ==> !rules.0.contains(hex16(x)),
        reachable_alocs(parts, rules, start).contains(x) ==> !rules.0.contains(hex16(normalized_rrid(x))),
        reachable_prims(parts, rules, start).contains(x) ==> !rules.0.contains(hex16(normalized_rrid(x))),
        referenced_prims(parts, rules, start).contains(x) ==> !rules.0.contains(hex16(normalized_rrid(x))),
{
    if reachable(parts, rules, start, x) && x != start {
        lemma_reachable_step(parts, rules, start, x);
        let (z, d) = choose|z: u64, d: u64| reachable(parts, rules, start, z) && #[trigger] edge(parts, rules, z, d)
            && normalized_rrid(d) == x;
        assert(dep_ok(parts, rules, d));
    }
    if reachable_prims(parts, rules, start).contains(x) {
        let y = choose|y: u64| reachable(parts, rules, start, y) && prim_of(parts, rules, Set::empty(), y) == Some(x);
        lemma_last_prim_member(parts, rules, Set::empty(), refs_of(parts, y));
    }
}

} // verus!
