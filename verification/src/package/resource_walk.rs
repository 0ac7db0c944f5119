//! Walking the dependency graph of a scenario through the mounted partitions.
//!
//! Starting from a scenario resource, every resource reached through references of the
//! followed data types is visited once, breadth first: a queue holds the references met,
//! in the order of the references of each visited resource, and the walk visits the first
//! queued resource not visited yet. For each visited resource, its references of type
//! ALOC are collected, the resource itself is recorded as one that has ALOCs, and the last
//! PRIM among its references is recorded next to them.
use vstd::prelude::*;
use std::collections::HashSet;
use std::collections::VecDeque;
use rpkg_rs::resource::partition_manager::PartitionManager;
use crate::package::package_scan::{PackageScan, mounted_contents, MountedParts};
use crate::package::resource_ids::{hex16, normalized_rrid, rrid_from_hex, rrid_to_hex, rrid_from_resource_path, resource_path_rrid, rrid_is_valid, parse_rrid_hex, law_hex_round_trip, invalid_rrid};
use crate::package::resource_graph::{WalkPolicy, lookup, dep_ok, counted, refs_of, type_of, edge, closed, reachable, aloc_of, last_prim, has_aloc, prim_of, aloc_like, aloc_owners, reachable_alocs, reachable_prims, referenced_prims, bad_edge, lemma_last_prim_indep, lemma_last_prim_member};
use crate::package::walk_order::{EventView, aloc_events, visit_events, visited_upto, is_visit_order, ordered_owners, ordered_prims, lemma_ordered_push, pushes, visit_queue, walk_stream, walk_event_stream, walk_step, refs_total, law_walk_queue_bound, is_walk_order, lemma_stream_prefix, lemma_first_new_none, lemma_stream_after_visit};

verus! {

broadcast use vstd::std_specs::hash::group_hash_axioms;

/// How a walk treats the resources it meets.
pub struct WalkRules {
    /// Identifiers, as text, that the walk never visits nor collects.
    pub excluded: Vec<String>,
    /// Data types whose resources the walk visits when they are referenced.
    pub followed_types: Vec<String>,
    /// Whether references to resources already visited are passed over.
    pub skip_found_dependencies: bool,
}

impl View for WalkRules {
    type V = WalkPolicy;

    open spec fn view(&self) -> WalkPolicy {
        (
            Set::new(|t: Seq<char>| exists|i: int| 0 <= i < self.excluded@.len() && #[trigger] self.excluded@[i]@ == t),
            Set::new(|t: Seq<char>| exists|i: int| 0 <= i < self.followed_types@.len() && #[trigger] self.followed_types@[i]@ == t),
            self.skip_found_dependencies,
        )
    }
}

/// Something the walk met that the caller reports to the user.
pub enum WalkEvent {
    /// `owner` references the ALOC `aloc`.
    Aloc { owner: u64, owner_type: String, owner_partition: String, aloc: u64, aloc_partition: String },
    /// The PRIM `prim` was recorded for an owner of ALOCs.
    Prim { owner: u64, prim: u64, partition: String },
}

/// The resource an event is about.
pub open spec fn event_owner(e: WalkEvent) -> u64 {
    match e {
        WalkEvent::Aloc { owner, .. } => owner,
        WalkEvent::Prim { owner, .. } => owner,
    }
}

/// The ALOC an event reports, if it reports one.
pub open spec fn event_aloc(e: WalkEvent) -> Option<u64> {
    match e {
        WalkEvent::Aloc { aloc, .. } => Some(aloc),
        WalkEvent::Prim { .. } => None,
    }
}

/// The PRIM an event reports, if it reports one.
pub open spec fn event_prim(e: WalkEvent) -> Option<u64> {
    match e {
        WalkEvent::Aloc { .. } => None,
        WalkEvent::Prim { prim, .. } => Some(prim),
    }
}

/// An event that visiting `y`, having visited `found`, reports: an ALOC the visit counts,
/// or the PRIM it records, with the data type and package file names of the lookups.
pub open spec fn event_sound(parts: MountedParts, rules: WalkPolicy, found: Set<u64>, y: u64, e: WalkEvent) -> bool {
    match e {
        WalkEvent::Aloc { owner, owner_type, owner_partition, aloc, aloc_partition } => {
            &&& owner == y
            &&& aloc_of(parts, rules, found, y, aloc)
            &&& owner_type@ == lookup(parts, y).unwrap().1
            &&& owner_partition@ == lookup(parts, y).unwrap().0
            &&& aloc_partition@ == lookup(parts, aloc).unwrap().0
        },
        WalkEvent::Prim { owner, prim, partition } => {
            &&& owner == y
            &&& prim_of(parts, rules, found, y) == Some(prim)
            &&& partition@ == lookup(parts, prim).unwrap().0
        },
    }
}

/// What an event tells, in plain values: whether it reports an ALOC, the owner, the
/// owner's data type (empty for a PRIM), the package file name of the owner (of the PRIM
/// for a PRIM event), the ALOC or PRIM, and the package file name of the ALOC (empty for a
/// PRIM).
pub open spec fn event_view(e: WalkEvent) -> EventView {
    match e {
        WalkEvent::Aloc { owner, owner_type, owner_partition, aloc, aloc_partition } =>
            (true, owner, owner_type@, owner_partition@, aloc, aloc_partition@),
        WalkEvent::Prim { owner, prim, partition } => (false, owner, Seq::empty(), partition@, prim, Seq::empty()),
    }
}

/// The views of a list of events.
pub open spec fn event_views(ev: Seq<WalkEvent>) -> Seq<EventView> {
    ev.map_values(|e: WalkEvent| event_view(e))
}

/// An event of a walk: an ALOC referenced by its owner, or a PRIM referenced by an owner
/// of ALOCs (the one recorded for it when visited resources are not passed over), with the
/// data type and package file names of the lookups.
pub open spec fn walk_event_ok(parts: MountedParts, rules: WalkPolicy, e: WalkEvent) -> bool {
    match e {
        WalkEvent::Aloc { owner, owner_type, owner_partition, aloc, aloc_partition } => {
            &&& aloc_of(parts, rules, Set::empty(), owner, aloc)
            &&& owner_type@ == lookup(parts, owner).unwrap().1
            &&& owner_partition@ == lookup(parts, owner).unwrap().0
            &&& aloc_partition@ == lookup(parts, aloc).unwrap().0
        },
        WalkEvent::Prim { owner, prim, partition } => {
            &&& lookup(parts, owner) is Some
            &&& refs_of(parts, owner).contains(prim)
            &&& dep_ok(parts, rules, prim)
            &&& type_of(parts, prim) == "PRIM"@
            &&& !rules.2 ==> prim_of(parts, rules, Set::empty(), owner) == Some(prim)
            &&& partition@ == lookup(parts, prim).unwrap().0
        },
    }
}

/// Some event reports the ALOC `d` of `y`.
pub open spec fn has_aloc_event(ev: Seq<WalkEvent>, y: u64, d: u64) -> bool {
    exists|i: int| 0 <= i < ev.len() && event_owner(ev[i]) == y && #[trigger] event_aloc(ev[i]) == Some(d)
}

/// Some event reports the PRIM `p` of `y`.
pub open spec fn has_prim_event(ev: Seq<WalkEvent>, y: u64, p: u64) -> bool {
    exists|i: int| 0 <= i < ev.len() && event_owner(ev[i]) == y && #[trigger] event_prim(ev[i]) == Some(p)
}

/// `t` spells a resource that an edge from `y` leads to.
pub open spec fn queued_from(parts: MountedParts, rules: WalkPolicy, y: u64, t: Seq<char>) -> bool {
    exists|d: u64| edge(parts, rules, y, d) && t == hex16(normalized_rrid(d))
}

/// `t` spells a resource that an edge from `y` leads to and that the walk, having visited
/// `found`, looks at.
pub open spec fn pushed_from(parts: MountedParts, rules: WalkPolicy, found: Set<u64>, y: u64, t: Seq<char>) -> bool {
    exists|d: u64| edge(parts, rules, y, d) && counted(parts, rules, found, d) && t == hex16(normalized_rrid(d))
}

/// `t` is one of the texts of `v`.
fn text_listed(v: &Vec<String>, t: &String) -> (b: bool)
    ensures
        b == exists|i: int| 0 <= i < v@.len() && #[trigger] v@[i]@ == t@,
{
    let mut i: usize = 0;
    while i < v.len()
        invariant
            i <= v.len(),
            forall|j: int| 0 <= j < i ==> v@[j]@ != t@,
        decreases v.len() - i,
    {
        if v[i] == *t {
            return true;
        }
        i = i + 1;
    }
    false
}

/// Visits one resource: looks at its references, queues those of followed types, and
/// records its ALOCs and PRIM.
fn visit(
    pm: &PartitionManager,
    rules: &WalkRules,
    found: &HashSet<u64>,
    y: u64,
    queue: &mut VecDeque<String>,
    hashes: &mut HashSet<u64>,
    alocs: &mut HashSet<u64>,
    prims: &mut HashSet<u64>,
    events: &mut Vec<WalkEvent>,
)
    ensures
        ({
            let parts = mounted_contents(*pm);
            &&& final(hashes)@ == if lookup(parts, y) is Some && has_aloc(parts, rules@, found@, y) {
                old(hashes)@.insert(y)
            } else {
                old(hashes)@
            }
            &&& final(alocs)@ == old(alocs)@.union(Set::new(|d: u64| aloc_of(parts, rules@, found@, y, d)))
            &&& final(prims)@ == match prim_of(parts, rules@, found@, y) {
                Some(p) => old(prims)@.insert(p),
                None => old(prims)@,
            }
            &&& old(queue)@.len() <= final(queue)@.len()
            &&& final(queue)@.subrange(0, old(queue)@.len() as int) == old(queue)@
            &&& forall|i: int| old(queue)@.len() <= i < final(queue)@.len() ==> queued_from(parts, rules@, y, #[trigger] final(queue)@[i]@)
            &&& forall|i: int| old(queue)@.len() <= i < final(queue)@.len() ==> pushed_from(parts, rules@, found@, y, #[trigger] final(queue)@[i]@)
            &&& forall|d: u64| #[trigger] edge(parts, rules@, y, d) && counted(parts, rules@, found@, d) ==> exists|i: int|
                old(queue)@.len() <= i < final(queue)@.len() && final(queue)@[i]@ == hex16(normalized_rrid(d))
            &&& final(queue)@.len() == old(queue)@.len() + visit_queue(parts, rules@, found@, y).len()
            &&& forall|i: int| old(queue)@.len() <= i < final(queue)@.len() ==>
                #[trigger] final(queue)@[i]@ == hex16(visit_queue(parts, rules@, found@, y)[i - old(queue)@.len()])
            &&& event_views(final(events)@) == event_views(old(events)@) + visit_events(parts, rules@, found@, y)
            &&& old(events)@.len() <= final(events)@.len()
            &&& final(events)@.subrange(0, old(events)@.len() as int) == old(events)@
            &&& forall|i: int| old(events)@.len() <= i < final(events)@.len() ==> event_sound(parts, rules@, found@, y, #[trigger] final(events)@[i])
            &&& forall|d: u64| #[trigger] aloc_of(parts, rules@, found@, y, d) ==> exists|i: int|
                old(events)@.len() <= i < final(events)@.len() && event_aloc(final(events)@[i]) == Some(d)
            &&& prim_of(parts, rules@, found@, y) matches Some(p) ==> exists|i: int|
                old(events)@.len() <= i < final(events)@.len() && event_prim(final(events)@[i]) == Some(p)
        }),
{
    let ghost parts = mounted_contents(*pm);
    let info = match PackageScan::get_resource_info(pm, y) {
        Some(info) => info,
        None => {
            assert(final(alocs)@ =~= old(alocs)@.union(Set::new(|d: u64| aloc_of(parts, rules@, found@, y, d))));
            assert(final(queue)@.subrange(0, old(queue)@.len() as int) =~= old(queue)@);
            assert(final(events)@.subrange(0, old(events)@.len() as int) =~= old(events)@);
            assert(event_views(final(events)@) =~= event_views(old(events)@) + visit_events(parts, rules@, found@, y));
            return;
        },
    };
    let ghost refs = info.references@;
    let ghost q0 = queue@;
    let ghost a0 = alocs@;
    let ghost h0 = hashes@;
    let ghost e0 = events@;
    let mut prim: Option<(u64, String)> = None;
    let mut owns_aloc = false;
    let mut k: usize = 0;
    while k < info.references.len()
        invariant
            parts == mounted_contents(*pm),
            lookup(parts, y) is Some,
            refs == refs_of(parts, y),
            refs == info.references@,
            k <= refs.len(),
            q0.len() <= queue@.len(),
            queue@.subrange(0, q0.len() as int) == q0,
            forall|i: int| q0.len() <= i < queue@.len() ==> queued_from(parts, rules@, y, #[trigger] queue@[i]@),
            forall|i: int| q0.len() <= i < queue@.len() ==> pushed_from(parts, rules@, found@, y, #[trigger] queue@[i]@),
            forall|j: int| 0 <= j < k && #[trigger] edge(parts, rules@, y, refs[j]) && counted(parts, rules@, found@, refs[j]) ==> exists|i: int|
                q0.len() <= i < queue@.len() && queue@[i]@ == hex16(normalized_rrid(refs[j])),
            queue@.len() == q0.len() + pushes(parts, rules@, found@, y, refs.take(k as int)).len(),
            forall|i: int| q0.len() <= i < queue@.len() ==>
                #[trigger] queue@[i]@ == hex16(pushes(parts, rules@, found@, y, refs.take(k as int))[i - q0.len()]),
            owns_aloc == exists|j: int| 0 <= j < k && aloc_of(parts, rules@, found@, y, #[trigger] refs[j]),
            hashes@ == if owns_aloc { h0.insert(y) } else { h0 },
            alocs@ == a0.union(Set::new(|d: u64| exists|j: int| 0 <= j < k && refs[j] == d && aloc_of(parts, rules@, found@, y, d))),
            match prim {
                Some(p) => last_prim(parts, rules@, found@, refs.take(k as int)) == Some(p.0)
                    && p.1@ == lookup(parts, p.0).unwrap().0,
                None => last_prim(parts, rules@, found@, refs.take(k as int)) is None,
            },
            info.data_type@ == lookup(parts, y).unwrap().1,
            info.last_partition@ == lookup(parts, y).unwrap().0,
            e0.len() <= events@.len(),
            events@.subrange(0, e0.len() as int) == e0,
            event_views(events@) == event_views(e0) + aloc_events(parts, rules@, found@, y, refs.take(k as int)),
            forall|i: int| e0.len() <= i < events@.len() ==> event_sound(parts, rules@, found@, y, #[trigger] events@[i]),
            forall|j: int| 0 <= j < k && #[trigger] aloc_of(parts, rules@, found@, y, refs[j]) ==> exists|i: int|
                e0.len() <= i < events@.len() && event_aloc(events@[i]) == Some(refs[j]),
        decreases refs.len() - k,
    {
        let dep = info.references[k];
        let ghost qb = queue@;
        let ghost ab = alocs@;
        let ghost prim_before = prim;
        let ghost owns_before = owns_aloc;
        let ghost eb = events@;
        let ghost mut pushed = false;
        let ghost mut reported = false;
        assert(refs.take(k + 1).drop_last() =~= refs.take(k as int));
        assert(refs.take(k + 1).last() == dep);
        assert(refs.contains(dep));
        if !(rules.skip_found_dependencies && found.contains(&dep)) {
            let dep_hex = rrid_to_hex(dep);
            if !text_listed(&rules.excluded, &dep_hex) {
                match PackageScan::get_resource_info(pm, dep) {
                    Some(dep_info) => {
                        assert(counted(parts, rules@, found@, dep));
                        if dep_info.data_type == "PRIM".to_owned() {
                            prim = Some((dep, dep_info.last_partition.clone()));
                        }
                        if text_listed(&rules.followed_types, &dep_info.data_type) {
                            assert(edge(parts, rules@, y, dep));
                            if dep_info.data_type == "ALOC".to_owned() {
                                hashes.insert(y);
                                alocs.insert(dep);
                                owns_aloc = true;
                                events.push(WalkEvent::Aloc {
                                    owner: y,
                                    owner_type: info.data_type.clone(),
                                    owner_partition: info.last_partition.clone(),
                                    aloc: dep,
                                    aloc_partition: dep_info.last_partition.clone(),
                                });
                                proof {
                                    reported = true;
                                }
                                assert(aloc_of(parts, rules@, found@, y, dep));
                                assert(event_views(events@) =~= event_views(eb).push(event_view(events@[events@.len() - 1])));
                                assert(event_view(events@[events@.len() - 1])
                                    == (true, y, lookup(parts, y).unwrap().1, lookup(parts, y).unwrap().0, dep, lookup(parts, dep).unwrap().0));
                                assert(event_sound(parts, rules@, found@, y, events@[events@.len() - 1]));
                                assert(event_aloc(events@[events@.len() - 1]) == Some(dep));
                            }
                            queue.push_back(dep_hex);
                            proof {
                                pushed = true;
                            }
                            assert(queue@[queue@.len() - 1]@ == hex16(normalized_rrid(dep)));
                        }
                    },
                    None => {},
                }
            }
        }
        proof {
            assert(!reported ==> events@ == eb);
            assert(reported ==> events@.len() == eb.len() + 1 && events@.subrange(0, eb.len() as int) == eb
                && event_sound(parts, rules@, found@, y, events@[eb.len() as int])
                && event_aloc(events@[eb.len() as int]) == Some(dep));
            assert(aloc_of(parts, rules@, found@, y, dep) ==> reported);
            assert(event_views(events@) == event_views(e0) + aloc_events(parts, rules@, found@, y, refs.take(k + 1))) by {
                let ak = aloc_events(parts, rules@, found@, y, refs.take(k as int));
                let ak1 = aloc_events(parts, rules@, found@, y, refs.take(k + 1));
                let item = (true, y, lookup(parts, y).unwrap().1, lookup(parts, y).unwrap().0, dep, lookup(parts, dep).unwrap().0);
                assert(ak1 == if aloc_of(parts, rules@, found@, y, dep) { ak.push(item) } else { ak });
                if reported {
                    assert(event_views(e0) + ak.push(item) =~= (event_views(e0) + ak).push(item));
                }
            }
            assert(events@.subrange(0, e0.len() as int) =~= e0) by {
                assert(eb.subrange(0, e0.len() as int) == e0);
                assert forall|i: int| 0 <= i < e0.len() implies events@[i] == eb[i] by {
                    if reported {
                        assert(events@[i] == events@.subrange(0, eb.len() as int)[i]);
                    }
                }
            }
            assert forall|i: int| e0.len() <= i < events@.len() implies event_sound(parts, rules@, found@, y, #[trigger] events@[i]) by {
                if i < eb.len() {
                    if reported {
                        assert(events@[i] == events@.subrange(0, eb.len() as int)[i]);
                    }
                    assert(events@[i] == eb[i]);
                }
            }
            assert forall|j: int| 0 <= j < k + 1 && #[trigger] aloc_of(parts, rules@, found@, y, refs[j]) implies exists|i: int|
                e0.len() <= i < events@.len() && event_aloc(events@[i]) == Some(refs[j]) by {
                if j < k {
                    let i0 = choose|i: int| e0.len() <= i < eb.len() && event_aloc(eb[i]) == Some(refs[j]);
                    if reported {
                        assert(events@[i0] == events@.subrange(0, eb.len() as int)[i0]);
                    }
                    assert(events@[i0] == eb[i0]);
                } else {
                    assert(events@[eb.len() as int] == events@[events@.len() - 1]);
                }
            }
            assert(!pushed ==> queue@ == qb);
            assert(pushed <==> (edge(parts, rules@, y, dep) && counted(parts, rules@, found@, dep)));
            assert({
                let pk = pushes(parts, rules@, found@, y, refs.take(k as int));
                let pk1 = pushes(parts, rules@, found@, y, refs.take(k + 1));
                &&& queue@.len() == q0.len() + pk1.len()
                &&& forall|i: int| q0.len() <= i < queue@.len() ==> #[trigger] queue@[i]@ == hex16(pk1[i - q0.len()])
            }) by {
                let pk = pushes(parts, rules@, found@, y, refs.take(k as int));
                let pk1 = pushes(parts, rules@, found@, y, refs.take(k + 1));
                assert(pk1 == if pushed { pk.push(normalized_rrid(dep)) } else { pk });
                assert forall|i: int| q0.len() <= i < queue@.len() implies #[trigger] queue@[i]@ == hex16(pk1[i - q0.len()]) by {
                    if i < qb.len() {
                        if pushed {
                            assert(queue@[i] == queue@.subrange(0, qb.len() as int)[i]);
                        }
                        assert(queue@[i] == qb[i]);
                        assert(pk1[i - q0.len()] == pk[i - q0.len()]);
                    }
                }
            }
            assert(pushed ==> counted(parts, rules@, found@, dep));
            assert(pushed ==> edge(parts, rules@, y, dep) && queue@.len() == qb.len() + 1
                && queue@[queue@.len() - 1]@ == hex16(normalized_rrid(dep))
                && queue@.subrange(0, qb.len() as int) == qb);
            assert forall|i: int| q0.len() <= i < queue@.len() implies pushed_from(parts, rules@, found@, y, #[trigger] queue@[i]@) by {
                if i < qb.len() {
                    assert(queue@[i] == queue@.subrange(0, qb.len() as int)[i]);
                    assert(queue@[i] == qb[i]);
                    assert(qb[i]@ == queue@[i]@);
                } else {
                    assert(pushed);
                    assert(edge(parts, rules@, y, dep) && counted(parts, rules@, found@, dep) && queue@[i]@ == hex16(normalized_rrid(dep)));
                }
            }
            assert forall|i: int| q0.len() <= i < queue@.len() implies queued_from(parts, rules@, y, #[trigger] queue@[i]@) by {
                if i < qb.len() {
                    assert(queue@[i] == queue@.subrange(0, qb.len() as int)[i]);
                    assert(queue@[i] == qb[i]);
                    assert(qb[i]@ == queue@[i]@);
                } else {
                    assert(pushed);
                    assert(edge(parts, rules@, y, dep) && queue@[i]@ == hex16(normalized_rrid(dep)));
                }
            }
            assert(queue@.subrange(0, q0.len() as int) =~= q0) by {
                assert(qb.subrange(0, q0.len() as int) == q0);
                assert forall|i: int| 0 <= i < q0.len() implies queue@[i] == qb[i] by {}
            }
            assert forall|j: int| 0 <= j < k + 1 && #[trigger] edge(parts, rules@, y, refs[j]) && counted(parts, rules@, found@, refs[j]) implies exists|i: int|
                q0.len() <= i < queue@.len() && queue@[i]@ == hex16(normalized_rrid(refs[j])) by {
                if j < k {
                    let i0 = choose|i: int| q0.len() <= i < qb.len() && qb[i]@ == hex16(normalized_rrid(refs[j]));
                    assert(queue@[i0] == queue@.subrange(0, qb.len() as int)[i0]);
                    assert(queue@[i0] == qb[i0]);
                } else {
                    assert(pushed);
                    assert(queue@.len() == qb.len() + 1);
                    assert(queue@[queue@.len() - 1]@ == hex16(normalized_rrid(refs[j])));
                }
            }
            assert(owns_aloc == exists|j: int| 0 <= j < k + 1 && aloc_of(parts, rules@, found@, y, #[trigger] refs[j])) by {
                if aloc_of(parts, rules@, found@, y, refs[k as int]) {
                    assert(owns_aloc);
                }
                if owns_aloc && !owns_before {
                    assert(aloc_of(parts, rules@, found@, y, refs[k as int]));
                }
            }
            assert(alocs@ =~= a0.union(Set::new(|d: u64| exists|j: int| 0 <= j < k + 1 && refs[j] == d && aloc_of(parts, rules@, found@, y, d)))) by {
                assert forall|d: u64| #[trigger] alocs@.contains(d) <==> a0.union(Set::new(|d: u64| exists|j: int| 0 <= j < k + 1 && refs[j] == d && aloc_of(parts, rules@, found@, y, d))).contains(d) by {
                    if d == dep && aloc_of(parts, rules@, found@, y, d) {
                        assert(refs[k as int] == d);
                    }
                }
            }
        }
        k = k + 1;
    }
    assert(refs.take(refs.len() as int) =~= refs);
    assert(visit_queue(parts, rules@, found@, y) == pushes(parts, rules@, found@, y, refs));
    assert(Set::new(|d: u64| exists|j: int| 0 <= j < refs.len() && refs[j] == d && aloc_of(parts, rules@, found@, y, d))
        =~= Set::new(|d: u64| aloc_of(parts, rules@, found@, y, d)));
    proof {
        assert(owns_aloc == has_aloc(parts, rules@, found@, y)) by {
            if has_aloc(parts, rules@, found@, y) {
                let d = choose|d: u64| aloc_of(parts, rules@, found@, y, d);
                let j = choose|j: int| 0 <= j < refs.len() && refs[j] == d;
                assert(aloc_of(parts, rules@, found@, y, refs[j]));
            }
        }
        assert forall|d: u64| #[trigger] edge(parts, rules@, y, d) && counted(parts, rules@, found@, d) implies exists|i: int|
            q0.len() <= i < queue@.len() && queue@[i]@ == hex16(normalized_rrid(d)) by {
            let j = choose|j: int| 0 <= j < refs.len() && refs[j] == d;
            assert(edge(parts, rules@, y, refs[j]));
        }
    }
    proof {
        assert forall|d: u64| #[trigger] aloc_of(parts, rules@, found@, y, d) implies exists|i: int|
            e0.len() <= i < events@.len() && event_aloc(events@[i]) == Some(d) by {
            let j = choose|j: int| 0 <= j < refs.len() && refs[j] == d;
            assert(aloc_of(parts, rules@, found@, y, refs[j]));
        }
    }
    let ghost ec = events@;
    if owns_aloc {
        match prim {
            Some(p) => {
                prims.insert(p.0);
                events.push(WalkEvent::Prim { owner: y, prim: p.0, partition: p.1 });
                assert(events@[events@.len() - 1] == WalkEvent::Prim { owner: y, prim: p.0, partition: p.1 });
                assert(event_views(events@) =~= event_views(ec).push(event_view(events@[events@.len() - 1])));
            },
            None => {},
        }
    }
    proof {
        assert(events@.subrange(0, ec.len() as int) == ec);
        assert(events@.subrange(0, e0.len() as int) =~= e0) by {
            assert forall|i: int| 0 <= i < e0.len() implies events@[i] == e0[i] by {
                assert(events@[i] == events@.subrange(0, ec.len() as int)[i]);
                assert(ec[i] == ec.subrange(0, e0.len() as int)[i]);
            }
        }
        assert forall|i: int| e0.len() <= i < events@.len() implies event_sound(parts, rules@, found@, y, #[trigger] events@[i]) by {
            if i < ec.len() {
                assert(events@[i] == events@.subrange(0, ec.len() as int)[i]);
            }
        }
        assert forall|d: u64| #[trigger] aloc_of(parts, rules@, found@, y, d) implies exists|i: int|
            e0.len() <= i < events@.len() && event_aloc(events@[i]) == Some(d) by {
            let i0 = choose|i: int| e0.len() <= i < ec.len() && event_aloc(ec[i]) == Some(d);
            assert(events@[i0] == events@.subrange(0, ec.len() as int)[i0]);
        }
        if prim_of(parts, rules@, found@, y) is Some {
            assert(events@.len() == ec.len() + 1);
            assert(event_prim(events@[ec.len() as int]) == prim_of(parts, rules@, found@, y));
        }
        assert(event_views(events@) =~= event_views(e0) + visit_events(parts, rules@, found@, y)) by {
            let al = aloc_events(parts, rules@, found@, y, refs);
            assert(event_views(ec) == event_views(e0) + al);
            if prim_of(parts, rules@, found@, y) is Some {
                assert(event_views(events@) == event_views(ec).push(event_view(events@[ec.len() as int])));
            } else {
                assert(events@ == ec);
            }
        }
    }
}

/// Why a walk stopped.
#[derive(Clone, Copy, PartialEq, Eq, Structural, Debug)]
pub enum WalkError {
    /// A resource to visit is not spelled as a valid runtime resource identifier.
    InvalidRuntimeResourceId,
}

/// `t` is one of the texts in the queue.
pub open spec fn in_queue(q: Seq<String>, t: Seq<char>) -> bool {
    exists|i: int| 0 <= i < q.len() && #[trigger] q[i]@ == t
}

/// `t` spells a resource that an edge from a visited resource leads to.
pub open spec fn queued_by(parts: MountedParts, rules: WalkPolicy, found: Set<u64>, t: Seq<char>) -> bool {
    exists|y: u64| found.contains(y) && queued_from(parts, rules, y, t)
}

proof fn lemma_u64_set_bound(s: Set<u64>)
    requires
        s.finite(),
    ensures
        s.len() <= 0x1_0000_0000_0000_0000,
{
    let f = |x: u64| x as int;
    let m = s.map(f);
    assert(vstd::relations::injective_on(f, s));
    vstd::set_lib::lemma_map_size(s, m, f);
    vstd::set_lib::lemma_int_range(0, 0x1_0000_0000_0000_0000);
    assert(m.subset_of(vstd::set_lib::set_int_range(0, 0x1_0000_0000_0000_0000)));
    vstd::set_lib::lemma_len_subset(m, vstd::set_lib::set_int_range(0, 0x1_0000_0000_0000_0000));
}

proof fn lemma_parse_queued(parts: MountedParts, rules: WalkPolicy, y: u64, d: u64)
    ensures
        parse_rrid_hex(hex16(normalized_rrid(d))) == if rrid_is_valid(d) { Some(d) } else { None },
{
    law_hex_round_trip(normalized_rrid(d));
    law_hex_round_trip(d);
    assert(!rrid_is_valid(crate::package::resource_ids::invalid_rrid()));
}

/// Every visited resource is a valid identifier reachable from `start`.
pub open spec fn found_inv(parts: MountedParts, rules: WalkPolicy, start: u64, found: Set<u64>) -> bool {
    forall|y: u64| #[trigger] found.contains(y) ==> rrid_is_valid(y) && reachable(parts, rules, start, y)
}

/// Every queued text spells a resource an edge from a visited resource leads to.
pub open spec fn queue_inv(parts: MountedParts, rules: WalkPolicy, found: Set<u64>, q: Seq<String>) -> bool {
    forall|i: int| 0 <= i < q.len() ==> queued_by(parts, rules, found, #[trigger] q[i]@)
}

/// Every edge from a visited resource leads to a visited resource or to a queued one.
pub open spec fn closure_inv(parts: MountedParts, rules: WalkPolicy, found: Set<u64>, q: Seq<String>) -> bool {
    forall|y: u64, d: u64| #[trigger] found.contains(y) && #[trigger] edge(parts, rules, y, d) ==>
        found.contains(normalized_rrid(d)) || in_queue(q, hex16(normalized_rrid(d)))
}

/// What the walk has recorded, in terms of the visited resources.
pub open spec fn outputs_inv(
    parts: MountedParts,
    rules: WalkPolicy,
    start: u64,
    found: Set<u64>,
    h0: Set<u64>,
    a0: Set<u64>,
    p0: Set<u64>,
    h: Set<u64>,
    a: Set<u64>,
    p: Set<u64>,
) -> bool {
    &&& !rules.2 ==> {
        &&& h == h0.union(Set::new(|y: u64| found.contains(y) && lookup(parts, y) is Some && has_aloc(parts, rules, Set::empty(), y)))
        &&& a == a0.union(Set::new(|d: u64| exists|y: u64| found.contains(y) && aloc_of(parts, rules, Set::empty(), y, d)))
        &&& p == p0.union(Set::new(|x: u64| exists|y: u64| found.contains(y) && prim_of(parts, rules, Set::empty(), y) == Some(x)))
    }
    &&& rules.2 ==> {
        &&& h0.subset_of(h) && a0.subset_of(a) && p0.subset_of(p)
        &&& h.subset_of(h0.union(Set::new(|y: u64| found.contains(y) && lookup(parts, y) is Some && has_aloc(parts, rules, Set::empty(), y))))
        &&& a.subset_of(a0.union(Set::new(|d: u64| exists|y: u64| found.contains(y) && aloc_of(parts, rules, Set::empty(), y, d) && d != start)))
        &&& p.subset_of(p0.union(Set::new(|x: u64| exists|y: u64| found.contains(y) && lookup(parts, y) is Some
            && refs_of(parts, y).contains(x) && dep_ok(parts, rules, x) && type_of(parts, x) == "PRIM"@)))
    }
}

/// With references to visited resources passed over: every valid ALOC-like resource
/// other than the start that is visited or queued has been recorded.
pub open spec fn aloc_inv(
    parts: MountedParts,
    rules: WalkPolicy,
    start: u64,
    found: Set<u64>,
    q: Seq<String>,
    a: Set<u64>,
) -> bool {
    rules.2 ==> forall|d: u64| rrid_is_valid(d) && #[trigger] aloc_like(parts, rules, d) && d != start
        && (found.contains(d) || in_queue(q, hex16(d))) ==> a.contains(d)
}

/// What `visit` guarantees, restated over plain sets and sequences.
pub open spec fn visit_post(
    parts: MountedParts,
    rules: WalkPolicy,
    found: Set<u64>,
    y: u64,
    q: Seq<String>,
    qf: Seq<String>,
    h: Set<u64>,
    hf: Set<u64>,
    a: Set<u64>,
    af: Set<u64>,
    p: Set<u64>,
    pf: Set<u64>,
) -> bool {
    &&& hf == if lookup(parts, y) is Some && has_aloc(parts, rules, found, y) { h.insert(y) } else { h }
    &&& af == a.union(Set::new(|d: u64| aloc_of(parts, rules, found, y, d)))
    &&& pf == match prim_of(parts, rules, found, y) {
        Some(x) => p.insert(x),
        None => p,
    }
    &&& q.len() <= qf.len()
    &&& qf.subrange(0, q.len() as int) == q
    &&& forall|i: int| q.len() <= i < qf.len() ==> queued_from(parts, rules, y, #[trigger] qf[i]@)
    &&& forall|i: int| q.len() <= i < qf.len() ==> pushed_from(parts, rules, found, y, #[trigger] qf[i]@)
    &&& forall|d: u64| #[trigger] edge(parts, rules, y, d) && counted(parts, rules, found, d) ==> exists|i: int|
        q.len() <= i < qf.len() && qf[i]@ == hex16(normalized_rrid(d))
}

/// The events so far are events of the walk about visited resources and, when visited
/// resources are not passed over, report every ALOC and recorded PRIM of them.
pub open spec fn events_inv(parts: MountedParts, rules: WalkPolicy, found: Set<u64>, ev: Seq<WalkEvent>) -> bool {
    &&& forall|i: int| 0 <= i < ev.len() ==> found.contains(event_owner(#[trigger] ev[i])) && walk_event_ok(parts, rules, ev[i])
    &&& !rules.2 ==> forall|y: u64, d: u64| found.contains(y) && #[trigger] aloc_of(parts, rules, Set::empty(), y, d) ==> has_aloc_event(ev, y, d)
    &&& !rules.2 ==> forall|y: u64| found.contains(y) && #[trigger] prim_of(parts, rules, Set::empty(), y) is Some
        ==> has_prim_event(ev, y, prim_of(parts, rules, Set::empty(), y).unwrap())
}

/// Each event of a walk from `start` is about a resource the walk reaches and reports
/// what the resource tables hold.
pub open spec fn walk_events_sound(parts: MountedParts, rules: WalkPolicy, start: u64, ev: Seq<WalkEvent>) -> bool {
    forall|i: int| 0 <= i < ev.len() ==> reachable(parts, rules, start, event_owner(#[trigger] ev[i]))
        && walk_event_ok(parts, rules, ev[i])
}

/// Every ALOC and every PRIM that a resource reached from `start` has is reported by
/// some event.
pub open spec fn walk_events_complete(parts: MountedParts, rules: WalkPolicy, start: u64, ev: Seq<WalkEvent>) -> bool {
    &&& forall|y: u64, d: u64| reachable(parts, rules, start, y) && #[trigger] aloc_of(parts, rules, Set::empty(), y, d)
        ==> has_aloc_event(ev, y, d)
    &&& forall|y: u64| reachable(parts, rules, start, y) && #[trigger] prim_of(parts, rules, Set::empty(), y) is Some
        ==> has_prim_event(ev, y, prim_of(parts, rules, Set::empty(), y).unwrap())
}

/// What `visit` guarantees of the events, restated over sequences.
pub open spec fn visit_events_post(parts: MountedParts, rules: WalkPolicy, found: Set<u64>, y: u64, e: Seq<WalkEvent>, ef: Seq<WalkEvent>) -> bool {
    &&& e.len() <= ef.len()
    &&& ef.subrange(0, e.len() as int) == e
    &&& forall|i: int| e.len() <= i < ef.len() ==> event_sound(parts, rules, found, y, #[trigger] ef[i])
    &&& forall|d: u64| #[trigger] aloc_of(parts, rules, found, y, d) ==> exists|i: int|
        e.len() <= i < ef.len() && event_aloc(ef[i]) == Some(d)
    &&& prim_of(parts, rules, found, y) matches Some(p) ==> exists|i: int|
        e.len() <= i < ef.len() && event_prim(ef[i]) == Some(p)
}

/// How what a visit counts, having visited `f`, relates to what a walk that passes over
/// nothing counts.
proof fn lemma_visit_counts(
    parts: MountedParts,
    rules: WalkPolicy,
    f: Set<u64>,
    y: u64,
)
    ensures
        forall|d: u64| #[trigger] aloc_of(parts, rules, f, y, d) ==> aloc_of(parts, rules, Set::empty(), y, d),
        !rules.2 ==> forall|d: u64| #[trigger] aloc_of(parts, rules, f, y, d) == aloc_of(parts, rules, Set::empty(), y, d),
        !rules.2 ==> prim_of(parts, rules, f, y) == prim_of(parts, rules, Set::empty(), y),
        prim_of(parts, rules, f, y) matches Some(p) ==> {
            &&& lookup(parts, y) is Some
            &&& refs_of(parts, y).contains(p)
            &&& dep_ok(parts, rules, p)
            &&& type_of(parts, p) == "PRIM"@
        },
{
    if lookup(parts, y) is Some {
        lemma_last_prim_member(parts, rules, f, refs_of(parts, y));
        if !rules.2 {
            lemma_last_prim_indep(parts, rules, f, refs_of(parts, y));
            assert(has_aloc(parts, rules, f, y) == has_aloc(parts, rules, Set::empty(), y)) by {
                if has_aloc(parts, rules, f, y) {
                    let d = choose|d: u64| aloc_of(parts, rules, f, y, d);
                    assert(aloc_of(parts, rules, Set::empty(), y, d));
                }
                if has_aloc(parts, rules, Set::empty(), y) {
                    let d = choose|d: u64| aloc_of(parts, rules, Set::empty(), y, d);
                    assert(aloc_of(parts, rules, f, y, d));
                }
            }
        }
    }
}

/// Visiting a newly found resource keeps the invariant of the events.
proof fn lemma_events_after_visit(
    parts: MountedParts,
    rules: WalkPolicy,
    fb: Set<u64>,
    y: u64,
    e: Seq<WalkEvent>,
    ef: Seq<WalkEvent>,
)
    requires
        events_inv(parts, rules, fb, e),
        visit_events_post(parts, rules, fb.insert(y), y, e, ef),
    ensures
        events_inv(parts, rules, fb.insert(y), ef),
{
    let f = fb.insert(y);
    lemma_visit_counts(parts, rules, f, y);
    assert forall|i: int| 0 <= i < ef.len() implies f.contains(event_owner(#[trigger] ef[i])) && walk_event_ok(parts, rules, ef[i]) by {
        if i < e.len() {
            assert(ef[i] == ef.subrange(0, e.len() as int)[i]);
            assert(ef[i] == e[i]);
        } else {
            assert(event_sound(parts, rules, f, y, ef[i]));
            match ef[i] {
                WalkEvent::Aloc { owner, owner_type, owner_partition, aloc, aloc_partition } => {
                    assert(aloc_of(parts, rules, f, y, aloc));
                    assert(aloc_of(parts, rules, Set::empty(), y, aloc));
                },
                WalkEvent::Prim { owner, prim, partition } => {
                    assert(prim_of(parts, rules, f, y) == Some(prim));
                },
            }
        }
    }
    if !rules.2 {
        assert forall|y1: u64, d: u64| f.contains(y1) && #[trigger] aloc_of(parts, rules, Set::empty(), y1, d) implies has_aloc_event(ef, y1, d) by {
            if y1 == y {
                assert(aloc_of(parts, rules, f, y, d));
                let i = choose|i: int| e.len() <= i < ef.len() && event_aloc(ef[i]) == Some(d);
                assert(event_sound(parts, rules, f, y, ef[i]));
            } else {
                assert(has_aloc_event(e, y1, d));
                let i = choose|i: int| 0 <= i < e.len() && event_owner(e[i]) == y1 && #[trigger] event_aloc(e[i]) == Some(d);
                assert(ef[i] == ef.subrange(0, e.len() as int)[i]);
            }
        }
        assert forall|y1: u64| f.contains(y1) && #[trigger] prim_of(parts, rules, Set::empty(), y1) is Some
            implies has_prim_event(ef, y1, prim_of(parts, rules, Set::empty(), y1).unwrap()) by {
            let p = prim_of(parts, rules, Set::empty(), y1).unwrap();
            if y1 == y {
                if lookup(parts, y) is Some {
                    lemma_last_prim_indep(parts, rules, f, refs_of(parts, y));
                }
                assert(has_aloc(parts, rules, f, y) == has_aloc(parts, rules, Set::empty(), y)) by {
                    if has_aloc(parts, rules, f, y) {
                        let d = choose|d: u64| aloc_of(parts, rules, f, y, d);
                        assert(aloc_of(parts, rules, Set::empty(), y, d));
                    }
                    if has_aloc(parts, rules, Set::empty(), y) {
                        let d = choose|d: u64| aloc_of(parts, rules, Set::empty(), y, d);
                        assert(aloc_of(parts, rules, f, y, d));
                    }
                }
                assert(prim_of(parts, rules, f, y) == Some(p));
                let i = choose|i: int| e.len() <= i < ef.len() && event_prim(ef[i]) == Some(p);
                assert(event_sound(parts, rules, f, y, ef[i]));
            } else {
                assert(has_prim_event(e, y1, p));
                let i = choose|i: int| 0 <= i < e.len() && event_owner(e[i]) == y1 && #[trigger] event_prim(e[i]) == Some(p);
                assert(ef[i] == ef.subrange(0, e.len() as int)[i]);
            }
        }
    }
}

/// Visiting a newly found resource keeps the walk's invariants.
proof fn lemma_after_visit(
    parts: MountedParts,
    rules: WalkPolicy,
    start: u64,
    fb: Set<u64>,
    y: u64,
    q: Seq<String>,
    qf: Seq<String>,
    h0: Set<u64>,
    a0: Set<u64>,
    p0: Set<u64>,
    h: Set<u64>,
    hf: Set<u64>,
    a: Set<u64>,
    af: Set<u64>,
    p: Set<u64>,
    pf: Set<u64>,
)
    requires
        !fb.contains(y),
        rrid_is_valid(y),
        reachable(parts, rules, start, y),
        found_inv(parts, rules, start, fb),
        queue_inv(parts, rules, fb, q),
        forall|y1: u64, d: u64| #[trigger] fb.contains(y1) && #[trigger] edge(parts, rules, y1, d) ==>
            fb.contains(normalized_rrid(d)) || normalized_rrid(d) == y || in_queue(q, hex16(normalized_rrid(d))),
        outputs_inv(parts, rules, start, fb, h0, a0, p0, h, a, p),
        fb.insert(y).contains(start),
        aloc_inv(parts, rules, start, fb.insert(y), q, a),
        visit_post(parts, rules, fb.insert(y), y, q, qf, h, hf, a, af, p, pf),
    ensures
        found_inv(parts, rules, start, fb.insert(y)),
        queue_inv(parts, rules, fb.insert(y), qf),
        closure_inv(parts, rules, fb.insert(y), qf),
        outputs_inv(parts, rules, start, fb.insert(y), h0, a0, p0, hf, af, pf),
        aloc_inv(parts, rules, start, fb.insert(y), qf, af),
{
    let f = fb.insert(y);
    assert forall|i: int| 0 <= i < qf.len() implies queued_by(parts, rules, f, #[trigger] qf[i]@) by {
        if i < q.len() {
            assert(qf[i] == qf.subrange(0, q.len() as int)[i]);
            assert(queued_by(parts, rules, fb, q[i]@));
            let y1 = choose|y1: u64| fb.contains(y1) && queued_from(parts, rules, y1, q[i]@);
            assert(f.contains(y1));
        } else {
            assert(queued_from(parts, rules, y, qf[i]@));
            assert(f.contains(y));
        }
    }
    assert forall|y1: u64, d: u64| #[trigger] f.contains(y1) && #[trigger] edge(parts, rules, y1, d) implies
        f.contains(normalized_rrid(d)) || in_queue(qf, hex16(normalized_rrid(d))) by {
        if y1 == y {
            if counted(parts, rules, f, d) {
                let i = choose|i: int| q.len() <= i < qf.len() && qf[i]@ == hex16(normalized_rrid(d));
            } else {
                assert(f.contains(d));
                assert(rrid_is_valid(d));
            }
        } else {
            assert(fb.contains(y1));
            if in_queue(q, hex16(normalized_rrid(d))) {
                let i = choose|i: int| 0 <= i < q.len() && #[trigger] q[i]@ == hex16(normalized_rrid(d));
                assert(qf[i] == qf.subrange(0, q.len() as int)[i]);
            }
        }
    }
    if !rules.2 {
        assert(has_aloc(parts, rules, f, y) == has_aloc(parts, rules, Set::empty(), y)) by {
            if has_aloc(parts, rules, f, y) {
                let d = choose|d: u64| aloc_of(parts, rules, f, y, d);
                assert(aloc_of(parts, rules, Set::empty(), y, d));
            }
            if has_aloc(parts, rules, Set::empty(), y) {
                let d = choose|d: u64| aloc_of(parts, rules, Set::empty(), y, d);
                assert(aloc_of(parts, rules, f, y, d));
            }
        }
        if lookup(parts, y) is Some {
            lemma_last_prim_indep(parts, rules, f, refs_of(parts, y));
        }
        assert(prim_of(parts, rules, f, y) == prim_of(parts, rules, Set::empty(), y));
        assert(hf =~= h0.union(Set::new(|y1: u64| f.contains(y1) && lookup(parts, y1) is Some && has_aloc(parts, rules, Set::empty(), y1))));
        let ta = a0.union(Set::new(|d: u64| exists|y1: u64| f.contains(y1) && aloc_of(parts, rules, Set::empty(), y1, d)));
        assert forall|d: u64| #[trigger] af.contains(d) <==> ta.contains(d) by {
            if af.contains(d) {
                if a.contains(d) {
                    if !a0.contains(d) {
                        let y1 = choose|y1: u64| fb.contains(y1) && aloc_of(parts, rules, Set::empty(), y1, d);
                        assert(f.contains(y1));
                    }
                } else {
                    assert(aloc_of(parts, rules, f, y, d));
                    assert(aloc_of(parts, rules, Set::empty(), y, d));
                    assert(f.contains(y));
                }
            }
            if ta.contains(d) && !a0.contains(d) {
                let y1 = choose|y1: u64| f.contains(y1) && aloc_of(parts, rules, Set::empty(), y1, d);
                if y1 == y {
                    assert(aloc_of(parts, rules, f, y, d));
                } else {
                    assert(fb.contains(y1));
                    assert(a.contains(d));
                }
            }
        }
        assert(af =~= ta);
        let tp = p0.union(Set::new(|x: u64| exists|y1: u64| f.contains(y1) && prim_of(parts, rules, Set::empty(), y1) == Some(x)));
        assert forall|x: u64| #[trigger] pf.contains(x) <==> tp.contains(x) by {
            if pf.contains(x) {
                if p.contains(x) {
                    if !p0.contains(x) {
                        let y1 = choose|y1: u64| fb.contains(y1) && prim_of(parts, rules, Set::empty(), y1) == Some(x);
                        assert(f.contains(y1));
                    }
                } else {
                    assert(prim_of(parts, rules, Set::empty(), y) == Some(x));
                    assert(f.contains(y));
                }
            }
            if tp.contains(x) && !p0.contains(x) {
                let y1 = choose|y1: u64| f.contains(y1) && prim_of(parts, rules, Set::empty(), y1) == Some(x);
                if y1 == y {
                } else {
                    assert(fb.contains(y1));
                    assert(p.contains(x));
                }
            }
        }
        assert(pf =~= tp);
    } else {
        assert forall|x: u64| #[trigger] hf.contains(x) implies h0.union(Set::new(|y1: u64| f.contains(y1) && lookup(parts, y1) is Some && has_aloc(parts, rules, Set::empty(), y1))).contains(x) by {
            if x == y && !h.contains(x) {
                let d = choose|d: u64| aloc_of(parts, rules, f, y, d);
                assert(aloc_of(parts, rules, Set::empty(), y, d));
            }
        }
        assert forall|x: u64| #[trigger] af.contains(x) implies a0.union(Set::new(|d: u64| exists|y1: u64| f.contains(y1) && aloc_of(parts, rules, Set::empty(), y1, d) && d != start)).contains(x) by {
            let ta = a0.union(Set::new(|d: u64| exists|y1: u64| fb.contains(y1) && aloc_of(parts, rules, Set::empty(), y1, d) && d != start));
            if a.contains(x) {
                assert(ta.contains(x));
                if !a0.contains(x) {
                    let y1 = choose|y1: u64| fb.contains(y1) && aloc_of(parts, rules, Set::empty(), y1, x) && x != start;
                    assert(f.contains(y1));
                }
            } else {
                assert(aloc_of(parts, rules, f, y, x));
                assert(aloc_of(parts, rules, Set::empty(), y, x));
                assert(f.contains(y));
                assert(x != start);
            }
        }
        assert forall|d: u64| rrid_is_valid(d) && #[trigger] aloc_like(parts, rules, d) && d != start
            && (f.contains(d) || in_queue(qf, hex16(d))) implies af.contains(d) by {
            if !a.contains(d) {
                assert(!f.contains(d));
                assert(!in_queue(q, hex16(d)));
                let i = choose|i: int| 0 <= i < qf.len() && #[trigger] qf[i]@ == hex16(d);
                if i < q.len() {
                    assert(qf[i] == qf.subrange(0, q.len() as int)[i]);
                    assert(q[i]@ == hex16(d));
                }
                assert(pushed_from(parts, rules, f, y, qf[i]@));
                let d2 = choose|d2: u64| edge(parts, rules, y, d2) && counted(parts, rules, f, d2) && qf[i]@ == hex16(normalized_rrid(d2));
                lemma_parse_queued(parts, rules, y, d2);
                law_hex_round_trip(d);
                assert(d2 == d);
                assert(aloc_of(parts, rules, f, y, d));
            }
        }
        assert forall|x: u64| #[trigger] pf.contains(x) implies p0.union(Set::new(|x: u64| exists|y1: u64| f.contains(y1) && lookup(parts, y1) is Some
            && refs_of(parts, y1).contains(x) && dep_ok(parts, rules, x) && type_of(parts, x) == "PRIM"@)).contains(x) by {
            let tp = p0.union(Set::new(|x: u64| exists|y1: u64| fb.contains(y1) && lookup(parts, y1) is Some
                && refs_of(parts, y1).contains(x) && dep_ok(parts, rules, x) && type_of(parts, x) == "PRIM"@));
            if p.contains(x) {
                assert(tp.contains(x));
                if !p0.contains(x) {
                    let y1 = choose|y1: u64| fb.contains(y1) && lookup(parts, y1) is Some
                        && refs_of(parts, y1).contains(x) && dep_ok(parts, rules, x) && type_of(parts, x) == "PRIM"@;
                    assert(f.contains(y1));
                }
            } else {
                assert(prim_of(parts, rules, f, y) == Some(x));
                lemma_last_prim_member(parts, rules, f, refs_of(parts, y));
                assert(f.contains(y));
            }
        }
    }
}

/// Walks the dependency graph from the resource spelled `start`, breadth first, adding to
/// `hashes` the visited resources that own ALOCs, to `alocs` those ALOCs and to `prims`
/// the PRIM recorded for each owner, and returns the events of the visits in the order of
/// the walk. The walk fails when `start`, unless excluded, is not a valid identifier, or
/// when an edge from a reachable resource leads to a reference that is not one.
pub fn walk_dependencies(
    pm: &PartitionManager,
    rules: &WalkRules,
    start: &String,
    hashes: &mut HashSet<u64>,
    alocs: &mut HashSet<u64>,
    prims: &mut HashSet<u64>,
) -> (res: Result<Vec<WalkEvent>, WalkError>)
    ensures
        ({
            let parts = mounted_contents(*pm);
            let skipped = rules@.0.contains(start@);
            let id0 = parse_rrid_hex(start@);
            &&& res is Err <==> (!skipped && (id0 is None || bad_edge(parts, rules@, id0.unwrap())))
            &&& res is Ok && skipped ==> final(hashes)@ == old(hashes)@ && final(alocs)@ == old(alocs)@
                && final(prims)@ == old(prims)@
            &&& res is Ok && !skipped && !rules.skip_found_dependencies ==> {
                &&& final(hashes)@ == old(hashes)@.union(aloc_owners(parts, rules@, id0.unwrap()))
                &&& final(alocs)@ == old(alocs)@.union(reachable_alocs(parts, rules@, id0.unwrap()))
                &&& final(prims)@ == old(prims)@.union(reachable_prims(parts, rules@, id0.unwrap()))
            }
            &&& res is Ok && !skipped ==> walk_events_sound(parts, rules@, id0.unwrap(), res->Ok_0@)
            &&& res is Ok && skipped ==> res->Ok_0@.len() == 0
            &&& res is Ok && !skipped && !rules.skip_found_dependencies
                ==> walk_events_complete(parts, rules@, id0.unwrap(), res->Ok_0@)
            &&& res is Ok && !skipped ==> exists|order: Seq<u64>| #[trigger] is_walk_order(parts, rules@, id0.unwrap(), order)
                && is_visit_order(parts, rules@, id0.unwrap(), order)
                && event_views(res->Ok_0@) == walk_event_stream(parts, rules@, order, order.len())
                && walk_stream(parts, rules@, order, order.len()).len() <= refs_total(parts, order, order.len())
                && (rules.skip_found_dependencies ==> final(hashes)@ == old(hashes)@.union(ordered_owners(parts, rules@, order))
                    && final(prims)@ == old(prims)@.union(ordered_prims(parts, rules@, order)))
            &&& res is Ok && !skipped && rules.skip_found_dependencies ==> {
                &&& final(hashes)@.subset_of(old(hashes)@.union(aloc_owners(parts, rules@, id0.unwrap())))
                &&& final(alocs)@ == old(alocs)@.union(reachable_alocs(parts, rules@, id0.unwrap()).remove(id0.unwrap()))
                &&& final(prims)@.subset_of(old(prims)@.union(referenced_prims(parts, rules@, id0.unwrap())))
            }
        }),
{
    let ghost parts = mounted_contents(*pm);
    let mut events: Vec<WalkEvent> = Vec::new();
    if text_listed(&rules.excluded, start) {
        return Ok(events);
    }
    let id0 = match rrid_from_hex(start.as_str()) {
        Some(v) => v,
        None => {
            return Err(WalkError::InvalidRuntimeResourceId);
        },
    };
    let ghost h0 = hashes@;
    let ghost a0 = alocs@;
    let ghost p0 = prims@;
    let mut found: HashSet<u64> = HashSet::new();
    let mut queue: VecDeque<String> = VecDeque::new();
    found.insert(id0);
    proof {
        assert(reachable(parts, rules@, id0, id0));
        assert(outputs_inv(parts, rules@, id0, Set::empty(), h0, a0, p0, h0, a0, p0)) by {
            assert(h0.union(Set::new(|y: u64| Set::<u64>::empty().contains(y) && lookup(parts, y) is Some && has_aloc(parts, rules@, Set::empty(), y))) =~= h0);
            assert(a0.union(Set::new(|d: u64| exists|y: u64| Set::<u64>::empty().contains(y) && aloc_of(parts, rules@, Set::empty(), y, d))) =~= a0);
            assert(p0.union(Set::new(|x: u64| exists|y: u64| Set::<u64>::empty().contains(y) && prim_of(parts, rules@, Set::empty(), y) == Some(x))) =~= p0);
            assert(p0.union(Set::new(|x: u64| exists|y1: u64| Set::<u64>::empty().contains(y1) && lookup(parts, y1) is Some
                && refs_of(parts, y1).contains(x) && dep_ok(parts, rules@, x) && type_of(parts, x) == "PRIM"@)) =~= p0);
        }
        assert(Set::<u64>::empty().insert(id0) =~= found@);
    }
    let ghost q_before = queue@;
    let ghost h_before = hashes@;
    let ghost a_before = alocs@;
    let ghost p_before = prims@;
    let ghost e_before = events@;
    let ghost mut order: Seq<u64> = seq![id0];
    assert(events_inv(parts, rules@, Set::empty(), e_before));
    visit(pm, rules, &found, id0, &mut queue, hashes, alocs, prims, &mut events);
    proof {
        lemma_after_visit(parts, rules@, id0, Set::empty(), id0, q_before, queue@, h0, a0, p0,
            h_before, hashes@, a_before, alocs@, p_before, prims@);
        lemma_events_after_visit(parts, rules@, Set::empty(), id0, e_before, events@);
        let e = Seq::<u64>::empty();
        assert(e.push(id0) =~= order);
        lemma_ordered_push(parts, rules@, e, id0);
        assert(ordered_owners(parts, rules@, e) =~= Set::empty());
        assert(ordered_prims(parts, rules@, e) =~= Set::empty());
        assert(order.to_set() =~= found@) by {
            assert(order[0] == id0);
        }
        assert(h0.union(Set::empty()) =~= h0);
        assert(h0.insert(id0) =~= h0.union(Set::empty().insert(id0)));
        assert forall|x: u64| p0.insert(x) =~= p0.union(Set::empty().insert(x)) by {}
        assert(p0.union(Set::empty()) =~= p0);
        assert(order.take(1) =~= order);
        assert(visited_upto(order, 0) == found@);
        assert(walk_stream(parts, rules@, order, 0) == Seq::<u64>::empty());
        assert(walk_stream(parts, rules@, order, 1) =~= visit_queue(parts, rules@, found@, id0));
        assert(walk_event_stream(parts, rules@, order, 0) == Seq::<EventView>::empty());
        assert(event_views(e_before) =~= Seq::<EventView>::empty());
        assert(walk_event_stream(parts, rules@, order, 1) =~= visit_events(parts, rules@, found@, id0));
    }
    let ghost mut consumed: int = 0;
    loop
        invariant_except_break
            parts == mounted_contents(*pm),
            !rules@.0.contains(start@),
            parse_rrid_hex(start@) == Some(id0),
            found@.finite(),
            found@.contains(id0),
            found_inv(parts, rules@, id0, found@),
            queue_inv(parts, rules@, found@, queue@),
            closure_inv(parts, rules@, found@, queue@),
            outputs_inv(parts, rules@, id0, found@, h0, a0, p0, hashes@, alocs@, prims@),
            aloc_inv(parts, rules@, id0, found@, queue@, alocs@),
            events_inv(parts, rules@, found@, events@),
            order.len() > 0,
            order[0] == id0,
            order.no_duplicates(),
            order.to_set() == found@,
            rules@.2 ==> hashes@ == h0.union(ordered_owners(parts, rules@, order))
                && prims@ == p0.union(ordered_prims(parts, rules@, order)),
            0 <= consumed <= walk_stream(parts, rules@, order, order.len()).len(),
            queue@.len() == walk_stream(parts, rules@, order, order.len()).len() - consumed,
            forall|i: int| 0 <= i < queue@.len() ==>
                #[trigger] queue@[i]@ == hex16(walk_stream(parts, rules@, order, order.len())[consumed + i]),
            forall|i: int| 0 <= i < consumed ==> order.contains(#[trigger] walk_stream(parts, rules@, order, order.len())[i]),
            forall|k: int| 1 <= k < order.len() ==> #[trigger] walk_step(parts, rules@, order, k),
            event_views(events@) == walk_event_stream(parts, rules@, order, order.len()),
        ensures
            parts == mounted_contents(*pm),
            !rules@.0.contains(start@),
            parse_rrid_hex(start@) == Some(id0),
            found@.contains(id0),
            found_inv(parts, rules@, id0, found@),
            closure_inv(parts, rules@, found@, Seq::empty()),
            outputs_inv(parts, rules@, id0, found@, h0, a0, p0, hashes@, alocs@, prims@),
            aloc_inv(parts, rules@, id0, found@, queue@, alocs@),
            events_inv(parts, rules@, found@, events@),
            order.len() > 0,
            order[0] == id0,
            order.no_duplicates(),
            order.to_set() == found@,
            rules@.2 ==> hashes@ == h0.union(ordered_owners(parts, rules@, order))
                && prims@ == p0.union(ordered_prims(parts, rules@, order)),
            0 <= consumed <= walk_stream(parts, rules@, order, order.len()).len(),
            queue@.len() == walk_stream(parts, rules@, order, order.len()).len() - consumed,
            forall|i: int| 0 <= i < queue@.len() ==>
                #[trigger] queue@[i]@ == hex16(walk_stream(parts, rules@, order, order.len())[consumed + i]),
            forall|i: int| 0 <= i < consumed ==> order.contains(#[trigger] walk_stream(parts, rules@, order, order.len())[i]),
            forall|k: int| 1 <= k < order.len() ==> #[trigger] walk_step(parts, rules@, order, k),
            event_views(events@) == walk_event_stream(parts, rules@, order, order.len()),
            queue@.len() == 0,
        decreases 0x1_0000_0000_0000_0000 - found@.len(), queue@.len(),
    {
        let ghost fb = found@;
        let ghost qb = queue@;
        let t = match queue.pop_front() {
            Some(t) => t,
            None => {
                assert(queue@ =~= Seq::<String>::empty());
                break;
            },
        };
        proof {
            assert(qb[0] == t);
            assert(queued_by(parts, rules@, fb, qb[0]@));
        }
        let ghost y1 = choose|y1: u64| fb.contains(y1) && queued_from(parts, rules@, y1, t@);
        let ghost d1 = choose|d: u64| edge(parts, rules@, y1, d) && t@ == hex16(normalized_rrid(d));
        if text_listed(&rules.excluded, &t) {
            proof {
                assert(false);
            }
            continue;
        }
        let y = match rrid_from_hex(t.as_str()) {
            Some(v) => v,
            None => {
                proof {
                    lemma_parse_queued(parts, rules@, y1, d1);
                    assert(bad_edge(parts, rules@, id0));
                }
                return Err(WalkError::InvalidRuntimeResourceId);
            },
        };
        proof {
            lemma_parse_queued(parts, rules@, y1, d1);
            assert(normalized_rrid(d1) == y);
            assert(rrid_is_valid(y));
            assert(walk_stream(parts, rules@, order, order.len())[consumed] == y) by {
                let x = walk_stream(parts, rules@, order, order.len())[consumed];
                assert(qb[0]@ == hex16(x));
                law_hex_round_trip(x);
                law_hex_round_trip(y);
            }
            assert forall|s: Set<u64>| #[trigger] closed(parts, rules@, s) && s.contains(id0) implies s.contains(y) by {
                assert(s.contains(y1));
            }
            assert(reachable(parts, rules@, id0, y));
            assert forall|ya: u64, d: u64| #[trigger] fb.contains(ya) && #[trigger] edge(parts, rules@, ya, d) implies
                fb.contains(normalized_rrid(d)) || normalized_rrid(d) == y || in_queue(queue@, hex16(normalized_rrid(d))) by {
                if !fb.contains(normalized_rrid(d)) {
                    let i = choose|i: int| 0 <= i < qb.len() && #[trigger] qb[i]@ == hex16(normalized_rrid(d));
                    if i == 0 {
                        lemma_parse_queued(parts, rules@, ya, d);
                        law_hex_round_trip(normalized_rrid(d));
                    } else {
                        assert(queue@[i - 1] == qb[i]);
                    }
                }
            }
            assert forall|i: int| 0 <= i < queue@.len() implies queued_by(parts, rules@, fb, #[trigger] queue@[i]@) by {
                assert(queue@[i] == qb[i + 1]);
            }
            assert(aloc_inv(parts, rules@, id0, fb.insert(y), queue@, alocs@)) by {
                if rules@.2 {
                    assert forall|d: u64| rrid_is_valid(d) && #[trigger] aloc_like(parts, rules@, d) && d != id0
                        && (fb.insert(y).contains(d) || in_queue(queue@, hex16(d))) implies alocs@.contains(d) by {
                        if !fb.contains(d) {
                            if d == y {
                                assert(qb[0]@ == hex16(d));
                                assert(in_queue(qb, hex16(d)));
                            } else {
                                let i = choose|i: int| 0 <= i < queue@.len() && #[trigger] queue@[i]@ == hex16(d);
                                assert(queue@[i] == qb[i + 1]);
                                assert(in_queue(qb, hex16(d)));
                            }
                        }
                    }
                }
            }
        }
        if found.contains(&y) {
            proof {
                let sq = walk_stream(parts, rules@, order, order.len());
                assert(order.to_set().contains(y));
                assert forall|i: int| 0 <= i < queue@.len() implies #[trigger] queue@[i]@ == hex16(sq[consumed + 1 + i]) by {
                    assert(queue@[i] == qb[i + 1]);
                }
                assert forall|i: int| 0 <= i < consumed + 1 implies order.contains(#[trigger] sq[i]) by {}
                consumed = consumed + 1;
                assert(fb.insert(y) =~= fb);
                assert forall|ya: u64, d: u64| #[trigger] fb.contains(ya) && #[trigger] edge(parts, rules@, ya, d) implies
                    fb.contains(normalized_rrid(d)) || in_queue(queue@, hex16(normalized_rrid(d))) by {
                }
            }
            continue;
        }
        found.insert(y);
        proof {
            lemma_u64_set_bound(found@);
        }
        let ghost q_before = queue@;
        let ghost h_before = hashes@;
        let ghost a_before = alocs@;
        let ghost p_before = prims@;
        let ghost e_before = events@;
        let ghost ob = order;
        proof {
            order = order.push(y);
            ob.lemma_push_to_set_commute(y);
            assert(order.to_set() == found@);
            assert(order[0] == id0);
            assert(!ob.contains(y));
            assert forall|a: int, b: int| 0 <= a < b < order.len() implies order[a] != order[b] by {
                if b == ob.len() {
                    assert(ob.contains(ob[a]));
                } else {
                    assert(order[a] == ob[a] && order[b] == ob[b]);
                }
            }
        }
        visit(pm, rules, &found, y, &mut queue, hashes, alocs, prims, &mut events);
        proof {
            lemma_after_visit(parts, rules@, id0, fb, y, q_before, queue@, h0, a0, p0,
                h_before, hashes@, a_before, alocs@, p_before, prims@);
            lemma_events_after_visit(parts, rules@, fb, y, e_before, events@);
            lemma_ordered_push(parts, rules@, ob, y);
            assert(q_before == qb.subrange(1, qb.len() as int));
            lemma_stream_after_visit(parts, rules@, ob, y, consumed, qb, q_before, queue@);
            consumed = consumed + 1;
            assert(event_views(events@) == walk_event_stream(parts, rules@, order, order.len())) by {
                assert(order.take(ob.len() as int) =~= ob);
                assert(ob.take(ob.len() as int) =~= ob);
                lemma_stream_prefix(parts, rules@, order, ob, ob.len());
                assert(order.take(ob.len() as int + 1) =~= order);
                assert(visited_upto(order, ob.len() as int) == found@);
                assert(order[ob.len() as int] == y);
            }
            if rules@.2 {
                assert(h0.union(ordered_owners(parts, rules@, ob)).insert(y) =~= h0.union(ordered_owners(parts, rules@, ob).insert(y)));
                assert forall|x: u64| p0.union(ordered_prims(parts, rules@, ob)).insert(x) =~= p0.union(ordered_prims(parts, rules@, ob).insert(x)) by {}
            }
        }
    }
    proof {
        assert(closed(parts, rules@, found@)) by {
            assert forall|y: u64, d: u64| #[trigger] found@.contains(y) && #[trigger] edge(parts, rules@, y, d) implies
                found@.contains(normalized_rrid(d)) by {
                assert(!in_queue(Seq::<String>::empty(), hex16(normalized_rrid(d))));
            }
        }
        assert forall|y: u64| reachable(parts, rules@, id0, y) <==> #[trigger] found@.contains(y) by {
            if reachable(parts, rules@, id0, y) {
                assert(closed(parts, rules@, found@) && found@.contains(id0));
            }
        }
        assert(is_visit_order(parts, rules@, id0, order)) by {
            assert forall|y: u64| #[trigger] order.contains(y) <==> reachable(parts, rules@, id0, y) by {
                assert(order.to_set().contains(y) == order.contains(y));
                assert(found@.contains(y) <==> reachable(parts, rules@, id0, y));
            }
        }
        assert(is_walk_order(parts, rules@, id0, order)) by {
            let sq = walk_stream(parts, rules@, order, order.len());
            assert forall|i: int| 0 <= i < sq.len() implies order.to_set().contains(#[trigger] sq[i]) by {
                assert(order.contains(sq[i]));
            }
            lemma_first_new_none(sq, order.to_set());
        }
        law_walk_queue_bound(parts, rules@, order, order.len());
        assert(walk_events_sound(parts, rules@, id0, events@));
        if !rules.skip_found_dependencies {
            assert(walk_events_complete(parts, rules@, id0, events@)) by {
                assert forall|y: u64, d: u64| reachable(parts, rules@, id0, y)
                    && #[trigger] aloc_of(parts, rules@, Set::empty(), y, d) implies has_aloc_event(events@, y, d) by {
                    assert(found@.contains(y));
                }
                assert forall|y: u64| reachable(parts, rules@, id0, y)
                    && #[trigger] prim_of(parts, rules@, Set::empty(), y) is Some implies
                    has_prim_event(events@, y, prim_of(parts, rules@, Set::empty(), y).unwrap()) by {
                    assert(found@.contains(y));
                }
            }
        }
        assert(!bad_edge(parts, rules@, id0)) by {
            if bad_edge(parts, rules@, id0) {
                let (y, d) = choose|y: u64, d: u64| reachable(parts, rules@, id0, y) && #[trigger] edge(parts, rules@, y, d) && !rrid_is_valid(d);
                assert(found@.contains(y));
                assert(found@.contains(normalized_rrid(d)));
                assert(!rrid_is_valid(invalid_rrid()));
            }
        }
        if !rules.skip_found_dependencies {
            assert(Set::new(|y: u64| found@.contains(y) && lookup(parts, y) is Some && has_aloc(parts, rules@, Set::empty(), y))
                =~= aloc_owners(parts, rules@, id0));
            assert(Set::new(|d: u64| exists|y: u64| found@.contains(y) && aloc_of(parts, rules@, Set::empty(), y, d))
                =~= reachable_alocs(parts, rules@, id0));
            assert(Set::new(|x: u64| exists|y: u64| found@.contains(y) && prim_of(parts, rules@, Set::empty(), y) == Some(x))
                =~= reachable_prims(parts, rules@, id0));
        } else {
            assert(Set::new(|y: u64| found@.contains(y) && lookup(parts, y) is Some && has_aloc(parts, rules@, Set::empty(), y))
                =~= aloc_owners(parts, rules@, id0));
            assert(Set::new(|d: u64| exists|y: u64| found@.contains(y) && aloc_of(parts, rules@, Set::empty(), y, d) && d != id0)
                =~= reachable_alocs(parts, rules@, id0).remove(id0));
            assert forall|d: u64| #[trigger] reachable_alocs(parts, rules@, id0).remove(id0).contains(d) implies alocs@.contains(d) by {
                let y = choose|y: u64| reachable(parts, rules@, id0, y) && aloc_of(parts, rules@, Set::empty(), y, d);
                assert(found@.contains(y));
                assert(edge(parts, rules@, y, d));
                assert(found@.contains(normalized_rrid(d)));
                assert(!rrid_is_valid(invalid_rrid()));
                assert(rrid_is_valid(d));
                assert(aloc_like(parts, rules@, d));
            }
            assert(alocs@ =~= a0.union(reachable_alocs(parts, rules@, id0).remove(id0)));
            assert(Set::new(|x: u64| exists|y1: u64| found@.contains(y1) && lookup(parts, y1) is Some
                && refs_of(parts, y1).contains(x) && dep_ok(parts, rules@, x) && type_of(parts, x) == "PRIM"@)
                =~= referenced_prims(parts, rules@, id0));
        }
    }
    Ok(events)
}

/// The identifier text a scan starts from: the scenario itself when it is a valid
/// hexadecimal identifier, otherwise the identifier derived from it as a resource path,
/// spelled in hexadecimal; `None` when it is neither.
pub open spec fn start_hash(scenario: Seq<char>) -> Option<Seq<char>> {
    if parse_rrid_hex(scenario) is Some {
        Some(scenario)
    } else {
        match resource_path_rrid(scenario) {
            Some(id) => Some(hex16(normalized_rrid(id))),
            None => None,
        }
    }
}

/// Decides the identifier text a scan starts from, as `start_hash` states.
pub fn resolve_start_hash(scenario: &String) -> (res: Option<String>)
    ensures
        match res {
            Some(h) => start_hash(scenario@) == Some(h@),
            None => start_hash(scenario@) is None,
        },
{
    match rrid_from_hex(scenario.as_str()) {
        Some(_) => Some(scenario.clone()),
        None => match rrid_from_resource_path(scenario.as_str()) {
            Some(id) => Some(rrid_to_hex(id)),
            None => None,
        },
    }
}

/// One identifier in the PRIM list: its hexadecimal spelling in double quotes.
pub open spec fn quoted_hex(id: u64) -> Seq<char> {
    "\""@ + hex16(normalized_rrid(id)) + "\""@
}

/// The identifiers, each quoted, separated by commas.
pub open spec fn quoted_list(ids: Seq<u64>) -> Seq<char>
    decreases ids.len(),
{
    if ids.len() == 0 {
        Seq::empty()
    } else if ids.len() == 1 {
        quoted_hex(ids[0])
    } else {
        quoted_list(ids.drop_last()) + ","@ + quoted_hex(ids.last())
    }
}

/// The PRIM list document for identifiers taken in the order `ids`.
pub open spec fn prims_document(ids: Seq<u64>) -> Seq<char> {
    "{\"type\":\"listPrimEntities\", \"prims\":["@ + quoted_list(ids) + "]}"@
}

/// The texts written for the identifiers `ids`, in order: each one's hexadecimal spelling.
pub open spec fn written_hexes(ids: Seq<u64>) -> Seq<Seq<char>> {
    ids.map_values(|id: u64| hex16(normalized_rrid(id)))
}

/// The texts `ts`, each in double quotes, separated by commas.
pub open spec fn quoted_texts(ts: Seq<Seq<char>>) -> Seq<char>
    decreases ts.len(),
{
    if ts.len() == 0 {
        Seq::empty()
    } else if ts.len() == 1 {
        "\""@ + ts[0] + "\""@
    } else {
        quoted_texts(ts.drop_last()) + ","@ + ("\""@ + ts.last() + "\""@)
    }
}

proof fn lemma_quoted_list_texts(ids: Seq<u64>)
    ensures
        quoted_list(ids) == quoted_texts(written_hexes(ids)),
    decreases ids.len(),
{
    let w = written_hexes(ids);
    if ids.len() == 1 {
        assert(w[0] == hex16(normalized_rrid(ids[0])));
    } else if ids.len() > 1 {
        lemma_quoted_list_texts(ids.drop_last());
        assert(w.drop_last() =~= written_hexes(ids.drop_last()));
        assert(w.last() == hex16(normalized_rrid(ids.last())));
    }
}

/// Reading the PRIM document back gives the PRIMs. The document lists, quoted and
/// separated by commas, the hexadecimal text of each identifier in order; those texts are
/// distinct when the identifiers are distinct and valid; and reading them back with
/// `from_hex_string` gives exactly the valid identifiers among them (an invalid one is
/// written as the invalid marker, which is refused).
pub proof fn law_prims_document_reads_back(ids: Seq<u64>)
    ensures
        prims_document(ids) == "{\"type\":\"listPrimEntities\", \"prims\":["@ + quoted_texts(written_hexes(ids)) + "]}"@,
        ids.no_duplicates() && (forall|i: int| 0 <= i < ids.len() ==> rrid_is_valid(#[trigger] ids[i]))
            ==> written_hexes(ids).no_duplicates(),
        Set::new(|x: u64| exists|i: int| 0 <= i < ids.len() && parse_rrid_hex(#[trigger] written_hexes(ids)[i]) == Some(x))
            == ids.to_set().filter(|x: u64| rrid_is_valid(x)),
{
    lemma_quoted_list_texts(ids);
    let w = written_hexes(ids);
    assert(!rrid_is_valid(invalid_rrid()));
    assert forall|i: int| 0 <= i < ids.len() implies parse_rrid_hex(#[trigger] w[i])
        == if rrid_is_valid(ids[i]) { Some(ids[i]) } else { None } by {
        law_hex_round_trip(normalized_rrid(ids[i]));
    }
    if ids.no_duplicates() && (forall|i: int| 0 <= i < ids.len() ==> rrid_is_valid(#[trigger] ids[i])) {
        assert forall|a: int, b: int| 0 <= a < b < w.len() implies w[a] != w[b] by {
            assert(parse_rrid_hex(w[a]) == Some(ids[a]));
            assert(parse_rrid_hex(w[b]) == Some(ids[b]));
        }
    }
    let lhs = Set::new(|x: u64| exists|i: int| 0 <= i < ids.len() && parse_rrid_hex(#[trigger] w[i]) == Some(x));
    let rhs = ids.to_set().filter(|x: u64| rrid_is_valid(x));
    assert forall|x: u64| lhs.contains(x) <==> rhs.contains(x) by {
        if lhs.contains(x) {
            let i = choose|i: int| 0 <= i < ids.len() && parse_rrid_hex(#[trigger] w[i]) == Some(x);
            assert(ids.contains(x));
        }
        if rhs.contains(x) {
            let i = choose|i: int| 0 <= i < ids.len() && ids[i] == x;
            assert(parse_rrid_hex(w[i]) == Some(x));
        }
    }
    assert(lhs =~= rhs);
}

/// Writes the PRIM list document: `{"type":"listPrimEntities", "prims":[...]}` with each
/// identifier of `prims` once, quoted, in the order in which the set is walked.
pub fn prims_document_text(prims: &HashSet<u64>) -> (res: String)
    ensures
        exists|order: Seq<u64>| order.no_duplicates() && order.to_set() == prims@ && res@ == prims_document(order),
{
    let mut data = "{\"type\":\"listPrimEntities\", \"prims\":[".to_owned();
    let ghost head = data@;
    let ghost mut order: Seq<u64> = Seq::empty();
    let mut first = true;
    assert(order =~= Seq::<u64>::empty().take(0));
    for id in it: prims.iter()
        invariant
            it.seq().unref().to_set() == prims@,
            it.seq().no_duplicates(),
            order == it.seq().take(it.index() as int).unref(),
            first == (it.index() == 0),
            data@ == head + quoted_list(order),
            order.no_duplicates(),
            it.index() == it.seq().len() ==> order == it.seq().unref(),
        ensures
            order.no_duplicates(),
            order.to_set() == prims@,
            data@ == head + quoted_list(order),
    {
        if !first {
            data.append(",");
        }
        data.append("\"");
        let h = rrid_to_hex(*id);
        data.append(h.as_str());
        data.append("\"");
        first = false;
        proof {
            let prev = order;
            order = order.push(*id);
            assert(it.seq().take(it.index() + 1).unref() =~= order);
            assert(order.drop_last() =~= prev);
            assert forall|a: int, b: int| 0 <= a < b < order.len() implies order[a] != order[b] by {
                assert(order[a] == *it.seq()[a]);
                assert(order[b] == *it.seq()[b]);
            }
            assert(it.seq().take(it.seq().len() as int) =~= it.seq());
        }
    }
    data.append("]}");
    data
}

} // verus!
