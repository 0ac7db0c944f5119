//! Scanning a scenario for the ALOCs and PRIMs that navigation meshes need.
//!
//! The walk starts at the scenario resource, follows templates, ALOCs, PRIMs and aspects,
//! and leaves out a fixed list of effect and character resources that navigation meshes
//! do not need.
use vstd::prelude::*;
use std::collections::HashSet;
use rpkg_rs::resource::partition_manager::PartitionManager;
use crate::package::package_scan::{mounted_contents, MountedParts};
use crate::package::resource_ids::{parse_rrid_hex, hex16, normalized_rrid};
use crate::package::resource_graph::{
    WalkPolicy, bad_edge, aloc_owners, reachable_alocs, reachable_prims, reachable, lookup, refs_of, type_of, edge,
    closed, aloc_of, law_excluded_never_reached,
};
use crate::package::walk_order::{walk_stream, refs_total, is_walk_order, is_visit_order, walk_event_stream};
use crate::package::resource_walk::{
    WalkRules, WalkEvent, WalkError, walk_dependencies, resolve_start_hash, start_hash, prims_document,
    prims_document_text, walk_events_sound, walk_events_complete, event_views,
};

verus! {

broadcast use vstd::std_specs::hash::group_hash_axioms;

/// Resources the scan never visits: ghost-mode, torus, shockwave and glow effects, the
/// invisible shot collision box, agent 47 and a palm tree.
pub open spec fn excluded_scenario_hashes() -> Set<Seq<char>> {
    set![
        "00BDA629523CE8B2"@, "00ACD408BE462DD3"@, "00355E794876922A"@, "00B4ED8EA7D2F405"@,
        "0069A9533284DCE8"@, "009E5756C710494E"@, "00D347CBA29EE6BA"@, "00E74E523354AA2F"@,
    ]
}

/// Data types the scan follows.
pub open spec fn scenario_followed_types() -> Set<Seq<char>> {
    set!["TEMP"@, "ALOC"@, "PRIM"@, "ASET"@]
}

/// The rules of this scan.
pub open spec fn scenario_policy() -> WalkPolicy {
    (excluded_scenario_hashes(), scenario_followed_types(), false)
}

/// The scenario scan's rules: it leaves out ghost-mode, torus, shockwave and glow effects,
/// the invisible shot collision box, agent 47 and a palm tree, follows templates, ALOCs,
/// PRIMs and aspects, and does not pass over references to visited resources.
pub proof fn law_scenario_rules()
    ensures
        scenario_policy().0 == set![
            "00BDA629523CE8B2"@, "00ACD408BE462DD3"@, "00355E794876922A"@, "00B4ED8EA7D2F405"@,
            "0069A9533284DCE8"@, "009E5756C710494E"@, "00D347CBA29EE6BA"@, "00E74E523354AA2F"@,
        ],
        scenario_policy().1 == set!["TEMP"@, "ALOC"@, "PRIM"@, "ASET"@],
        !scenario_policy().2,
{
}

/// The scan follows every live reference of a template, ALOC, PRIM or aspect from a
/// resource it reaches, unless the reference is one of the eight left-out resources; an
/// ALOC referenced that way is among the ALOCs the scan collects.
pub proof fn law_scenario_follows_references(parts: MountedParts, start: u64, y: u64, d: u64)
    requires
        reachable(parts, scenario_policy(), start, y),
        lookup(parts, y) is Some,
        refs_of(parts, y).contains(d),
        lookup(parts, d) is Some,
        type_of(parts, d) == "TEMP"@ || type_of(parts, d) == "ALOC"@ || type_of(parts, d) == "PRIM"@
            || type_of(parts, d) == "ASET"@,
        !set![
            "00BDA629523CE8B2"@, "00ACD408BE462DD3"@, "00355E794876922A"@, "00B4ED8EA7D2F405"@,
            "0069A9533284DCE8"@, "009E5756C710494E"@, "00D347CBA29EE6BA"@, "00E74E523354AA2F"@,
        ].contains(hex16(normalized_rrid(d))),
    ensures
        reachable(parts, scenario_policy(), start, normalized_rrid(d)),
        type_of(parts, d) == "ALOC"@ ==> reachable_alocs(parts, scenario_policy(), start).contains(d),
{
    let p = scenario_policy();
    law_scenario_rules();
    assert(edge(parts, p, y, d));
    assert forall|t: Set<u64>| #[trigger] closed(parts, p, t) && t.contains(start) implies t.contains(normalized_rrid(d)) by {
        assert(t.contains(y));
    }
    if type_of(parts, d) == "ALOC"@ {
        assert(aloc_of(parts, p, Set::empty(), y, d));
    }
}

/// None of the eight left-out resources is ever reached by the scan, other than as the
/// scenario itself.
pub proof fn law_scenario_never_reaches_left_out(parts: MountedParts, start: u64, x: u64)
    requires
        reachable(parts, scenario_policy(), start, x),
        x != start,
    ensures
        !set![
            "00BDA629523CE8B2"@, "00ACD408BE462DD3"@, "00355E794876922A"@, "00B4ED8EA7D2F405"@,
            "0069A9533284DCE8"@, "009E5756C710494E"@, "00D347CBA29EE6BA"@, "00E74E523354AA2F"@,
        ].contains(hex16(x)),
{
    law_scenario_rules();
    law_excluded_never_reached(parts, scenario_policy(), start, x);
}

fn scenario_rules() -> (r: WalkRules)
    ensures
        r@ == scenario_policy(),
{
    let excluded = vec![
        "00BDA629523CE8B2".to_owned(), "00ACD408BE462DD3".to_owned(), "00355E794876922A".to_owned(),
        "00B4ED8EA7D2F405".to_owned(), "0069A9533284DCE8".to_owned(), "009E5756C710494E".to_owned(),
        "00D347CBA29EE6BA".to_owned(), "00E74E523354AA2F".to_owned(),
    ];
    let followed = vec!["TEMP".to_owned(), "ALOC".to_owned(), "PRIM".to_owned(), "ASET".to_owned()];
    let r = WalkRules { excluded, followed_types: followed, skip_found_dependencies: false };
    proof {
        assert forall|t: Seq<char>| r@.0.contains(t) <==> excluded_scenario_hashes().contains(t) by {
            if excluded_scenario_hashes().contains(t) {
                if t == "00BDA629523CE8B2"@ { assert(r.excluded@[0]@ == t); }
                if t == "00ACD408BE462DD3"@ { assert(r.excluded@[1]@ == t); }
                if t == "00355E794876922A"@ { assert(r.excluded@[2]@ == t); }
                if t == "00B4ED8EA7D2F405"@ { assert(r.excluded@[3]@ == t); }
                if t == "0069A9533284DCE8"@ { assert(r.excluded@[4]@ == t); }
                if t == "009E5756C710494E"@ { assert(r.excluded@[5]@ == t); }
                if t == "00D347CBA29EE6BA"@ { assert(r.excluded@[6]@ == t); }
                if t == "00E74E523354AA2F"@ { assert(r.excluded@[7]@ == t); }
            }
        }
        assert(r@.0 =~= excluded_scenario_hashes());
        assert forall|t: Seq<char>| r@.1.contains(t) <==> scenario_followed_types().contains(t) by {
            if scenario_followed_types().contains(t) {
                if t == "TEMP"@ { assert(r.followed_types@[0]@ == t); }
                if t == "ALOC"@ { assert(r.followed_types@[1]@ == t); }
                if t == "PRIM"@ { assert(r.followed_types@[2]@ == t); }
                if t == "ASET"@ { assert(r.followed_types@[3]@ == t); }
            }
        }
        assert(r@.1 =~= scenario_followed_types());
    }
    r
}

/// A scan of one scenario: the scenario (an identifier in hexadecimal or a resource
/// path), the hash list used to name resources in reports, and what the scans found so
/// far.
pub struct ScenarioScan {
    scenario: String,
    hash_list_file: String,
    hashes_for_output: HashSet<u64>,
    alocs_for_output: HashSet<u64>,
    prims_for_output: HashSet<u64>,
}

/// What a scan tells its caller: the identifier text it started from and what it met.
pub struct ScanReport {
    pub start_hash: String,
    pub events: Vec<WalkEvent>,
}

impl ScenarioScan {
    /// The scenario text.
    pub closed spec fn scenario_text(&self) -> Seq<char> {
        self.scenario@
    }

    /// The hash list path.
    pub closed spec fn hash_list_text(&self) -> Seq<char> {
        self.hash_list_file@
    }

    /// Resources found to own ALOCs.
    pub closed spec fn hashes(&self) -> Set<u64> {
        self.hashes_for_output@
    }

    /// ALOCs found.
    pub closed spec fn alocs(&self) -> Set<u64> {
        self.alocs_for_output@
    }

    /// PRIMs recorded for the ALOC owners.
    pub closed spec fn prims(&self) -> Set<u64> {
        self.prims_for_output@
    }

    /// A scan that has found nothing yet.
    pub fn new(scenario: String, hash_list_file: String) -> (s: Self)
        ensures
            s.scenario_text() == scenario@,
            s.hash_list_text() == hash_list_file@,
            s.hashes() == Set::<u64>::empty(),
            s.alocs() == Set::<u64>::empty(),
            s.prims() == Set::<u64>::empty(),
    {
        Self {
            scenario,
            hash_list_file,
            hashes_for_output: HashSet::new(),
            alocs_for_output: HashSet::new(),
            prims_for_output: HashSet::new(),
        }
    }

    /// The scenario: an identifier in hexadecimal or a resource path.
    pub fn scenario(&self) -> (res: &String)
        ensures
            res@ == self.scenario_text(),
    {
        &self.scenario
    }

    /// The hash list path, for naming resources in reports.
    pub fn hash_list_file(&self) -> (res: &String)
        ensures
            res@ == self.hash_list_text(),
    {
        &self.hash_list_file
    }

    /// Walks the scenario's dependencies in the mounted partitions and adds what it finds:
    /// the reachable resources that own ALOCs, their ALOCs, and for each owner its last
    /// PRIM; reports each ALOC and PRIM it met with its owner, in the order of the walk.
    /// Fails when the scenario is neither a valid identifier nor a resource path, or when
    /// a reachable reference of a followed type is not a valid identifier.
    pub fn scan_scenario(&mut self, partition_manager: &PartitionManager) -> (res: Result<ScanReport, WalkError>)
        ensures
            final(self).scenario_text() == old(self).scenario_text(),
            final(self).hash_list_text() == old(self).hash_list_text(),
            ({
                let parts = mounted_contents(*partition_manager);
                let p = scenario_policy();
                match start_hash(old(self).scenario_text()) {
                    None => res is Err && final(self).hashes() == old(self).hashes()
                        && final(self).alocs() == old(self).alocs() && final(self).prims() == old(self).prims(),
                    Some(h) => {
                        let skipped = p.0.contains(h);
                        let id0 = parse_rrid_hex(h);
                        &&& res is Err <==> (!skipped && (id0 is None || bad_edge(parts, p, id0.unwrap())))
                        &&& res matches Ok(r) ==> r.start_hash@ == h
                        &&& res is Ok && skipped ==> final(self).hashes() == old(self).hashes()
                            && final(self).alocs() == old(self).alocs() && final(self).prims() == old(self).prims()
                        &&& res is Ok && !skipped ==> {
                            &&& final(self).hashes() == old(self).hashes().union(aloc_owners(parts, p, id0.unwrap()))
                            &&& final(self).alocs() == old(self).alocs().union(reachable_alocs(parts, p, id0.unwrap()))
                            &&& final(self).prims() == old(self).prims().union(reachable_prims(parts, p, id0.unwrap()))
                        }
                        &&& res is Ok && skipped ==> res->Ok_0.events@.len() == 0
                        &&& res is Ok && !skipped ==> walk_events_sound(parts, p, id0.unwrap(), res->Ok_0.events@)
                            && walk_events_complete(parts, p, id0.unwrap(), res->Ok_0.events@)
                        &&& res is Ok && !skipped ==> exists|order: Seq<u64>| #[trigger] is_walk_order(parts, p, id0.unwrap(), order)
                            && is_visit_order(parts, p, id0.unwrap(), order)
                            && event_views(res->Ok_0.events@) == walk_event_stream(parts, p, order, order.len())
                                && walk_stream(parts, p, order, order.len()).len() <= refs_total(parts, order, order.len())
                    },
                }
            }),
    {
        let hash = match resolve_start_hash(&self.scenario) {
            Some(h) => h,
            None => {
                return Err(WalkError::InvalidRuntimeResourceId);
            },
        };
        let rules = scenario_rules();
        let events = walk_dependencies(
            partition_manager,
            &rules,
            &hash,
            &mut self.hashes_for_output,
            &mut self.alocs_for_output,
            &mut self.prims_for_output,
        )?;
        Ok(ScanReport { start_hash: hash, events })
    }

    /// The PRIM list document of what the scans found:
    /// `{"type":"listPrimEntities", "prims":[...]}`, each PRIM once, quoted, in the order in
    /// which the set is walked.
    pub fn output_text(&self) -> (res: String)
        ensures
            exists|order: Seq<u64>| order.no_duplicates() && order.to_set() == self.prims() && res@ == prims_document(order),
    {
        prims_document_text(&self.prims_for_output)
    }
}

} // verus!
