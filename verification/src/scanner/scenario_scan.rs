//! Scanning a scenario for the ALOCs and PRIMs that navigation meshes need, with the
//! game's partitions mounted from a retail folder.
//!
//! The walk starts at the scenario resource and follows templates, ALOCs and PRIMs; a
//! reference to a resource the walk has already visited is passed over.
use vstd::prelude::*;
use std::collections::HashSet;
use rpkg_rs::resource::partition_manager::PartitionManager;
use rpkg_rs::resource::pdefs::PartitionInfo;
use crate::package::package_scan::{mounted_contents, MountedParts};
use crate::package::resource_ids::{parse_rrid_hex, normalized_rrid};
use crate::package::resource_graph::{
    WalkPolicy, bad_edge, aloc_owners, reachable_alocs, referenced_prims, reachable, lookup, refs_of, type_of, edge,
    closed, aloc_of,
};
use crate::package::walk_order::{walk_stream, refs_total, is_walk_order, is_visit_order, ordered_owners, ordered_prims, walk_event_stream};
use crate::package::resource_walk::{
    WalkRules, WalkEvent, WalkError, walk_dependencies, resolve_start_hash, start_hash, prims_document,
    prims_document_text, walk_events_sound, event_views,
};

verus! {

broadcast use vstd::std_specs::hash::group_hash_axioms;

/// Highest patch level mounted for every partition.
pub const MAX_PATCH_LEVEL: usize = 301;

#[verifier::external_type_specification]
#[verifier::external_body]
pub struct ExPartitionInfo(PartitionInfo);

/// The max patch level a partition definition carries (rpkg-rs's `PartitionInfo::patch_level`).
pub uninterp spec fn definition_patch_level(p: PartitionInfo) -> usize;

/// The partition definition `p` with its max patch level set to `level` and everything
/// else as it was (what `PartitionInfo::set_max_patch_level` makes of it).
pub uninterp spec fn with_patch_level(p: PartitionInfo, level: usize) -> PartitionInfo;

/// Calls `PartitionInfo::set_max_patch_level` on the definition at `i`, which assigns its
/// `patch_level` field and touches nothing else; the other definitions stay as they are.
#[verifier::external_body]
fn set_patch_level_at(defs: &mut Vec<PartitionInfo>, i: usize, level: usize)
    requires
        i < old(defs)@.len(),
    ensures
        final(defs)@.len() == old(defs)@.len(),
        final(defs)@[i as int] == with_patch_level(old(defs)@[i as int], level),
        definition_patch_level(final(defs)@[i as int]) == level,
        forall|j: int| 0 <= j < old(defs)@.len() && j != i ==> final(defs)@[j] == old(defs)@[j],
{
    defs[i].set_max_patch_level(level);
}

/// Sets the max patch level of every partition definition to `MAX_PATCH_LEVEL`, the level
/// the scan mounts up to.
pub fn cap_patch_levels(defs: &mut Vec<PartitionInfo>)
    ensures
        final(defs)@.len() == old(defs)@.len(),
        forall|i: int| 0 <= i < final(defs)@.len() ==> #[trigger] final(defs)@[i] == with_patch_level(old(defs)@[i], MAX_PATCH_LEVEL),
        forall|i: int| 0 <= i < final(defs)@.len() ==> definition_patch_level(#[trigger] final(defs)@[i]) == MAX_PATCH_LEVEL,
{
    let ghost before = defs@;
    let mut i: usize = 0;
    while i < defs.len()
        invariant
            i <= defs@.len(),
            defs@.len() == before.len(),
            forall|j: int| 0 <= j < i ==> #[trigger] defs@[j] == with_patch_level(before[j], MAX_PATCH_LEVEL),
            forall|j: int| 0 <= j < i ==> definition_patch_level(#[trigger] defs@[j]) == MAX_PATCH_LEVEL,
            forall|j: int| i <= j < defs@.len() ==> #[trigger] defs@[j] == before[j],
        decreases defs@.len() - i,
    {
        set_patch_level_at(defs, i, MAX_PATCH_LEVEL);
        i = i + 1;
    }
}

/// Data types the scan follows.
pub open spec fn scanner_followed_types() -> Set<Seq<char>> {
    set!["TEMP"@, "ALOC"@, "PRIM"@]
}

/// The rules of this scan: nothing excluded, references to visited resources passed over.
pub open spec fn scanner_policy() -> WalkPolicy {
    (Set::empty(), scanner_followed_types(), true)
}

/// The retail scan's rules: nothing left out, templates, ALOCs and PRIMs followed, and
/// references to visited resources passed over.
pub proof fn law_scanner_rules()
    ensures
        scanner_policy().0 == Set::<Seq<char>>::empty(),
        scanner_policy().1 == set!["TEMP"@, "ALOC"@, "PRIM"@],
        scanner_policy().2,
{
}

/// The retail scan follows every live template, ALOC or PRIM reference of a resource it
/// reaches, and an ALOC referenced by the live scenario resource, other than the scenario
/// itself, is among the ALOCs it collects.
pub proof fn law_scanner_follows_references(parts: MountedParts, start: u64, y: u64, d: u64)
    requires
        reachable(parts, scanner_policy(), start, y),
        lookup(parts, y) is Some,
        refs_of(parts, y).contains(d),
        lookup(parts, d) is Some,
        type_of(parts, d) == "TEMP"@ || type_of(parts, d) == "ALOC"@ || type_of(parts, d) == "PRIM"@,
    ensures
        reachable(parts, scanner_policy(), start, normalized_rrid(d)),
        type_of(parts, d) == "ALOC"@ && d != start ==> reachable_alocs(parts, scanner_policy(), start).remove(start).contains(d),
{
    let p = scanner_policy();
    law_scanner_rules();
    assert(edge(parts, p, y, d));
    assert forall|t: Set<u64>| #[trigger] closed(parts, p, t) && t.contains(start) implies t.contains(normalized_rrid(d)) by {
        assert(t.contains(y));
    }
    if type_of(parts, d) == "ALOC"@ {
        assert(aloc_of(parts, p, Set::empty(), y, d));
    }
}

fn scanner_rules() -> (r: WalkRules)
    ensures
        r@ == scanner_policy(),
{
    let followed = vec!["TEMP".to_owned(), "ALOC".to_owned(), "PRIM".to_owned()];
    let r = WalkRules { excluded: Vec::new(), followed_types: followed, skip_found_dependencies: true };
    proof {
        assert(r@.0 =~= Set::<Seq<char>>::empty());
        assert forall|t: Seq<char>| r@.1.contains(t) <==> scanner_followed_types().contains(t) by {
            if scanner_followed_types().contains(t) {
                if t == "TEMP"@ { assert(r.followed_types@[0]@ == t); }
                if t == "ALOC"@ { assert(r.followed_types@[1]@ == t); }
                if t == "PRIM"@ { assert(r.followed_types@[2]@ == t); }
            }
        }
        assert(r@.1 =~= scanner_followed_types());
    }
    r
}

/// The package definition formats the scan knows.
#[derive(Clone, Copy, PartialEq, Eq, Structural, Debug)]
pub enum GameVersion {
    HM2016,
    HM2,
    HM3,
}

/// The format named by a game version text.
pub open spec fn spec_game_version(v: Seq<char>) -> Option<GameVersion> {
    if v == "H2016"@ || v == "HM2016"@ {
        Some(GameVersion::HM2016)
    } else if v == "HM2"@ {
        Some(GameVersion::HM2)
    } else if v == "HM3"@ {
        Some(GameVersion::HM3)
    } else {
        None
    }
}

/// Reads a game version text: `H2016` (also spelled `HM2016`), `HM2` or `HM3`.
pub fn game_version_of(version: &String) -> (res: Option<GameVersion>)
    ensures
        res == spec_game_version(version@),
{
    if *version == "H2016".to_owned() || *version == "HM2016".to_owned() {
        Some(GameVersion::HM2016)
    } else if *version == "HM2".to_owned() {
        Some(GameVersion::HM2)
    } else if *version == "HM3".to_owned() {
        Some(GameVersion::HM3)
    } else {
        None
    }
}

/// The runtime folder named in thumbs.dat: the retail folder, the project path and the
/// relative runtime path joined by backslashes.
pub fn runtime_path(retail_folder: &String, project_path: &String, relative_runtime_path: &String) -> (res: String)
    ensures
        res@ == retail_folder@ + "\\"@ + project_path@ + "\\"@ + relative_runtime_path@,
{
    let mut p = retail_folder.clone();
    p.append("\\");
    p.append(project_path.as_str());
    p.append("\\");
    p.append(relative_runtime_path.as_str());
    p
}

/// A scan of one scenario: the scenario (an identifier in hexadecimal or a resource
/// path), the hash list used to name resources in reports, and what the scans found so
/// far.
pub struct ScenarioScan {
    retail_folder: String,
    game_version: String,
    scenario: String,
    hash_list_file: String,
    hashes_for_output: HashSet<u64>,
    alocs_for_output: HashSet<u64>,
    prims_for_output: HashSet<u64>,
}

/// What a scan tells its caller: the identifier text it started from and what it met.
pub struct ScanReport {
    pub start_hash: String,
    pub events: Vec<WalkEvent>,
}

impl ScenarioScan {
    /// The retail folder path.
    pub closed spec fn retail_text(&self) -> Seq<char> {
        self.retail_folder@
    }

    /// The game version text.
    pub closed spec fn game_version_text(&self) -> Seq<char> {
        self.game_version@
    }

    /// The scenario text.
    pub closed spec fn scenario_text(&self) -> Seq<char> {
        self.scenario@
    }

    /// The hash list path.
    pub closed spec fn hash_list_text(&self) -> Seq<char> {
        self.hash_list_file@
    }

    /// Resources found to own ALOCs.
    pub closed spec fn hashes(&self) -> Set<u64> {
        self.hashes_for_output@
    }

    /// ALOCs found.
    pub closed spec fn alocs(&self) -> Set<u64> {
        self.alocs_for_output@
    }

    /// PRIMs recorded for the ALOC owners.
    pub closed spec fn prims(&self) -> Set<u64> {
        self.prims_for_output@
    }

    /// A scan that has found nothing yet.
    pub fn new(retail_folder: String, game_version: String, scenario: String, hash_list_file: String) -> (s: Self)
        ensures
            s.retail_text() == retail_folder@,
            s.game_version_text() == game_version@,
            s.scenario_text() == scenario@,
            s.hash_list_text() == hash_list_file@,
            s.hashes() == Set::<u64>::empty(),
            s.alocs() == Set::<u64>::empty(),
            s.prims() == Set::<u64>::empty(),
    {
        Self {
            retail_folder,
            game_version,
            scenario,
            hash_list_file,
            hashes_for_output: HashSet::new(),
            alocs_for_output: HashSet::new(),
            prims_for_output: HashSet::new(),
        }
    }

    /// The retail folder path.
    pub fn retail_folder(&self) -> (res: &String)
        ensures
            res@ == self.retail_text(),
    {
        &self.retail_folder
    }

    /// The game version text.
    pub fn game_version(&self) -> (res: &String)
        ensures
            res@ == self.game_version_text(),
    {
        &self.game_version
    }

    /// The scenario: an identifier in hexadecimal or a resource path.
    pub fn scenario(&self) -> (res: &String)
        ensures
            res@ == self.scenario_text(),
    {
        &self.scenario
    }

    /// The hash list path, for naming resources in reports.
    pub fn hash_list_file(&self) -> (res: &String)
        ensures
            res@ == self.hash_list_text(),
    {
        &self.hash_list_file
    }

    /// Walks the scenario's dependencies in the mounted partitions and adds what it finds:
    /// every ALOC referenced by a resource reachable from the scenario (other than the
    /// scenario itself), and the owners of ALOCs and their PRIMs as visiting the reachable
    /// resources in the walk's breadth-first order records them, a reference to a resource
    /// already visited being passed over; each event it reports is about a reachable
    /// resource and holds what the tables say. Fails when the scenario is
    /// neither a valid identifier nor a resource path, or when a reachable reference of a
    /// followed type is not a valid identifier.
    pub fn scan_scenario(&mut self, partition_manager: &PartitionManager) -> (res: Result<ScanReport, WalkError>)
        ensures
            final(self).retail_text() == old(self).retail_text(),
            final(self).game_version_text() == old(self).game_version_text(),
            final(self).scenario_text() == old(self).scenario_text(),
            final(self).hash_list_text() == old(self).hash_list_text(),
            ({
                let parts = mounted_contents(*partition_manager);
                let p = scanner_policy();
                match start_hash(old(self).scenario_text()) {
                    None => res is Err && final(self).hashes() == old(self).hashes()
                        && final(self).alocs() == old(self).alocs() && final(self).prims() == old(self).prims(),
                    Some(h) => {
                        let skipped = p.0.contains(h);
                        let id0 = parse_rrid_hex(h);
                        &&& res is Err <==> (!skipped && (id0 is None || bad_edge(parts, p, id0.unwrap())))
                        &&& res matches Ok(r) ==> r.start_hash@ == h
                        &&& res is Ok && skipped ==> final(self).hashes() == old(self).hashes()
                            && final(self).alocs() == old(self).alocs() && final(self).prims() == old(self).prims()
                        &&& res is Ok && !skipped ==> {
                            &&& exists|order: Seq<u64>| #[trigger] is_walk_order(parts, p, id0.unwrap(), order)
                                && is_visit_order(parts, p, id0.unwrap(), order)
                                && event_views(res->Ok_0.events@) == walk_event_stream(parts, p, order, order.len())
                                && walk_stream(parts, p, order, order.len()).len() <= refs_total(parts, order, order.len())
                                && final(self).hashes() == old(self).hashes().union(ordered_owners(parts, p, order))
                                && final(self).prims() == old(self).prims().union(ordered_prims(parts, p, order))
                            &&& final(self).hashes().subset_of(old(self).hashes().union(aloc_owners(parts, p, id0.unwrap())))
                            &&& final(self).alocs() == old(self).alocs().union(reachable_alocs(parts, p, id0.unwrap()).remove(id0.unwrap()))
                            &&& final(self).prims().subset_of(old(self).prims().union(referenced_prims(parts, p, id0.unwrap())))
                        }
                        &&& res is Ok && skipped ==> res->Ok_0.events@.len() == 0
                        &&& res is Ok && !skipped ==> walk_events_sound(parts, p, id0.unwrap(), res->Ok_0.events@)
                    },
                }
            }),
    {
        let hash = match resolve_start_hash(&self.scenario) {
            Some(h) => h,
            None => {
                return Err(WalkError::InvalidRuntimeResourceId);
            },
        };
        let rules = scanner_rules();
        let events = walk_dependencies(
            partition_manager,
            &rules,
            &hash,
            &mut self.hashes_for_output,
            &mut self.alocs_for_output,
            &mut self.prims_for_output,
        )?;
        Ok(ScanReport { start_hash: hash, events })
    }

    /// The PRIM list document of what the scans found:
    /// `{"type":"listPrimEntities", "prims":[...]}`, each PRIM once, quoted, in the order in
    /// which the set is walked.
    pub fn output_text(&self) -> (res: String)
        ensures
            exists|order: Seq<u64>| order.no_duplicates() && order.to_set() == self.prims() && res@ == prims_document(order),
    {
        prims_document_text(&self.prims_for_output)
    }
}

} // verus!
