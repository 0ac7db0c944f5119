//! Looking resources up in the mounted partitions of a game.
//!
//! A partition is made of a base package and patch packages. A patch may add a new
//! version of a resource or mark it as unneeded; the version that counts is the one of
//! the highest patch that mentions the resource, and the first partition in mount order
//! that holds a live version answers the lookup.
use vstd::prelude::*;
use crate::package::resource_ids::normalized_rrid;
use itertools::Itertools;
use rpkg_rs::resource::partition_manager::PartitionManager;
use rpkg_rs::resource::resource_partition::PatchId;
use rpkg_rs::resource::runtime_resource_id::RuntimeResourceID;

verus! {

#[verifier::external_type_specification]
#[verifier::external_body]
pub struct ExPartitionManager(PartitionManager);

/// Which package of a partition: the base package or a numbered patch.
#[derive(Clone, Copy, PartialEq, Eq, Structural, Debug)]
pub enum PatchKey {
    Base,
    Patch(usize),
}

/// A package as the lookups see it: its file name, its resources (identifier to data
/// type and referenced identifiers, in header order), and the identifiers it marks as
/// unneeded.
pub type PackageContents = (Seq<char>, Map<u64, (Seq<char>, Seq<u64>)>, Set<u64>);

/// A mounted partition: its packages, keyed by patch.
pub type PartitionContents = Map<PatchKey, PackageContents>;

/// The mounted partitions, in mount order.
pub type MountedParts = Seq<PartitionContents>;

/// The order of `PatchId`: the base package first, then the patches by number.
pub open spec fn patch_le(a: PatchKey, b: PatchKey) -> bool {
    match (a, b) {
        (PatchKey::Base, _) => true,
        (PatchKey::Patch(_), PatchKey::Base) => false,
        (PatchKey::Patch(x), PatchKey::Patch(y)) => x <= y,
    }
}

/// What the mounted partitions of a manager hold, in mount order. For each package of a
/// partition, keyed by its patch: the package's file name, its resources (identifier to
/// data type and referenced identifiers, in header order), and the identifiers it marks
/// as unneeded.
pub uninterp spec fn mounted_contents(pm: PartitionManager) -> Seq<Map<PatchKey, (Seq<char>, Map<u64, (Seq<char>, Seq<u64>)>, Set<u64>)>>;

/// The package at `k` mentions `rrid`, as a resource or as unneeded.
pub open spec fn occurs(part: PartitionContents, rrid: u64, k: PatchKey) -> bool {
    part.dom().contains(k) && (part[k].1.dom().contains(rrid) || part[k].2.contains(rrid))
}

/// `k` is the highest patch of the partition that mentions `rrid`.
pub open spec fn is_latest(part: PartitionContents, rrid: u64, k: PatchKey) -> bool {
    occurs(part, rrid, k) && forall|k2: PatchKey| occurs(part, rrid, k2) ==> patch_le(k2, k)
}

/// The live version of `rrid` in one partition, as (package file name, data type,
/// references): present when the highest patch mentioning it holds it as a resource.
pub open spec fn partition_entry(part: PartitionContents, rrid: u64) -> Option<(Seq<char>, Seq<char>, Seq<u64>)> {
    if exists|k: PatchKey| is_latest(part, rrid, k) {
        let k = choose|k: PatchKey| is_latest(part, rrid, k);
        if part[k].1.dom().contains(rrid) {
            Some((part[k].0, part[k].1[rrid].0, part[k].1[rrid].1))
        } else {
            None
        }
    } else {
        None
    }
}

/// The live version of `rrid` in the first of the partitions from `i` on that has one.
pub open spec fn lookup_from(parts: MountedParts, i: int, rrid: u64) -> Option<(Seq<char>, Seq<char>, Seq<u64>)>
    decreases parts.len() - i,
{
    if i < 0 || i >= parts.len() {
        None
    } else {
        match partition_entry(parts[i], rrid) {
            Some(e) => Some(e),
            None => lookup_from(parts, i + 1, rrid),
        }
    }
}

/// The live version of `rrid` across the mounted partitions.
pub open spec fn resource_lookup(parts: MountedParts, rrid: u64) -> Option<(Seq<char>, Seq<char>, Seq<u64>)> {
    lookup_from(parts, 0, rrid)
}

/// Within a partition, the highest patch that mentions a resource decides: when that
/// patch's package holds the resource, the partition's live version is that package's file
/// name, data type and references, whatever lower patches or the base hold.
pub proof fn law_highest_patch_decides(part: PartitionContents, r: u64, k: PatchKey)
    requires
        part.dom().contains(k),
        part[k].1.dom().contains(r),
        forall|k2: PatchKey| #[trigger] part.dom().contains(k2) && (part[k2].1.dom().contains(r) || part[k2].2.contains(r))
            ==> k2 == PatchKey::Base || (k2 matches PatchKey::Patch(a) && k matches PatchKey::Patch(b) && a <= b),
    ensures
        partition_entry(part, r) == Some((part[k].0, part[k].1[r].0, part[k].1[r].1)),
{
    assert(is_latest(part, r, k));
    let c = choose|c: PatchKey| is_latest(part, r, c);
    assert(patch_le(c, k) && patch_le(k, c));
}

/// Within a partition, a resource that the highest patch mentioning it marks as unneeded
/// (and does not hold) has no live version there, whatever lower patches or the base hold.
pub proof fn law_highest_removal_hides(part: PartitionContents, r: u64, k: PatchKey)
    requires
        part.dom().contains(k),
        !part[k].1.dom().contains(r),
        part[k].2.contains(r),
        forall|k2: PatchKey| #[trigger] part.dom().contains(k2) && (part[k2].1.dom().contains(r) || part[k2].2.contains(r))
            ==> k2 == PatchKey::Base || (k2 matches PatchKey::Patch(a) && k matches PatchKey::Patch(b) && a <= b),
    ensures
        partition_entry(part, r) is None,
{
    assert(is_latest(part, r, k));
    let c = choose|c: PatchKey| is_latest(part, r, c);
    assert(patch_le(c, k) && patch_le(k, c));
}

/// Across partitions, the first one in mount order with a live version answers.
pub proof fn law_first_partition_answers(parts: MountedParts, r: u64, i: int)
    requires
        0 <= i < parts.len(),
        partition_entry(parts[i], r) is Some,
        forall|j: int| 0 <= j < i ==> partition_entry(#[trigger] parts[j], r) is None,
    ensures
        resource_lookup(parts, r) == partition_entry(parts[i], r),
{
    lemma_lookup_from_skips(parts, r, 0, i);
}

proof fn lemma_lookup_from_skips(parts: MountedParts, r: u64, j: int, i: int)
    requires
        0 <= j <= i < parts.len(),
        partition_entry(parts[i], r) is Some,
        forall|m: int| j <= m < i ==> partition_entry(#[trigger] parts[m], r) is None,
    ensures
        lookup_from(parts, j, r) == partition_entry(parts[i], r),
    decreases i - j,
{
    if j < i {
        assert(partition_entry(parts[j], r) is None);
        lemma_lookup_from_skips(parts, r, j + 1, i);
    }
}

/// Reads the length of `PartitionManager::partitions()`, the mounted partitions.
#[verifier::external_body]
fn partition_count(pm: &PartitionManager) -> (n: usize)
    ensures
        n == mounted_contents(*pm).len(),
{
    pm.partitions().len()
}

/// Calls `ResourcePartition::resource_patch_indices`, which lists once each patch whose
/// package holds the resource, in the order in which a `HashMap` is walked; the contract
/// states the set and that nothing occurs twice, not the order.
#[verifier::external_body]
fn patches_holding(pm: &PartitionManager, partition: usize, rrid: u64) -> (res: Vec<PatchKey>)
    requires
        partition < mounted_contents(*pm).len(),
    ensures
        res@.no_duplicates(),
        forall|k: PatchKey| #[trigger] res@.contains(k) <==> (mounted_contents(*pm)[partition as int].dom().contains(k)
            && mounted_contents(*pm)[partition as int][k].1.dom().contains(normalized_rrid(rrid))),
{
    pm.partitions()[partition].resource_patch_indices(&RuntimeResourceID::from(rrid)).into_iter()
        .map(|p| match p { PatchId::Base => PatchKey::Base, PatchId::Patch(n) => PatchKey::Patch(n) })
        .collect()
}

/// Calls `ResourcePartition::resource_removal_indices`, which lists once each patch whose
/// package marks the resource as unneeded, in `HashMap` order; the contract states the set
/// and that nothing occurs twice, not the order.
#[verifier::external_body]
fn patches_removing(pm: &PartitionManager, partition: usize, rrid: u64) -> (res: Vec<PatchKey>)
    requires
        partition < mounted_contents(*pm).len(),
    ensures
        res@.no_duplicates(),
        forall|k: PatchKey| #[trigger] res@.contains(k) <==> (mounted_contents(*pm)[partition as int].dom().contains(k)
            && mounted_contents(*pm)[partition as int][k].2.contains(normalized_rrid(rrid))),
{
    pm.partitions()[partition].resource_removal_indices(&RuntimeResourceID::from(rrid)).into_iter()
        .map(|p| match p { PatchId::Base => PatchKey::Base, PatchId::Patch(n) => PatchKey::Patch(n) })
        .collect()
}

/// Calls `ResourcePartition::resource_info_from`, which answers when the package of that
/// patch is mounted and holds the resource; the info is returned as its `data_type()`
/// and the identifiers of its `references()`.
#[verifier::external_body]
fn info_from(pm: &PartitionManager, partition: usize, rrid: u64, patch: PatchKey) -> (res: Option<(String, Vec<u64>)>)
    requires
        partition < mounted_contents(*pm).len(),
    ensures
        ({
            let part = mounted_contents(*pm)[partition as int];
            let r = normalized_rrid(rrid);
            match res {
                Some(info) => part.dom().contains(patch) && part[patch].1.dom().contains(r)
                    && info.0@ == part[patch].1[r].0 && info.1@ == part[patch].1[r].1,
                None => !(part.dom().contains(patch) && part[patch].1.dom().contains(r)),
            }
        }),
{
    let id = match patch { PatchKey::Base => PatchId::Base, PatchKey::Patch(n) => PatchId::Patch(n) };
    match pm.partitions()[partition].resource_info_from(&RuntimeResourceID::from(rrid), id) {
        Ok(info) => Some((info.data_type(), info.references().iter().map(|r| u64::from(r.0)).collect())),
        Err(_) => None,
    }
}

/// Calls `PartitionInfo::filename` of the partition for a patch that it has a package of.
#[verifier::external_body]
fn package_file_name(pm: &PartitionManager, partition: usize, patch: PatchKey) -> (res: String)
    requires
        partition < mounted_contents(*pm).len(),
        mounted_contents(*pm)[partition as int].dom().contains(patch),
    ensures
        res@ == mounted_contents(*pm)[partition as int][patch].0,
{
    let id = match patch { PatchKey::Base => PatchId::Base, PatchKey::Patch(n) => PatchId::Patch(n) };
    pm.partitions()[partition].partition_info().filename(id)
}

/// Calls itertools' `sorted`, which sorts the patches with the order of `PatchId`
/// (stable `sort`), keeping every element.
#[verifier::external_body]
fn sorted_patches(patches: Vec<PatchKey>) -> (res: Vec<PatchKey>)
    ensures
        res@.to_multiset() == patches@.to_multiset(),
        res@.len() == patches@.len(),
        forall|k: PatchKey| #[trigger] res@.contains(k) <==> patches@.contains(k),
        forall|i: int, j: int| 0 <= i <= j < res@.len() ==> patch_le(res@[i], res@[j]),
{
    patches.into_iter()
        .map(|k| match k { PatchKey::Base => PatchId::Base, PatchKey::Patch(n) => PatchId::Patch(n) })
        .sorted()
        .map(|p| match p { PatchId::Base => PatchKey::Base, PatchId::Patch(n) => PatchKey::Patch(n) })
        .collect()
}

/// The live version of a resource: the data type and references of the info, and the file
/// name of the package it was found in.
pub struct ResourceLookup {
    pub data_type: String,
    pub references: Vec<u64>,
    pub last_partition: String,
}

/// Unit type that groups the lookups in mounted partitions.
pub struct PackageScan;

fn contains_patch(v: &Vec<PatchKey>, k: PatchKey) -> (b: bool)
    ensures
        b == v@.contains(k),
{
    let mut i: usize = 0;
    while i < v.len()
        invariant
            i <= v.len(),
            forall|j: int| 0 <= j < i ==> v@[j] != k,
        decreases v.len() - i,
    {
        if v[i] == k {
            return true;
        }
        i = i + 1;
    }
    false
}

impl PackageScan {
    /// Finds the live version of a resource: in each partition, in mount order, the
    /// highest patch mentioning the resource decides; the first partition where that
    /// patch holds the resource answers.
    pub fn get_resource_info(pm: &PartitionManager, rrid: u64) -> (res: Option<ResourceLookup>)
        ensures
            match (res, resource_lookup(mounted_contents(*pm), normalized_rrid(rrid))) {
                (None, None) => true,
                (Some(r), Some(e)) => r.last_partition@ == e.0 && r.data_type@ == e.1 && r.references@ == e.2,
                _ => false,
            },
    {
        let ghost parts = mounted_contents(*pm);
        let ghost r = normalized_rrid(rrid);
        let n = partition_count(pm);
        let mut i: usize = 0;
        while i < n
            invariant
                n == parts.len(),
                parts == mounted_contents(*pm),
                r == normalized_rrid(rrid),
                i <= n,
                resource_lookup(parts, r) == lookup_from(parts, i as int, r),
            decreases n - i,
        {
            let ghost part = parts[i as int];
            let changes = patches_holding(pm, i, rrid);
            let deletions = patches_removing(pm, i, rrid);
            let mut occurrences = changes.clone();
            let mut deletions_copy = deletions.clone();
            occurrences.append(&mut deletions_copy);
            let sorted = sorted_patches(occurrences);
            assert forall|k: PatchKey| #[trigger] sorted@.contains(k) <==> occurs(part, r, k) by {
                if occurs(part, r, k) {
                    if part[k].1.dom().contains(r) {
                        assert(changes@.contains(k));
                        let idx = choose|idx: int| 0 <= idx < changes@.len() && changes@[idx] == k;
                        assert(occurrences@[idx] == k);
                    } else {
                        assert(deletions@.contains(k));
                        let idx = choose|idx: int| 0 <= idx < deletions@.len() && deletions@[idx] == k;
                        assert(occurrences@[changes@.len() + idx] == k);
                    }
                }
                if sorted@.contains(k) {
                    assert(occurrences@.contains(k));
                    let idx = choose|idx: int| 0 <= idx < occurrences@.len() && occurrences@[idx] == k;
                    if idx < changes@.len() {
                        assert(changes@.contains(k));
                    } else {
                        assert(deletions@[idx - changes@.len()] == k);
                        assert(deletions@.contains(k));
                    }
                }
            }
            let mut last: Option<(String, Vec<u64>)> = None;
            let mut last_partition: Option<String> = None;
            let mut j: usize = 0;
            while j < sorted.len()
                invariant
                    n == parts.len(),
                    parts == mounted_contents(*pm),
                    r == normalized_rrid(rrid),
                    i < n,
                    part == parts[i as int],
                    j <= sorted@.len(),
                    forall|k: PatchKey| #[trigger] sorted@.contains(k) <==> occurs(part, r, k),
                    forall|k: PatchKey| #[trigger] changes@.contains(k) <==> (part.dom().contains(k) && part[k].1.dom().contains(r)),
                    forall|k: PatchKey| #[trigger] deletions@.contains(k) <==> (part.dom().contains(k) && part[k].2.contains(r)),
                    j == 0 ==> last is None,
                    j > 0 ==> match last {
                        Some(info) => {
                            let k = sorted@[j - 1];
                            &&& part.dom().contains(k) && part[k].1.dom().contains(r)
                            &&& info.0@ == part[k].1[r].0 && info.1@ == part[k].1[r].1
                            &&& last_partition matches Some(p) && p@ == part[k].0
                        },
                        None => !(part.dom().contains(sorted@[j - 1]) && part[sorted@[j - 1]].1.dom().contains(r)),
                    },
                decreases sorted.len() - j,
            {
                let k = sorted[j];
                assert(sorted@.contains(k));
                if contains_patch(&deletions, k) {
                    last = None;
                }
                if contains_patch(&changes, k) {
                    match info_from(pm, i, rrid, k) {
                        Some(info) => {
                            last_partition = Some(package_file_name(pm, i, k));
                            last = Some(info);
                        },
                        None => {},
                    }
                }
                j = j + 1;
            }
            proof {
                if sorted@.len() > 0 {
                    let top = sorted@[sorted@.len() - 1];
                    assert(sorted@.contains(top));
                    assert forall|k2: PatchKey| occurs(part, r, k2) implies patch_le(k2, top) by {
                        assert(sorted@.contains(k2));
                        let idx = choose|idx: int| 0 <= idx < sorted@.len() && sorted@[idx] == k2;
                    }
                    assert(is_latest(part, r, top));
                    let chosen = choose|k: PatchKey| is_latest(part, r, k);
                    assert(patch_le(chosen, top) && patch_le(top, chosen));
                    assert(chosen == top);
                } else {
                    assert forall|k: PatchKey| !is_latest(part, r, k) by {
                        if occurs(part, r, k) {
                            assert(sorted@.contains(k));
                        }
                    }
                }
            }
            match last {
                Some(info) => {
                    match last_partition {
                        Some(p) => {
                            return Some(ResourceLookup { data_type: info.0, references: info.1, last_partition: p });
                        },
                        None => {
                            return None;
                        },
                    }
                },
                None => {},
            }
            i = i + 1;
        }
        None
    }
}

} // verus!
