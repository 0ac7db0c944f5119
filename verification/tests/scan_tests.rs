use glacier2obj::package::package_scan::PackageScan;
use glacier2obj::package::resource_walk::{prims_document_text, resolve_start_hash, walk_dependencies, WalkError, WalkRules};
use glacier2obj::scanner::scenario_scan::{game_version_of, runtime_path, GameVersion};
use glacier2obj::scenario::scenario_scan::ScenarioScan;
use rpkg_rs::resource::partition_manager::PartitionManager;
use rpkg_rs::resource::pdefs::PackageDefinitionSource;
use std::collections::HashSet;
use std::path::PathBuf;

fn empty_manager() -> PartitionManager {
    PartitionManager::new(PathBuf::from("."), &PackageDefinitionSource::Custom(vec![])).unwrap()
}

#[test]
fn start_hash_kept_when_hexadecimal() {
    assert_eq!(resolve_start_hash(&"00123456789ABCDE".to_string()), Some("00123456789ABCDE".to_string()));
    assert_eq!(resolve_start_hash(&"0x00123456789abcde".to_string()), Some("0x00123456789abcde".to_string()));
}

#[test]
fn start_hash_derived_from_resource_path() {
    assert_eq!(
        resolve_start_hash(&"[assembly:/_test/lib.a?/test_image.png].pc_webp".to_string()),
        Some("00290D5B143172A3".to_string())
    );
}

#[test]
fn start_hash_refused() {
    assert_eq!(resolve_start_hash(&"not a resource".to_string()), None);
    // an all-ones identifier part is not a valid runtime resource identifier
    assert_eq!(resolve_start_hash(&"00FFFFFFFFFFFFFF".to_string()).is_some(), false);
}

#[test]
fn lookup_in_empty_manager() {
    let pm = empty_manager();
    assert!(PackageScan::get_resource_info(&pm, 0x00123456789ABCDE).is_none());
}

#[test]
fn walk_of_unmounted_start_finds_nothing() {
    let pm = empty_manager();
    let rules = WalkRules { excluded: vec![], followed_types: vec!["ALOC".to_string()], skip_found_dependencies: false };
    let (mut h, mut a, mut p) = (HashSet::new(), HashSet::new(), HashSet::new());
    let events = walk_dependencies(&pm, &rules, &"00123456789ABCDE".to_string(), &mut h, &mut a, &mut p).unwrap();
    assert!(events.is_empty());
    assert!(h.is_empty() && a.is_empty() && p.is_empty());
}

#[test]
fn walk_refuses_invalid_start() {
    let pm = empty_manager();
    let rules = WalkRules { excluded: vec![], followed_types: vec![], skip_found_dependencies: true };
    let (mut h, mut a, mut p) = (HashSet::new(), HashSet::new(), HashSet::new());
    let res = walk_dependencies(&pm, &rules, &"ZZZ".to_string(), &mut h, &mut a, &mut p);
    assert_eq!(res.err(), Some(WalkError::InvalidRuntimeResourceId));
}

#[test]
fn walk_skips_excluded_start() {
    let pm = empty_manager();
    let rules = WalkRules { excluded: vec!["ZZZ".to_string()], followed_types: vec![], skip_found_dependencies: false };
    let (mut h, mut a, mut p) = (HashSet::new(), HashSet::new(), HashSet::new());
    assert!(walk_dependencies(&pm, &rules, &"ZZZ".to_string(), &mut h, &mut a, &mut p).is_ok());
}

#[test]
fn excluded_scenario_is_not_scanned() {
    let pm = empty_manager();
    let mut scan = ScenarioScan::new("00BDA629523CE8B2".to_string(), "hashes.txt".to_string());
    let report = scan.scan_scenario(&pm).ok().unwrap();
    assert_eq!(report.start_hash, "00BDA629523CE8B2");
    assert!(report.events.is_empty());
}

#[test]
fn scan_of_bad_scenario_fails() {
    let pm = empty_manager();
    let mut scan = ScenarioScan::new("???".to_string(), "hashes.txt".to_string());
    assert_eq!(scan.scan_scenario(&pm).err(), Some(WalkError::InvalidRuntimeResourceId));
    assert_eq!(scan.output_text(), "{\"type\":\"listPrimEntities\", \"prims\":[]}");
    assert_eq!(scan.scenario(), "???");
    let mut scanner = glacier2obj::scanner::scenario_scan::ScenarioScan::new(
        "retail".to_string(), "HM3".to_string(), "???".to_string(), "hashes.txt".to_string());
    assert_eq!(scanner.scan_scenario(&pm).err(), Some(WalkError::InvalidRuntimeResourceId));
}

#[test]
fn empty_prim_document() {
    let scan = ScenarioScan::new("00123456789ABCDE".to_string(), "hashes.txt".to_string());
    assert_eq!(scan.output_text(), "{\"type\":\"listPrimEntities\", \"prims\":[]}");
}

#[test]
fn prim_document_lists_each_prim_once() {
    let mut prims = HashSet::new();
    prims.insert(0x00123456789ABCDEu64);
    assert_eq!(prims_document_text(&prims), "{\"type\":\"listPrimEntities\", \"prims\":[\"00123456789ABCDE\"]}");
    prims.insert(0x0000000000000001u64);
    let doc = prims_document_text(&prims);
    assert!(
        doc == "{\"type\":\"listPrimEntities\", \"prims\":[\"00123456789ABCDE\",\"0000000000000001\"]}"
            || doc == "{\"type\":\"listPrimEntities\", \"prims\":[\"0000000000000001\",\"00123456789ABCDE\"]}"
    );
}

#[test]
fn game_versions() {
    assert_eq!(game_version_of(&"HM2016".to_string()), Some(GameVersion::HM2016));
    assert_eq!(game_version_of(&"HM2".to_string()), Some(GameVersion::HM2));
    assert_eq!(game_version_of(&"HM3".to_string()), Some(GameVersion::HM3));
    assert_eq!(game_version_of(&"H2016".to_string()), Some(GameVersion::HM2016));
    assert_eq!(game_version_of(&"HM2017".to_string()), None);
}

#[test]
fn runtime_path_joins_with_backslashes() {
    assert_eq!(
        runtime_path(&"C:\\Games\\HITMAN3\\Retail".to_string(), &"..".to_string(), &"Runtime".to_string()),
        "C:\\Games\\HITMAN3\\Retail\\..\\Runtime"
    );
}

#[test]
fn hex_spelling_reads_back() {
    let mut prims = HashSet::new();
    prims.insert(0x0012_3456_789A_BCDEu64);
    let doc = prims_document_text(&prims);
    let hex = &doc[doc.find("[\"").unwrap() + 2..doc.find("\"]").unwrap()];
    assert_eq!(hex, "00123456789ABCDE");
    assert_eq!(resolve_start_hash(&hex.to_string()), Some(hex.to_string()));
    let mut invalid = HashSet::new();
    invalid.insert(0x0500_0000_0000_0001u64);
    assert_eq!(prims_document_text(&invalid), "{\"type\":\"listPrimEntities\", \"prims\":[\"00FFFFFFFFFFFFFF\"]}");
}

#[test]
fn patch_levels_are_capped_for_every_partition() {
    let mut defs = vec![
        rpkg_rs::resource::pdefs::PartitionInfo::from_id("chunk0").unwrap(),
        rpkg_rs::resource::pdefs::PartitionInfo::from_id("dlc3").unwrap(),
    ];
    glacier2obj::scanner::scenario_scan::cap_patch_levels(&mut defs);
    assert_eq!(defs.len(), 2);
    assert!(defs.iter().all(|d| d.patch_level == 301));
    assert_eq!(defs[1].filename(rpkg_rs::resource::resource_partition::PatchId::Base), "dlc3.rpkg");
}
