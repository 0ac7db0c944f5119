use glacier2obj::extract::aloc_extraction::AlocExtraction;
use glacier2obj::extract::hash_lists::{locate_resource, LocateError};
use glacier2obj::extract::prim_extraction::PrimExtraction;
use glacier2obj::json_serde::entities_json::{Aloc, EntitiesJson, MeshHashesAndEntity, Rotation, Scale, Vec3};
use glacier2obj::json_serde::prims_json::{self, EntityHashPair, PrimsJson};
use rpkg_rs::resource::partition_manager::PartitionManager;
use rpkg_rs::resource::pdefs::PackageDefinitionSource;
use std::path::PathBuf;

fn mesh(aloc: &str, prim: &str) -> MeshHashesAndEntity {
    MeshHashesAndEntity {
        aloc_hash: aloc.to_string(),
        prim_hash: prim.to_string(),
        entity: Aloc {
            id: "id".to_string(),
            name: None,
            tblu: None,
            position: Vec3 { x: 0, y: 0, z: 0 },
            rotation: Rotation { x: 0, y: 0, z: 0, w: 0 },
            scale: Scale { kind: "SVector3".to_string(), data: Vec3 { x: 0, y: 0, z: 0 } },
        },
    }
}

fn prim_entity(prim: &str) -> EntityHashPair {
    EntityHashPair {
        prim_hash: prim.to_string(),
        entity: prims_json::Entity {
            id: "id".to_string(),
            name: Some("n".to_string()),
            position: prims_json::Vec3 { x: 0, y: 0, z: 0 },
            rotation: prims_json::Rotation { yaw: 0, pitch: 0, roll: 0 },
            scale: prims_json::Scale { kind: "SVector3".to_string(), data: prims_json::Vec3 { x: 0, y: 0, z: 0 } },
        },
    }
}

#[test]
fn aloc_hashes_are_gathered_once() {
    let nav = EntitiesJson {
        meshes: vec![mesh("A", "P1"), mesh("B", "P2"), mesh("A", "P3")],
        pf_boxes: vec![],
        pf_seed_points: vec![],
    };
    assert_eq!(AlocExtraction::collect_aloc_hashes(&nav), vec!["A".to_string(), "B".to_string()]);
}

#[test]
fn prim_hashes_are_gathered_once() {
    let prims = PrimsJson { entities: vec![prim_entity("X"), prim_entity("X"), prim_entity("Y")] };
    assert_eq!(PrimExtraction::collect_prim_hashes(&prims), vec!["X".to_string(), "Y".to_string()]);
}

#[test]
fn only_missing_files_are_needed() {
    let hashes = vec!["A".to_string(), "B".to_string(), "C".to_string()];
    assert_eq!(AlocExtraction::needed_aloc_hashes(&hashes, &vec![true, false, false]), vec!["B".to_string(), "C".to_string()]);
    assert_eq!(PrimExtraction::needed_prim_hashes(&hashes, &vec![true, true, true]), Vec::<String>::new());
}

#[test]
fn file_names() {
    assert_eq!(AlocExtraction::aloc_file_name(&"00AB".to_string()), "00AB.ALOC");
    assert_eq!(PrimExtraction::prim_file_name(&"00AB".to_string()), "00AB.PRIM");
}

#[test]
fn work_is_split_between_ten_threads() {
    let hashes: Vec<String> = (0..25).map(|i| format!("{:016X}", i)).collect();
    let chunks = AlocExtraction::thread_work(&hashes);
    assert_eq!(chunks.len(), 9);
    assert!(chunks[..8].iter().all(|c| c.len() == 3));
    assert_eq!(chunks[8].len(), 1);
    assert_eq!(chunks.concat(), hashes);
}

#[test]
fn few_hashes_get_one_per_thread() {
    let hashes: Vec<String> = (0..4).map(|i| format!("H{}", i)).collect();
    let chunks = AlocExtraction::thread_work(&hashes);
    assert_eq!(chunks.len(), 4);
    assert_eq!(chunks.concat(), hashes);
}

#[test]
fn locating_in_empty_manager() {
    let pm = PartitionManager::new(PathBuf::from("."), &PackageDefinitionSource::Custom(vec![])).unwrap();
    assert_eq!(locate_resource(&pm, &"nothex".to_string()).err(), Some(LocateError::InvalidRuntimeResourceId));
    assert_eq!(locate_resource(&pm, &"00123456789ABCDE".to_string()).err(), Some(LocateError::ResourceNotMounted));
    assert_eq!(AlocExtraction::locate_aloc(&pm, &"0x0112".to_string()).err(), Some(LocateError::ResourceNotMounted));
    assert_eq!(PrimExtraction::locate_prim(&pm, &"05000000000000AA".to_string()).err(), Some(LocateError::InvalidRuntimeResourceId));
}
