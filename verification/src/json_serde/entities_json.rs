//! The scene as the nav.json file describes it: ALOC meshes with their PRIMs, pathfinding
//! boxes and pathfinding seed points.
//!
//! Coordinates are kept as the IEEE-754 bit patterns of the `f64` values the file holds,
//! so that a scene read from a file and written back is unchanged.
use vstd::prelude::*;

verus! {

/// The entities of a scene.
pub struct EntitiesJson {
    pub meshes: Vec<MeshHashesAndEntity>,
    pub pf_boxes: Vec<PfBox>,
    pub pf_seed_points: Vec<PfSeedPoint>,
}

/// A brick of the scene, by its hash.
pub struct BrickMessage {
    pub brick_hash: String,
}

/// An ALOC entity with the hashes of its ALOC and PRIM resources.
pub struct MeshHashesAndEntity {
    pub aloc_hash: String,
    pub prim_hash: String,
    pub entity: Aloc,
}

/// An ALOC entity: identifier, optional name and template, and transform.
pub struct Aloc {
    pub id: String,
    pub name: Option<String>,
    pub tblu: Option<String>,
    pub position: Vec3,
    pub rotation: Rotation,
    pub scale: Scale,
}

/// A pathfinding box: identifier, transform and box type.
pub struct PfBox {
    pub id: String,
    pub position: Vec3,
    pub rotation: Rotation,
    pub kind: Type,
    pub scale: Scale,
}

/// A pathfinding seed point: identifier and transform.
pub struct PfSeedPoint {
    pub id: String,
    pub position: Vec3,
    pub rotation: Rotation,
}

/// A vector; each coordinate is the bit pattern of an `f64`.
pub struct Vec3 {
    pub x: u64,
    pub y: u64,
    pub z: u64,
}

/// A quaternion; each component is the bit pattern of an `f64`.
pub struct Rotation {
    pub x: u64,
    pub y: u64,
    pub z: u64,
    pub w: u64,
}

/// A scale with its property type.
pub struct Scale {
    pub kind: String,
    pub data: Vec3,
}

/// A typed property value.
pub struct Type {
    pub kind: String,
    pub data: String,
}

impl EntitiesJson {
    /// The ALOC hashes of the meshes, in order.
    pub open spec fn aloc_hashes(&self) -> Seq<Seq<char>> {
        self.meshes@.map_values(|m: MeshHashesAndEntity| m.aloc_hash@)
    }
}

} // verus!
