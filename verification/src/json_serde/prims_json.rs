//! The PRIM entities of a scene, as a prims.json file lists them.
//!
//! Coordinates are kept as the IEEE-754 bit patterns of the `f64` values the file holds.
use vstd::prelude::*;

verus! {

/// The PRIM entities of a scene.
pub struct PrimsJson {
    pub entities: Vec<EntityHashPair>,
}

/// An entity with the hash of its PRIM resource.
pub struct EntityHashPair {
    pub prim_hash: String,
    pub entity: Entity,
}

/// An entity: identifier, optional name and transform.
pub struct Entity {
    pub id: String,
    pub name: Option<String>,
    pub position: Vec3,
    pub rotation: Rotation,
    pub scale: Scale,
}

/// A vector; each coordinate is the bit pattern of an `f64`.
pub struct Vec3 {
    pub x: u64,
    pub y: u64,
    pub z: u64,
}

/// Euler angles; each is the bit pattern of an `f64`.
pub struct Rotation {
    pub yaw: u64,
    pub pitch: u64,
    pub roll: u64,
}

/// A scale with its property type.
pub struct Scale {
    pub kind: String,
    pub data: Vec3,
}

impl PrimsJson {
    /// The PRIM hashes of the entities, in order.
    pub open spec fn prim_hashes(&self) -> Seq<Seq<char>> {
        self.entities@.map_values(|e: EntityHashPair| e.prim_hash@)
    }
}

} // verus!
