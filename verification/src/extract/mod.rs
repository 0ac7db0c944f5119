pub mod aloc_extraction;
pub mod prim_extraction;
pub mod hash_lists;
