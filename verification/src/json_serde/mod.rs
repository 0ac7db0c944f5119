pub mod entities_json;
pub mod prims_json;
