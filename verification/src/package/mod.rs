pub mod resource_ids;
pub mod package_scan;
pub mod resource_graph;
pub mod walk_order;
pub mod resource_walk;
