//! Verified core of glacier2obj: the decisions behind reading entity lists from the
//! Glacier editor server, walking resource dependencies through mounted partitions,
//! and planning the extraction of ALOC and PRIM resources.

pub mod connect;
pub mod package;
pub mod scenario;
pub mod scanner;
pub mod json_serde;
pub mod extract;
