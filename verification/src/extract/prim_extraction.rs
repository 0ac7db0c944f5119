//! Planning the extraction of the PRIM resources a scene needs.
use vstd::prelude::*;
use rpkg_rs::resource::partition_manager::PartitionManager;
use crate::json_serde::prims_json::PrimsJson;
use crate::extract::hash_lists::{
    texts, distinct_texts, first_occurrences, gather_distinct, select_missing, missing, locate_resource, LocateError,
    output_file_name,
};
use crate::package::package_scan::{mounted_contents, resource_lookup};
use crate::package::resource_ids::{parse_rrid_hex, normalized_rrid};

verus! {

/// Unit type that groups the PRIM extraction steps.
pub struct PrimExtraction;

impl PrimExtraction {
    /// The PRIM hashes of the entities, each once, in order of first occurrence.
    pub fn collect_prim_hashes(prims_json: &PrimsJson) -> (res: Vec<String>)
        ensures
            texts(res@) == first_occurrences(prims_json.prim_hashes()),
            distinct_texts(texts(res@)),
            texts(res@).to_set() == prims_json.prim_hashes().to_set(),
    {
        let mut all: Vec<String> = Vec::new();
        let mut i: usize = 0;
        while i < prims_json.entities.len()
            invariant
                i <= prims_json.entities@.len(),
                texts(all@) == prims_json.prim_hashes().take(i as int),
            decreases prims_json.entities.len() - i,
        {
            let ghost prev = texts(all@);
            all.push(prims_json.entities[i].prim_hash.clone());
            proof {
                assert(texts(all@) =~= prev.push(prims_json.entities@[i as int].prim_hash@));
                assert(prims_json.prim_hashes().take(i + 1) =~= prims_json.prim_hashes().take(i as int).push(prims_json.prim_hashes()[i as int]));
            }
            i = i + 1;
        }
        proof {
            assert(prims_json.prim_hashes().take(prims_json.entities@.len() as int) =~= prims_json.prim_hashes());
        }
        gather_distinct(&all)
    }

    /// The file a PRIM is extracted to: its hash with the `.PRIM` extension.
    pub fn prim_file_name(hash: &String) -> (res: String)
        ensures
            res@ == hash@ + ".PRIM"@,
    {
        let name = output_file_name(hash, "PRIM");
        proof {
            reveal_strlit(".PRIM");
            reveal_strlit(".");
            reveal_strlit("PRIM");
            assert("."@ + "PRIM"@ =~= ".PRIM"@);
            assert(hash@ + "."@ + "PRIM"@ =~= hash@ + ".PRIM"@);
        }
        name
    }

    /// The hashes still to extract: those whose file is not present, in order.
    pub fn needed_prim_hashes(hashes: &Vec<String>, present: &Vec<bool>) -> (res: Vec<String>)
        requires
            hashes@.len() == present@.len(),
        ensures
            texts(res@) == missing(texts(hashes@), present@),
    {
        select_missing(hashes, present)
    }

    /// The resource a PRIM hash names and the package file that holds it.
    pub fn locate_prim(partition_manager: &PartitionManager, hash: &String) -> (res: Result<(u64, String), LocateError>)
        ensures
            match res {
                Ok((rrid, package)) => {
                    &&& parse_rrid_hex(hash@) == Some(rrid)
                    &&& resource_lookup(mounted_contents(*partition_manager), normalized_rrid(rrid)) matches Some(e)
                    &&& package@ == e.0
                },
                Err(LocateError::InvalidRuntimeResourceId) => parse_rrid_hex(hash@) is None,
                Err(LocateError::ResourceNotMounted) => {
                    &&& parse_rrid_hex(hash@) matches Some(r)
                    &&& resource_lookup(mounted_contents(*partition_manager), normalized_rrid(r)) is None
                },
            },
    {
        locate_resource(partition_manager, hash)
    }
}

} // verus!
