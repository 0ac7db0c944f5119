//! Planning the extraction of the ALOC resources a scene needs.
use vstd::prelude::*;
use rpkg_rs::resource::partition_manager::PartitionManager;
use crate::json_serde::entities_json::EntitiesJson;
use crate::extract::hash_lists::{
    texts, distinct_texts, first_occurrences, gather_distinct, select_missing, missing, thread_chunks, chunks_of,
    chunk_size_for, locate_resource, LocateError, output_file_name,
};
use crate::package::package_scan::{mounted_contents, resource_lookup};
use crate::package::resource_ids::{parse_rrid_hex, normalized_rrid};

verus! {

/// Unit type that groups the ALOC extraction steps.
pub struct AlocExtraction;

impl AlocExtraction {
    /// The ALOC hashes of the scene, each once, in order of first occurrence.
    pub fn collect_aloc_hashes(nav_json: &EntitiesJson) -> (res: Vec<String>)
        ensures
            texts(res@) == first_occurrences(nav_json.aloc_hashes()),
            distinct_texts(texts(res@)),
            texts(res@).to_set() == nav_json.aloc_hashes().to_set(),
    {
        let mut all: Vec<String> = Vec::new();
        let mut i: usize = 0;
        while i < nav_json.meshes.len()
            invariant
                i <= nav_json.meshes@.len(),
                texts(all@) == nav_json.aloc_hashes().take(i as int),
            decreases nav_json.meshes.len() - i,
        {
            let ghost prev = texts(all@);
            all.push(nav_json.meshes[i].aloc_hash.clone());
            proof {
                assert(texts(all@) =~= prev.push(nav_json.meshes@[i as int].aloc_hash@));
                assert(nav_json.aloc_hashes().take(i + 1) =~= nav_json.aloc_hashes().take(i as int).push(nav_json.aloc_hashes()[i as int]));
            }
            i = i + 1;
        }
        proof {
            assert(nav_json.aloc_hashes().take(nav_json.meshes@.len() as int) =~= nav_json.aloc_hashes());
        }
        gather_distinct(&all)
    }

    /// The file an ALOC is extracted to: its hash with the `.ALOC` extension.
    pub fn aloc_file_name(hash: &String) -> (res: String)
        ensures
            res@ == hash@ + ".ALOC"@,
    {
        let name = output_file_name(hash, "ALOC");
        proof {
            reveal_strlit(".ALOC");
            reveal_strlit(".");
            reveal_strlit("ALOC");
            assert("."@ + "ALOC"@ =~= ".ALOC"@);
            assert(hash@ + "."@ + "ALOC"@ =~= hash@ + ".ALOC"@);
        }
        name
    }

    /// The hashes still to extract: those whose file is not present, in order.
    pub fn needed_aloc_hashes(hashes: &Vec<String>, present: &Vec<bool>) -> (res: Vec<String>)
        requires
            hashes@.len() == present@.len(),
        ensures
            texts(res@) == missing(texts(hashes@), present@),
    {
        select_missing(hashes, present)
    }

    /// The work of each extraction thread: consecutive chunks of the hashes, each of
    /// the hash count divided by the number of threads, rounded up.
    pub fn thread_work(needed_aloc_hashes: &Vec<String>) -> (res: Vec<Vec<String>>)
        requires
            needed_aloc_hashes@.len() > 0,
        ensures
            res@.map_values(|c: Vec<String>| texts(c@)) == chunks_of(texts(needed_aloc_hashes@), chunk_size_for(needed_aloc_hashes@.len())),
    {
        thread_chunks(needed_aloc_hashes)
    }

    /// The resource an ALOC hash names and the package file that holds it.
    pub fn locate_aloc(partition_manager: &PartitionManager, hash: &String) -> (res: Result<(u64, String), LocateError>)
        ensures
            match res {
                Ok((rrid, package)) => {
                    &&& parse_rrid_hex(hash@) == Some(rrid)
                    &&& resource_lookup(mounted_contents(*partition_manager), normalized_rrid(rrid)) matches Some(e)
                    &&& package@ == e.0
                },
                Err(LocateError::InvalidRuntimeResourceId) => parse_rrid_hex(hash@) is None,
                Err(LocateError::ResourceNotMounted) => {
                    &&& parse_rrid_hex(hash@) matches Some(r)
                    &&& resource_lookup(mounted_contents(*partition_manager), normalized_rrid(r)) is None
                },
            },
    {
        locate_resource(partition_manager, hash)
    }
}

} // verus!
