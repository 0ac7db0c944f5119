# glacier2obj

Tools for pulling navigation-mesh inputs out of a Glacier 2 game: the ALOC, PRIM,
pathfinding-box and seed-point entities of a scene, and the ALOC and PRIM resources they
name, extracted from the game's packages.

The library under `src/` is written in Verus and verified:

- `connect` — the editor-server conversation as a state machine: for each message, what is
  appended to the nav.json document, what the user is told, and when the conversation ends.
- `package` — runtime resource identifiers and their hexadecimal spelling, lookups of the
  live version of a resource in mounted partitions (highest patch wins, first partition
  answers), and the breadth-first walk of a scenario's dependencies, with its result stated
  as the reachable closure of the resource graph and its visit order pinned down.
- `scenario`, `scanner` — the two scenario scans built on the walk, and the PRIM list they
  write.
- `extract` — the lists of hashes to extract: gathered once each, filtered by the files
  already present, split between worker threads, and located in the partitions.
- `json_serde` — the scene and PRIM entity types.

The package reader (rpkg-rs) is reached through a few trusted wrappers in
`src/package/package_scan.rs` and `src/package/resource_ids.rs`, each with a contract
stated over the contents of the mounted partitions.

`app/` holds the command-line program: mounting partitions from a retail folder, the
WebSocket connection, JSON files, and writing extracted resources to disk.
