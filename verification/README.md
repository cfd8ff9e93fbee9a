# Voxel World

An infinite, procedurally generated voxel world explored in first person:
chunks stream in and out around the player, are greedily meshed with a
water plane and a detail-texture atlas, can be carved and built on, and
persist to a plain-text save file.

## Layout

- `src/` — the game rules as a verified library (`sausage_playground`):
  - `blocks` — block kinds, the per-voxel column shells and terrain;
  - `edits` — the voxel edit store and its dirty-chunk set;
  - `heights` — surface height fields and voxel solidity;
  - `greedy` — greedy rectangle merging of a face mask (with a proof that
    the merge is the unique one meeting its rules);
  - `mesher`, `assemble`, `chunk` — exposed-face masks, quads and the
    indexed chunk mesh, with well-formedness and locality laws;
  - `atlas` — layout of the detail atlas strip;
  - `stream` — chunk streaming and creature population decisions, and
    ray picking;
  - `save` — the save-file text format, with its round-trip law;
  - `viz` — cutting a submesh out as a mesh of its own;
  - `config`, `noise` — configuration, statistics and the lattice hash.
- `app/` — the game binary: engine systems, floating-point noise, colours,
  camera and physics glue, file I/O.
- `tests/` — scenarios over the library.
