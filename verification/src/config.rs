use vstd::prelude::*;

verus! {

/// How the terrain is realised in the ECS.
#[derive(Clone, Copy, Debug, PartialEq, Eq, Structural)]
pub enum Terrain {
    /// One entity per voxel. Maximum ECS pressure; does not scale to a
    /// streaming world.
    PerVoxel,
    /// One face-culled mesh entity per chunk, each with a static trimesh
    /// collider.
    Chunked,
}

/// World-generation parameters.
#[derive(Clone, Copy, Debug)]
pub struct VoxelConfig {
    /// How terrain is spawned (per-voxel vs meshed chunks).
    pub terrain: Terrain,
    /// Chunk edge in columns (Chunked mode).
    pub chunk: i32,
    /// Half the terrain footprint: columns span `[-half, half)` on X and Z.
    pub half: i32,
    /// Noise seed.
    pub seed: u32,
    /// Blocks at or below this Y (when the surface is lower) are water.
    pub sea_level: i32,
    /// Peak surface height above Y=0.
    pub max_height: i32,
    /// Number of wandering creatures.
    pub creatures: usize,
    /// Number of orbiting spirit orbs.
    pub orbs: usize,
    /// Number of tumbling dynamic-physics cubes in the corner.
    pub dyn_cubes: usize,
}

impl Default for VoxelConfig {
    fn default() -> (cfg: Self)
        ensures
            cfg.terrain == Terrain::Chunked,
            cfg.chunk == 16,
            cfg.half == 42,
            cfg.seed == 1337,
            cfg.sea_level == 5,
            cfg.max_height == 14,
            cfg.creatures == 300,
            cfg.orbs == 150,
            cfg.dyn_cubes == 40,
    {
        VoxelConfig {
            terrain: Terrain::Chunked,
            chunk: 16,
            half: 42,
            seed: 1337,
            sea_level: 5,
            max_height: 14,
            creatures: 300,
            orbs: 150,
            dyn_cubes: 40,
        }
    }
}

/// One-shot latch so world generation runs exactly once.
#[derive(Clone, Copy, Debug)]
pub struct GenState {
    pub done: bool,
}

impl Default for GenState {
    fn default() -> (s: Self)
        ensures
            !s.done,
    {
        GenState { done: false }
    }
}

/// Where the world is saved and loaded (a file path). The save file is
/// plain text: the seed, the player pose and the edits; the base terrain
/// is regenerated from the seed.
pub struct SavePath(pub String);

/// One-shot latch so the save file is loaded exactly once.
pub struct WorldLoaded(pub bool);

impl Default for WorldLoaded {
    fn default() -> (w: Self)
        ensures
            !w.0,
    {
        WorldLoaded(false)
    }
}

/// What world generation produced (for logging / tests).
#[derive(Clone, Copy, Debug)]
pub struct GenStats {
    pub blocks: usize,
    pub creatures: usize,
    pub orbs: usize,
    pub dyn_cubes: usize,
}

impl Default for GenStats {
    fn default() -> (s: Self)
        ensures
            s.blocks == 0,
            s.creatures == 0,
            s.orbs == 0,
            s.dyn_cubes == 0,
    {
        GenStats { blocks: 0, creatures: 0, orbs: 0, dyn_cubes: 0 }
    }
}

impl GenStats {
    /// Total number of entities the generation spawned.
    pub fn total_entities(&self) -> (n: usize)
        requires
            self.blocks + self.creatures + self.orbs + self.dyn_cubes <= usize::MAX,
        ensures
            n == self.blocks + self.creatures + self.orbs + self.dyn_cubes,
    {
        self.blocks + self.creatures + self.orbs + self.dyn_cubes
    }
}

/// Number of tiles in the block-detail atlas (grass, dirt, stone, sand,
/// snow, water).
pub const ATLAS_TILES: usize = 6;

/// Pixel size of one atlas tile.
pub const ATLAS_TILE: usize = 16;

} // verus!
