use vstd::prelude::*;
use crate::heights::HeightField;

verus! {

/// Block types of the terrain.
#[derive(Clone, Copy, Debug, PartialEq, Eq, Structural)]
pub enum Kind {
    Grass,
    Dirt,
    Stone,
    Sand,
    Snow,
    Water,
}

/// Classification of the block at height `y` in a column whose surface is
/// at `surface_h`: the top block is snow on high ground, sand near the sea
/// and grass elsewhere; the two blocks under the surface are dirt and the
/// rest stone.
pub open spec fn spec_block_kind(surface_h: i32, y: i32, sea_level: i32, top_of_column: bool) -> Kind {
    if top_of_column && surface_h >= 12 {
        Kind::Snow
    } else if top_of_column && surface_h <= sea_level + 1 {
        Kind::Sand
    } else if top_of_column {
        Kind::Grass
    } else if y >= surface_h - 2 {
        Kind::Dirt
    } else {
        Kind::Stone
    }
}

/// The block kind at height `y` of a column with surface `surface_h`.
pub fn block_kind(surface_h: i32, y: i32, sea_level: i32, top_of_column: bool) -> (k: Kind)
    ensures
        k == spec_block_kind(surface_h, y, sea_level, top_of_column),
{
    if top_of_column && surface_h >= 12 {
        Kind::Snow
    } else if top_of_column && (surface_h as i64) <= (sea_level as i64) + 1 {
        Kind::Sand
    } else if top_of_column {
        Kind::Grass
    } else if (y as i64) >= (surface_h as i64) - 2 {
        Kind::Dirt
    } else {
        Kind::Stone
    }
}

/// Submesh slot of a block kind in the chunk mesher (water, which the
/// mesher does not emit as a solid block, shares the stone slot).
pub open spec fn spec_kind_slot(k: Kind) -> usize {
    match k {
        Kind::Grass => 0,
        Kind::Dirt => 1,
        Kind::Stone => 2,
        Kind::Sand => 3,
        Kind::Snow => 4,
        Kind::Water => 2,
    }
}

/// Submesh slot (0..5) of a block kind.
pub fn kind_slot(k: Kind) -> (s: usize)
    ensures
        s == spec_kind_slot(k),
        s < 5,
{
    match k {
        Kind::Grass => 0,
        Kind::Dirt => 1,
        Kind::Stone => 2,
        Kind::Sand => 3,
        Kind::Snow => 4,
        Kind::Water => 2,
    }
}

/// Lowest filled height of a column whose surface is at `h`: one below the
/// lowest neighbouring surface (so exposed side faces are solid), never
/// below zero, and never above the surface itself (so every column keeps
/// at least its top block, also at the bottom of a pit).
pub open spec fn spec_column_floor(h: i32, neighbours: [i32; 4]) -> int {
    let m = spec_min4(neighbours);
    let f = if m - 1 < 0 {
        0
    } else {
        m - 1
    };
    if h < f {
        h as int
    } else {
        f
    }
}

pub open spec fn spec_min4(n: [i32; 4]) -> int {
    let a = if n[0] <= n[1] { n[0] } else { n[1] };
    let b = if n[2] <= n[3] { n[2] } else { n[3] };
    if a <= b {
        a as int
    } else {
        b as int
    }
}

/// One block of a per-voxel terrain column.
#[derive(Clone, Copy, Debug, PartialEq, Eq, Structural)]
pub struct ColumnBlock {
    pub y: i32,
    pub kind: Kind,
}

/// Number of solid terrain blocks of a column (from the floor up to the
/// surface; at least one).
pub open spec fn spec_solid_count(h: i32, neighbours: [i32; 4]) -> int {
    h - spec_column_floor(h, neighbours) + 1
}

/// Number of water blocks of a column (from just above the surface up to
/// sea level).
pub open spec fn spec_water_count(h: i32, sea_level: i32) -> int {
    if h < sea_level {
        sea_level - h
    } else {
        0
    }
}

/// The `i`-th block of a per-voxel column: first the solid blocks from the
/// floor up to the surface, then water up to sea level.
pub open spec fn spec_column_block(h: i32, neighbours: [i32; 4], sea_level: i32, i: int) -> ColumnBlock {
    let n = spec_solid_count(h, neighbours);
    if i < n {
        let y = spec_column_floor(h, neighbours) + i;
        ColumnBlock { y: y as i32, kind: spec_block_kind(h, y as i32, sea_level, y == h) }
    } else {
        ColumnBlock { y: (h + 1 + (i - n)) as i32, kind: Kind::Water }
    }
}

/// The blocks of one per-voxel terrain column whose surface is at `h`,
/// given the surface heights of its four neighbours `[x-1, x+1, z-1, z+1]`:
/// a watertight shell from just below the lowest neighbour (never below
/// zero, never above the surface) up to the surface, so every column has
/// at least its top block, plus water from the surface up to sea level.
pub fn column_blocks(h: i32, neighbours: [i32; 4], sea_level: i32) -> (blocks: Vec<ColumnBlock>)
    requires
        spec_solid_count(h, neighbours) + spec_water_count(h, sea_level) <= usize::MAX,
    ensures
        blocks.len() == spec_solid_count(h, neighbours) + spec_water_count(h, sea_level),
        spec_solid_count(h, neighbours) >= 1,
        blocks@[spec_solid_count(h, neighbours) - 1] == (ColumnBlock {
            y: h,
            kind: spec_block_kind(h, h, sea_level, true),
        }),
        forall|i: int|
            0 <= i < blocks.len() ==> #[trigger] blocks@[i] == spec_column_block(
                h,
                neighbours,
                sea_level,
                i,
            ),
{
    let a = if neighbours[0] <= neighbours[1] { neighbours[0] } else { neighbours[1] };
    let b = if neighbours[2] <= neighbours[3] { neighbours[2] } else { neighbours[3] };
    let nmin = if a <= b { a } else { b };
    let below: i32 = if nmin <= 0 { 0 } else { nmin - 1 };
    let floor_y: i32 = if h < below { h } else { below };
    let ghost n_solid = spec_solid_count(h, neighbours);
    assert(floor_y == spec_column_floor(h, neighbours));
    let mut blocks: Vec<ColumnBlock> = Vec::new();
    if floor_y <= h {
        let mut y: i32 = floor_y;
        loop
            invariant_except_break
                blocks.len() == y - floor_y,
            invariant
                floor_y <= y <= h,
                floor_y == spec_column_floor(h, neighbours),
                n_solid == h - floor_y + 1,
                forall|i: int|
                    0 <= i < blocks.len() ==> #[trigger] blocks@[i] == spec_column_block(
                        h,
                        neighbours,
                        sea_level,
                        i,
                    ),
            ensures
                blocks.len() == n_solid,
                forall|i: int|
                    0 <= i < blocks.len() ==> #[trigger] blocks@[i] == spec_column_block(
                        h,
                        neighbours,
                        sea_level,
                        i,
                    ),
            decreases h - y,
        {
            let k = block_kind(h, y, sea_level, y == h);
            blocks.push(ColumnBlock { y, kind: k });
            if y == h {
                break;
            }
            y = y + 1;
        }
    }
    if h < sea_level {
        let mut y: i32 = h + 1;
        let ghost base = blocks.len() as int;
        loop
            invariant_except_break
                blocks.len() == base + (y - h - 1),
            invariant
                h + 1 <= y <= sea_level,
                h < sea_level,
                base == n_solid,
                n_solid == spec_solid_count(h, neighbours),
                forall|i: int|
                    0 <= i < blocks.len() ==> #[trigger] blocks@[i] == spec_column_block(
                        h,
                        neighbours,
                        sea_level,
                        i,
                    ),
            ensures
                blocks.len() == base + (sea_level - h),
                forall|i: int|
                    0 <= i < blocks.len() ==> #[trigger] blocks@[i] == spec_column_block(
                        h,
                        neighbours,
                        sea_level,
                        i,
                    ),
            decreases sea_level - y,
        {
            blocks.push(ColumnBlock { y, kind: Kind::Water });
            assert(blocks@[blocks.len() - 1] == spec_column_block(h, neighbours, sea_level, blocks.len() - 1));
            if y == sea_level {
                break;
            }
            y = y + 1;
        }
    }
    blocks
}

/// One block of the per-voxel terrain, at world voxel `(x, y, z)`.
#[derive(Clone, Copy, Debug, PartialEq, Eq, Structural)]
pub struct VoxelBlock {
    pub x: i32,
    pub y: i32,
    pub z: i32,
    pub kind: Kind,
}

/// The surface heights of the four neighbours `[x-1, x+1, z-1, z+1]` of
/// column `(x, z)`.
pub open spec fn neighbour_heights(hf: HeightField, x: int, z: int) -> [i32; 4] {
    [hf.height(x - 1, z), hf.height(x + 1, z), hf.height(x, z - 1), hf.height(x, z + 1)]
}

/// Number of blocks of column `(x, z)`.
pub open spec fn column_len(sea_level: i32, hf: HeightField, x: int, z: int) -> int {
    spec_solid_count(hf.height(x, z), neighbour_heights(hf, x, z)) + spec_water_count(
        hf.height(x, z),
        sea_level,
    )
}

/// The blocks of column `(x, z)` (see [`column_blocks`]), placed in the
/// world.
pub open spec fn column_voxels(sea_level: i32, hf: HeightField, x: int, z: int) -> Seq<VoxelBlock> {
    Seq::new(
        column_len(sea_level, hf, x, z) as nat,
        |i: int|
            {
                let b = spec_column_block(hf.height(x, z), neighbour_heights(hf, x, z), sea_level, i);
                VoxelBlock { x: x as i32, y: b.y, z: z as i32, kind: b.kind }
            },
    )
}

/// The blocks of the columns before offset `(a, b)` of the footprint
/// `[-half, half)^2`, columns in x-major order.
pub open spec fn terrain_upto(half: i32, sea_level: i32, hf: HeightField, a: int, b: int) -> Seq<
    VoxelBlock,
>
    decreases a, b,
{
    if a < 0 {
        Seq::empty()
    } else if b > 0 {
        terrain_upto(half, sea_level, hf, a, b - 1) + column_voxels(
            sea_level,
            hf,
            a - half,
            b - 1 - half,
        )
    } else if a > 0 {
        terrain_upto(half, sea_level, hf, a - 1, 2 * half)
    } else {
        Seq::empty()
    }
}

/// The per-voxel terrain of the footprint `[-half, half)^2`.
pub open spec fn terrain_spec(half: i32, sea_level: i32, hf: HeightField) -> Seq<VoxelBlock> {
    terrain_upto(half, sea_level, hf, 2 * half, 0)
}

/// The height field covers the footprint `[-half, half)^2` and its
/// one-column border.
pub open spec fn covers_footprint(hf: HeightField, half: i32) -> bool {
    &&& hf.wf()
    &&& hf.x0 <= -half - 1
    &&& half < hf.x0 + hf.nx
    &&& hf.z0 <= -half - 1
    &&& half < hf.z0 + hf.nz
}

/// The per-voxel terrain over columns `[-half, half)` on X and Z, column
/// by column in x-major order (none when `half <= 0`): each column a
/// watertight shell from just
/// below its lowest neighbour up to its surface, plus water up to sea
/// level (see [`column_blocks`]).
pub fn terrain_voxels(half: i32, sea_level: i32, hf: &HeightField) -> (blocks: Vec<VoxelBlock>)
    requires
        half > 0 ==> covers_footprint(*hf, half),
        forall|x: int, z: int|
            -half <= x < half && -half <= z < half ==> #[trigger] column_len(sea_level, *hf, x, z)
                <= usize::MAX,
    ensures
        blocks@ == terrain_spec(half, sea_level, *hf),
{
    let mut blocks: Vec<VoxelBlock> = Vec::new();
    if half <= 0 {
        return blocks;
    }
    let mut x: i32 = -half;
    while x < half
        invariant
            0 < half,
            -half <= x <= half,
            covers_footprint(*hf, half),
            forall|x: int, z: int|
                -half <= x < half && -half <= z < half ==> #[trigger] column_len(sea_level, *hf, x, z)
                    <= usize::MAX,
            blocks@ == terrain_upto(half, sea_level, *hf, x + half, 0),
        decreases half - x,
    {
        let mut z: i32 = -half;
        while z < half
            invariant
                0 < half,
                -half <= x < half,
                -half <= z <= half,
                covers_footprint(*hf, half),
                forall|x: int, z: int|
                    -half <= x < half && -half <= z < half ==> #[trigger] column_len(sea_level, *hf, x, z)
                        <= usize::MAX,
                blocks@ == terrain_upto(half, sea_level, *hf, x + half, z + half),
            decreases half - z,
        {
            let h = hf.height_at(x, z);
            let nb: [i32; 4] = [
                hf.height_at(x - 1, z),
                hf.height_at(x + 1, z),
                hf.height_at(x, z - 1),
                hf.height_at(x, z + 1),
            ];
            assert(nb@ =~= neighbour_heights(*hf, x as int, z as int)@);
            assert(nb == neighbour_heights(*hf, x as int, z as int));
            assert(column_len(sea_level, *hf, x as int, z as int) <= usize::MAX);
            let col = column_blocks(h, nb, sea_level);
            let ghost before = blocks@;
            let n = col.len();
            let mut i: usize = 0;
            while i < n
                invariant
                    i <= n,
                    n == col@.len(),
                    n == column_len(sea_level, *hf, x as int, z as int),
                    h == hf.height(x as int, z as int),
                    nb == neighbour_heights(*hf, x as int, z as int),
                    forall|j: int|
                        0 <= j < n ==> #[trigger] col@[j] == spec_column_block(h, nb, sea_level, j),
                    blocks@ == before + column_voxels(sea_level, *hf, x as int, z as int).take(i as int),
                decreases n - i,
            {
                let b = col[i];
                blocks.push(VoxelBlock { x, y: b.y, z, kind: b.kind });
                proof {
                    let cv = column_voxels(sea_level, *hf, x as int, z as int);
                    assert(cv.take(i + 1) =~= cv.take(i as int).push(cv[i as int]));
                }
                i = i + 1;
            }
            proof {
                let cv = column_voxels(sea_level, *hf, x as int, z as int);
                assert(cv.take(n as int) =~= cv);
            }
            z = z + 1;
            assert(blocks@ =~= terrain_upto(half, sea_level, *hf, x + half, z + half));
        }
        x = x + 1;
    }
    blocks
}

/// Which of `n` cached creature materials creature `i` wears: they cycle
/// in order; `None` when there are none (no asset server yet).
pub fn creature_material(i: usize, n: usize) -> (m: Option<usize>)
    ensures
        m == if n == 0 {
            None::<usize>
        } else {
            Some((i % n) as usize)
        },
{
    if n == 0 {
        None
    } else {
        Some(i % n)
    }
}

/// The layers of a column: the top block is snow at height 12 and above,
/// else sand up to one above sea level, else grass; a block under the top
/// is dirt when it lies within two of the surface and stone deeper down,
/// whatever the surface height.
pub proof fn lemma_block_kind_layers(surface_h: i32, y: i32, sea_level: i32, top: bool)
    ensures
        !top && y >= surface_h - 2 ==> spec_block_kind(surface_h, y, sea_level, top) == Kind::Dirt,
        !top && y < surface_h - 2 ==> spec_block_kind(surface_h, y, sea_level, top) == Kind::Stone,
        top && surface_h >= 12 ==> spec_block_kind(surface_h, y, sea_level, top) == Kind::Snow,
        top && surface_h < 12 && surface_h <= sea_level + 1 ==> spec_block_kind(
            surface_h,
            y,
            sea_level,
            top,
        ) == Kind::Sand,
        top && surface_h < 12 && surface_h > sea_level + 1 ==> spec_block_kind(
            surface_h,
            y,
            sea_level,
            top,
        ) == Kind::Grass,
{
}

/// A per-voxel column, block by block: heights rise by one from a floor
/// that is at most the surface, never below zero unless the surface is,
/// and at most one below every neighbour's surface; the surface block is
/// last of the solid ones and has the top kind; the two blocks under it
/// are dirt and deeper ones stone; above the surface there is only water,
/// up to sea level.
pub proof fn lemma_column_layers(h: i32, neighbours: [i32; 4], sea_level: i32)
    ensures
        ({
            let n = spec_solid_count(h, neighbours);
            let fl = h - n + 1;
            &&& n >= 1
            &&& fl <= h
            &&& (fl >= 0 || fl == h)
            &&& forall|k: int| 0 <= k < 4 ==> fl <= neighbours[k] - 1 || fl == h || fl == 0
            &&& forall|k: int| 0 <= k < 4 && fl > 0 ==> fl <= neighbours[k] - 1 || fl == h
            &&& forall|i: int|
                0 <= i < n ==> (#[trigger] spec_column_block(h, neighbours, sea_level, i)).y == fl + i
            &&& spec_column_block(h, neighbours, sea_level, n - 1).kind == spec_block_kind(
                h,
                h,
                sea_level,
                true,
            )
            &&& forall|i: int|
                0 <= i < n - 1 && fl + i >= h - 2 ==> (#[trigger] spec_column_block(
                    h,
                    neighbours,
                    sea_level,
                    i,
                )).kind == Kind::Dirt
            &&& forall|i: int|
                0 <= i < n - 1 && fl + i < h - 2 ==> (#[trigger] spec_column_block(
                    h,
                    neighbours,
                    sea_level,
                    i,
                )).kind == Kind::Stone
            &&& forall|i: int|
                n <= i < n + spec_water_count(h, sea_level) ==> (#[trigger] spec_column_block(
                    h,
                    neighbours,
                    sea_level,
                    i,
                )) == (ColumnBlock { y: (h + 1 + (i - n)) as i32, kind: Kind::Water })
                    && h + 1 + (i - n) <= sea_level
            &&& spec_water_count(h, sea_level) == if h < sea_level {
                sea_level - h
            } else {
                0
            }
        }),
{
}

} // verus!
