use vstd::prelude::*;
use crate::assemble::{ChunkMesh, NUM_SLOTS, assemble, spec_indices, spec_submeshes, spec_vertices};
use crate::config::VoxelConfig;
use crate::stream::LOAD_BUDGET;
use crate::edits::{ChunkEdits, spec_chunk_coord};
use crate::heights::HeightField;
use crate::mesher::{ChunkFrame, chunk_quads, chunk_quads_exec, lemma_far_edit_keeps_quads, reads_column, slices_greedy};

verus! {

/// The meshing frame of chunk `(cx, cz)` under `cfg`: `max_height + 5`
/// voxel layers are meshed.
pub open spec fn frame_of(cx: i32, cz: i32, cfg: VoxelConfig) -> ChunkFrame {
    ChunkFrame {
        cx,
        cz,
        chunk: cfg.chunk,
        sea: cfg.sea_level,
        ymax: (cfg.max_height + 5) as i32,
    }
}

/// The mesh built from a quad list (`None` for no quads).
pub open spec fn mesh_matches(mesh: Option<ChunkMesh>, qs: Seq<crate::mesher::Quad>) -> bool {
    match mesh {
        None => qs.len() == 0,
        Some(m) => {
            &&& qs.len() > 0
            &&& m.vertices@ == spec_vertices(qs)
            &&& m.indices@ == spec_indices(qs, NUM_SLOTS as int)
            &&& m.submeshes@ == spec_submeshes(qs, NUM_SLOTS as int)
        },
    }
}

/// Build one chunk's face-culled, greedily merged mesh (chunk-local
/// coordinates, origin at `(cx * chunk, 0, cz * chunk)`), consulting
/// `edits` and the surface heights of the chunk's columns and their
/// one-column border. For each axis and direction, every slice's exposed
/// faces are merged greedily into rectangles of equal kind; submerged
/// columns get a water-surface quad at sea level. Returns `None` for an
/// empty chunk.
pub fn build_chunk_mesh_with(
    cx: i32,
    cz: i32,
    cfg: &VoxelConfig,
    edits: &ChunkEdits,
    heights: &HeightField,
) -> (mesh: Option<ChunkMesh>)
    requires
        cfg.max_height <= i32::MAX - 5,
        frame_of(cx, cz, *cfg).valid(),
        cfg.chunk > 0 ==> frame_of(cx, cz, *cfg).covered_by(*heights),
        edits.wf(),
    ensures
        mesh_matches(mesh, chunk_quads(frame_of(cx, cz, *cfg), edits.edits(), *heights)),
        6 * chunk_quads(frame_of(cx, cz, *cfg), edits.edits(), *heights).len() < u32::MAX,
        cfg.chunk > 0 ==> slices_greedy(frame_of(cx, cz, *cfg), edits.edits(), *heights),
        cfg.chunk > 0 ==> crate::faces::faces_exact(frame_of(cx, cz, *cfg), edits.edits(), *heights),
        forall|i: int|
            0 <= i < chunk_quads(frame_of(cx, cz, *cfg), edits.edits(), *heights).len()
                ==> #[trigger] chunk_quads(frame_of(cx, cz, *cfg), edits.edits(), *heights)[i].slot
                < NUM_SLOTS,
{
    let f = ChunkFrame {
        cx,
        cz,
        chunk: cfg.chunk,
        sea: cfg.sea_level,
        ymax: cfg.max_height + 5,
    };
    let quads = chunk_quads_exec(f, edits, heights);
    assemble(&quads)
}

/// [`build_chunk_mesh_with`] with no edits.
pub fn build_chunk_mesh(cx: i32, cz: i32, cfg: &VoxelConfig, heights: &HeightField) -> (mesh: Option<ChunkMesh>)
    requires
        cfg.max_height <= i32::MAX - 5,
        frame_of(cx, cz, *cfg).valid(),
        cfg.chunk > 0 ==> frame_of(cx, cz, *cfg).covered_by(*heights),
    ensures
        mesh_matches(mesh, chunk_quads(frame_of(cx, cz, *cfg), Map::empty(), *heights)),
        6 * chunk_quads(frame_of(cx, cz, *cfg), Map::empty(), *heights).len() < u32::MAX,
{
    let edits = ChunkEdits::new();
    build_chunk_mesh_with(cx, cz, cfg, &edits, heights)
}

/// Number of built meshes (not empty chunks) among the first `n` results.
pub open spec fn built_count(out: Seq<((i32, i32), Option<ChunkMesh>)>, n: int) -> int
    decreases n,
{
    if n <= 0 {
        0
    } else {
        built_count(out, n - 1) + if out[n - 1].1 is Some {
            1int
        } else {
            0int
        }
    }
}

/// Chunk `c` can be meshed under `cfg` with height field `hf`.
pub open spec fn meshable(c: (i32, i32), cfg: VoxelConfig, hf: HeightField) -> bool {
    &&& frame_of(c.0, c.1, cfg).valid()
    &&& cfg.chunk > 0 ==> frame_of(c.0, c.1, cfg).covered_by(hf)
}

/// One frame's chunk loads: build the candidate chunks in order (the
/// `i`-th with height field `heights[i]`) until `LOAD_BUDGET` of them have
/// produced a mesh. Each result pairs the chunk with its mesh, or `None`
/// for an all-air chunk; all-air chunks do not count against the budget.
/// The candidates after the last result are left for a later frame.
pub fn load_batch(
    candidates: &Vec<(i32, i32)>,
    cfg: &VoxelConfig,
    edits: &ChunkEdits,
    heights: &Vec<HeightField>,
) -> (out: Vec<((i32, i32), Option<ChunkMesh>)>)
    requires
        cfg.max_height <= i32::MAX - 5,
        edits.wf(),
        heights@.len() == candidates@.len(),
        forall|i: int| 0 <= i < candidates@.len() ==> meshable(#[trigger] candidates@[i], *cfg, heights@[i]),
    ensures
        out@.len() <= candidates@.len(),
        forall|i: int|
            0 <= i < out@.len() ==> (#[trigger] out@[i]).0 == candidates@[i] && mesh_matches(
                out@[i].1,
                chunk_quads(frame_of(candidates@[i].0, candidates@[i].1, *cfg), edits.edits(), heights@[i]),
            ),
        built_count(out@, out@.len() as int) <= LOAD_BUDGET,
        forall|i: int| 0 <= i < out@.len() ==> #[trigger] built_count(out@, i) < LOAD_BUDGET,
        out@.len() < candidates@.len() ==> built_count(out@, out@.len() as int) == LOAD_BUDGET,
{
    let n = candidates.len();
    let mut out: Vec<((i32, i32), Option<ChunkMesh>)> = Vec::new();
    let mut built: usize = 0;
    let mut i: usize = 0;
    while i < n && built < LOAD_BUDGET
        invariant
            i <= n,
            n == candidates@.len(),
            heights@.len() == n,
            cfg.max_height <= i32::MAX - 5,
            edits.wf(),
            forall|j: int| 0 <= j < n ==> meshable(#[trigger] candidates@[j], *cfg, heights@[j]),
            out@.len() == i,
            built == built_count(out@, i as int),
            built <= LOAD_BUDGET,
            forall|j: int| 0 <= j < i ==> #[trigger] built_count(out@, j) < LOAD_BUDGET,
            forall|j: int|
                0 <= j < i ==> (#[trigger] out@[j]).0 == candidates@[j] && mesh_matches(
                    out@[j].1,
                    chunk_quads(frame_of(candidates@[j].0, candidates@[j].1, *cfg), edits.edits(), heights@[j]),
                ),
        decreases n - i,
    {
        let c = candidates[i];
        assert(meshable(candidates@[i as int], *cfg, heights@[i as int]));
        let mesh = build_chunk_mesh_with(c.0, c.1, cfg, edits, &heights[i]);
        let got = mesh.is_some();
        let ghost before = out@;
        out.push((c, mesh));
        proof {
            assert forall|j: int| 0 <= j <= i implies #[trigger] built_count(out@, j) == built_count(before, j) by {
                lemma_built_prefix(out@, before, j);
            }
            assert(out@[i as int].1 is Some == got);
            assert(built_count(out@, i as int + 1) == built_count(out@, i as int) + if got {
                1int
            } else {
                0int
            });
            assert forall|j: int| 0 <= j < i + 1 implies #[trigger] built_count(out@, j) < LOAD_BUDGET by {
                if j < i {
                    assert(built_count(out@, j) == built_count(before, j));
                }
            }
        }
        if got {
            built = built + 1;
        }
        i = i + 1;
    }
    out
}

proof fn lemma_built_prefix(a: Seq<((i32, i32), Option<ChunkMesh>)>, b: Seq<((i32, i32), Option<ChunkMesh>)>, j: int)
    requires
        0 <= j <= b.len(),
        b.len() <= a.len(),
        forall|k: int| 0 <= k < b.len() ==> a[k] == b[k],
    ensures
        built_count(a, j) == built_count(b, j),
    decreases j,
{
    if j > 0 {
        lemma_built_prefix(a, b, j - 1);
    }
}

proof fn lemma_other_chunk_far(c: int, q: int, w: int, o: int)
    requires
        c > 0,
        o != q,
        q * c + 1 <= w <= q * c + c - 2,
    ensures
        w < o * c - 1 || w > o * c + c,
{
    if o > q {
        assert(o * c >= q * c + c) by (nonlinear_arith)
            requires
                o >= q + 1,
                c > 0,
        ;
    } else {
        assert(o * c + c <= q * c) by (nonlinear_arith)
            requires
                o <= q - 1,
                c > 0,
        ;
    }
}

/// A voxel edit away from the border columns of its chunk changes the
/// quads of no chunk but its own, the one [`ChunkEdits::set`] marks dirty.
/// (An edit in a border column also changes the neighbouring chunk's
/// faces, which `set` does not mark.)
pub proof fn lemma_edit_dirties_its_chunk(
    cx: i32,
    cz: i32,
    cfg: VoxelConfig,
    e: Map<(i32, i32, i32), bool>,
    hf: HeightField,
    k: (i32, i32, i32),
    v: bool,
)
    requires
        cfg.chunk > 0,
        frame_of(cx, cz, cfg).valid(),
        cx != spec_chunk_coord(k.0, cfg.chunk) || cz != spec_chunk_coord(k.2, cfg.chunk),
        1 <= k.0 - spec_chunk_coord(k.0, cfg.chunk) * cfg.chunk <= cfg.chunk - 2,
        1 <= k.2 - spec_chunk_coord(k.2, cfg.chunk) * cfg.chunk <= cfg.chunk - 2,
    ensures
        chunk_quads(frame_of(cx, cz, cfg), e.insert(k, v), hf) == chunk_quads(frame_of(cx, cz, cfg), e, hf),
{
    let f = frame_of(cx, cz, cfg);
    let c = cfg.chunk as int;
    if cx != spec_chunk_coord(k.0, cfg.chunk) {
        lemma_other_chunk_far(c, spec_chunk_coord(k.0, cfg.chunk), k.0 as int, cx as int);
    } else {
        lemma_other_chunk_far(c, spec_chunk_coord(k.2, cfg.chunk), k.2 as int, cz as int);
    }
    assert(!reads_column(f, k));
    lemma_far_edit_keeps_quads(f, e, hf, k, v);
}

} // verus!
