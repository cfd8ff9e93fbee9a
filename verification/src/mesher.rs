use vstd::prelude::*;
use crate::blocks::{block_kind, kind_slot, spec_block_kind, spec_kind_slot};
use crate::edits::ChunkEdits;
use crate::greedy::{Rect, greedy_rects, spec_greedy, idx, lemma_idx};
use crate::heights::{HeightField, spec_solid, solid_e};

verus! {

/// The chunk being meshed: its chunk coordinates, the chunk edge, the sea
/// level and the number of voxel layers meshed (peak height + 5).
#[derive(Clone, Copy, Debug)]
pub struct ChunkFrame {
    pub cx: i32,
    pub cz: i32,
    pub chunk: i32,
    pub sea: i32,
    pub ymax: i32,
}

/// An integer point or direction in chunk-local voxel coordinates.
#[derive(Clone, Copy, Debug, PartialEq, Eq, Structural)]
pub struct Pos {
    pub x: i32,
    pub y: i32,
    pub z: i32,
}

/// One quad of a chunk mesh, in chunk-local voxel coordinates, with its
/// corners in emission order, its outward normal, its atlas tile and the
/// submesh slot it is drawn with.
#[derive(Clone, Copy, Debug, PartialEq, Eq, Structural)]
pub struct Quad {
    pub c0: Pos,
    pub c1: Pos,
    pub c2: Pos,
    pub c3: Pos,
    pub normal: Pos,
    pub tile: usize,
    pub slot: usize,
}

impl ChunkFrame {
    /// World x of the chunk's local origin.
    pub open spec fn ox(&self) -> int {
        self.cx * self.chunk
    }

    /// World z of the chunk's local origin.
    pub open spec fn oz(&self) -> int {
        self.cz * self.chunk
    }

    /// The frame can be meshed without arithmetic overflow: the chunk's
    /// world columns (with a one-column border) and the per-slice masks fit
    /// in `i32`, and the vertex count of the worst case fits in `u32`.
    pub open spec fn valid(&self) -> bool {
        self.chunk <= 0 || {
            &&& self.ymax >= 0
            &&& self.chunk * self.chunk <= i32::MAX
            &&& self.chunk * self.ymax <= i32::MAX
            &&& self.ox() - 1 >= i32::MIN
            &&& self.ox() + self.chunk <= i32::MAX
            &&& self.oz() - 1 >= i32::MIN
            &&& self.oz() + self.chunk <= i32::MAX
            &&& 6 * (6 * self.cells() + self.chunk * self.chunk) < u32::MAX
        }
    }

    /// Number of voxels of the meshed block of the chunk.
    pub open spec fn cells(&self) -> int {
        (self.chunk * self.ymax) * self.chunk
    }

    /// The height field covers the chunk's columns and a one-column border.
    pub open spec fn covered_by(&self, hf: HeightField) -> bool {
        hf.wf() && hf.x0 <= self.ox() - 1 && self.ox() + self.chunk < hf.x0 + hf.nx && hf.z0
            <= self.oz() - 1 && self.oz() + self.chunk < hf.z0 + hf.nz
    }
}

/// Local voxel of cell `(u, v)` of slice `s` along axis `d` (the slice axis
/// is `d`, rows run along axis `d + 1`, columns along axis `d + 2`, mod 3).
pub open spec fn local_of(d: int, s: int, u: int, v: int) -> (int, int, int) {
    if d == 0 {
        (s, u, v)
    } else if d == 1 {
        (v, s, u)
    } else {
        (u, v, s)
    }
}

/// `(slices, rows, columns)` of the slicing along axis `d`.
pub open spec fn dims(f: ChunkFrame, d: int) -> (int, int, int) {
    if d == 0 {
        (f.chunk as int, f.ymax as int, f.chunk as int)
    } else if d == 1 {
        (f.ymax as int, f.chunk as int, f.chunk as int)
    } else {
        (f.chunk as int, f.chunk as int, f.ymax as int)
    }
}

/// Unit step along axis `d` in direction `dir`.
pub open spec fn step(d: int, dir: int) -> (int, int, int) {
    if d == 0 {
        (dir, 0, 0)
    } else if d == 1 {
        (0, dir, 0)
    } else {
        (0, 0, dir)
    }
}

pub open spec fn add3(a: (int, int, int), b: (int, int, int)) -> (int, int, int) {
    (a.0 + b.0, a.1 + b.1, a.2 + b.2)
}

/// Whether local voxel `l` of the chunk is solid.
pub open spec fn solid_l(
    f: ChunkFrame,
    e: Map<(i32, i32, i32), bool>,
    hf: HeightField,
    l: (int, int, int),
) -> bool {
    spec_solid(e, hf, f.ox() + l.0, l.1, f.oz() + l.2)
}

/// Submesh kind (0..5) of solid local voxel `l`: classified by its
/// column's surface height, its height, the sea level, and whether the
/// voxel above it is open.
pub open spec fn kind_l(
    f: ChunkFrame,
    e: Map<(i32, i32, i32), bool>,
    hf: HeightField,
    l: (int, int, int),
) -> i32 {
    spec_kind_slot(
        spec_block_kind(
            hf.height(f.ox() + l.0, f.oz() + l.2),
            l.1 as i32,
            f.sea,
            !solid_l(f, e, hf, (l.0, l.1 + 1, l.2)),
        ),
    ) as i32
}

/// Exposed-face mask of cell `(u, v)` of slice `s` along axis `d`, facing
/// `dir`: the kind of the voxel when it is solid and its neighbour in
/// direction `dir` is not, else -1.
pub open spec fn mask_val(
    f: ChunkFrame,
    e: Map<(i32, i32, i32), bool>,
    hf: HeightField,
    d: int,
    dir: int,
    s: int,
    u: int,
    v: int,
) -> i32 {
    let l = local_of(d, s, u, v);
    if solid_l(f, e, hf, l) && !solid_l(f, e, hf, add3(l, step(d, dir))) {
        kind_l(f, e, hf, l)
    } else {
        -1i32
    }
}

/// The exposed-face mask of one slice, row-major.
pub open spec fn mask_seq(
    f: ChunkFrame,
    e: Map<(i32, i32, i32), bool>,
    hf: HeightField,
    d: int,
    dir: int,
    s: int,
) -> Seq<i32> {
    let vn = dims(f, d).2;
    Seq::new(
        (dims(f, d).1 * vn) as nat,
        |i: int| mask_val(f, e, hf, d, dir, s, i / vn, i % vn),
    )
}

pub open spec fn dir_of(di: int) -> int {
    if di == 0 {
        1
    } else {
        -1
    }
}

/// Face class for directional shading: 0 = top, 1 = side, 2 = bottom.
pub open spec fn class_of(d: int, dir: int) -> int {
    if d == 1 {
        if dir > 0 {
            0
        } else {
            2
        }
    } else {
        1
    }
}

pub open spec fn to3(p: (int, int, int)) -> Pos {
    Pos { x: p.0 as i32, y: p.1 as i32, z: p.2 as i32 }
}

/// The quad of a merged rectangle of slice `s` along axis `d`, facing
/// `dir`: on the plane just past the slice in direction `dir`, wound
/// counter-clockwise seen from outside.
pub open spec fn rect_quad(d: int, dir: int, s: int, r: Rect) -> Quad {
    let plane = if dir > 0 {
        s + 1
    } else {
        s
    };
    let a = to3(local_of(d, plane, r.u0 as int, r.v0 as int));
    let b = to3(local_of(d, plane, r.u1 as int, r.v0 as int));
    let c = to3(local_of(d, plane, r.u1 as int, r.v1 as int));
    let e = to3(local_of(d, plane, r.u0 as int, r.v1 as int));
    Quad {
        c0: a,
        c1: if dir > 0 {
            b
        } else {
            e
        },
        c2: c,
        c3: if dir > 0 {
            e
        } else {
            b
        },
        normal: to3(step(d, dir)),
        tile: r.kind as usize,
        slot: (r.kind * 3 + class_of(d, dir)) as usize,
    }
}

/// The quads of slice `s` along axis `d`, facing `dir_of(di)`: the greedy
/// rectangles of the slice's exposed-face mask.
pub open spec fn seg_quads(
    f: ChunkFrame,
    e: Map<(i32, i32, i32), bool>,
    hf: HeightField,
    d: int,
    di: int,
    s: int,
) -> Seq<Quad> {
    let dir = dir_of(di);
    spec_greedy(mask_seq(f, e, hf, d, dir, s), dims(f, d).1, dims(f, d).2).map_values(
        |r: Rect| rect_quad(d, dir, s, r),
    )
}

/// The terrain quads of all slices before `(d, di, s)`, in the order axis,
/// then direction (+ before -), then slice.
pub open spec fn terrain_upto(
    f: ChunkFrame,
    e: Map<(i32, i32, i32), bool>,
    hf: HeightField,
    d: int,
    di: int,
    s: int,
) -> Seq<Quad>
    decreases d, di, s,
{
    if d < 0 || di < 0 {
        Seq::empty()
    } else if s > 0 {
        terrain_upto(f, e, hf, d, di, s - 1) + seg_quads(f, e, hf, d, di, s - 1)
    } else if di > 0 {
        terrain_upto(f, e, hf, d, di - 1, dims(f, d).0)
    } else if d > 0 {
        terrain_upto(f, e, hf, d - 1, 1, dims(f, d - 1).0)
    } else {
        Seq::empty()
    }
}

/// All terrain quads of the chunk.
pub open spec fn terrain_quads(f: ChunkFrame, e: Map<(i32, i32, i32), bool>, hf: HeightField) -> Seq<Quad> {
    terrain_upto(f, e, hf, 3, 0, 0)
}

/// Whether local voxel `(lx, ly, lz)` of the chunk is solid.
fn solid_local(f: ChunkFrame, edits: &ChunkEdits, hf: &HeightField, lx: i32, ly: i32, lz: i32) -> (r: bool)
    requires
        f.chunk > 0,
        f.valid(),
        f.covered_by(*hf),
        edits.wf(),
        -1 <= lx <= f.chunk,
        -1 <= lz <= f.chunk,
    ensures
        r == solid_l(f, edits.edits(), *hf, (lx as int, ly as int, lz as int)),
{
    let ox = f.cx * f.chunk;
    let oz = f.cz * f.chunk;
    solid_e(ox + lx, ly, oz + lz, edits, hf)
}

/// Submesh kind of solid local voxel `(lx, ly, lz)`.
fn kind_local(f: ChunkFrame, edits: &ChunkEdits, hf: &HeightField, lx: i32, ly: i32, lz: i32) -> (k: i32)
    requires
        f.chunk > 0,
        f.valid(),
        f.covered_by(*hf),
        edits.wf(),
        0 <= lx < f.chunk,
        0 <= lz < f.chunk,
        ly < i32::MAX,
    ensures
        k == kind_l(f, edits.edits(), *hf, (lx as int, ly as int, lz as int)),
        0 <= k < 5,
{
    let ox = f.cx * f.chunk;
    let oz = f.cz * f.chunk;
    let h = hf.height_at(ox + lx, oz + lz);
    let above = solid_local(f, edits, hf, lx, ly + 1, lz);
    kind_slot(block_kind(h, ly, f.sea, !above)) as i32
}

/// Local voxel of cell `(u, v)` of slice `s` along axis `d`.
fn local_at(d: usize, s: i32, u: i32, v: i32) -> (l: (i32, i32, i32))
    requires
        d < 3,
    ensures
        (l.0 as int, l.1 as int, l.2 as int) == local_of(d as int, s as int, u as int, v as int),
{
    if d == 0 {
        (s, u, v)
    } else if d == 1 {
        (v, s, u)
    } else {
        (u, v, s)
    }
}

/// `(slices, rows, columns)` of the slicing along axis `d`.
fn dims_of(f: ChunkFrame, d: usize) -> (r: (i32, i32, i32))
    requires
        d < 3,
    ensures
        (r.0 as int, r.1 as int, r.2 as int) == dims(f, d as int),
{
    if d == 0 {
        (f.chunk, f.ymax, f.chunk)
    } else if d == 1 {
        (f.ymax, f.chunk, f.chunk)
    } else {
        (f.chunk, f.chunk, f.ymax)
    }
}

/// The exposed-face mask value of cell `(u, v)` of slice `s` along axis
/// `d`, facing `dir`.
fn mask_cell(
    f: ChunkFrame,
    edits: &ChunkEdits,
    hf: &HeightField,
    d: usize,
    dir: i32,
    s: i32,
    u: i32,
    v: i32,
) -> (m: i32)
    requires
        f.chunk > 0,
        f.valid(),
        f.covered_by(*hf),
        edits.wf(),
        d < 3,
        dir == 1 || dir == -1,
        0 <= s < dims(f, d as int).0,
        0 <= u < dims(f, d as int).1,
        0 <= v < dims(f, d as int).2,
    ensures
        m == mask_val(f, edits.edits(), *hf, d as int, dir as int, s as int, u as int, v as int),
{
    let l = local_at(d, s, u, v);
    if !solid_local(f, edits, hf, l.0, l.1, l.2) {
        return -1;
    }
    let n = if d == 0 {
        (l.0 + dir, l.1, l.2)
    } else if d == 1 {
        (l.0, l.1 + dir, l.2)
    } else {
        (l.0, l.1, l.2 + dir)
    };
    assert((n.0 as int, n.1 as int, n.2 as int) == add3(
        (l.0 as int, l.1 as int, l.2 as int),
        step(d as int, dir as int),
    ));
    if solid_local(f, edits, hf, n.0, n.1, n.2) {
        return -1;
    }
    kind_local(f, edits, hf, l.0, l.1, l.2)
}

proof fn lemma_div_cell(vn: int, u: int, v: int)
    requires
        0 <= u,
        0 <= v < vn,
    ensures
        idx(vn, u, v) / vn == u,
        idx(vn, u, v) % vn == v,
{
    vstd::arithmetic::div_mod::lemma_fundamental_div_mod_converse(u * vn + v, vn, u, v);
}

/// The exposed-face mask of slice `s` along axis `d`, facing `dir`.
fn build_mask(
    f: ChunkFrame,
    edits: &ChunkEdits,
    hf: &HeightField,
    d: usize,
    dir: i32,
    s: i32,
    un: usize,
    vn: usize,
) -> (mask: Vec<i32>)
    requires
        f.chunk > 0,
        f.valid(),
        f.covered_by(*hf),
        edits.wf(),
        d < 3,
        dir == 1 || dir == -1,
        0 <= s < dims(f, d as int).0,
        un == dims(f, d as int).1,
        vn == dims(f, d as int).2,
        un * vn <= i32::MAX,
    ensures
        mask@ == mask_seq(f, edits.edits(), *hf, d as int, dir as int, s as int),
{
    let ghost target = mask_seq(f, edits.edits(), *hf, d as int, dir as int, s as int);
    let mut mask: Vec<i32> = Vec::new();
    let mut u: usize = 0;
    while u < un
        invariant
            u <= un,
            f.chunk > 0,
            f.valid(),
            f.covered_by(*hf),
            edits.wf(),
            d < 3,
            dir == 1 || dir == -1,
            0 <= s < dims(f, d as int).0,
            un == dims(f, d as int).1,
            vn == dims(f, d as int).2,
            un * vn <= i32::MAX,
            target == mask_seq(f, edits.edits(), *hf, d as int, dir as int, s as int),
            mask@.len() == idx(vn as int, u as int, 0),
            forall|i: int| 0 <= i < mask@.len() ==> mask@[i] == target[i],
        decreases un - u,
    {
        let mut v: usize = 0;
        while v < vn
            invariant
                u < un,
                v <= vn,
                f.chunk > 0,
                f.valid(),
                f.covered_by(*hf),
                edits.wf(),
                d < 3,
                dir == 1 || dir == -1,
                0 <= s < dims(f, d as int).0,
                un == dims(f, d as int).1,
                vn == dims(f, d as int).2,
                un * vn <= i32::MAX,
                target == mask_seq(f, edits.edits(), *hf, d as int, dir as int, s as int),
                mask@.len() == idx(vn as int, u as int, v as int),
                forall|i: int| 0 <= i < mask@.len() ==> mask@[i] == target[i],
            decreases vn - v,
        {
            proof {
                lemma_idx(un as int, vn as int, u as int, v as int);
                lemma_div_cell(vn as int, u as int, v as int);
            }
            let m = mask_cell(f, edits, hf, d, dir, s, u as i32, v as i32);
            mask.push(m);
            v = v + 1;
        }
        proof {
            crate::greedy::lemma_idx_row(vn as int, u as int);
        }
        u = u + 1;
    }
    proof {
        crate::greedy::lemma_idx_row(vn as int, un as int);
        assert(idx(vn as int, un as int, 0) == un * vn);
        assert(mask@ =~= target);
    }
    mask
}

/// The quad of a merged rectangle (see [`rect_quad`]).
fn make_quad(d: usize, dir: i32, s: i32, r: Rect) -> (q: Quad)
    requires
        d < 3,
        dir == 1 || dir == -1,
        0 <= s < i32::MAX,
        r.u1 <= i32::MAX,
        r.v1 <= i32::MAX,
        r.u0 < r.u1,
        r.v0 < r.v1,
        0 <= r.kind < 5,
    ensures
        q == rect_quad(d as int, dir as int, s as int, r),
{
    let plane = if dir > 0 {
        s + 1
    } else {
        s
    };
    let u0 = r.u0 as i32;
    let v0 = r.v0 as i32;
    let u1 = r.u1 as i32;
    let v1 = r.v1 as i32;
    let a = local_at(d, plane, u0, v0);
    let b = local_at(d, plane, u1, v0);
    let c = local_at(d, plane, u1, v1);
    let e = local_at(d, plane, u0, v1);
    let pa = Pos { x: a.0, y: a.1, z: a.2 };
    let pb = Pos { x: b.0, y: b.1, z: b.2 };
    let pc = Pos { x: c.0, y: c.1, z: c.2 };
    let pe = Pos { x: e.0, y: e.1, z: e.2 };
    let normal = if d == 0 {
        Pos { x: dir, y: 0, z: 0 }
    } else if d == 1 {
        Pos { x: 0, y: dir, z: 0 }
    } else {
        Pos { x: 0, y: 0, z: dir }
    };
    let class: usize = if d == 1 {
        if dir > 0 {
            0
        } else {
            2
        }
    } else {
        1
    };
    let kind = r.kind as usize;
    Quad {
        c0: pa,
        c1: if dir > 0 {
            pb
        } else {
            pe
        },
        c2: pc,
        c3: if dir > 0 {
            pe
        } else {
            pb
        },
        normal,
        tile: kind,
        slot: kind * 3 + class,
    }
}

/// The quads of slice `s` along axis `d`, facing `dir_of(di)`, come from
/// the greedy partition of the slice's exposed-face mask.
pub open spec fn slice_greedy(
    f: ChunkFrame,
    e: Map<(i32, i32, i32), bool>,
    hf: HeightField,
    d: int,
    di: int,
    s: int,
) -> bool {
    let m = mask_seq(f, e, hf, d, dir_of(di), s);
    crate::greedy::greedy_partition(m, dims(f, d).1, dims(f, d).2, spec_greedy(m, dims(f, d).1, dims(f, d).2))
}

/// Every slice of the chunk is meshed from a greedy partition.
pub open spec fn slices_greedy(f: ChunkFrame, e: Map<(i32, i32, i32), bool>, hf: HeightField) -> bool {
    forall|d: int, di: int, s: int|
        0 <= d < 3 && 0 <= di < 2 && 0 <= s < dims(f, d).0 ==> #[trigger] slice_greedy(f, e, hf, d, di, s)
}

/// The quads of a greedily meshed slice use the terrain slots `0 .. 15`.
proof fn lemma_seg_slots(f: ChunkFrame, e: Map<(i32, i32, i32), bool>, hf: HeightField, d: int, di: int, s: int)
    requires
        slice_greedy(f, e, hf, d, di, s),
        f.chunk > 0,
        f.ymax >= 0,
        0 <= d < 3,
    ensures
        forall|i: int|
            0 <= i < seg_quads(f, e, hf, d, di, s).len() ==> #[trigger] seg_quads(f, e, hf, d, di, s)[i].slot < 15,
{
    let m = mask_seq(f, e, hf, d, dir_of(di), s);
    let un = dims(f, d).1;
    let vn = dims(f, d).2;
    let rs = spec_greedy(m, un, vn);
    assert forall|i: int| 0 <= i < seg_quads(f, e, hf, d, di, s).len() implies #[trigger] seg_quads(f, e, hf, d, di, s)[i].slot < 15 by {
        let r = rs[i];
        assert(crate::greedy::covers(rs[i], r.u0 as int, r.v0 as int));
        crate::greedy::lemma_idx(un, vn, r.u0 as int, r.v0 as int);
        lemma_div_cell(vn, r.u0 as int, r.v0 as int);
        assert(m[idx(vn, r.u0 as int, r.v0 as int)] == r.kind);
        let l = local_of(d, s, r.u0 as int, r.v0 as int);
        let b = spec_block_kind(
            hf.height(f.ox() + l.0, f.oz() + l.2),
            l.1 as i32,
            f.sea,
            !solid_l(f, e, hf, (l.0, l.1 + 1, l.2)),
        );
        assert(spec_kind_slot(b) < 5);
        assert(0 <= r.kind < 5);
    }
}

/// Append the quads of slice `s` along axis `d`, facing `dir_of(di)`.
fn segment_quads(
    f: ChunkFrame,
    edits: &ChunkEdits,
    hf: &HeightField,
    d: usize,
    di: usize,
    s: i32,
    quads: &mut Vec<Quad>,
)
    requires
        f.chunk > 0,
        f.valid(),
        f.covered_by(*hf),
        edits.wf(),
        d < 3,
        di < 2,
        0 <= s < dims(f, d as int).0,
    ensures
        final(quads)@ == old(quads)@ + seg_quads(f, edits.edits(), *hf, d as int, di as int, s as int),
        seg_quads(f, edits.edits(), *hf, d as int, di as int, s as int).len() <= dims(f, d as int).1
            * dims(f, d as int).2,
        slice_greedy(f, edits.edits(), *hf, d as int, di as int, s as int),
{
    let dir: i32 = if di == 0 {
        1
    } else {
        -1
    };
    let dm = dims_of(f, d);
    let un = dm.1 as usize;
    let vn = dm.2 as usize;
    proof {
        assert(un * vn <= i32::MAX) by (nonlinear_arith)
            requires
                f.chunk * f.chunk <= i32::MAX,
                f.chunk * f.ymax <= i32::MAX,
                (un == f.chunk && vn == f.chunk) || (un == f.ymax && vn == f.chunk) || (un
                    == f.chunk && vn == f.ymax),
        ;
    }
    let mask = build_mask(f, edits, hf, d, dir, s, un, vn);
    let rects = greedy_rects(&mask, un, vn);
    let ghost m = mask@;
    assert(slice_greedy(f, edits.edits(), *hf, d as int, di as int, s as int));
    let ghost seg = seg_quads(f, edits.edits(), *hf, d as int, di as int, s as int);
    let ghost start = quads@;
    assert(rects@.map_values(|r: Rect| rect_quad(d as int, dir as int, s as int, r)) == seg);
    let n = rects.len();
    let mut i: usize = 0;
    while i < n
        invariant
            i <= n,
            n == rects@.len(),
            d < 3,
            dir == 1 || dir == -1,
            0 <= s < dims(f, d as int).0,
            dims(f, d as int).0 <= i32::MAX,
            un <= i32::MAX,
            vn <= i32::MAX,
            crate::greedy::greedy_partition(m, un as int, vn as int, rects@),
            m == mask_seq(f, edits.edits(), *hf, d as int, dir as int, s as int),
            un == dims(f, d as int).1,
            vn == dims(f, d as int).2,
            rects@.map_values(|r: Rect| rect_quad(d as int, dir as int, s as int, r)) == seg,
            quads@ == start + seg.subrange(0, i as int),
        decreases n - i,
    {
        let r = rects[i];
        assert(r == rects@[i as int]);
        assert(r.kind == crate::greedy::cell(m, vn as int, r.u0 as int, r.v0 as int)) by {
            assert(crate::greedy::covers(rects@[i as int], r.u0 as int, r.v0 as int));
        }
        assert(0 <= r.kind < 5) by {
            crate::greedy::lemma_idx(un as int, vn as int, r.u0 as int, r.v0 as int);
            lemma_div_cell(vn as int, r.u0 as int, r.v0 as int);
            let j = idx(vn as int, r.u0 as int, r.v0 as int);
            assert(m[j] == mask_val(f, edits.edits(), *hf, d as int, dir as int, s as int, r.u0 as int, r.v0 as int));
            let l = local_of(d as int, s as int, r.u0 as int, r.v0 as int);
            let b = spec_block_kind(
                hf.height(f.ox() + l.0, f.oz() + l.2),
                l.1 as i32,
                f.sea,
                !solid_l(f, edits.edits(), *hf, (l.0, l.1 + 1, l.2)),
            );
            assert(spec_kind_slot(b) < 5);
        }
        let q = make_quad(d, dir, s, r);
        quads.push(q);
        i = i + 1;
        assert(quads@ =~= start + seg.subrange(0, i as int));
    }
    assert(seg.subrange(0, n as int) =~= seg);
}

proof fn lemma_axis_cells(f: ChunkFrame, d: int)
    requires
        0 <= d < 3,
    ensures
        dims(f, d).0 * (dims(f, d).1 * dims(f, d).2) == f.cells(),
{
    let c = f.chunk as int;
    let y = f.ymax as int;
    if d == 0 {
        assert(c * (y * c) == (c * y) * c) by (nonlinear_arith);
    } else if d == 1 {
        assert(y * (c * c) == (c * y) * c) by (nonlinear_arith);
    } else {
        assert(c * (c * y) == (c * y) * c) by (nonlinear_arith);
    }
}

/// All terrain quads of the chunk (see [`terrain_quads`]).
fn terrain_quads_exec(f: ChunkFrame, edits: &ChunkEdits, hf: &HeightField) -> (quads: Vec<Quad>)
    requires
        f.chunk > 0,
        f.valid(),
        f.covered_by(*hf),
        edits.wf(),
    ensures
        quads@ == terrain_quads(f, edits.edits(), *hf),
        quads@.len() <= 6 * f.cells(),
        forall|i: int| 0 <= i < quads@.len() ==> #[trigger] quads@[i].slot < 15,
        slices_greedy(f, edits.edits(), *hf),
{
    let ghost e = edits.edits();
    let mut quads: Vec<Quad> = Vec::new();
    let ghost mut base: int = 0;
    assert(f.cells() >= 0) by (nonlinear_arith)
        requires
            f.chunk > 0,
            f.ymax >= 0,
    ;
    let mut d: usize = 0;
    assert((2 * 0) * f.cells() == 0);
    while d < 3
        invariant
            d <= 3,
            f.chunk > 0,
            f.valid(),
            f.covered_by(*hf),
            edits.wf(),
            e == edits.edits(),
            f.cells() >= 0,
            quads@ == terrain_upto(f, e, *hf, d as int, 0, 0),
            base == (2 * d) * f.cells(),
            quads@.len() <= base,
            forall|i: int| 0 <= i < quads@.len() ==> #[trigger] quads@[i].slot < 15,
            forall|dd: int, ddi: int, ss: int|
                0 <= dd < d && 0 <= ddi < 2 && 0 <= ss < dims(f, dd).0 ==> #[trigger] slice_greedy(f, e, *hf, dd, ddi, ss),
        decreases 3 - d,
    {
        let dm = dims_of(f, d);
        let sn = dm.0;
        let ghost p = dims(f, d as int).1 * dims(f, d as int).2;
        proof {
            lemma_axis_cells(f, d as int);
            assert(p >= 0) by (nonlinear_arith)
                requires
                    p == dims(f, d as int).1 * dims(f, d as int).2,
                    dims(f, d as int).1 >= 0,
                    dims(f, d as int).2 >= 0,
            ;
        }
        let mut di: usize = 0;
        while di < 2
            invariant
                d < 3,
                di <= 2,
                f.chunk > 0,
                f.valid(),
                f.covered_by(*hf),
                edits.wf(),
                e == edits.edits(),
                f.cells() >= 0,
                sn == dims(f, d as int).0,
                p == dims(f, d as int).1 * dims(f, d as int).2,
                p >= 0,
                sn * p == f.cells(),
                quads@ == terrain_upto(f, e, *hf, d as int, di as int, 0),
                base == (2 * d + di) * f.cells(),
                quads@.len() <= base,
                forall|i: int| 0 <= i < quads@.len() ==> #[trigger] quads@[i].slot < 15,
                forall|dd: int, ddi: int, ss: int|
                    0 <= dd < d && 0 <= ddi < 2 && 0 <= ss < dims(f, dd).0 ==> #[trigger] slice_greedy(f, e, *hf, dd, ddi, ss),
                forall|ddi: int, ss: int|
                    0 <= ddi < di && 0 <= ss < dims(f, d as int).0 ==> #[trigger] slice_greedy(f, e, *hf, d as int, ddi, ss),
            decreases 2 - di,
        {
            let mut s: i32 = 0;
            while s < sn
                invariant
                    d < 3,
                    di < 2,
                    0 <= s <= sn,
                    f.chunk > 0,
                    f.valid(),
                    f.covered_by(*hf),
                    edits.wf(),
                    e == edits.edits(),
                    sn == dims(f, d as int).0,
                    p == dims(f, d as int).1 * dims(f, d as int).2,
                    p >= 0,
                    quads@ == terrain_upto(f, e, *hf, d as int, di as int, s as int),
                    quads@.len() <= base + s * p,
                    forall|i: int| 0 <= i < quads@.len() ==> #[trigger] quads@[i].slot < 15,
                    forall|dd: int, ddi: int, ss: int|
                        0 <= dd < d && 0 <= ddi < 2 && 0 <= ss < dims(f, dd).0 ==> #[trigger] slice_greedy(f, e, *hf, dd, ddi, ss),
                    forall|ddi: int, ss: int|
                        0 <= ddi < di && 0 <= ss < dims(f, d as int).0 ==> #[trigger] slice_greedy(f, e, *hf, d as int, ddi, ss),
                    forall|ss: int|
                        0 <= ss < s ==> #[trigger] slice_greedy(f, e, *hf, d as int, di as int, ss),
                decreases sn - s,
            {
                let ghost before = quads@;
                segment_quads(f, edits, hf, d, di, s, &mut quads);
                proof {
                    lemma_seg_slots(f, e, *hf, d as int, di as int, s as int);
                    let seg = seg_quads(f, e, *hf, d as int, di as int, s as int);
                    assert forall|i: int| 0 <= i < quads@.len() implies #[trigger] quads@[i].slot < 15 by {
                        if i >= before.len() {
                            assert(quads@[i] == seg[i - before.len()]);
                        } else {
                            assert(quads@[i] == before[i]);
                        }
                    }
                }
                proof {
                    assert(s * p + p == (s + 1) * p) by (nonlinear_arith);
                }
                s = s + 1;
            }
            proof {
                assert(base + f.cells() == (2 * d + di + 1) * f.cells()) by (nonlinear_arith)
                    requires
                        base == (2 * d + di) * f.cells(),
                ;
                base = base + f.cells();
            }
            di = di + 1;
        }
        d = d + 1;
    }
    quads
}

/// The water-surface quad over submerged local column `(lx, lz)`.
pub open spec fn water_quad(lx: int, lz: int, sea: int) -> Quad {
    Quad {
        c0: to3((lx, sea, lz)),
        c1: to3((lx, sea, lz + 1)),
        c2: to3((lx + 1, sea, lz + 1)),
        c3: to3((lx + 1, sea, lz)),
        normal: Pos { x: 0, y: 1, z: 0 },
        tile: 5,
        slot: 15,
    }
}

/// The water quad of local column `(lx, lz)`, if its surface is below sea
/// level.
pub open spec fn water_cell(f: ChunkFrame, hf: HeightField, lx: int, lz: int) -> Seq<Quad> {
    if hf.height(f.ox() + lx, f.oz() + lz) < f.sea {
        seq![water_quad(lx, lz, f.sea as int)]
    } else {
        Seq::empty()
    }
}

/// The water quads of the local columns before `(lx, lz)` (x-major).
pub open spec fn water_upto(f: ChunkFrame, hf: HeightField, lx: int, lz: int) -> Seq<Quad>
    decreases lx, lz,
{
    if lx < 0 {
        Seq::empty()
    } else if lz > 0 {
        water_upto(f, hf, lx, lz - 1) + water_cell(f, hf, lx, lz - 1)
    } else if lx > 0 {
        water_upto(f, hf, lx - 1, f.chunk as int)
    } else {
        Seq::empty()
    }
}

/// The water-surface quads of the chunk.
pub open spec fn water_quads(f: ChunkFrame, hf: HeightField) -> Seq<Quad> {
    water_upto(f, hf, f.chunk as int, 0)
}

/// All quads of the chunk mesh, in emission order: terrain, then water.
pub open spec fn chunk_quads(f: ChunkFrame, e: Map<(i32, i32, i32), bool>, hf: HeightField) -> Seq<Quad> {
    if f.chunk <= 0 {
        Seq::empty()
    } else {
        terrain_quads(f, e, hf) + water_quads(f, hf)
    }
}

/// World voxel `k` lies in the columns the mesh of frame `f` reads: the
/// chunk's own columns and a one-column border around them.
pub open spec fn reads_column(f: ChunkFrame, k: (i32, i32, i32)) -> bool {
    f.ox() - 1 <= k.0 <= f.ox() + f.chunk && f.oz() - 1 <= k.2 <= f.oz() + f.chunk
}

/// Edit maps `e1` and `e2` agree on every voxel the mesh of frame `f`
/// reads: the chunk's columns and their one-column border, at heights
/// `-1 ..= ymax`.
pub open spec fn agree_near(f: ChunkFrame, e1: Map<(i32, i32, i32), bool>, e2: Map<(i32, i32, i32), bool>) -> bool {
    forall|k: (i32, i32, i32)|
        reads_column(f, k) && -1 <= k.1 <= f.ymax ==> (#[trigger] e1.contains_key(k) == e2.contains_key(k)
            && (e1.contains_key(k) ==> e1[k] == e2[k]))
}

proof fn lemma_solid_agree(
    f: ChunkFrame,
    e1: Map<(i32, i32, i32), bool>,
    e2: Map<(i32, i32, i32), bool>,
    hf: HeightField,
    l: (int, int, int),
)
    requires
        f.chunk > 0,
        f.valid(),
        agree_near(f, e1, e2),
        -1 <= l.0 <= f.chunk,
        -1 <= l.1 <= f.ymax,
        -1 <= l.2 <= f.chunk,
    ensures
        solid_l(f, e1, hf, l) == solid_l(f, e2, hf, l),
{
    let key = ((f.ox() + l.0) as i32, l.1 as i32, (f.oz() + l.2) as i32);
    assert(key.0 == f.ox() + l.0 && key.1 == l.1 && key.2 == f.oz() + l.2);
    assert(reads_column(f, key));
    assert(e1.contains_key(key) == e2.contains_key(key));
}

proof fn lemma_mask_agree(
    f: ChunkFrame,
    e1: Map<(i32, i32, i32), bool>,
    e2: Map<(i32, i32, i32), bool>,
    hf: HeightField,
    d: int,
    dir: int,
    s: int,
)
    requires
        f.chunk > 0,
        f.valid(),
        agree_near(f, e1, e2),
        0 <= d < 3,
        dir == 1 || dir == -1,
        0 <= s < dims(f, d).0,
    ensures
        mask_seq(f, e1, hf, d, dir, s) == mask_seq(f, e2, hf, d, dir, s),
{
    let un = dims(f, d).1;
    let vn = dims(f, d).2;
    let m1 = mask_seq(f, e1, hf, d, dir, s);
    let m2 = mask_seq(f, e2, hf, d, dir, s);
    assert forall|i: int| 0 <= i < m1.len() implies m1[i] == m2[i] by {
        assert(vn > 0) by (nonlinear_arith)
            requires
                0 <= i < un * vn,
                un >= 0,
        ;
        assert(0 <= i / vn < un && 0 <= i % vn < vn) by (nonlinear_arith)
            requires
                0 <= i < un * vn,
                vn > 0,
        ;
        let l = local_of(d, s, i / vn, i % vn);
        let n = add3(l, step(d, dir));
        lemma_solid_agree(f, e1, e2, hf, l);
        lemma_solid_agree(f, e1, e2, hf, n);
        lemma_solid_agree(f, e1, e2, hf, (l.0, l.1 + 1, l.2));
    }
    assert(m1 =~= m2);
}

proof fn lemma_terrain_agree(
    f: ChunkFrame,
    e1: Map<(i32, i32, i32), bool>,
    e2: Map<(i32, i32, i32), bool>,
    hf: HeightField,
    d: int,
    di: int,
    s: int,
)
    requires
        f.chunk > 0,
        f.valid(),
        agree_near(f, e1, e2),
        (0 <= d < 3 && 0 <= di <= 1 && 0 <= s <= dims(f, d).0) || (d == 3 && di == 0 && s == 0),
    ensures
        terrain_upto(f, e1, hf, d, di, s) == terrain_upto(f, e2, hf, d, di, s),
    decreases d, di, s,
{
    if d < 0 || di < 0 {
    } else if s > 0 {
        lemma_terrain_agree(f, e1, e2, hf, d, di, s - 1);
        lemma_mask_agree(f, e1, e2, hf, d, dir_of(di), s - 1);
    } else if di > 0 {
        lemma_terrain_agree(f, e1, e2, hf, d, di - 1, dims(f, d).0);
    } else if d > 0 {
        lemma_terrain_agree(f, e1, e2, hf, d - 1, 1, dims(f, d - 1).0);
    }
}

/// Locality of meshing: two edit maps that agree on every voxel a chunk's
/// mesh reads (its columns and a one-column border, heights `-1 ..= ymax`)
/// give the chunk the same quads; edits anywhere else do not matter.
pub proof fn lemma_local_edits_decide_quads(
    f: ChunkFrame,
    e1: Map<(i32, i32, i32), bool>,
    e2: Map<(i32, i32, i32), bool>,
    hf: HeightField,
)
    requires
        f.valid(),
        agree_near(f, e1, e2),
    ensures
        chunk_quads(f, e1, hf) == chunk_quads(f, e2, hf),
{
    if f.chunk > 0 {
        lemma_terrain_agree(f, e1, e2, hf, 3, 0, 0);
    }
}

/// Editing a voxel outside the columns a chunk's mesh reads (its own
/// columns and a one-column border) leaves the chunk's quads unchanged.
pub proof fn lemma_far_edit_keeps_quads(
    f: ChunkFrame,
    e: Map<(i32, i32, i32), bool>,
    hf: HeightField,
    k: (i32, i32, i32),
    v: bool,
)
    requires
        f.valid(),
        !reads_column(f, k),
    ensures
        chunk_quads(f, e.insert(k, v), hf) == chunk_quads(f, e, hf),
{
    assert forall|j: (i32, i32, i32)| reads_column(f, j) && -1 <= j.1 <= f.ymax implies (#[trigger] e.insert(
        k,
        v,
    ).contains_key(j) == e.contains_key(j) && (e.insert(k, v).contains_key(j) ==> e.insert(k, v)[j]
        == e[j])) by {
        assert(j != k);
    }
    lemma_local_edits_decide_quads(f, e.insert(k, v), e, hf);
}

/// All quads of the chunk mesh (see [`chunk_quads`]).
pub fn chunk_quads_exec(f: ChunkFrame, edits: &ChunkEdits, hf: &HeightField) -> (quads: Vec<Quad>)
    requires
        f.valid(),
        f.chunk > 0 ==> f.covered_by(*hf),
        edits.wf(),
    ensures
        quads@ == chunk_quads(f, edits.edits(), *hf),
        6 * quads@.len() < u32::MAX,
        forall|i: int| 0 <= i < quads@.len() ==> #[trigger] quads@[i].slot < 16,
        f.chunk > 0 ==> slices_greedy(f, edits.edits(), *hf),
        f.chunk > 0 ==> crate::faces::faces_exact(f, edits.edits(), *hf),
{
    if f.chunk <= 0 {
        return Vec::new();
    }
    let mut quads = terrain_quads_exec(f, edits, hf);
    let ghost t = quads@;
    let ghost e = edits.edits();
    let ghost tl = quads@.len() as int;
    let ox = f.cx * f.chunk;
    let oz = f.cz * f.chunk;
    let mut lx: i32 = 0;
    while lx < f.chunk
        invariant
            0 <= lx <= f.chunk,
            f.chunk > 0,
            f.valid(),
            f.covered_by(*hf),
            ox == f.ox(),
            oz == f.oz(),
            quads@ == t + water_upto(f, *hf, lx as int, 0),
            quads@.len() <= tl + lx * f.chunk,
            forall|i: int| 0 <= i < quads@.len() ==> #[trigger] quads@[i].slot < 16,
        decreases f.chunk - lx,
    {
        let mut lz: i32 = 0;
        while lz < f.chunk
            invariant
                0 <= lx < f.chunk,
                0 <= lz <= f.chunk,
                f.chunk > 0,
                f.valid(),
                f.covered_by(*hf),
                ox == f.ox(),
                oz == f.oz(),
                quads@ == t + water_upto(f, *hf, lx as int, lz as int),
                quads@.len() <= tl + lx * f.chunk + lz,
                forall|i: int| 0 <= i < quads@.len() ==> #[trigger] quads@[i].slot < 16,
            decreases f.chunk - lz,
        {
            let h = hf.height_at(ox + lx, oz + lz);
            if h < f.sea {
                let q = Quad {
                    c0: Pos { x: lx, y: f.sea, z: lz },
                    c1: Pos { x: lx, y: f.sea, z: lz + 1 },
                    c2: Pos { x: lx + 1, y: f.sea, z: lz + 1 },
                    c3: Pos { x: lx + 1, y: f.sea, z: lz },
                    normal: Pos { x: 0, y: 1, z: 0 },
                    tile: 5,
                    slot: 15,
                };
                quads.push(q);
            }
            lz = lz + 1;
            assert(quads@ =~= t + water_upto(f, *hf, lx as int, lz as int));
        }
        proof {
            assert(lx * f.chunk + f.chunk == (lx + 1) * f.chunk) by (nonlinear_arith);
        }
        lx = lx + 1;
    }
    proof {
        crate::faces::lemma_faces_exact(f, edits.edits(), *hf);
    }
    quads
}

} // verus!
