use vstd::prelude::*;
use crate::greedy::{Rect, covers, cell, greedy_partition, covered_before, spec_greedy};
use crate::heights::HeightField;
use crate::mesher::{
    ChunkFrame, Pos, Quad, add3, chunk_quads, dims, dir_of, kind_l, local_of, mask_seq, mask_val, rect_quad,
    seg_quads, slice_greedy, slices_greedy, solid_l, step, terrain_quads, terrain_upto, to3, water_quads,
    water_upto, water_cell,
};

verus! {

// ---------------------------------------------------------------------------
// Voxel faces and the quads that cover them
// ---------------------------------------------------------------------------

/// Coordinate `a` (0 = x, 1 = y, 2 = z) of a point.
pub open spec fn pcoord(p: Pos, a: int) -> int {
    if a == 0 {
        p.x as int
    } else if a == 1 {
        p.y as int
    } else {
        p.z as int
    }
}

/// Coordinate `a` of a voxel.
pub open spec fn tcoord(t: (int, int, int), a: int) -> int {
    if a == 0 {
        t.0
    } else if a == 1 {
        t.1
    } else {
        t.2
    }
}

/// `n` is one of the six unit axis directions.
pub open spec fn unit_normal(n: Pos) -> bool {
    ||| n == Pos { x: 1, y: 0, z: 0 }
    ||| n == Pos { x: -1i32, y: 0, z: 0 }
    ||| n == Pos { x: 0, y: 1, z: 0 }
    ||| n == Pos { x: 0, y: -1i32, z: 0 }
    ||| n == Pos { x: 0, y: 0, z: 1 }
    ||| n == Pos { x: 0, y: 0, z: -1i32 }
}

/// The axis a unit normal points along.
pub open spec fn normal_axis(n: Pos) -> int {
    if n.x != 0 {
        0
    } else if n.y != 0 {
        1
    } else {
        2
    }
}

/// The voxel layer along the normal's axis whose faces a quad lies on: the
/// layer just behind the quad's plane, seen from the normal's side.
pub open spec fn quad_layer(q: Quad) -> int {
    let a = normal_axis(q.normal);
    if pcoord(q.normal, a) > 0 {
        pcoord(q.c0, a) - 1
    } else {
        pcoord(q.c0, a)
    }
}

/// Voxel `p`'s coordinate `b` lies in the span of quad `q` (from corner
/// `c0` up to, not including, the opposite corner `c2`).
pub open spec fn in_span(q: Quad, p: (int, int, int), b: int) -> bool {
    pcoord(q.c0, b) <= tcoord(p, b) < pcoord(q.c2, b)
}

/// Quad `q` covers the face of voxel `p` toward the quad's normal.
pub open spec fn covers_face(q: Quad, p: (int, int, int)) -> bool {
    let a = normal_axis(q.normal);
    &&& tcoord(p, a) == quad_layer(q)
    &&& (a == 0 || in_span(q, p, 0))
    &&& (a == 1 || in_span(q, p, 1))
    &&& (a == 2 || in_span(q, p, 2))
}

/// The face of voxel `p` toward `n` is exposed: `p` is solid and its
/// neighbour `p + n` is not.
pub open spec fn exposed(
    f: ChunkFrame,
    e: Map<(i32, i32, i32), bool>,
    hf: HeightField,
    p: (int, int, int),
    n: Pos,
) -> bool {
    solid_l(f, e, hf, p) && !solid_l(f, e, hf, (p.0 + n.x, p.1 + n.y, p.2 + n.z))
}

/// Voxel `p` lies in the meshed block of the chunk.
pub open spec fn in_box(f: ChunkFrame, p: (int, int, int)) -> bool {
    0 <= p.0 < f.chunk && 0 <= p.1 < f.ymax && 0 <= p.2 < f.chunk
}

/// Face class of a normal for directional shading: 0 top, 1 side, 2 bottom.
pub open spec fn normal_class(n: Pos) -> int {
    if n.y > 0 {
        0
    } else if n.y < 0 {
        2
    } else {
        1
    }
}

/// `(c1 - c0) x (c2 - c0)` dotted with `n`: positive when the triangle
/// `c0 c1 c2` winds counter-clockwise seen from the side `n` points to.
pub open spec fn turn(c0: Pos, c1: Pos, c2: Pos, n: Pos) -> int {
    let (ax, ay, az) = (c1.x - c0.x, c1.y - c0.y, c1.z - c0.z);
    let (bx, by, bz) = (c2.x - c0.x, c2.y - c0.y, c2.z - c0.z);
    (ay * bz - az * by) * n.x + (az * bx - ax * bz) * n.y + (ax * by - ay * bx) * n.z
}

/// A terrain quad of the chunk (the water surface uses slot 15).
pub open spec fn is_terrain(q: Quad) -> bool {
    q.slot < 15
}

/// What a terrain quad is: a unit normal, both triangles `c0 c1 c2` and
/// `c0 c2 c3` wound counter-clockwise seen from outside, and every voxel
/// face it covers is an exposed face of a voxel of the chunk, toward the
/// quad's normal; its tile is that voxel's kind, its slot the kind's
/// submesh for the face class.
pub open spec fn quad_sound(f: ChunkFrame, e: Map<(i32, i32, i32), bool>, hf: HeightField, q: Quad) -> bool {
    &&& unit_normal(q.normal)
    &&& turn(q.c0, q.c1, q.c2, q.normal) > 0
    &&& turn(q.c0, q.c2, q.c3, q.normal) > 0
    &&& forall|p: (int, int, int)|
        #[trigger] covers_face(q, p) ==> {
            &&& in_box(f, p)
            &&& exposed(f, e, hf, p, q.normal)
            &&& q.tile == kind_l(f, e, hf, p)
            &&& q.slot == 3 * q.tile + normal_class(q.normal)
        }
}

/// The chunk's quads are exactly its exposed faces: every terrain quad is
/// sound, every exposed face of a voxel of the chunk is covered by a
/// terrain quad with that normal, and by only one.
pub open spec fn faces_exact(f: ChunkFrame, e: Map<(i32, i32, i32), bool>, hf: HeightField) -> bool {
    let qs = chunk_quads(f, e, hf);
    &&& forall|i: int| 0 <= i < qs.len() && is_terrain(#[trigger] qs[i]) ==> quad_sound(f, e, hf, qs[i])
    &&& forall|p: (int, int, int), n: Pos|
        in_box(f, p) && unit_normal(n) && #[trigger] exposed(f, e, hf, p, n) ==> exists|i: int|
            0 <= i < qs.len() && is_terrain(#[trigger] qs[i]) && qs[i].normal == n && covers_face(qs[i], p)
    &&& forall|i: int, j: int, p: (int, int, int)|
        0 <= i < j < qs.len() && is_terrain(qs[i]) && is_terrain(qs[j]) && qs[i].normal == qs[j].normal
            && #[trigger] covers_face(qs[i], p) ==> !#[trigger] covers_face(qs[j], p)
}

/// Slice coordinates `(u, v)` of voxel `p` for slicing along axis `d`
/// (the inverse of [`local_of`]).
pub open spec fn slice_uv(d: int, p: (int, int, int)) -> (int, int) {
    if d == 0 {
        (p.1, p.2)
    } else if d == 1 {
        (p.2, p.0)
    } else {
        (p.0, p.1)
    }
}

proof fn lemma_turn(a0: int, a1: int, b0: int, b1: int, w: int)
    requires
        a0 < a1,
        b0 < b1,
    ensures
        (a1 - a0) * (b1 - b0) > 0,
        w * (a1 - a0) * (b1 - b0) == w * ((a1 - a0) * (b1 - b0)),
{
    assert((a1 - a0) * (b1 - b0) > 0) by (nonlinear_arith)
        requires
            a0 < a1,
            b0 < b1,
    ;
    assert(w * (a1 - a0) * (b1 - b0) == w * ((a1 - a0) * (b1 - b0))) by (nonlinear_arith);
}

proof fn cross_pos(
    c1: Pos,
    c0: Pos,
    c2: Pos,
    n: Pos,
    ax: int,
    ay: int,
    az: int,
    bx: int,
    by: int,
    bz: int,
    nx: int,
    ny: int,
    nz: int,
)
    requires
        c1.x - c0.x == ax,
        c1.y - c0.y == ay,
        c1.z - c0.z == az,
        c2.x - c0.x == bx,
        c2.y - c0.y == by,
        c2.z - c0.z == bz,
        n.x == nx,
        n.y == ny,
        n.z == nz,
        (ay * bz - az * by) * nx + (az * bx - ax * bz) * ny + (ax * by - ay * bx) * nz > 0,
    ensures
        turn(c0, c1, c2, n) > 0,
{
}

/// The quad of a merged rectangle `r` of slice `s` along axis `d` facing
/// `dir`: a unit normal along `d`, wound counter-clockwise from outside,
/// covering exactly the faces of the slice's voxels whose slice
/// coordinates lie in `r`.
proof fn lemma_rect_geometry(f: ChunkFrame, d: int, di: int, s: int, r: Rect)
    requires
        f.chunk > 0,
        f.valid(),
        0 <= d < 3,
        0 <= di < 2,
        0 <= s < dims(f, d).0,
        r.u0 < r.u1 <= dims(f, d).1,
        r.v0 < r.v1 <= dims(f, d).2,
    ensures
        rect_quad(d, dir_of(di), s, r).normal == to3(step(d, dir_of(di))),
        unit_normal(rect_quad(d, dir_of(di), s, r).normal),
        normal_axis(rect_quad(d, dir_of(di), s, r).normal) == d,
        pcoord(rect_quad(d, dir_of(di), s, r).normal, d) == dir_of(di),
        quad_layer(rect_quad(d, dir_of(di), s, r)) == s,
        turn(
            rect_quad(d, dir_of(di), s, r).c0,
            rect_quad(d, dir_of(di), s, r).c1,
            rect_quad(d, dir_of(di), s, r).c2,
            rect_quad(d, dir_of(di), s, r).normal,
        ) > 0,
        turn(
            rect_quad(d, dir_of(di), s, r).c0,
            rect_quad(d, dir_of(di), s, r).c2,
            rect_quad(d, dir_of(di), s, r).c3,
            rect_quad(d, dir_of(di), s, r).normal,
        ) > 0,
        forall|p: (int, int, int)|
            #[trigger] covers_face(rect_quad(d, dir_of(di), s, r), p) <==> (tcoord(p, d) == s && r.u0
                <= slice_uv(d, p).0 < r.u1 && r.v0 <= slice_uv(d, p).1 < r.v1),
{
    let dir = dir_of(di);
    let q = rect_quad(d, dir, s, r);
    let plane = if dir > 0 { s + 1 } else { s };
    assert(f.chunk <= i32::MAX) by (nonlinear_arith)
        requires
            f.chunk > 0,
            f.chunk * f.chunk <= i32::MAX,
    ;
    assert(0 <= plane <= i32::MAX);
    let (u0, u1, v0, v1) = (r.u0 as int, r.u1 as int, r.v0 as int, r.v1 as int);
    let (du, dv) = (u1 - u0, v1 - v0);
    assert(dims(f, d).1 <= i32::MAX && dims(f, d).2 <= i32::MAX);
    if d == 0 && dir > 0 {
        assert(q.c0 == Pos { x: plane as i32, y: u0 as i32, z: v0 as i32 });
        assert(q.c1 == Pos { x: plane as i32, y: u1 as i32, z: v0 as i32 });
        assert(q.c2 == Pos { x: plane as i32, y: u1 as i32, z: v1 as i32 });
        assert(q.c3 == Pos { x: plane as i32, y: u0 as i32, z: v1 as i32 });
        assert(q.normal == Pos { x: 1i32, y: 0i32, z: 0i32 });
        assert((((u1) - (u0)) * ((v1) - (v0)) - (0) * ((u1) - (u0))) * (1) + ((0) * (0) - (0) * ((v1) - (v0))) * (0) + ((0) * ((u1) - (u0)) - ((u1) - (u0)) * (0)) * (0) > 0) by (nonlinear_arith)
            requires
                u0 < u1,
                v0 < v1,
        ;
        cross_pos(q.c1, q.c0, q.c2, q.normal, 0, (u1) - (u0), 0, 0, (u1) - (u0), (v1) - (v0), 1, 0, 0);
        assert((((u1) - (u0)) * ((v1) - (v0)) - ((v1) - (v0)) * (0)) * (1) + (((v1) - (v0)) * (0) - (0) * ((v1) - (v0))) * (0) + ((0) * (0) - ((u1) - (u0)) * (0)) * (0) > 0) by (nonlinear_arith)
            requires
                u0 < u1,
                v0 < v1,
        ;
        cross_pos(q.c2, q.c0, q.c3, q.normal, 0, (u1) - (u0), (v1) - (v0), 0, 0, (v1) - (v0), 1, 0, 0);
    } else if d == 0 && dir < 0 {
        assert(q.c0 == Pos { x: plane as i32, y: u0 as i32, z: v0 as i32 });
        assert(q.c1 == Pos { x: plane as i32, y: u0 as i32, z: v1 as i32 });
        assert(q.c2 == Pos { x: plane as i32, y: u1 as i32, z: v1 as i32 });
        assert(q.c3 == Pos { x: plane as i32, y: u1 as i32, z: v0 as i32 });
        assert(q.normal == Pos { x: -1i32, y: 0i32, z: 0i32 });
        assert(((0) * ((v1) - (v0)) - ((v1) - (v0)) * ((u1) - (u0))) * (-1) + (((v1) - (v0)) * (0) - (0) * ((v1) - (v0))) * (0) + ((0) * ((u1) - (u0)) - (0) * (0)) * (0) > 0) by (nonlinear_arith)
            requires
                u0 < u1,
                v0 < v1,
        ;
        cross_pos(q.c1, q.c0, q.c2, q.normal, 0, 0, (v1) - (v0), 0, (u1) - (u0), (v1) - (v0), -1, 0, 0);
        assert((((u1) - (u0)) * (0) - ((v1) - (v0)) * ((u1) - (u0))) * (-1) + (((v1) - (v0)) * (0) - (0) * (0)) * (0) + ((0) * ((u1) - (u0)) - ((u1) - (u0)) * (0)) * (0) > 0) by (nonlinear_arith)
            requires
                u0 < u1,
                v0 < v1,
        ;
        cross_pos(q.c2, q.c0, q.c3, q.normal, 0, (u1) - (u0), (v1) - (v0), 0, (u1) - (u0), 0, -1, 0, 0);
    } else if d == 1 && dir > 0 {
        assert(q.c0 == Pos { x: v0 as i32, y: plane as i32, z: u0 as i32 });
        assert(q.c1 == Pos { x: v0 as i32, y: plane as i32, z: u1 as i32 });
        assert(q.c2 == Pos { x: v1 as i32, y: plane as i32, z: u1 as i32 });
        assert(q.c3 == Pos { x: v1 as i32, y: plane as i32, z: u0 as i32 });
        assert(q.normal == Pos { x: 0i32, y: 1i32, z: 0i32 });
        assert(((0) * ((u1) - (u0)) - ((u1) - (u0)) * (0)) * (0) + (((u1) - (u0)) * ((v1) - (v0)) - (0) * ((u1) - (u0))) * (1) + ((0) * (0) - (0) * ((v1) - (v0))) * (0) > 0) by (nonlinear_arith)
            requires
                u0 < u1,
                v0 < v1,
        ;
        cross_pos(q.c1, q.c0, q.c2, q.normal, 0, 0, (u1) - (u0), (v1) - (v0), 0, (u1) - (u0), 0, 1, 0);
        assert(((0) * (0) - ((u1) - (u0)) * (0)) * (0) + (((u1) - (u0)) * ((v1) - (v0)) - ((v1) - (v0)) * (0)) * (1) + (((v1) - (v0)) * (0) - (0) * ((v1) - (v0))) * (0) > 0) by (nonlinear_arith)
            requires
                u0 < u1,
                v0 < v1,
        ;
        cross_pos(q.c2, q.c0, q.c3, q.normal, (v1) - (v0), 0, (u1) - (u0), (v1) - (v0), 0, 0, 0, 1, 0);
    } else if d == 1 && dir < 0 {
        assert(q.c0 == Pos { x: v0 as i32, y: plane as i32, z: u0 as i32 });
        assert(q.c1 == Pos { x: v1 as i32, y: plane as i32, z: u0 as i32 });
        assert(q.c2 == Pos { x: v1 as i32, y: plane as i32, z: u1 as i32 });
        assert(q.c3 == Pos { x: v0 as i32, y: plane as i32, z: u1 as i32 });
        assert(q.normal == Pos { x: 0i32, y: -1i32, z: 0i32 });
        assert(((0) * ((u1) - (u0)) - (0) * (0)) * (0) + ((0) * ((v1) - (v0)) - ((v1) - (v0)) * ((u1) - (u0))) * (-1) + (((v1) - (v0)) * (0) - (0) * ((v1) - (v0))) * (0) > 0) by (nonlinear_arith)
            requires
                u0 < u1,
                v0 < v1,
        ;
        cross_pos(q.c1, q.c0, q.c2, q.normal, (v1) - (v0), 0, 0, (v1) - (v0), 0, (u1) - (u0), 0, -1, 0);
        assert(((0) * ((u1) - (u0)) - ((u1) - (u0)) * (0)) * (0) + (((u1) - (u0)) * (0) - ((v1) - (v0)) * ((u1) - (u0))) * (-1) + (((v1) - (v0)) * (0) - (0) * (0)) * (0) > 0) by (nonlinear_arith)
            requires
                u0 < u1,
                v0 < v1,
        ;
        cross_pos(q.c2, q.c0, q.c3, q.normal, (v1) - (v0), 0, (u1) - (u0), 0, 0, (u1) - (u0), 0, -1, 0);
    } else if d == 2 && dir > 0 {
        assert(q.c0 == Pos { x: u0 as i32, y: v0 as i32, z: plane as i32 });
        assert(q.c1 == Pos { x: u1 as i32, y: v0 as i32, z: plane as i32 });
        assert(q.c2 == Pos { x: u1 as i32, y: v1 as i32, z: plane as i32 });
        assert(q.c3 == Pos { x: u0 as i32, y: v1 as i32, z: plane as i32 });
        assert(q.normal == Pos { x: 0i32, y: 0i32, z: 1i32 });
        assert(((0) * (0) - (0) * ((v1) - (v0))) * (0) + ((0) * ((u1) - (u0)) - ((u1) - (u0)) * (0)) * (0) + (((u1) - (u0)) * ((v1) - (v0)) - (0) * ((u1) - (u0))) * (1) > 0) by (nonlinear_arith)
            requires
                u0 < u1,
                v0 < v1,
        ;
        cross_pos(q.c1, q.c0, q.c2, q.normal, (u1) - (u0), 0, 0, (u1) - (u0), (v1) - (v0), 0, 0, 0, 1);
        assert((((v1) - (v0)) * (0) - (0) * ((v1) - (v0))) * (0) + ((0) * (0) - ((u1) - (u0)) * (0)) * (0) + (((u1) - (u0)) * ((v1) - (v0)) - ((v1) - (v0)) * (0)) * (1) > 0) by (nonlinear_arith)
            requires
                u0 < u1,
                v0 < v1,
        ;
        cross_pos(q.c2, q.c0, q.c3, q.normal, (u1) - (u0), (v1) - (v0), 0, 0, (v1) - (v0), 0, 0, 0, 1);
    } else if d == 2 && dir < 0 {
        assert(q.c0 == Pos { x: u0 as i32, y: v0 as i32, z: plane as i32 });
        assert(q.c1 == Pos { x: u0 as i32, y: v1 as i32, z: plane as i32 });
        assert(q.c2 == Pos { x: u1 as i32, y: v1 as i32, z: plane as i32 });
        assert(q.c3 == Pos { x: u1 as i32, y: v0 as i32, z: plane as i32 });
        assert(q.normal == Pos { x: 0i32, y: 0i32, z: -1i32 });
        assert((((v1) - (v0)) * (0) - (0) * ((v1) - (v0))) * (0) + ((0) * ((u1) - (u0)) - (0) * (0)) * (0) + ((0) * ((v1) - (v0)) - ((v1) - (v0)) * ((u1) - (u0))) * (-1) > 0) by (nonlinear_arith)
            requires
                u0 < u1,
                v0 < v1,
        ;
        cross_pos(q.c1, q.c0, q.c2, q.normal, 0, (v1) - (v0), 0, (u1) - (u0), (v1) - (v0), 0, 0, 0, -1);
        assert((((v1) - (v0)) * (0) - (0) * (0)) * (0) + ((0) * ((u1) - (u0)) - ((u1) - (u0)) * (0)) * (0) + (((u1) - (u0)) * (0) - ((v1) - (v0)) * ((u1) - (u0))) * (-1) > 0) by (nonlinear_arith)
            requires
                u0 < u1,
                v0 < v1,
        ;
        cross_pos(q.c2, q.c0, q.c3, q.normal, (u1) - (u0), (v1) - (v0), 0, (u1) - (u0), 0, 0, 0, 0, -1);
    }
}

/// The slicing `(d, di, s)` a quad's normal and layer name.
pub open spec fn quad_key(q: Quad) -> (int, int, int) {
    (normal_axis(q.normal), if pcoord(q.normal, normal_axis(q.normal)) > 0 {
        0int
    } else {
        1int
    }, quad_layer(q))
}

pub open spec fn key_lt(a: (int, int, int), b: (int, int, int)) -> bool {
    a.0 < b.0 || (a.0 == b.0 && a.1 < b.1) || (a.0 == b.0 && a.1 == b.1 && a.2 < b.2)
}

proof fn lemma_mask_cell(
    f: ChunkFrame,
    e: Map<(i32, i32, i32), bool>,
    hf: HeightField,
    d: int,
    dir: int,
    s: int,
    u: int,
    v: int,
)
    requires
        0 <= d < 3,
        0 <= u < dims(f, d).1,
        0 <= v < dims(f, d).2,
    ensures
        cell(mask_seq(f, e, hf, d, dir, s), dims(f, d).2, u, v) == mask_val(f, e, hf, d, dir, s, u, v),
{
    let un = dims(f, d).1;
    let vn = dims(f, d).2;
    crate::greedy::lemma_idx(un, vn, u, v);
    vstd::arithmetic::div_mod::lemma_fundamental_div_mod_converse(u * vn + v, vn, u, v);
}

/// The greedy rectangles of slice `(d, di, s)`.
pub open spec fn slice_rects(f: ChunkFrame, e: Map<(i32, i32, i32), bool>, hf: HeightField, d: int, di: int, s: int) -> Seq<Rect> {
    spec_greedy(mask_seq(f, e, hf, d, dir_of(di), s), dims(f, d).1, dims(f, d).2)
}

proof fn lemma_rect_face(
    f: ChunkFrame,
    e: Map<(i32, i32, i32), bool>,
    hf: HeightField,
    d: int,
    di: int,
    s: int,
    j: int,
    p: (int, int, int),
)
    requires
        f.chunk > 0,
        f.valid(),
        0 <= d < 3,
        0 <= di < 2,
        0 <= s < dims(f, d).0,
        slice_greedy(f, e, hf, d, di, s),
        0 <= j < slice_rects(f, e, hf, d, di, s).len(),
        covers_face(rect_quad(d, dir_of(di), s, slice_rects(f, e, hf, d, di, s)[j]), p),
    ensures
        ({
            let q = rect_quad(d, dir_of(di), s, slice_rects(f, e, hf, d, di, s)[j]);
            &&& in_box(f, p)
            &&& exposed(f, e, hf, p, q.normal)
            &&& q.tile == kind_l(f, e, hf, p)
            &&& q.slot == 3 * q.tile + normal_class(q.normal)
        }),
{
    let dir = dir_of(di);
    let m = mask_seq(f, e, hf, d, dir, s);
    let rs = slice_rects(f, e, hf, d, di, s);
    let r = rs[j];
    assert(greedy_partition(m, dims(f, d).1, dims(f, d).2, rs));
    lemma_rect_geometry(f, d, di, s, r);
    let (u, v) = slice_uv(d, p);
    assert(covers(r, u, v));
    lemma_mask_cell(f, e, hf, d, dir, s, u, v);
    assert(local_of(d, s, u, v) == p);
    assert(0 <= kind_l(f, e, hf, p) < 5);
}

proof fn lemma_seg_quad(f: ChunkFrame, e: Map<(i32, i32, i32), bool>, hf: HeightField, d: int, di: int, s: int, j: int)
    requires
        f.chunk > 0,
        f.valid(),
        0 <= d < 3,
        0 <= di < 2,
        0 <= s < dims(f, d).0,
        slice_greedy(f, e, hf, d, di, s),
        0 <= j < seg_quads(f, e, hf, d, di, s).len(),
    ensures
        is_terrain(seg_quads(f, e, hf, d, di, s)[j]),
        quad_sound(f, e, hf, seg_quads(f, e, hf, d, di, s)[j]),
        quad_key(seg_quads(f, e, hf, d, di, s)[j]) == (d, di, s),
        seg_quads(f, e, hf, d, di, s)[j].normal == to3(step(d, dir_of(di))),
{
    let dir = dir_of(di);
    let m = mask_seq(f, e, hf, d, dir, s);
    let rs = slice_rects(f, e, hf, d, di, s);
    let q = seg_quads(f, e, hf, d, di, s)[j];
    assert(greedy_partition(m, dims(f, d).1, dims(f, d).2, rs));
    let r = rs[j];
    assert(q == rect_quad(d, dir, s, r));
    lemma_rect_geometry(f, d, di, s, r);
    assert(covers(r, r.u0 as int, r.v0 as int));
    lemma_mask_cell(f, e, hf, d, dir, s, r.u0 as int, r.v0 as int);
    let p0 = local_of(d, s, r.u0 as int, r.v0 as int);
    assert(slice_uv(d, p0) == (r.u0 as int, r.v0 as int));
    assert(covers_face(q, p0));
    lemma_rect_face(f, e, hf, d, di, s, j, p0);
    assert forall|p: (int, int, int)| #[trigger] covers_face(q, p) implies {
        &&& in_box(f, p)
        &&& exposed(f, e, hf, p, q.normal)
        &&& q.tile == kind_l(f, e, hf, p)
        &&& q.slot == 3 * q.tile + normal_class(q.normal)
    } by {
        lemma_rect_face(f, e, hf, d, di, s, j, p);
    }
}

proof fn lemma_seg_disjoint(
    f: ChunkFrame,
    e: Map<(i32, i32, i32), bool>,
    hf: HeightField,
    d: int,
    di: int,
    s: int,
    i: int,
    j: int,
    p: (int, int, int),
)
    requires
        f.chunk > 0,
        f.valid(),
        0 <= d < 3,
        0 <= di < 2,
        0 <= s < dims(f, d).0,
        slice_greedy(f, e, hf, d, di, s),
        0 <= i < j < seg_quads(f, e, hf, d, di, s).len(),
        covers_face(seg_quads(f, e, hf, d, di, s)[i], p),
    ensures
        !covers_face(seg_quads(f, e, hf, d, di, s)[j], p),
{
    let m = mask_seq(f, e, hf, d, dir_of(di), s);
    let rs = slice_rects(f, e, hf, d, di, s);
    assert(greedy_partition(m, dims(f, d).1, dims(f, d).2, rs));
    lemma_rect_geometry(f, d, di, s, rs[i]);
    lemma_rect_geometry(f, d, di, s, rs[j]);
    let (u, v) = slice_uv(d, p);
    assert(covers(rs[i], u, v));
    assert(!(covers(rs[i], u, v) && covers(rs[j], u, v)));
}

proof fn lemma_seg_complete(
    f: ChunkFrame,
    e: Map<(i32, i32, i32), bool>,
    hf: HeightField,
    d: int,
    di: int,
    s: int,
    p: (int, int, int),
) -> (j: int)
    requires
        f.chunk > 0,
        f.valid(),
        0 <= d < 3,
        0 <= di < 2,
        0 <= s < dims(f, d).0,
        slice_greedy(f, e, hf, d, di, s),
        in_box(f, p),
        tcoord(p, d) == s,
        exposed(f, e, hf, p, to3(step(d, dir_of(di)))),
    ensures
        0 <= j < seg_quads(f, e, hf, d, di, s).len(),
        covers_face(seg_quads(f, e, hf, d, di, s)[j], p),
{
    let dir = dir_of(di);
    let un = dims(f, d).1;
    let vn = dims(f, d).2;
    let m = mask_seq(f, e, hf, d, dir, s);
    let rs = slice_rects(f, e, hf, d, di, s);
    assert(greedy_partition(m, un, vn, rs));
    let (u, v) = slice_uv(d, p);
    assert(local_of(d, s, u, v) == p);
    assert(crate::greedy::in_grid(un, vn, u, v));
    lemma_mask_cell(f, e, hf, d, dir, s, u, v);
    assert(cell(m, vn, u, v) >= 0);
    assert(covered_before(rs, rs.len() as int, u, v));
    let j = choose|j: int| 0 <= j < rs.len() && #[trigger] covers(rs[j], u, v);
    lemma_rect_geometry(f, d, di, s, rs[j]);
    assert(seg_quads(f, e, hf, d, di, s)[j] == rect_quad(d, dir, s, rs[j]));
    j
}

pub open spec fn slicing_ok(f: ChunkFrame, d: int, di: int, s: int) -> bool {
    (0 <= d < 3 && 0 <= di <= 1 && 0 <= s <= dims(f, d).0) || (d == 3 && di == 0 && s == 0)
}

proof fn lemma_terrain_faces(f: ChunkFrame, e: Map<(i32, i32, i32), bool>, hf: HeightField, d: int, di: int, s: int)
    requires
        f.chunk > 0,
        f.valid(),
        slices_greedy(f, e, hf),
        slicing_ok(f, d, di, s),
    ensures
        forall|i: int|
            0 <= i < terrain_upto(f, e, hf, d, di, s).len() ==> {
                &&& is_terrain(#[trigger] terrain_upto(f, e, hf, d, di, s)[i])
                &&& quad_sound(f, e, hf, terrain_upto(f, e, hf, d, di, s)[i])
                &&& key_lt(quad_key(terrain_upto(f, e, hf, d, di, s)[i]), (d, di, s))
            },
        forall|i: int, j: int, p: (int, int, int)|
            0 <= i < j < terrain_upto(f, e, hf, d, di, s).len() && terrain_upto(f, e, hf, d, di, s)[i].normal
                == terrain_upto(f, e, hf, d, di, s)[j].normal && #[trigger] covers_face(
                terrain_upto(f, e, hf, d, di, s)[i],
                p,
            ) ==> !#[trigger] covers_face(terrain_upto(f, e, hf, d, di, s)[j], p),
    decreases d, di, s,
{
    let t = terrain_upto(f, e, hf, d, di, s);
    if d < 0 || di < 0 {
    } else if s > 0 {
        lemma_terrain_faces(f, e, hf, d, di, s - 1);
        let t0 = terrain_upto(f, e, hf, d, di, s - 1);
        let sq = seg_quads(f, e, hf, d, di, s - 1);
        assert(slice_greedy(f, e, hf, d, di, s - 1));
        assert(t == t0 + sq);
        assert forall|i: int| 0 <= i < t.len() implies {
            &&& is_terrain(#[trigger] t[i])
            &&& quad_sound(f, e, hf, t[i])
            &&& key_lt(quad_key(t[i]), (d, di, s))
        } by {
            if i < t0.len() {
                assert(t[i] == t0[i]);
            } else {
                assert(t[i] == sq[i - t0.len()]);
                lemma_seg_quad(f, e, hf, d, di, s - 1, i - t0.len());
            }
        }
        assert forall|i: int, j: int, p: (int, int, int)|
            0 <= i < j < t.len() && t[i].normal == t[j].normal && #[trigger] covers_face(t[i], p) implies !#[trigger] covers_face(t[j], p) by {
            if j < t0.len() {
                assert(t[i] == t0[i] && t[j] == t0[j]);
            } else if i >= t0.len() {
                assert(t[i] == sq[i - t0.len()] && t[j] == sq[j - t0.len()]);
                lemma_seg_disjoint(f, e, hf, d, di, s - 1, i - t0.len(), j - t0.len(), p);
            } else {
                assert(t[i] == t0[i] && t[j] == sq[j - t0.len()]);
                lemma_seg_quad(f, e, hf, d, di, s - 1, j - t0.len());
                if covers_face(t[j], p) {
                    assert(quad_key(t[i]) == quad_key(t[j]));
                }
            }
        }
    } else if di > 0 {
        lemma_terrain_faces(f, e, hf, d, di - 1, dims(f, d).0);
        assert(t == terrain_upto(f, e, hf, d, di - 1, dims(f, d).0));
    } else if d > 0 {
        lemma_terrain_faces(f, e, hf, d - 1, 1, dims(f, d - 1).0);
        assert(t == terrain_upto(f, e, hf, d - 1, 1, dims(f, d - 1).0));
    } else {
        assert(t.len() == 0);
    }
}

proof fn lemma_terrain_complete(
    f: ChunkFrame,
    e: Map<(i32, i32, i32), bool>,
    hf: HeightField,
    d0: int,
    di0: int,
    s0: int,
    d: int,
    di: int,
    s: int,
    j: int,
) -> (k: int)
    requires
        f.chunk > 0,
        f.valid(),
        slicing_ok(f, d0, di0, s0),
        0 <= d < 3,
        0 <= di < 2,
        0 <= s < dims(f, d).0,
        key_lt((d, di, s), (d0, di0, s0)),
        0 <= j < seg_quads(f, e, hf, d, di, s).len(),
    ensures
        0 <= k < terrain_upto(f, e, hf, d0, di0, s0).len(),
        terrain_upto(f, e, hf, d0, di0, s0)[k] == seg_quads(f, e, hf, d, di, s)[j],
    decreases d0, di0, s0,
{
    let t = terrain_upto(f, e, hf, d0, di0, s0);
    if s0 > 0 && d0 < 3 {
        let t0 = terrain_upto(f, e, hf, d0, di0, s0 - 1);
        let sq = seg_quads(f, e, hf, d0, di0, s0 - 1);
        assert(t == t0 + sq);
        if (d, di, s) == (d0, di0, s0 - 1) {
            assert(t[t0.len() + j] == sq[j]);
            t0.len() + j
        } else {
            let k = lemma_terrain_complete(f, e, hf, d0, di0, s0 - 1, d, di, s, j);
            assert(t[k] == t0[k]);
            k
        }
    } else if di0 > 0 {
        lemma_terrain_complete(f, e, hf, d0, di0 - 1, dims(f, d0).0, d, di, s, j)
    } else {
        assert(d0 > 0);
        lemma_terrain_complete(f, e, hf, d0 - 1, 1, dims(f, d0 - 1).0, d, di, s, j)
    }
}

proof fn lemma_water_slots(f: ChunkFrame, hf: HeightField, lx: int, lz: int)
    ensures
        forall|i: int| 0 <= i < water_upto(f, hf, lx, lz).len() ==> (#[trigger] water_upto(f, hf, lx, lz)[i]).slot == 15,
    decreases lx, lz,
{
    if lx < 0 {
    } else if lz > 0 {
        lemma_water_slots(f, hf, lx, lz - 1);
        let a = water_upto(f, hf, lx, lz - 1);
        let b = water_cell(f, hf, lx, lz - 1);
        assert forall|i: int| 0 <= i < water_upto(f, hf, lx, lz).len() implies (#[trigger] water_upto(f, hf, lx, lz)[i]).slot == 15 by {
            if i < a.len() {
                assert(water_upto(f, hf, lx, lz)[i] == a[i]);
            } else {
                assert(water_upto(f, hf, lx, lz)[i] == b[i - a.len()]);
            }
        }
    } else if lx > 0 {
        lemma_water_slots(f, hf, lx - 1, f.chunk as int);
        assert(water_upto(f, hf, lx, lz) == water_upto(f, hf, lx - 1, f.chunk as int));
    } else {
        assert(water_upto(f, hf, lx, lz).len() == 0);
    }
}

/// Surface only: the terrain quads of a chunk's mesh are exactly its
/// exposed voxel faces. Every terrain quad has a unit normal, winds
/// counter-clockwise seen from outside, and covers only faces of the
/// chunk's voxels that are solid with an open neighbour in the direction
/// of the normal, carrying that voxel's kind; every such exposed face is
/// covered by a terrain quad with that normal; and no two terrain quads
/// with the same normal cover the same face.
pub proof fn lemma_faces_exact(f: ChunkFrame, e: Map<(i32, i32, i32), bool>, hf: HeightField)
    requires
        f.valid(),
        f.chunk > 0,
        slices_greedy(f, e, hf),
    ensures
        faces_exact(f, e, hf),
{
    let qs = chunk_quads(f, e, hf);
    let t = terrain_quads(f, e, hf);
    let w = water_quads(f, hf);
    assert(qs == t + w);
    lemma_terrain_faces(f, e, hf, 3, 0, 0);
    lemma_water_slots(f, hf, f.chunk as int, 0);
    assert forall|i: int| 0 <= i < qs.len() && is_terrain(#[trigger] qs[i]) implies quad_sound(f, e, hf, qs[i]) by {
        if i < t.len() {
            assert(qs[i] == t[i]);
        } else {
            assert(qs[i] == w[i - t.len()]);
        }
    }
    assert forall|p: (int, int, int), n: Pos|
        in_box(f, p) && unit_normal(n) && #[trigger] exposed(f, e, hf, p, n) implies exists|i: int|
        0 <= i < qs.len() && is_terrain(#[trigger] qs[i]) && qs[i].normal == n && covers_face(qs[i], p) by {
        let d = normal_axis(n);
        let di: int = if pcoord(n, d) > 0 { 0 } else { 1 };
        let s = tcoord(p, d);
        assert(n == to3(step(d, dir_of(di))));
        assert(0 <= s < dims(f, d).0);
        assert(slice_greedy(f, e, hf, d, di, s));
        let j = lemma_seg_complete(f, e, hf, d, di, s, p);
        lemma_seg_quad(f, e, hf, d, di, s, j);
        let k = lemma_terrain_complete(f, e, hf, 3, 0, 0, d, di, s, j);
        assert(qs[k] == t[k]);
    }
    assert forall|i: int, j: int, p: (int, int, int)|
        0 <= i < j < qs.len() && is_terrain(qs[i]) && is_terrain(qs[j]) && qs[i].normal == qs[j].normal
            && #[trigger] covers_face(qs[i], p) implies !#[trigger] covers_face(qs[j], p) by {
        if j >= t.len() {
            assert(qs[j] == w[j - t.len()]);
        } else {
            assert(qs[i] == t[i] && qs[j] == t[j]);
        }
    }
}

} // verus!
