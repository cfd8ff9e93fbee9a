use vstd::prelude::*;
use crate::mesher::{Pos, Quad};

verus! {

/// One mesh vertex: a chunk-local position, the face normal, the atlas
/// tile the face samples, and which corner of the tile (0..4, in the
/// order `(0,0) (0,1) (1,1) (1,0)` of tile-local UV) it maps to.
#[derive(Clone, Copy, Debug, PartialEq, Eq, Structural)]
pub struct MeshVertex {
    pub position: Pos,
    pub normal: Pos,
    pub tile: usize,
    pub corner: usize,
}

/// A contiguous range of the index buffer drawn with one material slot.
#[derive(Clone, Copy, Debug, PartialEq, Eq, Structural)]
pub struct Submesh {
    pub index_start: u32,
    pub index_count: u32,
    /// Material slot: `kind * 3 + class` for terrain (class 0 top, 1 side,
    /// 2 bottom), 15 for the water surface.
    pub slot: usize,
}

/// A chunk's indexed triangle mesh.
pub struct ChunkMesh {
    pub vertices: Vec<MeshVertex>,
    pub indices: Vec<u32>,
    pub submeshes: Vec<Submesh>,
}

/// Number of material slots: 5 kinds x 3 face classes, plus water.
pub const NUM_SLOTS: usize = 16;

pub open spec fn corner_vertex(q: Quad, p: Pos, ci: int) -> MeshVertex {
    MeshVertex { position: p, normal: q.normal, tile: q.tile, corner: ci as usize }
}

/// The four vertices of a quad.
pub open spec fn quad_vertices(q: Quad) -> Seq<MeshVertex> {
    seq![
        corner_vertex(q, q.c0, 0),
        corner_vertex(q, q.c1, 1),
        corner_vertex(q, q.c2, 2),
        corner_vertex(q, q.c3, 3),
    ]
}

/// Vertex buffer of a quad list: four vertices per quad, in order.
pub open spec fn spec_vertices(qs: Seq<Quad>) -> Seq<MeshVertex>
    decreases qs.len(),
{
    if qs.len() == 0 {
        Seq::empty()
    } else {
        spec_vertices(qs.drop_last()) + quad_vertices(qs.last())
    }
}

/// The two triangles `(b, b+1, b+2)` and `(b, b+2, b+3)` of the quad whose
/// first vertex is `b`.
pub open spec fn quad_indices(b: int) -> Seq<u32> {
    seq![b as u32, (b + 1) as u32, (b + 2) as u32, b as u32, (b + 2) as u32, (b + 3) as u32]
}

/// The triangles of the quads drawn with material slot `slot`, in quad
/// order.
pub open spec fn spec_bucket(qs: Seq<Quad>, slot: int) -> Seq<u32>
    decreases qs.len(),
{
    if qs.len() == 0 {
        Seq::empty()
    } else {
        spec_bucket(qs.drop_last(), slot) + if qs.last().slot == slot {
            quad_indices(4 * (qs.len() - 1))
        } else {
            Seq::empty()
        }
    }
}

/// Index buffer: the buckets of slots `0 .. n`, concatenated in slot order.
pub open spec fn spec_indices(qs: Seq<Quad>, n: int) -> Seq<u32>
    decreases n,
{
    if n <= 0 {
        Seq::empty()
    } else {
        spec_indices(qs, n - 1) + spec_bucket(qs, n - 1)
    }
}

/// Submeshes: one per non-empty bucket among slots `0 .. n`, covering that
/// bucket's range of the index buffer.
pub open spec fn spec_submeshes(qs: Seq<Quad>, n: int) -> Seq<Submesh>
    decreases n,
{
    if n <= 0 {
        Seq::empty()
    } else {
        spec_submeshes(qs, n - 1) + if spec_bucket(qs, n - 1).len() > 0 {
            seq![
                Submesh {
                    index_start: spec_indices(qs, n - 1).len() as u32,
                    index_count: spec_bucket(qs, n - 1).len() as u32,
                    slot: (n - 1) as usize,
                },
            ]
        } else {
            Seq::empty()
        }
    }
}

/// Number of quads whose slot is below `k`.
pub open spec fn count_lt(qs: Seq<Quad>, k: int) -> int
    decreases qs.len(),
{
    if qs.len() == 0 {
        0
    } else {
        count_lt(qs.drop_last(), k) + if qs.last().slot < k {
            1int
        } else {
            0int
        }
    }
}

proof fn lemma_count_bounds(qs: Seq<Quad>, k: int)
    ensures
        0 <= count_lt(qs, k) <= qs.len(),
        k <= 0 ==> count_lt(qs, k) == 0,
    decreases qs.len(),
{
    if qs.len() > 0 {
        lemma_count_bounds(qs.drop_last(), k);
    }
}

proof fn lemma_bucket_len(qs: Seq<Quad>, s: int)
    requires
        s >= 0,
    ensures
        spec_bucket(qs, s).len() == 6 * (count_lt(qs, s + 1) - count_lt(qs, s)),
    decreases qs.len(),
{
    if qs.len() > 0 {
        lemma_bucket_len(qs.drop_last(), s);
    }
}

/// The index buffer of slots `0 .. k` holds six indices per quad of those
/// slots.
pub proof fn lemma_indices_len(qs: Seq<Quad>, k: int)
    requires
        k >= 0,
    ensures
        spec_indices(qs, k).len() == 6 * count_lt(qs, k),
        spec_indices(qs, k).len() <= 6 * qs.len(),
    decreases k,
{
    lemma_count_bounds(qs, k);
    if k > 0 {
        lemma_indices_len(qs, k - 1);
        lemma_bucket_len(qs, k - 1);
    } else {
        lemma_count_bounds(qs, 0);
    }
}

proof fn lemma_vertices_len(qs: Seq<Quad>)
    ensures
        spec_vertices(qs).len() == 4 * qs.len(),
    decreases qs.len(),
{
    if qs.len() > 0 {
        lemma_vertices_len(qs.drop_last());
    }
}

proof fn lemma_bucket_bounds(qs: Seq<Quad>, s: int)
    requires
        4 * qs.len() + 4 < u32::MAX,
    ensures
        forall|i: int| 0 <= i < spec_bucket(qs, s).len() ==> #[trigger] spec_bucket(qs, s)[i] < 4 * qs.len(),
    decreases qs.len(),
{
    if qs.len() > 0 {
        let pre = qs.drop_last();
        lemma_bucket_bounds(pre, s);
        let b = spec_bucket(pre, s);
        let tail = if qs.last().slot == s {
            quad_indices(4 * (qs.len() - 1))
        } else {
            Seq::empty()
        };
        assert(spec_bucket(qs, s) == b + tail);
        assert forall|i: int| 0 <= i < spec_bucket(qs, s).len() implies #[trigger] spec_bucket(qs, s)[i] < 4
            * qs.len() by {
            if i >= b.len() {
                assert(spec_bucket(qs, s)[i] == tail[i - b.len()]);
            } else {
                assert(spec_bucket(qs, s)[i] == b[i]);
            }
        }
    }
}

proof fn lemma_indices_bounds(qs: Seq<Quad>, n: int)
    requires
        4 * qs.len() + 4 < u32::MAX,
    ensures
        forall|i: int| 0 <= i < spec_indices(qs, n).len() ==> #[trigger] spec_indices(qs, n)[i] < 4 * qs.len(),
    decreases n,
{
    if n > 0 {
        lemma_indices_bounds(qs, n - 1);
        lemma_bucket_bounds(qs, n - 1);
        let a = spec_indices(qs, n - 1);
        let b = spec_bucket(qs, n - 1);
        assert forall|i: int| 0 <= i < spec_indices(qs, n).len() implies #[trigger] spec_indices(qs, n)[i] < 4
            * qs.len() by {
            if i >= a.len() {
                assert(spec_indices(qs, n)[i] == b[i - a.len()]);
            } else {
                assert(spec_indices(qs, n)[i] == a[i]);
            }
        }
    }
}

proof fn lemma_submeshes_tile(qs: Seq<Quad>, n: int)
    requires
        n >= 0,
        6 * qs.len() < u32::MAX,
    ensures
        ({
            let sub = spec_submeshes(qs, n);
            let ind = spec_indices(qs, n);
            &&& sub.len() == 0 <==> ind.len() == 0
            &&& sub.len() > 0 ==> sub[0].index_start == 0
            &&& sub.len() > 0 ==> sub.last().index_start + sub.last().index_count == ind.len()
            &&& forall|j: int|
                0 <= j < sub.len() - 1 ==> #[trigger] sub[j].index_start + sub[j].index_count == sub[j
                    + 1].index_start
            &&& forall|j: int|
                0 <= j < sub.len() ==> #[trigger] sub[j].index_count > 0 && sub[j].index_count % 3 == 0
                    && sub[j].slot < n
        }),
    decreases n,
{
    if n > 0 {
        lemma_submeshes_tile(qs, n - 1);
        lemma_indices_len(qs, n);
        lemma_indices_len(qs, n - 1);
        lemma_bucket_len(qs, n - 1);
        lemma_count_bounds(qs, n);
        let pre = spec_submeshes(qs, n - 1);
        let a = spec_indices(qs, n - 1);
        let b = spec_bucket(qs, n - 1);
        if b.len() > 0 {
            let new = Submesh { index_start: a.len() as u32, index_count: b.len() as u32, slot: (n - 1) as usize };
            let sub = spec_submeshes(qs, n);
            assert(sub == pre + seq![new]);
            assert(sub.last() == new);
            assert forall|j: int| 0 <= j < sub.len() - 1 implies #[trigger] sub[j].index_start
                + sub[j].index_count == sub[j + 1].index_start by {
                assert(sub[j] == pre[j]);
                if j + 1 < pre.len() {
                    assert(sub[j + 1] == pre[j + 1]);
                }
            }
            assert forall|j: int| 0 <= j < sub.len() implies #[trigger] sub[j].index_count > 0
                && sub[j].index_count % 3 == 0 && sub[j].slot < n by {
                if j < pre.len() {
                    assert(sub[j] == pre[j]);
                }
            }
            if pre.len() > 0 {
                assert(sub[0] == pre[0]);
            }
        } else {
            assert(spec_submeshes(qs, n) == pre);
            assert(spec_indices(qs, n) =~= a);
        }
    }
}

/// `s` is a list of whole triangles, each naming three distinct vertices.
pub open spec fn distinct_triangles(s: Seq<u32>) -> bool {
    &&& s.len() % 3 == 0
    &&& forall|t: int|
        0 <= t < s.len() / 3 ==> #[trigger] s[3 * t] != s[3 * t + 1] && s[3 * t + 1] != s[3 * t + 2]
            && s[3 * t] != s[3 * t + 2]
}

proof fn lemma_distinct_triangles_concat(a: Seq<u32>, b: Seq<u32>)
    requires
        distinct_triangles(a),
        distinct_triangles(b),
    ensures
        distinct_triangles(a + b),
{
    let c = a + b;
    let k = a.len() / 3;
    let m = b.len() / 3;
    assert(a.len() == 3 * k);
    assert(b.len() == 3 * m);
    assert(c.len() == 3 * (k + m));
    assert(c.len() % 3 == 0);
    assert(c.len() / 3 == k + m);
    assert forall|t: int| 0 <= t < c.len() / 3 implies #[trigger] c[3 * t] != c[3 * t + 1] && c[3 * t + 1]
        != c[3 * t + 2] && c[3 * t] != c[3 * t + 2] by {
        if t < k {
            assert(c[3 * t] == a[3 * t] && c[3 * t + 1] == a[3 * t + 1] && c[3 * t + 2] == a[3 * t + 2]);
        } else {
            let u = t - k;
            assert(3 * t == a.len() + 3 * u);
            assert(c[3 * t] == b[3 * u] && c[3 * t + 1] == b[3 * u + 1] && c[3 * t + 2] == b[3 * u + 2]);
        }
    }
}

proof fn lemma_bucket_triangles(qs: Seq<Quad>, s: int)
    requires
        4 * qs.len() + 4 < u32::MAX,
    ensures
        distinct_triangles(spec_bucket(qs, s)),
    decreases qs.len(),
{
    if qs.len() > 0 {
        lemma_bucket_triangles(qs.drop_last(), s);
        if qs.last().slot == s {
            let q = quad_indices(4 * (qs.len() - 1));
            assert(distinct_triangles(q)) by {
                assert forall|t: int| 0 <= t < q.len() / 3 implies #[trigger] q[3 * t] != q[3 * t + 1]
                    && q[3 * t + 1] != q[3 * t + 2] && q[3 * t] != q[3 * t + 2] by {
                    assert(t == 0 || t == 1);
                }
            }
            lemma_distinct_triangles_concat(spec_bucket(qs.drop_last(), s), q);
        } else {
            assert(spec_bucket(qs, s) =~= spec_bucket(qs.drop_last(), s));
        }
    } else {
        assert(distinct_triangles(spec_bucket(qs, s)));
    }
}

proof fn lemma_indices_triangles(qs: Seq<Quad>, n: int)
    requires
        4 * qs.len() + 4 < u32::MAX,
    ensures
        distinct_triangles(spec_indices(qs, n)),
    decreases n,
{
    if n > 0 {
        lemma_indices_triangles(qs, n - 1);
        lemma_bucket_triangles(qs, n - 1);
        lemma_distinct_triangles_concat(spec_indices(qs, n - 1), spec_bucket(qs, n - 1));
    } else {
        assert(distinct_triangles(spec_indices(qs, n)));
    }
}

/// A chunk mesh is a well-formed triangle mesh: the index buffer holds
/// whole triangles, every index names a vertex, and the submeshes cover the
/// index buffer in order, back to back, each with at least one triangle
/// and a distinct material slot; no triangle repeats a vertex.
pub proof fn lemma_mesh_well_formed(qs: Seq<Quad>)
    requires
        6 * qs.len() < u32::MAX,
    ensures
        ({
            let ind = spec_indices(qs, NUM_SLOTS as int);
            let sub = spec_submeshes(qs, NUM_SLOTS as int);
            &&& ind.len() % 3 == 0
            &&& distinct_triangles(ind)
            &&& ind.len() == 6 * count_lt(qs, NUM_SLOTS as int)
            &&& forall|i: int| 0 <= i < ind.len() ==> #[trigger] ind[i] < spec_vertices(qs).len()
            &&& sub.len() == 0 <==> ind.len() == 0
            &&& sub.len() > 0 ==> sub[0].index_start == 0
            &&& sub.len() > 0 ==> sub.last().index_start + sub.last().index_count == ind.len()
            &&& forall|j: int|
                0 <= j < sub.len() - 1 ==> #[trigger] sub[j].index_start + sub[j].index_count == sub[j
                    + 1].index_start
            &&& forall|j: int|
                0 <= j < sub.len() ==> #[trigger] sub[j].index_count > 0 && sub[j].index_count % 3 == 0
            &&& forall|j: int, k: int| 0 <= j < k < sub.len() ==> #[trigger] sub[j].slot < #[trigger] sub[k].slot
        }),
{
    lemma_indices_len(qs, NUM_SLOTS as int);
    lemma_indices_bounds(qs, NUM_SLOTS as int);
    lemma_vertices_len(qs);
    lemma_submeshes_tile(qs, NUM_SLOTS as int);
    lemma_submesh_slots_increase(qs, NUM_SLOTS as int);
    lemma_indices_triangles(qs, NUM_SLOTS as int);
}

proof fn lemma_submesh_slots_increase(qs: Seq<Quad>, n: int)
    requires
        0 <= n <= NUM_SLOTS,
    ensures
        forall|j: int| 0 <= j < spec_submeshes(qs, n).len() ==> #[trigger] spec_submeshes(qs, n)[j].slot < n,
        forall|j: int, k: int|
            0 <= j < k < spec_submeshes(qs, n).len() ==> #[trigger] spec_submeshes(qs, n)[j].slot
                < #[trigger] spec_submeshes(qs, n)[k].slot,
    decreases n,
{
    if n > 0 {
        lemma_submesh_slots_increase(qs, n - 1);
        let pre = spec_submeshes(qs, n - 1);
        let sub = spec_submeshes(qs, n);
        if spec_bucket(qs, n - 1).len() > 0 {
            let new = Submesh {
                index_start: spec_indices(qs, n - 1).len() as u32,
                index_count: spec_bucket(qs, n - 1).len() as u32,
                slot: (n - 1) as usize,
            };
            assert(sub == pre + seq![new]);
            assert forall|j: int| 0 <= j < sub.len() implies #[trigger] sub[j].slot < n by {
                if j < pre.len() {
                    assert(sub[j] == pre[j]);
                }
            }
            assert forall|j: int, k: int| 0 <= j < k < sub.len() implies #[trigger] sub[j].slot
                < #[trigger] sub[k].slot by {
                assert(sub[j] == pre[j]);
                if k < pre.len() {
                    assert(sub[k] == pre[k]);
                } else {
                    assert(sub[k] == new);
                    assert(pre[j].slot < n - 1);
                }
            }
        } else {
            assert(sub == pre);
        }
    }
}

/// The corner `k` (0..4) of quad `q`, in the quad's own order.
pub open spec fn quad_corner(q: Quad, k: int) -> Pos {
    if k == 0 {
        q.c0
    } else if k == 1 {
        q.c1
    } else if k == 2 {
        q.c2
    } else {
        q.c3
    }
}

/// The vertex buffer keeps each quad's corners in the quad's own order:
/// vertex `4 * i + k` is corner `k` of quad `i`, with the quad's normal and
/// tile, and tile corner `k`.
pub proof fn lemma_vertices_follow_corners(qs: Seq<Quad>)
    ensures
        spec_vertices(qs).len() == 4 * qs.len(),
        forall|i: int, k: int|
            0 <= i < qs.len() && 0 <= k < 4 ==> #[trigger] spec_vertices(qs)[4 * i + k] == (MeshVertex {
                position: quad_corner(qs[i], k),
                normal: qs[i].normal,
                tile: qs[i].tile,
                corner: k as usize,
            }),
    decreases qs.len(),
{
    lemma_vertices_len(qs);
    if qs.len() > 0 {
        let t = qs.drop_last();
        lemma_vertices_follow_corners(t);
        assert(spec_vertices(qs) == spec_vertices(t) + quad_vertices(qs.last()));
        assert forall|i: int, k: int| 0 <= i < qs.len() && 0 <= k < 4 implies #[trigger] spec_vertices(qs)[4
            * i + k] == (MeshVertex {
            position: quad_corner(qs[i], k),
            normal: qs[i].normal,
            tile: qs[i].tile,
            corner: k as usize,
        }) by {
            if i < t.len() {
                assert(spec_vertices(qs)[4 * i + k] == spec_vertices(t)[4 * i + k]);
                assert(t[i] == qs[i]);
            } else {
                assert(i == t.len());
                assert(spec_vertices(qs)[4 * i + k] == quad_vertices(qs.last())[k]);
            }
        }
    }
}

/// Assemble the indexed mesh of a quad list: four vertices per quad, two
/// triangles per quad, the triangles grouped by material slot into
/// submeshes in slot order (empty slots skipped). `None` when there are no
/// quads.
pub fn assemble(quads: &Vec<Quad>) -> (mesh: Option<ChunkMesh>)
    requires
        6 * quads@.len() < u32::MAX,
    ensures
        match mesh {
            None => quads@.len() == 0,
            Some(m) => {
                &&& quads@.len() > 0
                &&& m.vertices@ == spec_vertices(quads@)
                &&& m.vertices@.len() == 4 * quads@.len()
                &&& forall|i: int, k: int|
                    0 <= i < quads@.len() && 0 <= k < 4 ==> #[trigger] m.vertices@[4 * i + k] == (MeshVertex {
                        position: quad_corner(quads@[i], k),
                        normal: quads@[i].normal,
                        tile: quads@[i].tile,
                        corner: k as usize,
                    })
                &&& m.indices@ == spec_indices(quads@, NUM_SLOTS as int)
                &&& m.submeshes@ == spec_submeshes(quads@, NUM_SLOTS as int)
            },
        },
{
    let n = quads.len();
    if n == 0 {
        return None;
    }
    let ghost qs = quads@;
    let mut vertices: Vec<MeshVertex> = Vec::new();
    let mut i: usize = 0;
    while i < n
        invariant
            i <= n,
            n == qs.len(),
            qs == quads@,
            vertices@ == spec_vertices(qs.take(i as int)),
        decreases n - i,
    {
        let q = quads[i];
        vertices.push(MeshVertex { position: q.c0, normal: q.normal, tile: q.tile, corner: 0 });
        vertices.push(MeshVertex { position: q.c1, normal: q.normal, tile: q.tile, corner: 1 });
        vertices.push(MeshVertex { position: q.c2, normal: q.normal, tile: q.tile, corner: 2 });
        vertices.push(MeshVertex { position: q.c3, normal: q.normal, tile: q.tile, corner: 3 });
        proof {
            assert(qs.take(i + 1).drop_last() =~= qs.take(i as int));
            assert(vertices@ =~= spec_vertices(qs.take(i + 1)));
        }
        i = i + 1;
    }
    assert(qs.take(n as int) =~= qs);
    let mut indices: Vec<u32> = Vec::new();
    let mut submeshes: Vec<Submesh> = Vec::new();
    let mut slot: usize = 0;
    while slot < NUM_SLOTS
        invariant
            slot <= NUM_SLOTS,
            n == qs.len(),
            qs == quads@,
            6 * n < u32::MAX,
            indices@ == spec_indices(qs, slot as int),
            submeshes@ == spec_submeshes(qs, slot as int),
        decreases NUM_SLOTS - slot,
    {
        let start = indices.len();
        proof {
            lemma_indices_len(qs, slot as int);
        }
        let mut j: usize = 0;
        while j < n
            invariant
                j <= n,
                slot < NUM_SLOTS,
                n == qs.len(),
                qs == quads@,
                6 * n < u32::MAX,
                start == spec_indices(qs, slot as int).len(),
                start <= 6 * count_lt(qs, slot as int),
                indices@ == spec_indices(qs, slot as int) + spec_bucket(qs.take(j as int), slot as int),
            decreases n - j,
        {
            proof {
                assert(qs.take(j + 1).drop_last() =~= qs.take(j as int));
                assert(qs.take(j + 1).last() == qs[j as int]);
            }
            if quads[j].slot == slot {
                let b = (4 * j) as u32;
                indices.push(b);
                indices.push(b + 1);
                indices.push(b + 2);
                indices.push(b);
                indices.push(b + 2);
                indices.push(b + 3);
            }
            proof {
                assert(indices@ =~= spec_indices(qs, slot as int) + spec_bucket(qs.take(j + 1), slot as int));
            }
            j = j + 1;
        }
        proof {
            assert(qs.take(n as int) =~= qs);
            lemma_indices_len(qs, slot as int + 1);
            lemma_count_bounds(qs, slot as int + 1);
        }
        let count = indices.len() - start;
        if count > 0 {
            submeshes.push(Submesh { index_start: start as u32, index_count: count as u32, slot });
        }
        proof {
            assert(submeshes@ =~= spec_submeshes(qs, slot as int + 1));
        }
        slot = slot + 1;
    }
    proof {
        lemma_vertices_follow_corners(qs);
    }
    Some(ChunkMesh { vertices, indices, submeshes })
}

} // verus!
