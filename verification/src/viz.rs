use vstd::prelude::*;
use std::collections::HashMap;
use crate::assemble::{ChunkMesh, MeshVertex, Submesh};

verus! {

broadcast use vstd::std_specs::hash::group_hash_axioms;

/// The distinct values of `s` in order of first occurrence.
pub open spec fn first_seen(s: Seq<u32>) -> Seq<u32>
    decreases s.len(),
{
    if s.len() == 0 {
        Seq::empty()
    } else {
        let f = first_seen(s.drop_last());
        if f.contains(s.last()) {
            f
        } else {
            f.push(s.last())
        }
    }
}

/// [`first_seen`] lists each value of `s` exactly once.
pub proof fn lemma_first_seen(s: Seq<u32>)
    ensures
        first_seen(s).no_duplicates(),
        forall|x: u32| first_seen(s).contains(x) <==> s.contains(x),
        first_seen(s).len() <= s.len(),
    decreases s.len(),
{
    if s.len() > 0 {
        let t = s.drop_last();
        lemma_first_seen(t);
        let f = first_seen(t);
        assert forall|x: u32| first_seen(s).contains(x) <==> s.contains(x) by {
            if t.contains(x) {
                let i = choose|i: int| 0 <= i < t.len() && t[i] == x;
                assert(s[i] == x);
            }
            if s.contains(x) && x != s.last() {
                let i = choose|i: int| 0 <= i < s.len() && s[i] == x;
                assert(i < t.len() && t[i] == x);
            }
            if !f.contains(s.last()) {
                assert(first_seen(s) == f.push(s.last()));
                if f.push(s.last()).contains(x) && x != s.last() {
                    let i = choose|i: int| 0 <= i < f.push(s.last()).len() && f.push(s.last())[i] == x;
                    assert(f[i] == x);
                }
                if f.contains(x) {
                    let i = choose|i: int| 0 <= i < f.len() && f[i] == x;
                    assert(f.push(s.last())[i] == x);
                }
                assert(f.push(s.last())[f.len() as int] == s.last());
            }
            assert(s[s.len() - 1] == s.last());
        }
    }
}

/// One submesh cut out of a chunk mesh as a mesh of its own: the vertices
/// its triangles use, in order of first use, and its triangles re-indexed
/// into them.
pub struct MeshPart {
    pub vertices: Vec<MeshVertex>,
    pub indices: Vec<u32>,
}

/// Cut submesh `sm` out of `mesh`: the vertices named by its index range,
/// each once, in order of first use, and the range's indices re-pointed at
/// them.
pub fn split_submesh(mesh: &ChunkMesh, sm: Submesh) -> (part: MeshPart)
    requires
        sm.index_start + sm.index_count <= u32::MAX,
        sm.index_start + sm.index_count <= mesh.indices@.len(),
        forall|i: int|
            sm.index_start <= i < sm.index_start + sm.index_count ==> #[trigger] mesh.indices@[i]
                < mesh.vertices@.len(),
    ensures
        ({
            let s = mesh.indices@.subrange(
                sm.index_start as int,
                sm.index_start + sm.index_count,
            );
            let f = first_seen(s);
            &&& f.no_duplicates()
            &&& part.vertices@ == f.map_values(|i: u32| mesh.vertices@[i as int])
            &&& part.indices@.len() == s.len()
            &&& forall|k: int|
                0 <= k < s.len() ==> #[trigger] part.indices@[k] < f.len() && f[part.indices@[k] as int]
                    == s[k]
        }),
{
    let start = sm.index_start as usize;
    let end = (sm.index_start + sm.index_count) as usize;
    let ghost s = mesh.indices@.subrange(start as int, end as int);
    let mut remap: HashMap<u32, u32> = HashMap::new();
    let mut vertices: Vec<MeshVertex> = Vec::new();
    let mut indices: Vec<u32> = Vec::new();
    let ghost mut f: Seq<u32> = Seq::empty();
    let mut i: usize = start;
    while i < end
        invariant
            start <= i <= end,
            end <= mesh.indices@.len(),
            end <= u32::MAX,
            s == mesh.indices@.subrange(start as int, end as int),
            forall|j: int| start <= j < end ==> #[trigger] mesh.indices@[j] < mesh.vertices@.len(),
            f == first_seen(s.take(i - start)),
            f.no_duplicates(),
            f.len() <= i - start,
            forall|x: u32| #[trigger] remap@.contains_key(x) <==> f.contains(x),
            forall|j: int| 0 <= j < f.len() ==> #[trigger] remap@[f[j]] == j,
            vertices@ == f.map_values(|v: u32| mesh.vertices@[v as int]),
            indices@.len() == i - start,
            forall|k: int|
                0 <= k < i - start ==> #[trigger] indices@[k] < f.len() && f[indices@[k] as int] == s[k],
        decreases end - i,
    {
        let idx = mesh.indices[i];
        proof {
            assert(s.take(i - start + 1).drop_last() =~= s.take(i - start));
            assert(s.take(i - start + 1).last() == s[i - start]);
            assert(s[i - start] == idx);
            lemma_first_seen(s.take(i - start + 1));
        }
        let ghost f0 = f;
        let ni: u32 = match remap.get(&idx) {
            Some(n) => {
                proof {
                    let j = choose|j: int| 0 <= j < f0.len() && f0[j] == idx;
                    assert(remap@[f0[j]] == j);
                }
                *n
            },
            None => {
                let n = vertices.len() as u32;
                vertices.push(mesh.vertices[idx as usize]);
                remap.insert(idx, n);
                proof {
                    f = f0.push(idx);
                    assert forall|x: u32| #[trigger] remap@.contains_key(x) <==> f.contains(x) by {
                        if f0.contains(x) {
                            let j = choose|j: int| 0 <= j < f0.len() && f0[j] == x;
                            assert(f[j] == x);
                        }
                        if f.contains(x) && x != idx {
                            let j = choose|j: int| 0 <= j < f.len() && f[j] == x;
                            assert(j < f0.len() && f0[j] == x);
                        }
                        assert(f[f0.len() as int] == idx);
                    }
                    assert forall|j: int| 0 <= j < f.len() implies #[trigger] remap@[f[j]] == j by {
                        if j < f0.len() {
                            assert(f[j] == f0[j]);
                            assert(f0[j] != idx);
                        }
                    }
                    assert(vertices@ =~= f.map_values(|v: u32| mesh.vertices@[v as int]));
                }
                n
            },
        };
        indices.push(ni);
        proof {
            assert forall|k: int| 0 <= k < i + 1 - start implies #[trigger] indices@[k] < f.len()
                && f[indices@[k] as int] == s[k] by {
                if k < i - start {
                    assert(f[indices@[k] as int] == f0[indices@[k] as int]);
                }
            }
        }
        i = i + 1;
    }
    proof {
        assert(s.take(end - start) =~= s);
    }
    MeshPart { vertices, indices }
}

} // verus!
