use vstd::prelude::*;
use crate::edits::{ChunkEdits, chunk_coord, div_ok, spec_chunk_coord};
use crate::heights::{HeightField, solid_e, spec_solid};

verus! {

/// Chunks are kept loaded within this many chunks beyond the streaming
/// radius (hysteresis, so crossing a boundary back and forth does not
/// thrash).
pub const KEEP_MARGIN: i32 = 2;

/// Non-empty chunks loaded per frame at most.
pub const LOAD_BUDGET: usize = 6;

/// Creatures spawned per frame at most.
pub const SPAWN_BUDGET: usize = 8;

/// The roaming population never exceeds this many creatures near the
/// player.
pub const MAX_POPULATION: usize = 220;

pub open spec fn abs_diff(a: i32, b: i32) -> int {
    if a >= b {
        a - b
    } else {
        b - a
    }
}

/// Chunk `c` lies in the square of radius `r` around `(pcx, pcz)`.
pub open spec fn in_square(c: (i32, i32), pcx: i32, pcz: i32, r: int) -> bool {
    abs_diff(c.0, pcx) <= r && abs_diff(c.1, pcz) <= r
}

/// Row-major order of chunk coordinates.
pub open spec fn chunk_before(a: (i32, i32), b: (i32, i32)) -> bool {
    a.0 < b.0 || (a.0 == b.0 && a.1 < b.1)
}

/// The streaming radius in chunks (at least one).
pub fn stream_radius(radius: i32) -> (r: i32)
    ensures
        r == if radius >= 1 {
            radius
        } else {
            1
        },
{
    if radius >= 1 {
        radius
    } else {
        1
    }
}

/// The chunk a world column lies in.
pub fn player_chunk(px: i32, pz: i32, chunk: i32) -> (c: (i32, i32))
    requires
        div_ok(px, chunk),
        div_ok(pz, chunk),
    ensures
        c.0 == spec_chunk_coord(px, chunk),
        c.1 == spec_chunk_coord(pz, chunk),
{
    (chunk_coord(px, chunk), chunk_coord(pz, chunk))
}

/// The loaded chunks to unload: those farther than `r + KEEP_MARGIN`
/// chunks from the player's chunk on either axis, in their given order.
pub fn chunks_to_unload(loaded: &Vec<(i32, i32)>, pcx: i32, pcz: i32, r: i32) -> (out: Vec<(i32, i32)>)
    requires
        r <= i32::MAX - KEEP_MARGIN,
    ensures
        out@ == loaded@.filter(|c: (i32, i32)| !in_square(c, pcx, pcz, r + KEEP_MARGIN)),
{
    let keep: i64 = r as i64 + KEEP_MARGIN as i64;
    let ghost f = |c: (i32, i32)| !in_square(c, pcx, pcz, r + KEEP_MARGIN);
    let n = loaded.len();
    let mut out: Vec<(i32, i32)> = Vec::new();
    let mut i: usize = 0;
    while i < n
        invariant
            i <= n,
            n == loaded@.len(),
            keep == r + KEEP_MARGIN,
            f == (|c: (i32, i32)| !in_square(c, pcx, pcz, r + KEEP_MARGIN)),
            out@ == loaded@.take(i as int).filter(f),
        decreases n - i,
    {
        let c = loaded[i];
        let dx: i64 = if c.0 as i64 >= pcx as i64 {
            c.0 as i64 - pcx as i64
        } else {
            pcx as i64 - c.0 as i64
        };
        let dz: i64 = if c.1 as i64 >= pcz as i64 {
            c.1 as i64 - pcz as i64
        } else {
            pcz as i64 - c.1 as i64
        };
        proof {
            assert(loaded@.take(i + 1).drop_last() =~= loaded@.take(i as int));
            assert(loaded@.take(i + 1).last() == c);
            reveal(Seq::filter);
        }
        if dx > keep || dz > keep {
            out.push(c);
        }
        i = i + 1;
    }
    assert(loaded@.take(n as int) =~= loaded@);
    out
}

/// The chunks to load around `(pcx, pcz)`: every chunk of the square of
/// radius `r` that is neither loaded nor known to be empty, each once, in
/// row-major order.
pub fn load_candidates(
    pcx: i32,
    pcz: i32,
    r: i32,
    loaded: &Vec<(i32, i32)>,
    empty: &Vec<(i32, i32)>,
) -> (out: Vec<(i32, i32)>)
    requires
        r >= 0,
        pcx - r >= i32::MIN,
        pcx + r <= i32::MAX,
        pcz - r >= i32::MIN,
        pcz + r <= i32::MAX,
    ensures
        forall|c: (i32, i32)|
            out@.contains(c) <==> in_square(c, pcx, pcz, r as int) && !loaded@.contains(c)
                && !empty@.contains(c),
        forall|i: int, j: int|
            0 <= i < j < out@.len() ==> chunk_before(#[trigger] out@[i], #[trigger] out@[j]),
{
    let mut out: Vec<(i32, i32)> = Vec::new();
    let mut cx: i32 = pcx - r;
    loop
        invariant_except_break
            forall|c: (i32, i32)|
                out@.contains(c) <==> in_square(c, pcx, pcz, r as int) && c.0 < cx
                    && !loaded@.contains(c) && !empty@.contains(c),
            forall|i: int| 0 <= i < out@.len() ==> (#[trigger] out@[i]).0 < cx,
        invariant
            r >= 0,
            pcx - r <= cx <= pcx + r,
            pcx + r <= i32::MAX,
            pcz - r >= i32::MIN,
            pcz + r <= i32::MAX,
            forall|i: int, j: int|
                0 <= i < j < out@.len() ==> chunk_before(#[trigger] out@[i], #[trigger] out@[j]),
        ensures
            forall|c: (i32, i32)|
                out@.contains(c) <==> in_square(c, pcx, pcz, r as int) && !loaded@.contains(c)
                    && !empty@.contains(c),
            forall|i: int, j: int|
                0 <= i < j < out@.len() ==> chunk_before(#[trigger] out@[i], #[trigger] out@[j]),
        decreases pcx + r - cx,
    {
        let mut cz: i32 = pcz - r;
        loop
            invariant_except_break
                forall|c: (i32, i32)|
                    out@.contains(c) <==> in_square(c, pcx, pcz, r as int) && (c.0 < cx || (c.0
                        == cx && c.1 < cz)) && !loaded@.contains(c) && !empty@.contains(c),
                forall|i: int| 0 <= i < out@.len() ==> chunk_before(#[trigger] out@[i], (cx, cz)),
            invariant
                r >= 0,
                pcx - r <= cx <= pcx + r,
                pcz - r <= cz <= pcz + r,
                pcz + r <= i32::MAX,
                forall|i: int, j: int|
                    0 <= i < j < out@.len() ==> chunk_before(#[trigger] out@[i], #[trigger] out@[j]),
            ensures
                forall|c: (i32, i32)|
                    out@.contains(c) <==> in_square(c, pcx, pcz, r as int) && c.0 <= cx
                        && !loaded@.contains(c) && !empty@.contains(c),
                forall|i: int, j: int|
                    0 <= i < j < out@.len() ==> chunk_before(#[trigger] out@[i], #[trigger] out@[j]),
                forall|i: int| 0 <= i < out@.len() ==> (#[trigger] out@[i]).0 <= cx,
            decreases pcz + r - cz,
        {
            let c = (cx, cz);
            let skip = contains_chunk(loaded, c) || contains_chunk(empty, c);
            let ghost before = out@;
            if !skip {
                out.push(c);
            }
            proof {
                assert forall|d: (i32, i32)| out@.contains(d) <==> in_square(d, pcx, pcz, r as int)
                    && (d.0 < cx || (d.0 == cx && d.1 <= cz)) && !loaded@.contains(d)
                    && !empty@.contains(d) by {
                    if out@.contains(d) && !before.contains(d) {
                        let k = choose|k: int| 0 <= k < out@.len() && out@[k] == d;
                        assert(k == before.len());
                    }
                    if d == c && !skip {
                        assert(out@[before.len() as int] == d);
                    }
                    if before.contains(d) {
                        let k = choose|k: int| 0 <= k < before.len() && before[k] == d;
                        assert(out@[k] == d);
                    }
                }
                assert forall|i: int| 0 <= i < out@.len() implies (#[trigger] out@[i]).0 <= cx
                    && (out@[i].0 < cx || out@[i].1 <= cz) by {
                    if i < before.len() {
                        assert(out@[i] == before[i]);
                        assert(chunk_before(before[i], (cx, cz)));
                    }
                }
            }
            if cz == pcz + r {
                break;
            }
            cz = cz + 1;
        }
        if cx == pcx + r {
            break;
        }
        cx = cx + 1;
    }
    out
}

/// Whether chunk `c` is in the list.
pub fn contains_chunk(list: &Vec<(i32, i32)>, c: (i32, i32)) -> (b: bool)
    ensures
        b == list@.contains(c),
{
    let n = list.len();
    let mut i: usize = 0;
    while i < n
        invariant
            i <= n,
            n == list@.len(),
            forall|j: int| 0 <= j < i ==> list@[j] != c,
        decreases n - i,
    {
        let d = list[i];
        if d.0 == c.0 && d.1 == c.1 {
            assert(list@[i as int] == c);
            return true;
        }
        i = i + 1;
    }
    false
}

/// Chunks of `list` that are not in `drop`, in their given order.
pub fn without_chunks(list: &Vec<(i32, i32)>, drop: &Vec<(i32, i32)>) -> (out: Vec<(i32, i32)>)
    ensures
        out@ == list@.filter(|c: (i32, i32)| !drop@.contains(c)),
{
    let ghost f = |c: (i32, i32)| !drop@.contains(c);
    let n = list.len();
    let mut out: Vec<(i32, i32)> = Vec::new();
    let mut i: usize = 0;
    while i < n
        invariant
            i <= n,
            n == list@.len(),
            f == (|c: (i32, i32)| !drop@.contains(c)),
            out@ == list@.take(i as int).filter(f),
        decreases n - i,
    {
        let c = list[i];
        proof {
            assert(list@.take(i + 1).drop_last() =~= list@.take(i as int));
            assert(list@.take(i + 1).last() == c);
            reveal(Seq::filter);
        }
        if !contains_chunk(drop, c) {
            out.push(c);
        }
        i = i + 1;
    }
    assert(list@.take(n as int) =~= list@);
    out
}

/// One frame's streaming decisions.
pub struct StreamPlan {
    /// Chunks to unload, in order: first every dirty chunk (it is rebuilt
    /// fresh), then every other loaded chunk beyond the keep margin.
    /// Unloading a chunk despawns it if it is loaded and forgets it if it
    /// is known to be empty.
    pub unload: Vec<(i32, i32)>,
    /// Chunks to build and load, in row-major order: every chunk of the
    /// streaming square that is neither loaded nor known empty once the
    /// unloads are done.
    pub load: Vec<(i32, i32)>,
}

/// The chunks a frame unloads: every dirty chunk, then every other loaded
/// chunk beyond the keep margin of the square of radius `r`.
pub open spec fn unload_spec(
    pcx: i32,
    pcz: i32,
    r: int,
    loaded: Seq<(i32, i32)>,
    dirty: Seq<(i32, i32)>,
) -> Seq<(i32, i32)> {
    dirty + loaded.filter(
        |c: (i32, i32)| !dirty.contains(c) && !in_square(c, pcx, pcz, r + KEEP_MARGIN),
    )
}

/// Chunk `c` is to be loaded: it lies in the square of radius `r` and is
/// dirty or neither loaded nor known empty.
pub open spec fn wants_load(
    c: (i32, i32),
    pcx: i32,
    pcz: i32,
    r: int,
    loaded: Seq<(i32, i32)>,
    empty: Seq<(i32, i32)>,
    dirty: Seq<(i32, i32)>,
) -> bool {
    in_square(c, pcx, pcz, r) && (dirty.contains(c) || (!loaded.contains(c) && !empty.contains(c)))
}

/// After a frame's unloads, every chunk of the streaming square is still
/// loaded, still known empty, or about to be loaded.
pub proof fn lemma_plan_covers_square(
    c: (i32, i32),
    pcx: i32,
    pcz: i32,
    r: int,
    loaded: Seq<(i32, i32)>,
    empty: Seq<(i32, i32)>,
    dirty: Seq<(i32, i32)>,
)
    requires
        in_square(c, pcx, pcz, r),
    ensures
        wants_load(c, pcx, pcz, r, loaded, empty, dirty) || ((loaded.contains(c) || empty.contains(c))
            && !unload_spec(pcx, pcz, r, loaded, dirty).contains(c)),
{
    let g = |x: (i32, i32)| !dirty.contains(x) && !in_square(x, pcx, pcz, r + KEEP_MARGIN);
    lemma_filter_contains(loaded, g, c);
    if unload_spec(pcx, pcz, r, loaded, dirty).contains(c) && !dirty.contains(c) {
        let i = choose|i: int| 0 <= i < unload_spec(pcx, pcz, r, loaded, dirty).len() && unload_spec(
            pcx,
            pcz,
            r,
            loaded,
            dirty,
        )[i] == c;
        if i < dirty.len() {
            assert(dirty[i] == c);
        } else {
            assert(loaded.filter(g)[i - dirty.len()] == c);
        }
    }
}

/// Plan one frame of chunk streaming around the player's chunk
/// `(pcx, pcz)` with streaming radius `radius` (at least one chunk is
/// always streamed), given the loaded chunks, the chunks known to be all
/// air and the chunks whose blocks were edited since the last frame.
pub fn plan_stream(
    pcx: i32,
    pcz: i32,
    radius: i32,
    loaded: &Vec<(i32, i32)>,
    empty: &Vec<(i32, i32)>,
    dirty: &Vec<(i32, i32)>,
) -> (plan: StreamPlan)
    requires
        radius <= i32::MAX - KEEP_MARGIN,
        pcx - (if radius >= 1 { radius } else { 1 }) >= i32::MIN,
        pcx + (if radius >= 1 { radius } else { 1 }) <= i32::MAX,
        pcz - (if radius >= 1 { radius } else { 1 }) >= i32::MIN,
        pcz + (if radius >= 1 { radius } else { 1 }) <= i32::MAX,
    ensures
        ({
            let r = if radius >= 1 { radius as int } else { 1int };
            &&& plan.unload@ == unload_spec(pcx, pcz, r, loaded@, dirty@)
            &&& forall|c: (i32, i32)|
                plan.load@.contains(c) <==> wants_load(c, pcx, pcz, r, loaded@, empty@, dirty@)
            &&& forall|i: int, j: int|
                0 <= i < j < plan.load@.len() ==> chunk_before(#[trigger] plan.load@[i], #[trigger] plan.load@[j])
        }),
{
    let r = stream_radius(radius);
    let kept = without_chunks(loaded, dirty);
    let kept_empty = without_chunks(empty, dirty);
    let far = chunks_to_unload(&kept, pcx, pcz, r);
    let load = load_candidates(pcx, pcz, r, &kept, &kept_empty);
    let mut unload: Vec<(i32, i32)> = Vec::new();
    let n = dirty.len();
    let mut i: usize = 0;
    while i < n
        invariant
            i <= n,
            n == dirty@.len(),
            unload@ == dirty@.take(i as int),
        decreases n - i,
    {
        unload.push(dirty[i]);
        i = i + 1;
        assert(unload@ =~= dirty@.take(i as int));
    }
    let m = far.len();
    let mut j: usize = 0;
    while j < m
        invariant
            j <= m,
            m == far@.len(),
            unload@ == dirty@ + far@.take(j as int),
        decreases m - j,
    {
        unload.push(far[j]);
        j = j + 1;
        assert(unload@ =~= dirty@ + far@.take(j as int));
    }
    proof {
        assert(far@.take(m as int) =~= far@);
        assert(dirty@.take(n as int) =~= dirty@);
        let ghost fd = |c: (i32, i32)| !dirty@.contains(c);
        let ghost ff = |c: (i32, i32)| !in_square(c, pcx, pcz, r + KEEP_MARGIN);
        lemma_filter_filter(loaded@, fd, ff);
        assert((|c: (i32, i32)| fd(c) && ff(c)) =~= (|c: (i32, i32)| !dirty@.contains(c) && !in_square(
            c,
            pcx,
            pcz,
            r + KEEP_MARGIN,
        )));
        assert forall|c: (i32, i32)| #![auto] load@.contains(c) <==> in_square(c, pcx, pcz, r as int) && (
        dirty@.contains(c) || (!loaded@.contains(c) && !empty@.contains(c))) by {
            lemma_filter_contains(loaded@, fd, c);
            lemma_filter_contains(empty@, fd, c);
        }
    }
    StreamPlan { unload, load }
}

proof fn lemma_filter_contains(s: Seq<(i32, i32)>, f: spec_fn((i32, i32)) -> bool, c: (i32, i32))
    ensures
        s.filter(f).contains(c) <==> s.contains(c) && f(c),
    decreases s.len(),
{
    reveal(Seq::filter);
    if s.len() > 0 {
        let t = s.drop_last();
        lemma_filter_contains(t, f, c);
        if s.contains(c) && !t.contains(c) {
            let i = choose|i: int| 0 <= i < s.len() && s[i] == c;
            if i < t.len() {
                assert(t[i] == c);
            }
            assert(s.last() == c);
        }
        if t.contains(c) {
            let i = choose|i: int| 0 <= i < t.len() && t[i] == c;
            assert(s[i] == c);
        }
        if f(s.last()) {
            assert(s.filter(f) == t.filter(f).push(s.last()));
            if s.filter(f).contains(c) && c != s.last() {
                let i = choose|i: int| 0 <= i < s.filter(f).len() && s.filter(f)[i] == c;
                assert(t.filter(f)[i] == c);
            }
            if t.filter(f).contains(c) {
                let i = choose|i: int| 0 <= i < t.filter(f).len() && t.filter(f)[i] == c;
                assert(s.filter(f)[i] == c);
            }
            if c == s.last() {
                assert(s.filter(f)[s.filter(f).len() - 1] == c);
            }
        } else {
            assert(s.filter(f) == t.filter(f));
        }
    }
}

proof fn lemma_filter_filter(s: Seq<(i32, i32)>, f: spec_fn((i32, i32)) -> bool, g: spec_fn((i32, i32)) -> bool)
    ensures
        s.filter(f).filter(g) == s.filter(|c: (i32, i32)| f(c) && g(c)),
    decreases s.len(),
{
    reveal(Seq::filter);
    let h = |c: (i32, i32)| f(c) && g(c);
    if s.len() > 0 {
        let t = s.drop_last();
        let a = s.last();
        lemma_filter_filter(t, f, g);
        if f(a) {
            let x = t.filter(f);
            assert(s.filter(f) == x.push(a));
            assert(x.push(a).drop_last() =~= x);
            assert(x.push(a).last() == a);
            assert(x.push(a).filter(g) == if g(a) { x.filter(g).push(a) } else { x.filter(g) });
        } else {
            assert(s.filter(f) == t.filter(f));
        }
        assert(s.filter(h) == if h(a) { t.filter(h).push(a) } else { t.filter(h) });
        assert(s.filter(f).filter(g) =~= s.filter(h));
    } else {
        assert(s.filter(f).filter(g) =~= s.filter(h));
    }
}

/// The population the spawner tops up to: `min(creatures, MAX_POPULATION)`.
pub open spec fn population_target(creatures: usize) -> int {
    if creatures <= MAX_POPULATION {
        creatures as int
    } else {
        MAX_POPULATION as int
    }
}

/// Creatures spawned in one frame with `near` creatures close to the
/// player: the shortfall to the target, at most `SPAWN_BUDGET`.
pub open spec fn spawn_count(near: usize, creatures: usize) -> int {
    let target = population_target(creatures);
    if near >= target {
        0
    } else if target - near <= SPAWN_BUDGET {
        target - near
    } else {
        SPAWN_BUDGET as int
    }
}

/// How many creatures to spawn this frame: top the population near the
/// player up towards `min(creatures, MAX_POPULATION)`, at most
/// `SPAWN_BUDGET` per frame.
pub fn creature_spawn_count(near: usize, creatures: usize) -> (n: usize)
    ensures
        n == spawn_count(near, creatures),
{
    let target = if creatures <= MAX_POPULATION {
        creatures
    } else {
        MAX_POPULATION
    };
    if near >= target {
        0
    } else if target - near <= SPAWN_BUDGET {
        target - near
    } else {
        SPAWN_BUDGET
    }
}

/// Topping up never pushes the population near the player past the target
/// (so never past `MAX_POPULATION`), spawns at most `SPAWN_BUDGET` per
/// frame, and reaches the target whenever the shortfall fits the budget.
pub proof fn lemma_population_bounded(near: usize, creatures: usize)
    ensures
        0 <= spawn_count(near, creatures) <= SPAWN_BUDGET,
        near <= population_target(creatures) ==> near + spawn_count(near, creatures) <= population_target(
            creatures,
        ),
        population_target(creatures) <= MAX_POPULATION,
        near <= population_target(creatures) && population_target(creatures) - near <= SPAWN_BUDGET
            ==> near + spawn_count(near, creatures) == population_target(creatures),
        near >= population_target(creatures) ==> spawn_count(near, creatures) == 0,
{
}

/// Streaming never unloads a chunk it wants loaded: every chunk of the
/// square of radius `r` around the player's chunk is within the keep
/// margin, so [`chunks_to_unload`] leaves it.
pub proof fn lemma_no_thrash(c: (i32, i32), pcx: i32, pcz: i32, r: int)
    requires
        in_square(c, pcx, pcz, r),
    ensures
        in_square(c, pcx, pcz, r + KEEP_MARGIN),
{
}

/// The first solid voxel along a ray, given the voxels the ray steps
/// through in order, with the voxel it stepped through just before (the
/// open voxel a placed block goes into). `None` when the ray hits nothing.
pub fn pick_voxel(
    path: &Vec<(i32, i32, i32)>,
    edits: &ChunkEdits,
    heights: &HeightField,
) -> (r: Option<((i32, i32, i32), Option<(i32, i32, i32)>)>)
    requires
        edits.wf(),
        heights.wf(),
        forall|i: int| 0 <= i < path@.len() ==> heights.covers((#[trigger] path@[i]).0 as int, path@[i].2 as int),
    ensures
        match r {
            Some((v, prev)) => exists|i: int|
                0 <= i < path@.len() && #[trigger] path@[i] == v && solid_at(edits, heights, v)
                    && (forall|j: int| 0 <= j < i ==> !solid_at(edits, heights, #[trigger] path@[j]))
                    && prev == if i == 0 {
                    None
                } else {
                    Some(path@[i - 1])
                },
            None => forall|i: int| 0 <= i < path@.len() ==> !solid_at(edits, heights, #[trigger] path@[i]),
        },
{
    let n = path.len();
    let mut prev: Option<(i32, i32, i32)> = None;
    let mut i: usize = 0;
    while i < n
        invariant
            i <= n,
            n == path@.len(),
            edits.wf(),
            heights.wf(),
            forall|k: int| 0 <= k < path@.len() ==> heights.covers((#[trigger] path@[k]).0 as int, path@[k].2 as int),
            forall|j: int| 0 <= j < i ==> !solid_at(edits, heights, #[trigger] path@[j]),
            prev == if i == 0 {
                None
            } else {
                Some(path@[i - 1])
            },
        decreases n - i,
    {
        let v = path[i];
        let dup = match prev {
            Some(p) => p.0 == v.0 && p.1 == v.1 && p.2 == v.2,
            None => false,
        };
        if !dup {
            if solid_e(v.0, v.1, v.2, edits, heights) {
                return Some((v, prev));
            }
        } else {
            assert(v == path@[i - 1]);
        }
        prev = Some(v);
        i = i + 1;
    }
    None
}

/// Voxel `v` is solid under the edits and terrain heights.
pub open spec fn solid_at(edits: &ChunkEdits, heights: &HeightField, v: (i32, i32, i32)) -> bool {
    spec_solid(edits.edits(), *heights, v.0 as int, v.1 as int, v.2 as int)
}

/// The chunk grid covering columns `[-half, half)` with edge `chunk`:
/// chunk coordinates `lo ..= hi` on both axes.
pub fn chunk_range(half: i32, chunk: i32) -> (r: (i32, i32))
    requires
        half > i32::MIN,
        div_ok(-half as i32, chunk),
        div_ok((half - 1) as i32, chunk),
    ensures
        r.0 == spec_chunk_coord(-half as i32, chunk),
        r.1 == spec_chunk_coord((half - 1) as i32, chunk),
{
    (chunk_coord(-half, chunk), chunk_coord(half - 1, chunk))
}

/// The spawner tops up as far as the per-frame budget allows: below the
/// target `min(creatures, MAX_POPULATION)` it spawns the whole shortfall
/// when that fits in `SPAWN_BUDGET`, and exactly `SPAWN_BUDGET` otherwise;
/// at or above the target it spawns nothing.
pub proof fn lemma_spawn_tops_up(near: usize, creatures: usize)
    ensures
        ({
            let target: int = if creatures <= MAX_POPULATION {
                creatures as int
            } else {
                MAX_POPULATION as int
            };
            &&& near < target && target - near <= SPAWN_BUDGET ==> near + spawn_count(near, creatures)
                == target
            &&& near < target && target - near > SPAWN_BUDGET ==> spawn_count(near, creatures)
                == SPAWN_BUDGET
            &&& near >= target ==> spawn_count(near, creatures) == 0
        }),
{
}

/// The streaming square is centred on the player's chunk on both axes:
/// a chunk is loaded this frame exactly when it is within `r` chunks of
/// `(pcx, pcz)` on each axis and is dirty or neither loaded nor known
/// empty; a chunk is unloaded exactly when it is dirty, or loaded and more
/// than `r + KEEP_MARGIN` chunks away on some axis. In particular the
/// player's own chunk is never unloaded unless dirty.
pub proof fn lemma_stream_square(
    c: (i32, i32),
    pcx: i32,
    pcz: i32,
    r: int,
    loaded: Seq<(i32, i32)>,
    empty: Seq<(i32, i32)>,
    dirty: Seq<(i32, i32)>,
)
    ensures
        in_square(c, pcx, pcz, r) <==> (pcx - r <= c.0 <= pcx + r && pcz - r <= c.1 <= pcz + r),
        wants_load(c, pcx, pcz, r, loaded, empty, dirty) <==> (pcx - r <= c.0 <= pcx + r && pcz - r <= c.1
            <= pcz + r && (dirty.contains(c) || (!loaded.contains(c) && !empty.contains(c)))),
        unload_spec(pcx, pcz, r, loaded, dirty).contains(c) <==> (dirty.contains(c) || (loaded.contains(c)
            && (c.0 < pcx - r - KEEP_MARGIN || c.0 > pcx + r + KEEP_MARGIN || c.1 < pcz - r - KEEP_MARGIN
            || c.1 > pcz + r + KEEP_MARGIN))),
        loaded.filter(|x: (i32, i32)| !in_square(x, pcx, pcz, r + KEEP_MARGIN)).contains(c) <==> (
        loaded.contains(c) && (c.0 < pcx - r - KEEP_MARGIN || c.0 > pcx + r + KEEP_MARGIN || c.1 < pcz - r
            - KEEP_MARGIN || c.1 > pcz + r + KEEP_MARGIN)),
        r >= 0 && !dirty.contains((pcx, pcz)) ==> !unload_spec(pcx, pcz, r, loaded, dirty).contains(
            (pcx, pcz),
        ),
{
    let g = |x: (i32, i32)| !dirty.contains(x) && !in_square(x, pcx, pcz, r + KEEP_MARGIN);
    let h = |x: (i32, i32)| !in_square(x, pcx, pcz, r + KEEP_MARGIN);
    lemma_filter_contains(loaded, g, c);
    lemma_filter_contains(loaded, h, c);
    let u = unload_spec(pcx, pcz, r, loaded, dirty);
    assert(u == dirty + loaded.filter(g));
    if u.contains(c) {
        let i = choose|i: int| 0 <= i < u.len() && u[i] == c;
        if i < dirty.len() {
            assert(dirty[i] == c);
        } else {
            assert(loaded.filter(g)[i - dirty.len()] == c);
        }
    }
    if dirty.contains(c) {
        let i = choose|i: int| 0 <= i < dirty.len() && dirty[i] == c;
        assert(u[i] == c);
    }
    if loaded.filter(g).contains(c) {
        let i = choose|i: int| 0 <= i < loaded.filter(g).len() && loaded.filter(g)[i] == c;
        assert(u[dirty.len() + i] == c);
    }
    let p = (pcx, pcz);
    lemma_filter_contains(loaded, g, p);
    if u.contains(p) && !dirty.contains(p) {
        let i = choose|i: int| 0 <= i < u.len() && u[i] == p;
        if i < dirty.len() {
            assert(dirty[i] == p);
        } else {
            assert(loaded.filter(g)[i - dirty.len()] == p);
        }
    }
}

} // verus!
