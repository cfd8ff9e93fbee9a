use vstd::prelude::*;

verus! {

/// Chunk coordinate of a world column coordinate: floor division by the
/// chunk edge (Euclidean division, as `i32::div_euclid`).
pub open spec fn spec_chunk_coord(w: i32, chunk: i32) -> int {
    w as int / chunk as int
}

/// Whether `i32::div_euclid(w, chunk)` is defined (no division by zero, no
/// overflow).
pub open spec fn div_ok(w: i32, chunk: i32) -> bool {
    chunk != 0 && !(chunk == -1 && w == i32::MIN)
}

/// `w.div_euclid(chunk)`.
pub fn chunk_coord(w: i32, chunk: i32) -> (c: i32)
    requires
        div_ok(w, chunk),
    ensures
        c == spec_chunk_coord(w, chunk),
{
    proof {
        lemma_div_in_range(w as int, chunk as int);
    }
    match w.checked_div_euclid(chunk) {
        Some(c) => c,
        None => {
            assert(false);
            0
        },
    }
}

proof fn lemma_div_in_range(w: int, c: int)
    requires
        c != 0,
        !(c == -1 && w == i32::MIN),
        i32::MIN <= w <= i32::MAX,
    ensures
        i32::MIN <= w / c <= i32::MAX,
{
    let q = w / c;
    let r = w % c;
    assert(w == c * q + r && 0 <= r < (if c > 0 { c } else { -c })) by (nonlinear_arith)
        requires
            c != 0,
            q == w / c,
            r == w % c,
    ;
    if c > 0 {
        assert(i32::MIN <= q <= i32::MAX) by (nonlinear_arith)
            requires
                c > 0,
                w == c * q + r,
                0 <= r < c,
                i32::MIN <= w <= i32::MAX,
        ;
    } else {
        assert(i32::MIN <= q <= i32::MAX) by (nonlinear_arith)
            requires
                c < 0,
                !(c == -1 && w == i32::MIN),
                w == c * q + r,
                0 <= r < -c,
                i32::MIN <= w <= i32::MAX,
        ;
    }
}

/// Per-voxel edits layered over the noise terrain: `true` = a placed solid
/// block, `false` = a carved-out hole, keyed by world voxel coordinate;
/// plus the set of chunks changed since the last drain.
pub struct ChunkEdits {
    voxels: Vec<((i32, i32, i32), bool)>,
    dirty: Vec<(i32, i32)>,
    map: Ghost<Map<(i32, i32, i32), bool>>,
}

impl ChunkEdits {
    /// The edits as a map from voxel to solidity.
    pub closed spec fn edits(&self) -> Map<(i32, i32, i32), bool> {
        self.map@
    }

    /// The chunks marked for a rebuild.
    pub closed spec fn dirty_chunks(&self) -> Set<(i32, i32)> {
        self.dirty@.to_set()
    }

    /// Well-formedness: the stored edit list holds each voxel once and
    /// agrees with the edit map; no dirty chunk is listed twice.
    pub closed spec fn wf(&self) -> bool {
        &&& forall|i: int, j: int|
            0 <= i < j < self.voxels@.len() ==> #[trigger] self.voxels@[i].0
                != #[trigger] self.voxels@[j].0
        &&& forall|i: int|
            0 <= i < self.voxels@.len() ==> self.map@.contains_key(#[trigger] self.voxels@[i].0)
                && self.map@[self.voxels@[i].0] == self.voxels@[i].1
        &&& forall|k: (i32, i32, i32)|
            #[trigger] self.map@.contains_key(k) ==> exists|i: int|
                0 <= i < self.voxels@.len() && #[trigger] self.voxels@[i].0 == k
        &&& self.dirty@.no_duplicates()
    }

    proof fn lemma_wf_frame(a: Self, b: Self)
        requires
            a.wf(),
            a.voxels@ == b.voxels@,
            a.map@ == b.map@,
            b.dirty@.no_duplicates(),
        ensures
            b.wf(),
    {
        assert forall|k: (i32, i32, i32)| #[trigger] b.map@.contains_key(k) implies exists|i: int|
            0 <= i < b.voxels@.len() && #[trigger] b.voxels@[i].0 == k by {
            let i = choose|i: int| 0 <= i < a.voxels@.len() && #[trigger] a.voxels@[i].0 == k;
            assert(b.voxels@[i].0 == k);
        }
    }

    /// No edits, nothing dirty.
    pub fn new() -> (e: Self)
        ensures
            e.wf(),
            e.edits() == Map::<(i32, i32, i32), bool>::empty(),
            e.dirty_chunks() == Set::<(i32, i32)>::empty(),
    {
        let e = ChunkEdits { voxels: Vec::new(), dirty: Vec::new(), map: Ghost(Map::empty()) };
        proof {
            assert(e.dirty@.to_set() =~= Set::<(i32, i32)>::empty());
        }
        e
    }

    /// Index of the stored edit of a voxel, if any.
    fn find(&self, key: (i32, i32, i32)) -> (r: Option<usize>)
        requires
            self.wf(),
        ensures
            match r {
                Some(i) => i < self.voxels@.len() && self.voxels@[i as int].0 == key,
                None => !self.edits().contains_key(key),
            },
    {
        let n = self.voxels.len();
        let mut i: usize = 0;
        while i < n
            invariant
                n == self.voxels@.len(),
                i <= n,
                self.wf(),
                forall|j: int| 0 <= j < i ==> self.voxels@[j].0 != key,
            decreases n - i,
        {
            let k = self.voxels[i].0;
            if k.0 == key.0 && k.1 == key.1 && k.2 == key.2 {
                return Some(i);
            }
            i = i + 1;
        }
        None
    }

    /// The edit of voxel `(wx, wy, wz)`, if there is one.
    pub fn get(&self, wx: i32, wy: i32, wz: i32) -> (r: Option<bool>)
        requires
            self.wf(),
        ensures
            r == (if self.edits().contains_key((wx, wy, wz)) {
                Some(self.edits()[(wx, wy, wz)])
            } else {
                None
            }),
    {
        match self.find((wx, wy, wz)) {
            Some(i) => Some(self.voxels[i].1),
            None => None,
        }
    }

    /// Record the edit of one voxel, replacing an earlier one.
    fn put(&mut self, key: (i32, i32, i32), is_solid: bool)
        requires
            old(self).wf(),
        ensures
            final(self).wf(),
            final(self).edits() == old(self).edits().insert(key, is_solid),
            final(self).dirty == old(self).dirty,
    {
        match self.find(key) {
            Some(i) => {
                let ghost old_v = self.voxels@;
                self.voxels.set(i, (key, is_solid));
                self.map = Ghost(self.map@.insert(key, is_solid));
                proof {
                    assert forall|k: (i32, i32, i32)| #[trigger]
                        self.map@.contains_key(k) implies exists|j: int|
                        0 <= j < self.voxels@.len() && #[trigger] self.voxels@[j].0 == k by {
                        if k != key {
                            let j = choose|j: int| 0 <= j < old_v.len() && old_v[j].0 == k;
                            assert(self.voxels@[j].0 == k);
                        } else {
                            assert(self.voxels@[i as int].0 == k);
                        }
                    }
                }
            },
            None => {
                let ghost old_v = self.voxels@;
                self.voxels.push((key, is_solid));
                self.map = Ghost(self.map@.insert(key, is_solid));
                proof {
                    assert forall|k: (i32, i32, i32)| #[trigger]
                        self.map@.contains_key(k) implies exists|j: int|
                        0 <= j < self.voxels@.len() && #[trigger] self.voxels@[j].0 == k by {
                        if k != key {
                            let j = choose|j: int| 0 <= j < old_v.len() && old_v[j].0 == k;
                            assert(self.voxels@[j].0 == k);
                        } else {
                            assert(self.voxels@[old_v.len() as int].0 == k);
                        }
                    }
                }
            },
        }
    }

    /// Mark a chunk dirty.
    fn mark_dirty(&mut self, c: (i32, i32))
        requires
            old(self).wf(),
        ensures
            final(self).wf(),
            final(self).edits() == old(self).edits(),
            final(self).dirty_chunks() == old(self).dirty_chunks().insert(c),
    {
        let n = self.dirty.len();
        let mut i: usize = 0;
        while i < n
            invariant
                n == self.dirty@.len(),
                i <= n,
                self.wf(),
                forall|j: int| 0 <= j < i ==> self.dirty@[j] != c,
            decreases n - i,
        {
            let d = self.dirty[i];
            if d.0 == c.0 && d.1 == c.1 {
                proof {
                    assert(self.dirty@[i as int] == c);
                    assert(self.dirty@.to_set().insert(c) =~= self.dirty@.to_set());
                }
                return;
            }
            i = i + 1;
        }
        let ghost old_d = self.dirty@;
        self.dirty.push(c);
        proof {
            assert(self.dirty@ == old_d.push(c));
            assert(self.dirty@.to_set() =~= old_d.to_set().insert(c)) by {
                assert forall|x: (i32, i32)| self.dirty@.to_set().contains(x) implies old_d.to_set().insert(c).contains(x) by {
                    let j = choose|j: int| 0 <= j < self.dirty@.len() && self.dirty@[j] == x;
                    if j < old_d.len() {
                        assert(old_d[j] == x);
                    }
                }
                assert forall|x: (i32, i32)| old_d.to_set().insert(c).contains(x) implies self.dirty@.to_set().contains(x) by {
                    if x == c {
                        assert(self.dirty@[old_d.len() as int] == c);
                    } else {
                        let j = choose|j: int| 0 <= j < old_d.len() && old_d[j] == x;
                        assert(self.dirty@[j] == x);
                    }
                }
            }
            assert forall|a: int, b: int| 0 <= a < self.dirty@.len() && 0 <= b < self.dirty@.len() && a != b implies self.dirty@[a] != self.dirty@[b] by {
                if a < old_d.len() && b < old_d.len() {
                    assert(old_d[a] != old_d[b]);
                } else if a < old_d.len() {
                    assert(old_d[a] != c);
                } else {
                    assert(old_d[b] != c);
                }
            }
            assert(self.dirty@.no_duplicates());
            Self::lemma_wf_frame(*old(self), *self);
        }
    }

    /// Override a voxel's solidity and mark its chunk dirty for a rebuild.
    pub fn set(&mut self, wx: i32, wy: i32, wz: i32, is_solid: bool, chunk: i32)
        requires
            old(self).wf(),
            div_ok(wx, chunk),
            div_ok(wz, chunk),
        ensures
            final(self).wf(),
            final(self).edits() == old(self).edits().insert((wx, wy, wz), is_solid),
            final(self).dirty_chunks() == old(self).dirty_chunks().insert(
                (spec_chunk_coord(wx, chunk) as i32, spec_chunk_coord(wz, chunk) as i32),
            ),
    {
        self.put((wx, wy, wz), is_solid);
        let cx = chunk_coord(wx, chunk);
        let cz = chunk_coord(wz, chunk);
        self.mark_dirty((cx, cz));
    }

    /// Drain the set of chunks that changed since the last call.
    pub fn take_dirty(&mut self) -> (out: Vec<(i32, i32)>)
        requires
            old(self).wf(),
        ensures
            final(self).wf(),
            final(self).edits() == old(self).edits(),
            final(self).dirty_chunks() == Set::<(i32, i32)>::empty(),
            out@.no_duplicates(),
            out@.to_set() == old(self).dirty_chunks(),
    {
        let mut out: Vec<(i32, i32)> = Vec::new();
        std::mem::swap(&mut out, &mut self.dirty);
        proof {
            assert(self.dirty@.to_set() =~= Set::<(i32, i32)>::empty());
            Self::lemma_wf_frame(*old(self), *self);
        }
        out
    }

    /// Snapshot every edit as `((x, y, z), is_solid)`, each voxel once.
    pub fn entries(&self) -> (out: Vec<((i32, i32, i32), bool)>)
        requires
            self.wf(),
        ensures
            is_snapshot(out@, self.edits()),
            forall|i: int, j: int|
                0 <= i < j < out@.len() ==> #[trigger] out@[i].0 != #[trigger] out@[j].0,
            forall|i: int|
                0 <= i < out@.len() ==> self.edits().contains_key(#[trigger] out@[i].0)
                    && self.edits()[out@[i].0] == out@[i].1,
            forall|k: (i32, i32, i32)|
                #[trigger] self.edits().contains_key(k) ==> exists|i: int|
                    0 <= i < out@.len() && #[trigger] out@[i].0 == k,
            out@.len() == self.edits().dom().len(),
    {
        proof {
            self.lemma_len();
        }
        let n = self.voxels.len();
        let mut out: Vec<((i32, i32, i32), bool)> = Vec::new();
        let mut i: usize = 0;
        while i < n
            invariant
                n == self.voxels@.len(),
                i <= n,
                out@ == self.voxels@.subrange(0, i as int),
            decreases n - i,
        {
            out.push(self.voxels[i]);
            i = i + 1;
            assert(out@ =~= self.voxels@.subrange(0, i as int));
        }
        assert(out@ =~= self.voxels@);
        out
    }

    /// The stored list is as long as the edit map is large.
    proof fn lemma_len(&self)
        requires
            self.wf(),
        ensures
            self.voxels@.len() == self.edits().dom().len(),
            self.edits().dom().finite(),
    {
        let keys = self.voxels@.map_values(|p: ((i32, i32, i32), bool)| p.0);
        assert(keys.no_duplicates()) by {
            assert forall|i: int, j: int| 0 <= i < keys.len() && 0 <= j < keys.len() && i != j implies keys[i] != keys[j] by {
                if i < j {
                    assert(self.voxels@[i].0 != self.voxels@[j].0);
                } else {
                    assert(self.voxels@[j].0 != self.voxels@[i].0);
                }
            }
        }
        assert(keys.to_set() =~= self.map@.dom()) by {
            assert forall|k: (i32, i32, i32)| keys.to_set().contains(k) implies self.map@.dom().contains(k) by {
                let i = choose|i: int| 0 <= i < keys.len() && keys[i] == k;
                assert(self.voxels@[i].0 == k);
            }
            assert forall|k: (i32, i32, i32)| self.map@.dom().contains(k) implies keys.to_set().contains(k) by {
                assert(self.map@.contains_key(k));
                let i = choose|i: int| 0 <= i < self.voxels@.len() && #[trigger] self.voxels@[i].0 == k;
                assert(keys[i] == k);
            }
        }
        keys.unique_seq_to_set();
    }

    /// Apply a loaded edit without marking the chunk dirty (the chunk is
    /// built with the edit from the start, so no rebuild is needed).
    pub fn insert_loaded(&mut self, wx: i32, wy: i32, wz: i32, is_solid: bool)
        requires
            old(self).wf(),
        ensures
            final(self).wf(),
            final(self).edits() == old(self).edits().insert((wx, wy, wz), is_solid),
            final(self).dirty_chunks() == old(self).dirty_chunks(),
    {
        self.put((wx, wy, wz), is_solid);
    }
}

/// The edit map after recording `list` in order (later entries win).
pub open spec fn map_after(
    m: Map<(i32, i32, i32), bool>,
    list: Seq<((i32, i32, i32), bool)>,
) -> Map<(i32, i32, i32), bool>
    decreases list.len(),
{
    if list.len() == 0 {
        m
    } else {
        map_after(m, list.drop_last()).insert(list.last().0, list.last().1)
    }
}

/// `s` lists every edit of `m` exactly once (what [`ChunkEdits::entries`]
/// returns).
pub open spec fn is_snapshot(s: Seq<((i32, i32, i32), bool)>, m: Map<(i32, i32, i32), bool>) -> bool {
    &&& forall|i: int, j: int| 0 <= i < j < s.len() ==> #[trigger] s[i].0 != #[trigger] s[j].0
    &&& forall|i: int| 0 <= i < s.len() ==> m.contains_key(#[trigger] s[i].0) && m[s[i].0] == s[i].1
    &&& forall|k: (i32, i32, i32)| #[trigger] m.contains_key(k) ==> exists|i: int| 0 <= i < s.len() && #[trigger] s[i].0 == k
}

proof fn lemma_map_after_keys(s: Seq<((i32, i32, i32), bool)>)
    requires
        forall|i: int, j: int| 0 <= i < j < s.len() ==> #[trigger] s[i].0 != #[trigger] s[j].0,
    ensures
        forall|k: (i32, i32, i32)|
            #[trigger] map_after(Map::empty(), s).contains_key(k) <==> exists|i: int|
                0 <= i < s.len() && #[trigger] s[i].0 == k,
        forall|i: int|
            0 <= i < s.len() ==> #[trigger] map_after(Map::empty(), s)[s[i].0] == s[i].1,
    decreases s.len(),
{
    if s.len() > 0 {
        let s1 = s.drop_last();
        assert forall|i: int, j: int| 0 <= i < j < s1.len() implies #[trigger] s1[i].0 != #[trigger] s1[j].0 by {
            assert(s1[i] == s[i] && s1[j] == s[j]);
        }
        lemma_map_after_keys(s1);
        let m = map_after(Map::empty(), s);
        let last = s.last();
        assert forall|k: (i32, i32, i32)| #[trigger] m.contains_key(k) <==> exists|i: int|
            0 <= i < s.len() && #[trigger] s[i].0 == k by {
            assert(m == map_after(Map::empty(), s1).insert(last.0, last.1));
            if m.contains_key(k) && k != last.0 {
                assert(map_after(Map::empty(), s1).contains_key(k));
                let i = choose|i: int| 0 <= i < s1.len() && #[trigger] s1[i].0 == k;
                assert(s[i].0 == k);
            }
            if k == last.0 {
                assert(s[s.len() - 1].0 == k);
            }
            if exists|i: int| 0 <= i < s.len() && #[trigger] s[i].0 == k {
                let i = choose|i: int| 0 <= i < s.len() && #[trigger] s[i].0 == k;
                if i < s1.len() {
                    assert(s1[i].0 == k);
                    assert(map_after(Map::empty(), s1).contains_key(k));
                }
            }
        }
        assert forall|i: int| 0 <= i < s.len() implies #[trigger] m[s[i].0] == s[i].1 by {
            if i < s1.len() {
                assert(s1[i] == s[i]);
                assert(s[i].0 != s[s.len() - 1].0);
            }
        }
    }
}

/// Re-recording a snapshot of the edits into an empty edit map rebuilds
/// exactly those edits.
pub proof fn lemma_snapshot_restores(s: Seq<((i32, i32, i32), bool)>, m: Map<(i32, i32, i32), bool>)
    requires
        is_snapshot(s, m),
    ensures
        map_after(Map::empty(), s) == m,
{
    lemma_map_after_keys(s);
    let r = map_after(Map::empty(), s);
    assert forall|k: (i32, i32, i32)| r.contains_key(k) <==> m.contains_key(k) by {
        if r.contains_key(k) {
            let i = choose|i: int| 0 <= i < s.len() && #[trigger] s[i].0 == k;
            assert(m.contains_key(s[i].0));
        }
        if m.contains_key(k) {
            let i = choose|i: int| 0 <= i < s.len() && #[trigger] s[i].0 == k;
            assert(r.contains_key(s[i].0));
        }
    }
    assert forall|k: (i32, i32, i32)| r.contains_key(k) implies r[k] == m[k] by {
        let i = choose|i: int| 0 <= i < s.len() && #[trigger] s[i].0 == k;
        assert(r[s[i].0] == s[i].1);
        assert(m[s[i].0] == s[i].1);
    }
    assert(r =~= m);
}

impl ChunkEdits {
    /// Record loaded edits in order (see [`ChunkEdits::insert_loaded`]);
    /// no chunk is marked dirty.
    pub fn apply_loaded(&mut self, list: &Vec<((i32, i32, i32), bool)>)
        requires
            old(self).wf(),
        ensures
            final(self).wf(),
            final(self).edits() == map_after(old(self).edits(), list@),
            final(self).dirty_chunks() == old(self).dirty_chunks(),
    {
        let n = list.len();
        let mut i: usize = 0;
        while i < n
            invariant
                i <= n,
                n == list@.len(),
                self.wf(),
                self.edits() == map_after(old(self).edits(), list@.take(i as int)),
                self.dirty_chunks() == old(self).dirty_chunks(),
            decreases n - i,
        {
            let ((x, y, z), solid) = list[i];
            self.insert_loaded(x, y, z, solid);
            proof {
                assert(list@.take(i + 1).drop_last() =~= list@.take(i as int));
                assert(list@.take(i + 1).last() == list@[i as int]);
            }
            i = i + 1;
        }
        assert(list@.take(n as int) =~= list@);
    }
}

impl Default for ChunkEdits {
    fn default() -> (e: Self)
        ensures
            e.wf(),
            e.edits() == Map::<(i32, i32, i32), bool>::empty(),
            e.dirty_chunks() == Set::<(i32, i32)>::empty(),
    {
        ChunkEdits::new()
    }
}

} // verus!
