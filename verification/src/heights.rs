use vstd::prelude::*;
use crate::edits::ChunkEdits;
use crate::greedy::{idx, lemma_idx};

verus! {

/// Surface heights of a rectangle of world columns `[x0, x0 + nx) x
/// [z0, z0 + nz)`, stored x-major. The heights come from the terrain noise,
/// which is computed outside this crate.
pub struct HeightField {
    pub x0: i32,
    pub z0: i32,
    pub nx: usize,
    pub nz: usize,
    pub heights: Vec<i32>,
}

impl HeightField {
    pub open spec fn wf(&self) -> bool {
        &&& self.heights@.len() == self.nx * self.nz
        &&& self.nx * self.nz <= usize::MAX
        &&& self.x0 + self.nx <= i32::MAX + 1
        &&& self.z0 + self.nz <= i32::MAX + 1
    }

    /// Column `(wx, wz)` lies in the field.
    pub open spec fn covers(&self, wx: int, wz: int) -> bool {
        self.x0 <= wx < self.x0 + self.nx && self.z0 <= wz < self.z0 + self.nz
    }

    /// Surface height of column `(wx, wz)`.
    pub open spec fn height(&self, wx: int, wz: int) -> i32 {
        self.heights@[idx(self.nz as int, wx - self.x0, wz - self.z0)]
    }

    /// Surface height of column `(wx, wz)`.
    pub fn height_at(&self, wx: i32, wz: i32) -> (h: i32)
        requires
            self.wf(),
            self.covers(wx as int, wz as int),
        ensures
            h == self.height(wx as int, wz as int),
    {
        proof {
            lemma_idx(self.nx as int, self.nz as int, wx - self.x0, wz - self.z0);
        }
        let a = (wx as i64 - self.x0 as i64) as usize;
        let b = (wz as i64 - self.z0 as i64) as usize;
        assert(a == wx - self.x0 && b == wz - self.z0);
        self.heights[a * self.nz + b]
    }
}

/// Whether voxel `(wx, y, wz)` is solid: an edit decides if there is one,
/// otherwise the voxel is solid from `y = 0` up to the column's surface.
pub open spec fn spec_solid(
    e: Map<(i32, i32, i32), bool>,
    hf: HeightField,
    wx: int,
    y: int,
    wz: int,
) -> bool {
    let k = (wx as i32, y as i32, wz as i32);
    if e.contains_key(k) {
        e[k]
    } else {
        0 <= y && y <= hf.height(wx, wz)
    }
}

/// Whether voxel `(wx, y, wz)` is solid (edits first, then terrain).
pub fn solid_e(wx: i32, y: i32, wz: i32, edits: &ChunkEdits, hf: &HeightField) -> (s: bool)
    requires
        edits.wf(),
        hf.wf(),
        hf.covers(wx as int, wz as int),
    ensures
        s == spec_solid(edits.edits(), *hf, wx as int, y as int, wz as int),
{
    match edits.get(wx, y, wz) {
        Some(s) => s,
        None => y >= 0 && y <= hf.height_at(wx, wz),
    }
}

} // verus!
