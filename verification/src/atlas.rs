use vstd::prelude::*;
use crate::config::{ATLAS_TILE, ATLAS_TILES};
use crate::noise::{hash2, spec_hash2};

verus! {

/// Width of the atlas strip in pixels (tiles side by side).
pub open spec fn atlas_width() -> int {
    ATLAS_TILES as int * ATLAS_TILE as int
}

/// Index of pixel `(x, y)` of tile `tile` in the tile-major grey list.
pub open spec fn grey_index(tile: int, x: int, y: int) -> int {
    (tile * ATLAS_TILE as int + y) * ATLAS_TILE as int + x
}

/// First byte of pixel `(x, y)` of tile `tile` in the RGBA strip.
pub open spec fn pixel_index(tile: int, y: int, x: int) -> int {
    (y * atlas_width() + tile * ATLAS_TILE as int + x) * 4
}

/// Byte `i` of the RGBA atlas strip built from per-tile grey levels: pixel
/// `i / 4` lies in row `y`, tile `tile`, column `x` of that tile; its
/// three colour channels carry the grey level and alpha is opaque.
pub open spec fn atlas_byte(greys: Seq<u8>, i: int) -> u8 {
    let p = i / 4;
    let c = i % 4;
    let y = p / atlas_width();
    let col = p % atlas_width();
    let tile = col / ATLAS_TILE as int;
    let x = col % ATLAS_TILE as int;
    if c == 3 {
        255
    } else {
        greys[grey_index(tile, x, y)]
    }
}

/// The detail-noise hash of pixel `(x, y)` of atlas tile `tile`.
pub fn atlas_cell_hash(tile: usize, x: usize, y: usize) -> (h: u32)
    requires
        tile < ATLAS_TILES,
        x < ATLAS_TILE,
        y < ATLAS_TILE,
    ensures
        h == spec_hash2((tile * 131 + x) as i32, y as i32, 0x51ED),
{
    hash2((tile * 131 + x) as i32, y as i32, 0x51ED)
}

/// Whether pixel `(x, y)` lies on its tile's border (drawn darker).
pub fn atlas_is_edge(x: usize, y: usize) -> (e: bool)
    ensures
        e == (x == 0 || y == 0 || x == ATLAS_TILE - 1 || y == ATLAS_TILE - 1),
{
    x == 0 || y == 0 || x == ATLAS_TILE - 1 || y == ATLAS_TILE - 1
}

/// Lay out the block-detail atlas (RGBA8): `ATLAS_TILES` tiles of
/// `ATLAS_TILE` x `ATLAS_TILE` pixels in a horizontal strip, each pixel
/// grey (`greys`, tile-major, then row, then column) with opaque alpha.
/// Returns the pixels, the width and the height.
pub fn atlas_rgba(greys: &Vec<u8>) -> (r: (Vec<u8>, u32, u32))
    requires
        greys@.len() == ATLAS_TILES * ATLAS_TILE * ATLAS_TILE,
    ensures
        r.1 == ATLAS_TILES * ATLAS_TILE,
        r.2 == ATLAS_TILE,
        r.0@.len() == r.1 * r.2 * 4,
        r.0@ == Seq::new((r.1 * r.2 * 4) as nat, |i: int| atlas_byte(greys@, i)),
        forall|tile: int, y: int, x: int|
            #![trigger pixel_index(tile, y, x)]
            0 <= tile < ATLAS_TILES && 0 <= y < ATLAS_TILE && 0 <= x < ATLAS_TILE ==> {
                &&& r.0@[pixel_index(tile, y, x)] == greys@[grey_index(tile, x, y)]
                &&& r.0@[pixel_index(tile, y, x) + 1] == greys@[grey_index(tile, x, y)]
                &&& r.0@[pixel_index(tile, y, x) + 2] == greys@[grey_index(tile, x, y)]
                &&& r.0@[pixel_index(tile, y, x) + 3] == 255
            },
{
    let ts = ATLAS_TILE;
    let w = ts * ATLAS_TILES;
    let h = ts;
    let ghost target = Seq::new((w * h * 4) as nat, |i: int| atlas_byte(greys@, i));
    let mut px: Vec<u8> = Vec::new();
    let mut y: usize = 0;
    while y < h
        invariant
            y <= h,
            w == 96,
            h == 16,
            ts == 16,
            greys@.len() == 1536,
            target == Seq::new((w * h * 4) as nat, |i: int| atlas_byte(greys@, i)),
            px@.len() == y * w * 4,
            forall|i: int| 0 <= i < px@.len() ==> px@[i] == target[i],
        decreases h - y,
    {
        let mut tile: usize = 0;
        while tile < ATLAS_TILES
            invariant
                y < h,
                tile <= 6,
                w == 96,
                h == 16,
                ts == 16,
                greys@.len() == 1536,
                target == Seq::new((w * h * 4) as nat, |i: int| atlas_byte(greys@, i)),
                px@.len() == (y * w + tile * ts) * 4,
                forall|i: int| 0 <= i < px@.len() ==> px@[i] == target[i],
            decreases 6 - tile,
        {
            let mut x: usize = 0;
            while x < ts
                invariant
                    y < h,
                    tile < 6,
                    x <= ts,
                    w == 96,
                    h == 16,
                    ts == 16,
                    greys@.len() == 1536,
                    target == Seq::new((w * h * 4) as nat, |i: int| atlas_byte(greys@, i)),
                    px@.len() == (y * w + tile * ts + x) * 4,
                    forall|i: int| 0 <= i < px@.len() ==> px@[i] == target[i],
                decreases ts - x,
            {
                let g = greys[(tile * ts + y) * ts + x];
                let ghost base = px@.len() as int;
                proof {
                    let p = y * 96 + tile * 16 + x;
                    assert(base == p * 4);
                    assert(base / 4 == p && base % 4 == 0);
                    assert((base + 1) / 4 == p && (base + 1) % 4 == 1);
                    assert((base + 2) / 4 == p && (base + 2) % 4 == 2);
                    assert((base + 3) / 4 == p && (base + 3) % 4 == 3);
                    assert(p / 96 == y && p % 96 == tile * 16 + x);
                    assert((tile * 16 + x) / 16 == tile && (tile * 16 + x) % 16 == x);
                }
                px.push(g);
                px.push(g);
                px.push(g);
                px.push(255);
                x = x + 1;
            }
            tile = tile + 1;
        }
        y = y + 1;
    }
    proof {
        assert(px@ =~= target);
        assert forall|tile: int, y: int, x: int|
            #![trigger pixel_index(tile, y, x)]
            0 <= tile < ATLAS_TILES && 0 <= y < ATLAS_TILE && 0 <= x < ATLAS_TILE implies {
                &&& px@[pixel_index(tile, y, x)] == greys@[grey_index(tile, x, y)]
                &&& px@[pixel_index(tile, y, x) + 1] == greys@[grey_index(tile, x, y)]
                &&& px@[pixel_index(tile, y, x) + 2] == greys@[grey_index(tile, x, y)]
                &&& px@[pixel_index(tile, y, x) + 3] == 255
            } by {
            let p = y * 96 + tile * 16 + x;
            let i = p * 4;
            assert(i / 4 == p && i % 4 == 0);
            assert((i + 1) / 4 == p && (i + 1) % 4 == 1);
            assert((i + 2) / 4 == p && (i + 2) % 4 == 2);
            assert((i + 3) / 4 == p && (i + 3) % 4 == 3);
            vstd::arithmetic::div_mod::lemma_fundamental_div_mod_converse(p, 96, y, tile * 16 + x);
            vstd::arithmetic::div_mod::lemma_fundamental_div_mod_converse(tile * 16 + x, 16, tile, x);
        }
    }
    (px, w as u32, h as u32)
}

} // verus!
