//! Chunk meshing, editing and persistence scenarios, driven with the same
//! fBm surface heights the game computes.

use sausage_playground::assemble::{ChunkMesh, NUM_SLOTS};
use sausage_playground::chunk::{build_chunk_mesh, build_chunk_mesh_with};
use sausage_playground::config::VoxelConfig;
use sausage_playground::edits::ChunkEdits;
use sausage_playground::heights::HeightField;
use sausage_playground::noise::hash2;
use sausage_playground::save::{parse_save, render_save};

fn rand01(x: i32, z: i32, seed: u32) -> f64 {
    (hash2(x, z, seed) as f64) / (u32::MAX as f64)
}

fn smooth(t: f64) -> f64 {
    t * t * (3.0 - 2.0 * t)
}

fn value_noise(x: f64, z: f64, seed: u32) -> f64 {
    let x0 = x.floor() as i32;
    let z0 = z.floor() as i32;
    let fx = smooth(x - x0 as f64);
    let fz = smooth(z - z0 as f64);
    let v00 = rand01(x0, z0, seed);
    let v10 = rand01(x0 + 1, z0, seed);
    let v01 = rand01(x0, z0 + 1, seed);
    let v11 = rand01(x0 + 1, z0 + 1, seed);
    let a = v00 + (v10 - v00) * fx;
    let b = v01 + (v11 - v01) * fx;
    a + (b - a) * fz
}

/// The fBm surface height of a world column, in `1..=max_h`.
fn height_at(wx: i32, wz: i32, seed: u32, max_h: i32) -> i32 {
    let mut freq = 1.0 / 18.0;
    let mut amp = 1.0;
    let mut sum = 0.0;
    let mut norm = 0.0;
    for _ in 0..4 {
        sum += amp * value_noise(wx as f64 * freq, wz as f64 * freq, seed);
        norm += amp;
        freq *= 2.0;
        amp *= 0.5;
    }
    let h01: f64 = (sum / norm).clamp(0.0, 1.0);
    (1.0 + h01.powf(1.15) * max_h as f64).round() as i32
}

/// Surface heights of chunk `(cx, cz)`'s columns and a one-column border.
fn chunk_heights(cx: i32, cz: i32, cfg: &VoxelConfig) -> HeightField {
    let x0 = cx * cfg.chunk - 1;
    let z0 = cz * cfg.chunk - 1;
    let n = (cfg.chunk + 2) as usize;
    let mut heights = Vec::with_capacity(n * n);
    for a in 0..n {
        for b in 0..n {
            heights.push(height_at(x0 + a as i32, z0 + b as i32, cfg.seed, cfg.max_height));
        }
    }
    HeightField { x0, z0, nx: n, nz: n, heights }
}

fn mesh_of(cx: i32, cz: i32, cfg: &VoxelConfig) -> Option<ChunkMesh> {
    let hf = chunk_heights(cx, cz, cfg);
    build_chunk_mesh(cx, cz, cfg, &hf)
}

fn mesh_with(cx: i32, cz: i32, cfg: &VoxelConfig, edits: &ChunkEdits) -> Option<ChunkMesh> {
    let hf = chunk_heights(cx, cz, cfg);
    build_chunk_mesh_with(cx, cz, cfg, edits, &hf)
}

#[test]
fn chunk_mesh_is_surface_only() {
    let cfg = VoxelConfig::default();
    let mesh = mesh_of(0, 0, &cfg).expect("chunk (0,0) should be non-empty");

    assert!(!mesh.vertices.is_empty(), "chunk has geometry");
    assert_eq!(mesh.indices.len() % 3, 0, "indices form triangles");
    assert!(!mesh.submeshes.is_empty(), "at least one material submesh");
    // One material per submesh: every submesh has its own material slot.
    for w in mesh.submeshes.windows(2) {
        assert!(w[0].slot < w[1].slot, "one embedded material per submesh");
    }
    assert!(mesh.submeshes.iter().all(|s| s.slot < NUM_SLOTS));
    // Submesh ranges tile the whole index buffer exactly.
    let covered: u32 = mesh.submeshes.iter().map(|s| s.index_count).sum();
    assert_eq!(covered as usize, mesh.indices.len());

    // Face culling really culls: far fewer tris than a naive solid fill
    // (chunk^2 columns * ~8 blocks tall * 12 tris/cube).
    let tris = mesh.indices.len() / 3;
    let naive = (cfg.chunk * cfg.chunk) as usize * 8 * 12;
    assert!(tris < naive / 2, "expected surface culling: {tris} tris vs naive {naive}");
}

#[test]
fn editing_carves_a_hole_in_a_chunk() {
    let cfg = VoxelConfig::default();
    let before = mesh_of(0, 0, &cfg).expect("chunk (0,0)");
    let mut edits = ChunkEdits::default();
    for x in 1..=3 {
        for z in 1..=3 {
            for y in 0..=8 {
                edits.set(x, y, z, false, cfg.chunk);
            }
        }
    }
    let after = mesh_with(0, 0, &cfg, &edits).expect("edited chunk");
    assert_ne!(
        before.indices.len(),
        after.indices.len(),
        "carving voxels should re-mesh the chunk differently"
    );
    let dirty = edits.take_dirty();
    assert!(dirty.contains(&(0, 0)), "edited chunk (0,0) should be dirty");
}

#[test]
fn greedy_meshing_cuts_triangles() {
    let cfg = VoxelConfig::default();
    let mesh = mesh_of(0, 0, &cfg).expect("chunk");
    let tris = mesh.indices.len() / 3;
    let per_voxel_budget = (cfg.chunk * cfg.chunk) as usize * 6;
    assert!(tris > 0, "chunk has geometry");
    assert!(
        tris < per_voxel_budget,
        "greedy meshing should cut triangles: {tris} tris (budget {per_voxel_budget})"
    );
    let covered: u32 = mesh.submeshes.iter().map(|s| s.index_count).sum();
    assert_eq!(covered as usize, mesh.indices.len());
    for t in mesh.indices.chunks_exact(3) {
        assert!(t[0] != t[1] && t[1] != t[2] && t[0] != t[2]);
    }
}

fn chars(s: &str) -> Vec<char> {
    s.chars().collect()
}

#[test]
fn world_persistence_round_trips() {
    let cfg = VoxelConfig::default();

    let mut edits = ChunkEdits::default();
    edits.set(2, 5, 3, false, cfg.chunk);
    edits.set(2, 6, 3, false, cfg.chunk);
    edits.set(10, 20, 10, true, cfg.chunk);

    let player = [12.5f64, 40.0, -7.25];
    let (yaw, pitch) = (1.2f64, -0.3f64);
    let pose: Vec<Vec<char>> = [player[0], player[1], player[2], yaw, pitch]
        .iter()
        .map(|v| chars(&format!("{}", v)))
        .collect();
    let saved_edits = edits.entries();
    let text = render_save(cfg.seed, &pose, &saved_edits);
    let loaded = parse_save(&text);

    assert_eq!(loaded.seed, cfg.seed);
    let words = loaded.pose.expect("player line");
    let nums: Vec<f64> = words
        .iter()
        .map(|w| w.iter().collect::<String>().parse::<f64>().unwrap())
        .collect();
    assert_eq!([nums[0], nums[1], nums[2]], player);
    assert!((nums[3] - yaw).abs() < 1e-9);
    assert!((nums[4] - pitch).abs() < 1e-9);
    assert_eq!(loaded.edits.len(), 3);

    let base = mesh_of(0, 0, &cfg).expect("base chunk");
    let mut restored = ChunkEdits::default();
    for ((x, y, z), s) in &loaded.edits {
        restored.insert_loaded(*x, *y, *z, *s);
    }
    let after = mesh_with(0, 0, &cfg, &restored).expect("restored chunk");
    assert_ne!(
        base.indices.len(),
        after.indices.len(),
        "restored edits should change the chunk mesh"
    );
}

#[test]
fn border_edit_changes_the_neighbour_chunk_too() {
    // Carving the first column of chunk (1,0) exposes the wall of chunk
    // (0,0) next to it, although only chunk (1,0) is marked dirty.
    let cfg = VoxelConfig::default();
    let left = mesh_of(0, 0, &cfg).expect("chunk (0,0)");
    let mut edits = ChunkEdits::default();
    for y in 0..=20 {
        edits.set(16, y, 5, false, cfg.chunk);
    }
    let left_after = mesh_with(0, 0, &cfg, &edits).expect("chunk (0,0)");
    assert_ne!(left.indices.len(), left_after.indices.len(), "the wall next to the hole is now exposed");
    assert_eq!(edits.take_dirty(), vec![(1, 0)]);
}

#[test]
fn interior_edit_leaves_other_chunks_alone() {
    let cfg = VoxelConfig::default();
    let mut edits = ChunkEdits::default();
    for y in 0..=20 {
        edits.set(5, y, 7, false, cfg.chunk);
    }
    let own = mesh_of(0, 0, &cfg).expect("chunk (0,0)");
    let own_after = mesh_with(0, 0, &cfg, &edits).expect("chunk (0,0)");
    assert_ne!(own.indices.len(), own_after.indices.len());
    for (cx, cz) in [(1, 0), (-1, 0), (0, 1), (0, -1), (1, 1), (-1, -1)] {
        let a = mesh_of(cx, cz, &cfg).expect("chunk");
        let b = mesh_with(cx, cz, &cfg, &edits).expect("chunk");
        assert_eq!(a.vertices, b.vertices);
        assert_eq!(a.indices, b.indices);
        assert_eq!(a.submeshes, b.submeshes);
    }
    assert_eq!(edits.take_dirty(), vec![(0, 0)]);
}

#[test]
fn unedited_mesh_equals_mesh_with_no_edits() {
    let cfg = VoxelConfig::default();
    let a = mesh_of(-1, 2, &cfg).expect("chunk");
    let b = mesh_with(-1, 2, &cfg, &ChunkEdits::new()).expect("chunk");
    assert_eq!(a.vertices, b.vertices);
    assert_eq!(a.indices, b.indices);
    assert_eq!(a.submeshes, b.submeshes);
}

#[test]
fn edits_away_from_a_chunk_do_not_change_it() {
    let cfg = VoxelConfig::default();
    let mut near = ChunkEdits::default();
    near.set(3, 4, 5, false, cfg.chunk);
    near.set(16, 2, -1, true, cfg.chunk);
    let mut both = ChunkEdits::default();
    both.set(3, 4, 5, false, cfg.chunk);
    both.set(16, 2, -1, true, cfg.chunk);
    both.set(40, 3, 3, false, cfg.chunk);
    both.set(-2, 6, 9, true, cfg.chunk);
    both.set(5, 7, 17, false, cfg.chunk);
    let a = mesh_with(0, 0, &cfg, &near).expect("chunk");
    let b = mesh_with(0, 0, &cfg, &both).expect("chunk");
    assert_eq!(a.vertices, b.vertices);
    assert_eq!(a.indices, b.indices);
    assert_eq!(a.submeshes, b.submeshes);
}
