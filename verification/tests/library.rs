//! Unit scenarios for the terrain rules, the edit store, the greedy mesher,
//! the atlas layout, streaming decisions and the save format.

use sausage_playground::assemble::{ChunkMesh, MeshVertex, Submesh, assemble};
use sausage_playground::atlas::{atlas_cell_hash, atlas_is_edge, atlas_rgba};
use sausage_playground::blocks::{
    ColumnBlock, Kind, VoxelBlock, block_kind, column_blocks, creature_material, kind_slot, terrain_voxels,
};
use sausage_playground::chunk::{build_chunk_mesh, load_batch};
use sausage_playground::config::{
    ATLAS_TILE, ATLAS_TILES, GenState, GenStats, SavePath, Terrain, VoxelConfig, WorldLoaded,
};
use sausage_playground::edits::{ChunkEdits, chunk_coord};
use sausage_playground::greedy::{Rect, greedy_rects};
use sausage_playground::heights::{HeightField, solid_e};
use sausage_playground::mesher::{ChunkFrame, Pos, Quad, chunk_quads_exec};
use sausage_playground::noise::hash2;
use sausage_playground::save::{
    is_whitespace, parse_i32_exec, parse_save, parse_u32_exec, render_save, split_lines, split_words,
};
use sausage_playground::stream::{
    chunk_range, chunks_to_unload, contains_chunk, creature_spawn_count, load_candidates, pick_voxel,
    plan_stream, player_chunk, stream_radius, without_chunks, KEEP_MARGIN, LOAD_BUDGET, MAX_POPULATION,
    SPAWN_BUDGET,
};
use sausage_playground::viz::split_submesh;

fn chars(s: &str) -> Vec<char> {
    s.chars().collect()
}

fn text(v: &[char]) -> String {
    v.iter().collect()
}

fn flat(x0: i32, z0: i32, n: usize, h: i32) -> HeightField {
    HeightField { x0, z0, nx: n, nz: n, heights: vec![h; n * n] }
}

#[test]
fn hash2_matches_known_values() {
    assert_eq!(hash2(0, 0, 0), 3361054039);
    assert_eq!(hash2(1, 2, 1337), 4024942760);
    assert_eq!(hash2(-5, 7, 42), 1107369807);
    assert_eq!(hash2(3, 4, 9), hash2(3, 4, 9));
}

#[test]
fn block_kinds_follow_height_and_sea_level() {
    assert_eq!(block_kind(12, 12, 5, true), Kind::Snow);
    assert_eq!(block_kind(6, 6, 5, true), Kind::Sand);
    assert_eq!(block_kind(7, 7, 5, true), Kind::Grass);
    assert_eq!(block_kind(10, 8, 5, false), Kind::Dirt);
    assert_eq!(block_kind(10, 7, 5, false), Kind::Stone);
    assert_eq!(kind_slot(Kind::Grass), 0);
    assert_eq!(kind_slot(Kind::Snow), 4);
    assert_eq!(kind_slot(Kind::Water), 2);
}

#[test]
fn column_is_a_shell_with_water_on_top() {
    let col = column_blocks(3, [5, 4, 2, 6], 5);
    assert_eq!(
        col,
        vec![
            ColumnBlock { y: 1, kind: Kind::Dirt },
            ColumnBlock { y: 2, kind: Kind::Dirt },
            ColumnBlock { y: 3, kind: Kind::Sand },
            ColumnBlock { y: 4, kind: Kind::Water },
            ColumnBlock { y: 5, kind: Kind::Water },
        ]
    );
    // A low neighbour never takes the floor below zero; no water above sea.
    let col = column_blocks(9, [0, 9, 9, 9], 5);
    assert_eq!(col.len(), 10);
    assert_eq!(col[0], ColumnBlock { y: 0, kind: Kind::Stone });
    assert_eq!(col[9], ColumnBlock { y: 9, kind: Kind::Grass });
}

#[test]
fn chunk_coordinates_floor_toward_negative() {
    assert_eq!(chunk_coord(0, 16), 0);
    assert_eq!(chunk_coord(15, 16), 0);
    assert_eq!(chunk_coord(16, 16), 1);
    assert_eq!(chunk_coord(-1, 16), -1);
    assert_eq!(chunk_coord(-16, 16), -1);
    assert_eq!(chunk_coord(-17, 16), -2);
    assert_eq!(player_chunk(-1, 17, 16), (-1, 1));
    assert_eq!(chunk_range(42, 16), (-3, 2));
}

#[test]
fn edits_set_get_and_drain_dirty_chunks() {
    let mut e = ChunkEdits::default();
    assert_eq!(e.get(1, 2, 3), None);
    e.set(1, 2, 3, false, 16);
    e.set(-1, 0, 40, true, 16);
    e.set(1, 2, 3, true, 16);
    assert_eq!(e.get(1, 2, 3), Some(true));
    assert_eq!(e.get(-1, 0, 40), Some(true));
    let mut dirty = e.take_dirty();
    dirty.sort();
    assert_eq!(dirty, vec![(-1, 2), (0, 0)]);
    assert!(e.take_dirty().is_empty());
    let mut all = e.entries();
    all.sort();
    assert_eq!(all, vec![((-1, 0, 40), true), ((1, 2, 3), true)]);
}

#[test]
fn loaded_edits_do_not_mark_chunks_dirty() {
    let mut e = ChunkEdits::new();
    e.insert_loaded(5, 6, 7, false);
    assert_eq!(e.get(5, 6, 7), Some(false));
    assert!(e.take_dirty().is_empty());
    let mut f = ChunkEdits::new();
    f.apply_loaded(&vec![((1, 1, 1), true), ((2, 2, 2), false), ((1, 1, 1), false)]);
    assert_eq!(f.get(1, 1, 1), Some(false));
    assert_eq!(f.entries().len(), 2);
    assert!(f.take_dirty().is_empty());
}

#[test]
fn snapshot_of_edits_restores_the_same_edits() {
    let mut e = ChunkEdits::new();
    e.set(3, 4, 5, true, 8);
    e.set(-3, 4, 5, false, 8);
    let snap = e.entries();
    let mut r = ChunkEdits::new();
    r.apply_loaded(&snap);
    let (mut a, mut b) = (e.entries(), r.entries());
    a.sort();
    b.sort();
    assert_eq!(a, b);
}

#[test]
fn solidity_prefers_edits_over_terrain() {
    let hf = flat(-2, -2, 5, 3);
    let mut e = ChunkEdits::new();
    assert!(solid_e(0, 3, 0, &e, &hf));
    assert!(!solid_e(0, 4, 0, &e, &hf));
    assert!(!solid_e(0, -1, 0, &e, &hf));
    e.set(0, 3, 0, false, 16);
    e.set(0, 9, 0, true, 16);
    assert!(!solid_e(0, 3, 0, &e, &hf));
    assert!(solid_e(0, 9, 0, &e, &hf));
    assert_eq!(hf.height_at(2, 2), 3);
}

#[test]
fn greedy_merges_equal_kind_rectangles() {
    // 2 rows x 3 columns: a 2x2 block of kind 0, a lone kind 1, one hole.
    let mask = vec![0, 0, 1, 0, 0, -1];
    let rs = greedy_rects(&mask, 2, 3);
    assert_eq!(
        rs,
        vec![
            Rect { u0: 0, v0: 0, u1: 2, v1: 2, kind: 0 },
            Rect { u0: 0, v0: 2, u1: 1, v1: 3, kind: 1 },
        ]
    );
    // Width is taken first: a 1-wide column of kind 2 stays separate.
    let mask = vec![2, 3, 2, 3];
    let rs = greedy_rects(&mask, 2, 2);
    assert_eq!(
        rs,
        vec![
            Rect { u0: 0, v0: 0, u1: 2, v1: 1, kind: 2 },
            Rect { u0: 0, v0: 1, u1: 2, v1: 2, kind: 3 },
        ]
    );
    assert!(greedy_rects(&vec![-1, -1], 1, 2).is_empty());
}

fn p(x: i32, y: i32, z: i32) -> Pos {
    Pos { x, y, z }
}

#[test]
fn single_voxel_chunk_has_top_and_bottom_faces() {
    // One column, two layers, flat terrain at height 0, sea at 0: the lone
    // solid voxel shows its top and bottom; its sides touch solid ground.
    let f = ChunkFrame { cx: 0, cz: 0, chunk: 1, sea: 0, ymax: 2 };
    let hf = flat(-1, -1, 3, 0);
    let quads = chunk_quads_exec(f, &ChunkEdits::new(), &hf);
    assert_eq!(
        quads,
        vec![
            Quad {
                c0: p(0, 1, 0),
                c1: p(0, 1, 1),
                c2: p(1, 1, 1),
                c3: p(1, 1, 0),
                normal: p(0, 1, 0),
                tile: 3,
                slot: 9,
            },
            Quad {
                c0: p(0, 0, 0),
                c1: p(1, 0, 0),
                c2: p(1, 0, 1),
                c3: p(0, 0, 1),
                normal: p(0, -1, 0),
                tile: 3,
                slot: 11,
            },
        ]
    );
    let cfg = VoxelConfig { chunk: 1, max_height: -3, sea_level: 0, ..VoxelConfig::default() };
    let mesh: ChunkMesh = build_chunk_mesh(0, 0, &cfg, &hf).expect("one voxel");
    assert_eq!(mesh.vertices.len(), 8);
    assert_eq!(mesh.indices, vec![0, 1, 2, 0, 2, 3, 4, 5, 6, 4, 6, 7]);
    assert_eq!(
        mesh.submeshes,
        vec![
            Submesh { index_start: 0, index_count: 6, slot: 9 },
            Submesh { index_start: 6, index_count: 6, slot: 11 },
        ]
    );
}

#[test]
fn submerged_column_gets_a_water_quad() {
    let f = ChunkFrame { cx: 0, cz: 0, chunk: 1, sea: 2, ymax: 2 };
    let hf = flat(-1, -1, 3, 0);
    let quads = chunk_quads_exec(f, &ChunkEdits::new(), &hf);
    let water = quads.last().unwrap();
    assert_eq!(water.slot, 15);
    assert_eq!(water.tile, 5);
    assert_eq!((water.c0, water.c2), (p(0, 2, 0), p(1, 2, 1)));
    // Carving the only voxel leaves just the water surface.
    let mut e = ChunkEdits::new();
    e.set(0, 0, 0, false, 1);
    let quads = chunk_quads_exec(f, &e, &hf);
    assert_eq!(quads.len(), 1);
    assert_eq!(quads[0].slot, 15);
}

#[test]
fn empty_chunk_has_no_mesh() {
    let cfg = VoxelConfig { chunk: 2, max_height: 0, sea_level: -5, ..VoxelConfig::default() };
    let hf = flat(-1, -1, 4, 0);
    let mut e = ChunkEdits::new();
    for x in 0..2 {
        for z in 0..2 {
            e.set(x, 0, z, false, 2);
        }
    }
    assert!(sausage_playground::chunk::build_chunk_mesh_with(0, 0, &cfg, &e, &hf).is_none());
}

#[test]
fn assemble_groups_triangles_by_slot() {
    let q = |slot: usize, y: i32| Quad {
        c0: p(0, y, 0),
        c1: p(0, y, 1),
        c2: p(1, y, 1),
        c3: p(1, y, 0),
        normal: p(0, 1, 0),
        tile: 0,
        slot,
    };
    let mesh = assemble(&vec![q(5, 1), q(2, 2), q(5, 3)]).expect("three quads");
    assert_eq!(mesh.vertices.len(), 12);
    assert_eq!(mesh.vertices[4], MeshVertex { position: p(0, 2, 0), normal: p(0, 1, 0), tile: 0, corner: 0 });
    assert_eq!(
        mesh.indices,
        vec![4, 5, 6, 4, 6, 7, 0, 1, 2, 0, 2, 3, 8, 9, 10, 8, 10, 11]
    );
    assert_eq!(
        mesh.submeshes,
        vec![
            Submesh { index_start: 0, index_count: 6, slot: 2 },
            Submesh { index_start: 6, index_count: 12, slot: 5 },
        ]
    );
    assert!(assemble(&Vec::new()).is_none());
}

#[test]
fn atlas_strip_layout() {
    let greys: Vec<u8> = (0..ATLAS_TILES * ATLAS_TILE * ATLAS_TILE).map(|i| (i % 251) as u8).collect();
    let (px, w, h) = atlas_rgba(&greys);
    assert_eq!(w as usize, ATLAS_TILES * ATLAS_TILE);
    assert_eq!(h as usize, ATLAS_TILE);
    assert_eq!((w, h), (96, 16));
    assert_eq!(px.len(), (w * h * 4) as usize);
    // Pixel (0, 0) of tile 1 sits 16 pixels into row 0.
    let i = 16 * 4;
    assert_eq!(px[i], greys[256]);
    assert_eq!(px[i + 1], greys[256]);
    assert_eq!(px[i + 2], greys[256]);
    assert_eq!(px[i + 3], 255);
    // Pixel (3, 2) of tile 5.
    let i = (2 * 96 + 5 * 16 + 3) * 4;
    assert_eq!(px[i], greys[(5 * 16 + 2) * 16 + 3]);
    assert_eq!(atlas_cell_hash(1, 2, 3), hash2(133, 3, 0x51ED));
    assert!(atlas_is_edge(0, 5) && atlas_is_edge(15, 5) && atlas_is_edge(4, 15));
    assert!(!atlas_is_edge(1, 14));
}

#[test]
fn integers_parse_like_from_str() {
    assert_eq!(parse_i32_exec(&chars("-2147483648")), Some(i32::MIN));
    assert_eq!(parse_i32_exec(&chars("2147483647")), Some(i32::MAX));
    assert_eq!(parse_i32_exec(&chars("2147483648")), None);
    assert_eq!(parse_i32_exec(&chars("+5")), Some(5));
    assert_eq!(parse_i32_exec(&chars("-")), None);
    assert_eq!(parse_i32_exec(&chars("")), None);
    assert_eq!(parse_i32_exec(&chars("1x")), None);
    assert_eq!(parse_i32_exec(&chars("007")), Some(7));
    assert_eq!(parse_u32_exec(&chars("4294967295")), Some(u32::MAX));
    assert_eq!(parse_u32_exec(&chars("4294967296")), None);
    assert_eq!(parse_u32_exec(&chars("-1")), None);
    assert_eq!(parse_u32_exec(&chars("+0")), Some(0));
}

#[test]
fn lines_and_words_split_like_std() {
    let lines = split_lines(&chars("a b\n\n c\t d \n"));
    let got: Vec<String> = lines.iter().map(|l| text(l)).collect();
    assert_eq!(got, vec!["a b".to_string(), "".to_string(), " c\t d ".to_string(), "".to_string()]);
    let words = split_words(&chars("  e 1\t-2  3 1 "));
    let got: Vec<String> = words.iter().map(|w| text(w)).collect();
    assert_eq!(got, vec!["e", "1", "-2", "3", "1"]);
    assert!(is_whitespace('\u{3000}') && is_whitespace('\n') && !is_whitespace('x'));
}

#[test]
fn save_text_round_trips() {
    let pose: Vec<Vec<char>> = ["1.5", "30", "-2", "0.25", "-0.1"].iter().map(|s| chars(s)).collect();
    let edits = vec![((1, -2, 3), true), ((i32::MIN, 0, i32::MAX), false)];
    let out = render_save(4000000000, &pose, &edits);
    assert_eq!(
        text(&out),
        "seed 4000000000\nplayer 1.5 30 -2 0.25 -0.1\ne 1 -2 3 1\ne -2147483648 0 2147483647 0\n"
    );
    let rec = parse_save(&out);
    assert_eq!(rec.seed, 4000000000);
    assert_eq!(rec.pose, Some(pose));
    assert_eq!(rec.edits, edits);
}

#[test]
fn save_parser_skips_what_it_does_not_understand() {
    let rec = parse_save(&chars(
        "seed 42\nfoo bar\ne 1 2 3 1\ne x 2 3 1\ne 4 5 6 yes\nplayer 1 2 3\nseed\n",
    ));
    assert_eq!(rec.seed, 42);
    assert_eq!(rec.pose, None);
    assert_eq!(rec.edits, vec![((1, 2, 3), true), ((4, 5, 6), false)]);
    let rec = parse_save(&chars("seed nope\nplayer a b c d e\n"));
    assert_eq!(rec.seed, 0);
    assert_eq!(rec.pose.map(|p| p.len()), Some(5));
    let rec = parse_save(&Vec::new());
    assert_eq!((rec.seed, rec.pose.is_none(), rec.edits.len()), (0, true, 0));
}

#[test]
fn streaming_square_and_hysteresis() {
    assert_eq!(stream_radius(0), 1);
    assert_eq!(stream_radius(-4), 1);
    assert_eq!(stream_radius(3), 3);
    let loaded = vec![(0, 0), (1, 1)];
    let empty = vec![(-1, -1)];
    let want = load_candidates(0, 0, 1, &loaded, &empty);
    assert_eq!(want, vec![(-1, 0), (-1, 1), (0, -1), (0, 1), (1, -1), (1, 0)]);
    let far = vec![(0, 0), (4, 0), (3, -3), (0, -4), (-3, 3)];
    assert_eq!(chunks_to_unload(&far, 0, 0, 1), vec![(4, 0), (0, -4)]);
    assert_eq!(KEEP_MARGIN, 2);
    assert_eq!(LOAD_BUDGET, 6);
    assert!(contains_chunk(&far, (3, -3)) && !contains_chunk(&far, (3, 3)));
}

#[test]
fn creature_population_is_topped_up_within_budget() {
    assert_eq!(creature_spawn_count(0, 300), SPAWN_BUDGET);
    assert_eq!(creature_spawn_count(215, 300), 5);
    assert_eq!(creature_spawn_count(MAX_POPULATION, 300), 0);
    assert_eq!(creature_spawn_count(250, 300), 0);
    assert_eq!(creature_spawn_count(0, 3), 3);
    assert_eq!(creature_spawn_count(10, 12), 2);
}

#[test]
fn ray_picks_first_solid_voxel_and_the_one_before() {
    let hf = flat(-5, -5, 11, 2);
    let e = ChunkEdits::new();
    let path = vec![(0, 5, 0), (0, 4, 0), (0, 4, 0), (0, 3, 0), (0, 2, 0), (0, 1, 0)];
    assert_eq!(pick_voxel(&path, &e, &hf), Some(((0, 2, 0), Some((0, 3, 0)))));
    let path = vec![(0, 1, 0)];
    assert_eq!(pick_voxel(&path, &e, &hf), Some(((0, 1, 0), None)));
    let path = vec![(0, 9, 0), (1, 8, 0)];
    assert_eq!(pick_voxel(&path, &e, &hf), None);
    let mut e = ChunkEdits::new();
    e.set(0, 2, 0, false, 16);
    let path = vec![(0, 3, 0), (0, 2, 0), (0, 1, 0)];
    assert_eq!(pick_voxel(&path, &e, &hf), Some(((0, 1, 0), Some((0, 2, 0)))));
}

#[test]
fn config_defaults_and_stats() {
    let c = VoxelConfig::default();
    assert_eq!(c.terrain, Terrain::Chunked);
    assert_eq!((c.chunk, c.half, c.seed, c.sea_level, c.max_height), (16, 42, 1337, 5, 14));
    assert_eq!((c.creatures, c.orbs, c.dyn_cubes), (300, 150, 40));
    let s = GenStats { blocks: 17000, creatures: 100, orbs: 50, dyn_cubes: 6 };
    assert_eq!(s.total_entities(), 17156);
    assert_eq!(GenStats::default().total_entities(), 0);
    assert!(!GenState::default().done);
    assert!(!WorldLoaded::default().0);
    let path = SavePath("world.save".to_string());
    assert_eq!(path.0, "world.save");
}

#[test]
fn per_voxel_terrain_lists_columns_in_order() {
    let hf = flat(-2, -2, 4, 3);
    let blocks = terrain_voxels(1, 5, &hf);
    assert_eq!(blocks.len(), 16);
    assert_eq!(blocks[0], VoxelBlock { x: -1, y: 2, z: -1, kind: Kind::Dirt });
    assert_eq!(blocks[1], VoxelBlock { x: -1, y: 3, z: -1, kind: Kind::Sand });
    assert_eq!(blocks[3], VoxelBlock { x: -1, y: 5, z: -1, kind: Kind::Water });
    assert_eq!(blocks[4], VoxelBlock { x: -1, y: 2, z: 0, kind: Kind::Dirt });
    assert_eq!(blocks[15], VoxelBlock { x: 0, y: 5, z: 0, kind: Kind::Water });
    assert!(terrain_voxels(0, 5, &hf).is_empty());
}

#[test]
fn creature_materials_cycle() {
    assert_eq!(creature_material(7, 3), Some(1));
    assert_eq!(creature_material(2, 3), Some(2));
    assert_eq!(creature_material(5, 0), None);
}

#[test]
fn stream_plan_unloads_dirty_then_far_and_loads_the_gaps() {
    let loaded = vec![(0, 0), (5, 0), (1, 1)];
    let empty = vec![(-1, -1), (0, 1)];
    let dirty = vec![(0, 1), (1, 1)];
    let plan = plan_stream(0, 0, 1, &loaded, &empty, &dirty);
    assert_eq!(plan.unload, vec![(0, 1), (1, 1), (5, 0)]);
    assert_eq!(plan.load, vec![(-1, 0), (-1, 1), (0, -1), (0, 1), (1, -1), (1, 0), (1, 1)]);
    let plan = plan_stream(10, 10, 0, &Vec::new(), &Vec::new(), &Vec::new());
    assert_eq!(plan.load.len(), 9);
    assert!(plan.unload.is_empty());
    assert_eq!(without_chunks(&loaded, &dirty), vec![(0, 0), (5, 0)]);
}

#[test]
fn submesh_cut_reindexes_its_vertices() {
    let q = |slot: usize, y: i32| Quad {
        c0: p(0, y, 0),
        c1: p(0, y, 1),
        c2: p(1, y, 1),
        c3: p(1, y, 0),
        normal: p(0, 1, 0),
        tile: 0,
        slot,
    };
    let mesh = assemble(&vec![q(5, 1), q(2, 2), q(5, 3)]).expect("three quads");
    let part = split_submesh(&mesh, mesh.submeshes[1]);
    assert_eq!(part.indices, vec![0, 1, 2, 0, 2, 3, 4, 5, 6, 4, 6, 7]);
    assert_eq!(part.vertices.len(), 8);
    assert_eq!(part.vertices[0], mesh.vertices[0]);
    assert_eq!(part.vertices[4], mesh.vertices[8]);
    let part = split_submesh(&mesh, mesh.submeshes[0]);
    assert_eq!(part.vertices, mesh.vertices[4..8].to_vec());
}

#[test]
fn a_column_in_a_pit_keeps_its_top_block() {
    assert_eq!(column_blocks(1, [5, 5, 5, 5], 0), vec![ColumnBlock { y: 1, kind: Kind::Sand }]);
    let col = column_blocks(2, [9, 3, 8, 7], 4);
    assert_eq!(
        col,
        vec![
            ColumnBlock { y: 2, kind: Kind::Sand },
            ColumnBlock { y: 3, kind: Kind::Water },
            ColumnBlock { y: 4, kind: Kind::Water },
        ]
    );
    // In a footprint whose middle column is a pit, every column has its top.
    let mut hf = flat(-2, -2, 4, 5);
    hf.heights[2 * 4 + 2] = 1; // column (0, 0)
    let blocks = terrain_voxels(1, 0, &hf);
    for (x, z) in [(-1, -1), (-1, 0), (0, -1), (0, 0)] {
        let top = if (x, z) == (0, 0) { 1 } else { 5 };
        assert!(blocks.iter().any(|b| (b.x, b.y, b.z) == (x, top, z)));
    }
}

#[test]
fn negative_half_gives_no_terrain() {
    let hf = flat(0, 0, 1, 3);
    assert!(terrain_voxels(-3, 5, &hf).is_empty());
}

#[test]
fn load_batch_stops_after_the_budget_of_built_meshes() {
    let cfg = VoxelConfig { chunk: 1, max_height: -3, sea_level: -5, ..VoxelConfig::default() };
    let levels = [-1, 0, -1, 0, 0, 0, 0, 0, 0, 0];
    let cands: Vec<(i32, i32)> = (0..10).map(|i| (i, 0)).collect();
    let heights: Vec<HeightField> = (0..10).map(|i| flat(i as i32 - 1, -1, 3, levels[i])).collect();
    let out = load_batch(&cands, &cfg, &ChunkEdits::new(), &heights);
    assert_eq!(out.len(), 8);
    for (i, (c, m)) in out.iter().enumerate() {
        assert_eq!(*c, cands[i]);
        assert_eq!(m.is_some(), levels[i] == 0);
    }
    assert_eq!(out.iter().filter(|(_, m)| m.is_some()).count(), LOAD_BUDGET);
    // Fewer candidates than the budget: all of them are built.
    let few: Vec<HeightField> = (0..3).map(|i| flat(i as i32 - 1, -1, 3, levels[i])).collect();
    let out = load_batch(&cands[..3].to_vec(), &cfg, &ChunkEdits::new(), &few);
    assert_eq!(out.len(), 3);
    assert!(out[0].1.is_none() && out[1].1.is_some() && out[2].1.is_none());
}

#[test]
fn hash2_separates_neighbouring_inputs() {
    for a in -20..20 {
        for b in (a + 1)..20 {
            assert_ne!(hash2(a, 5, 9), hash2(b, 5, 9));
            assert_ne!(hash2(5, a, 9), hash2(5, b, 9));
            assert_ne!(hash2(5, 5, (a + 20) as u32), hash2(5, 5, (b + 20) as u32));
        }
    }
}
