use std::collections::HashMap;

use shiku_home::blueprint::{Chunk, TerrainParams};
use shiku_home::ring::RingVec;
use shiku_home::terrain::{
    get_edges_from_vertices, get_tile_position, get_vertices_from_collision_shape,
    is_edge_on_surface, is_surface_touching_polygon, PolylineBookkeeping, TerrainGridTile,
    TerrainPolyLineBuilder,
};
use shiku_home::polyline_tracing::polyline_points;
use shiku_home::terrain_grid::{key_of, TerrainGrid};
use std::collections::HashSet;

fn square_tile(x: i32, y: i32, size: i32) -> TerrainGridTile {
    let vertices = RingVec::from(vec![(x, y), (x + size, y), (x + size, y + size), (x, y + size)]);
    let surface_edges = get_edges_from_vertices(&vertices);
    TerrainGridTile { gid: 1, position: (x / size, y / size), vertices, surface_edges, edge_polylines: Vec::new() }
}

#[test]
fn tile_position_counts_row_by_row() {
    assert_eq!(get_tile_position(0, 0, 4, 0), (0, 0));
    assert_eq!(get_tile_position(0, 0, 4, 5), (1, 1));
    assert_eq!(get_tile_position(2, 3, 4, 7), (11, 13));
    assert_eq!(get_tile_position(-1, 0, 4, 2), (-2, 0));
}

#[test]
fn tile_position_negative_index_truncates() {
    // Machine division truncates toward zero: -1 / 4 == 0, -1 % 4 == -1.
    assert_eq!(get_tile_position(0, 0, 4, -1), (-1, 0));
}

#[test]
fn edges_close_the_outline() {
    let vertices = RingVec::from(vec![(0, 0), (2, 0), (2, 2)]);
    let edges = get_edges_from_vertices(&vertices);
    assert_eq!(edges.data, vec![((0, 0), (2, 0)), ((2, 0), (2, 2)), ((2, 2), (0, 0))]);
}

#[test]
fn edges_of_a_single_vertex() {
    let vertices = RingVec::from(vec![(3, 4)]);
    let edges = get_edges_from_vertices(&vertices);
    assert_eq!(edges.data, vec![((3, 4), (3, 4))]);
}

#[test]
fn tile_without_shape_has_its_corners() {
    let params = TerrainParams { chunk_size: 8, tile_width: 16, tile_height: 16 };
    let vertices = get_vertices_from_collision_shape(2, 1, &params, None);
    assert_eq!(vertices.data, vec![(32, 16), (48, 16), (48, 32), (32, 32)]);
}

#[test]
fn tile_shape_is_moved_onto_the_tile() {
    let params = TerrainParams { chunk_size: 8, tile_width: 16, tile_height: 8 };
    let offsets = vec![(0, 2), (16, 2), (8, 8)];
    let vertices = get_vertices_from_collision_shape(1, 3, &params, Some(&offsets));
    assert_eq!(vertices.data, vec![(16, 26), (32, 26), (24, 32)]);
}

#[test]
fn neighbour_covers_shared_edge() {
    let tile = square_tile(0, 0, 16);
    let right = square_tile(16, 0, 16);
    let shared = ((16, 0), (16, 16));
    assert!(is_surface_touching_polygon(shared, &right));
    assert!(!is_edge_on_surface(shared, None, Some(&right), None, None));
    let top_edge = ((0, 0), (16, 0));
    assert!(is_edge_on_surface(((0, 0), (0, 16)), None, Some(&right), None, None));
    assert!(is_edge_on_surface(shared, None, None, None, None));
    assert!(is_surface_touching_polygon(top_edge, &tile));
}

#[test]
fn polyline_builder_starts_empty() {
    let builder = TerrainPolyLineBuilder::new(7);
    assert_eq!(builder.id, 7);
    assert!(builder.vertices.is_empty());
    assert!(builder.tiles.is_empty());
}

#[test]
fn polyline_ids_count_up() {
    let mut bookkeeping = PolylineBookkeeping::new();
    assert_eq!(bookkeeping.get_polyline_id(), 1);
    assert_eq!(bookkeeping.get_polyline_id(), 2);
    assert_eq!(bookkeeping.id_gen, 2);
}

#[test]
fn clearing_chunk_relations_undoes_adding_them() {
    let mut bookkeeping = PolylineBookkeeping::new();
    let chunk = Chunk { position: (0, 0), data: vec![3, 5, 3] };
    bookkeeping.add_gid_cantor_pair_relations(&9, Some(&chunk));
    assert!(bookkeeping.gid_to_cantor_pair_map[&3].contains(&9));
    assert!(bookkeeping.gid_to_cantor_pair_map[&5].contains(&9));
    assert_eq!(bookkeeping.chunk_to_cantor_pair_map[&9].len(), 2);
    bookkeeping.clear_gid_cantor_pair_relations(&9, Some(&chunk));
    assert!(bookkeeping.gid_to_cantor_pair_map[&3].is_empty());
    assert!(bookkeeping.gid_to_cantor_pair_map[&5].is_empty());
    assert!(bookkeeping.chunk_to_cantor_pair_map[&9].is_empty());
}

#[test]
fn chunk_relations_without_chunk_change_nothing() {
    let mut bookkeeping = PolylineBookkeeping::new();
    bookkeeping.add_gid_cantor_pair_relations(&1, None);
    assert!(bookkeeping.gid_to_cantor_pair_map.is_empty());
    assert!(bookkeeping.chunk_to_cantor_pair_map.is_empty());
}

fn full_chunk(position: (i32, i32), gid: u32) -> Chunk {
    Chunk { position, data: vec![gid; 4] }
}

#[test]
fn chunk_tiles_enter_the_grid() {
    let params = TerrainParams { chunk_size: 2, tile_width: 16, tile_height: 16 };
    let mut shapes: HashMap<u32, Vec<(i32, i32)>> = HashMap::new();
    shapes.insert(2, vec![(0, 8), (16, 8), (16, 16), (0, 16)]);
    let mut grid = TerrainGrid::new();
    let chunk = Chunk { position: (1, 0), data: vec![1, 0, 2, 1] };
    grid.set_chunk_in_bookkeeping(&params, &shapes, &chunk);
    assert_eq!(grid.tiles.len(), 3);
    let first = &grid.tiles[&key_of((2, 0))];
    assert_eq!(first.gid, 1);
    assert_eq!(first.vertices.data, vec![(32, 0), (48, 0), (48, 16), (32, 16)]);
    assert!(first.surface_edges.data.is_empty());
    assert!(!grid.tiles.contains_key(&key_of((3, 0))));
    let shaped = &grid.tiles[&key_of((2, 1))];
    assert_eq!(shaped.vertices.data, vec![(32, 24), (48, 24), (48, 32), (32, 32)]);
    let cleared = Chunk { position: (1, 0), data: vec![0, 0, 0, 0] };
    grid.set_chunk_in_bookkeeping(&params, &shapes, &cleared);
    assert!(grid.tiles.is_empty());
}

#[test]
fn surface_edges_are_the_uncovered_ones() {
    let params = TerrainParams { chunk_size: 2, tile_width: 16, tile_height: 16 };
    let shapes: HashMap<u32, Vec<(i32, i32)>> = HashMap::new();
    let mut grid = TerrainGrid::new();
    grid.set_chunk_in_bookkeeping(&params, &shapes, &full_chunk((0, 0), 1));
    let positions = vec![(0, 0), (1, 0), (0, 1), (1, 1), (5, 5)];
    grid.prepare_polyline_calculation_for_tiles(&positions);
    assert_eq!(grid.tiles[&key_of((0, 0))].surface_edges.data, vec![((0, 0), (16, 0)), ((0, 16), (0, 0))]);
    assert_eq!(grid.tiles[&key_of((1, 1))].surface_edges.data, vec![((32, 16), (32, 32)), ((32, 32), (16, 32))]);
    assert_eq!(grid.open_edges.len(), 8);
    assert!(grid.open_edges.contains(&(((0, 0), (16, 0)), (0, 0))));
    grid.prepare_polyline_calculation_for_tiles(&vec![(0, 0)]);
    assert_eq!(grid.open_edges.len(), 8);
}

#[test]
fn position_keys_tell_positions_apart() {
    assert_ne!(key_of((1, 2)), key_of((2, 1)));
    assert_ne!(key_of((-1, 0)), key_of((0, -1)));
    assert_eq!(key_of((3, 4)), key_of((3, 4)));
}

#[test]
fn a_lone_tile_is_traced_into_one_closed_polyline() {
    let params = TerrainParams { chunk_size: 1, tile_width: 16, tile_height: 16 };
    let shapes: HashMap<u32, Vec<(i32, i32)>> = HashMap::new();
    let mut grid = TerrainGrid::new();
    grid.set_chunk_in_bookkeeping(&params, &shapes, &Chunk { position: (0, 0), data: vec![1] });
    grid.prepare_polyline_calculation_for_tiles(&vec![(0, 0)]);
    assert_eq!(grid.open_edges.len(), 4);
    let mut bookkeeping = PolylineBookkeeping::new();
    let lines = grid.calc_polylines(&mut bookkeeping);
    assert!(grid.open_edges.is_empty());
    assert_eq!(bookkeeping.id_gen, 1);
    assert_eq!(lines.len(), 1);
    assert_eq!(lines[0].id, 1);
    assert_eq!(
        Vec::from(lines[0].vertices.clone()),
        vec![(0, 0), (16, 0), (16, 0), (16, 16), (16, 16), (0, 16), (0, 16), (0, 0)]
    );
    assert_eq!(lines[0].tiles, vec![(0, 0)]);
    let tile = &grid.tiles[&key_of((0, 0))];
    assert_eq!(tile.edge_polylines.len(), 4);
    assert!(tile.edge_polylines.iter().all(|(_, id)| *id == 1));
}

#[test]
fn a_block_of_tiles_is_traced_around_its_outside() {
    let params = TerrainParams { chunk_size: 2, tile_width: 16, tile_height: 16 };
    let shapes: HashMap<u32, Vec<(i32, i32)>> = HashMap::new();
    let mut grid = TerrainGrid::new();
    grid.set_chunk_in_bookkeeping(&params, &shapes, &full_chunk((0, 0), 1));
    grid.prepare_polyline_calculation_for_tiles(&vec![(0, 0), (1, 0), (0, 1), (1, 1)]);
    let mut bookkeeping = PolylineBookkeeping::new();
    bookkeeping.id_gen = 4;
    let lines = grid.calc_polylines(&mut bookkeeping);
    assert!(grid.open_edges.is_empty());
    assert_eq!(bookkeeping.id_gen, 5);
    assert_eq!(lines.len(), 1);
    assert_eq!(lines[0].id, 5);
    assert_eq!(
        Vec::from(lines[0].vertices.clone()),
        vec![
            (0, 0), (16, 0), (16, 0), (32, 0), (32, 0), (32, 16), (32, 16), (32, 32),
            (32, 32), (16, 32), (16, 32), (0, 32), (0, 32), (0, 16), (0, 16), (0, 0),
        ]
    );
    assert_eq!(lines[0].tiles, vec![(0, 0), (1, 0), (1, 1), (0, 1)]);
}

#[test]
fn separate_tiles_give_separate_polylines() {
    let params = TerrainParams { chunk_size: 3, tile_width: 16, tile_height: 16 };
    let shapes: HashMap<u32, Vec<(i32, i32)>> = HashMap::new();
    let mut grid = TerrainGrid::new();
    let chunk = Chunk { position: (0, 0), data: vec![1, 0, 1, 0, 0, 0, 0, 0, 0] };
    grid.set_chunk_in_bookkeeping(&params, &shapes, &chunk);
    grid.prepare_polyline_calculation_for_tiles(&vec![(0, 0), (2, 0)]);
    let mut bookkeeping = PolylineBookkeeping::new();
    let lines = grid.calc_polylines(&mut bookkeeping);
    assert_eq!(lines.len(), 2);
    assert_eq!(lines[0].id, 1);
    assert_eq!(lines[1].id, 2);
    assert_eq!(lines[0].tiles, vec![(0, 0)]);
    assert_eq!(lines[1].tiles, vec![(2, 0)]);
    assert_eq!(lines[1].vertices.len(), 8);
    assert_eq!(lines[1].vertices[0], (32, 0));
}

#[test]
fn tracing_with_nothing_open_makes_nothing() {
    let mut grid = TerrainGrid::new();
    let mut bookkeeping = PolylineBookkeeping::new();
    let lines = grid.calc_polylines(&mut bookkeeping);
    assert!(lines.is_empty());
    assert_eq!(bookkeeping.id_gen, 0);
}

fn bar_grid() -> (TerrainGrid, PolylineBookkeeping, Vec<shiku_home::terrain::TerrainPolyLineBuilder>) {
    let params = TerrainParams { chunk_size: 2, tile_width: 16, tile_height: 16 };
    let shapes: HashMap<u32, Vec<(i32, i32)>> = HashMap::new();
    let mut grid = TerrainGrid::new();
    let mut bookkeeping = PolylineBookkeeping::new();
    let chunks = vec![
        (1, Chunk { position: (0, 0), data: vec![1, 1, 0, 0] }),
        (2, Chunk { position: (1, 0), data: vec![1, 1, 0, 0] }),
        (3, Chunk { position: (2, 0), data: vec![1, 1, 0, 0] }),
    ];
    grid.initialize_terrain_grid(&mut bookkeeping, &chunks, &params, &shapes);
    let lines = grid.calc_polylines(&mut bookkeeping);
    (grid, bookkeeping, lines)
}

#[test]
fn initializing_prepares_every_tile() {
    let params = TerrainParams { chunk_size: 2, tile_width: 16, tile_height: 16 };
    let shapes: HashMap<u32, Vec<(i32, i32)>> = HashMap::new();
    let mut grid = TerrainGrid::new();
    let mut bookkeeping = PolylineBookkeeping::new();
    grid.initialize_terrain_grid(&mut bookkeeping, &vec![(7, full_chunk((0, 0), 1))], &params, &shapes);
    assert_eq!(grid.tiles.len(), 4);
    assert_eq!(grid.open_edges.len(), 8);
    assert_eq!(grid.tiles[&key_of((0, 0))].surface_edges.data, vec![((0, 0), (16, 0)), ((0, 16), (0, 0))]);
    assert!(bookkeeping.gid_to_cantor_pair_map[&1].contains(&7));
    assert!(bookkeeping.chunk_to_cantor_pair_map[&7].contains(&1));
    let lines = grid.calc_polylines(&mut bookkeeping);
    assert_eq!(lines.len(), 1);
    assert_eq!(lines[0].vertices.len(), 16);
}

#[test]
fn a_bar_of_tiles_is_one_polyline() {
    let (grid, bookkeeping, lines) = bar_grid();
    assert_eq!(lines.len(), 1);
    assert_eq!(bookkeeping.id_gen, 1);
    assert_eq!(lines[0].tiles.len(), 6);
    assert_eq!(lines[0].vertices.len(), 2 * 14);
    assert!(grid.open_edges.is_empty());
}

#[test]
fn removing_around_a_chunk_reopens_the_edges_outside() {
    let (mut grid, _bookkeeping, mut lines) = bar_grid();
    let params = TerrainParams { chunk_size: 2, tile_width: 16, tile_height: 16 };
    let chunk = Chunk { position: (0, 0), data: vec![1, 1, 0, 0] };
    let (removed, affected) = grid.remove_polylines_of_chunk_and_its_edges(&chunk, &params, &mut lines);
    assert_eq!(removed.len(), 1);
    assert!(lines.is_empty());
    assert_eq!(affected.len(), 21);
    assert!(affected.contains(&(3, 0)));
    assert!(!affected.contains(&(-1, -1)));
    assert!(!affected.contains(&(4, 0)));
    assert_eq!(grid.open_edges.len(), 5);
    let places: HashSet<(i32, i32)> = grid.open_edges.iter().map(|(_, p)| *p).collect();
    assert_eq!(places, HashSet::from([(4, 0), (5, 0)]));
    assert!(grid.tiles.values().all(|t| t.edge_polylines.is_empty()));
}

#[test]
fn removing_leaves_polylines_away_from_the_chunk() {
    let params = TerrainParams { chunk_size: 2, tile_width: 16, tile_height: 16 };
    let shapes: HashMap<u32, Vec<(i32, i32)>> = HashMap::new();
    let mut grid = TerrainGrid::new();
    let mut bookkeeping = PolylineBookkeeping::new();
    let chunks = vec![
        (1, Chunk { position: (0, 0), data: vec![1, 0, 0, 0] }),
        (2, Chunk { position: (5, 0), data: vec![1, 0, 0, 0] }),
    ];
    grid.initialize_terrain_grid(&mut bookkeeping, &chunks, &params, &shapes);
    let mut lines = grid.calc_polylines(&mut bookkeeping);
    assert_eq!(lines.len(), 2);
    let (removed, _) = grid.remove_polylines_of_chunk_and_its_edges(&chunks[0].1, &params, &mut lines);
    assert_eq!(removed.len(), 1);
    assert_eq!(removed[0].tiles, vec![(0, 0)]);
    assert_eq!(lines.len(), 1);
    assert_eq!(lines[0].tiles, vec![(10, 0)]);
    assert!(grid.open_edges.is_empty());
    assert!(grid.tiles[&key_of((0, 0))].edge_polylines.is_empty());
    assert_eq!(grid.tiles[&key_of((10, 0))].edge_polylines.len(), 4);
}

#[test]
fn writing_a_chunk_retraces_its_surface() {
    let params = TerrainParams { chunk_size: 2, tile_width: 16, tile_height: 16 };
    let shapes: HashMap<u32, Vec<(i32, i32)>> = HashMap::new();
    let mut grid = TerrainGrid::new();
    let mut bookkeeping = PolylineBookkeeping::new();
    grid.initialize_terrain_grid(&mut bookkeeping, &vec![(7, full_chunk((0, 0), 1))], &params, &shapes);
    let mut lines = grid.calc_polylines(&mut bookkeeping);
    let mut chunk_map: HashMap<u32, Chunk> = HashMap::new();
    chunk_map.insert(7, full_chunk((0, 0), 1));
    let new_chunk = Chunk { position: (0, 0), data: vec![1, 0, 1, 3] };
    let (removed, traced) =
        grid.write_chunk(&mut bookkeeping, &mut lines, &mut chunk_map, 7, &new_chunk, &params, &shapes);
    assert_eq!(removed.len(), 1);
    assert_eq!(removed[0].id, 1);
    assert_eq!(traced, Some(1));
    assert_eq!(lines.len(), 1);
    assert_eq!(lines[0].id, 2);
    assert_eq!(bookkeeping.id_gen, 2);
    assert_eq!(
        Vec::from(lines[0].vertices.clone()),
        vec![
            (16, 16), (32, 16), (32, 16), (32, 32), (32, 32), (16, 32), (16, 32), (0, 32),
            (0, 32), (0, 16), (0, 16), (0, 0), (0, 0), (16, 0), (16, 0), (16, 16),
        ]
    );
    assert_eq!(lines[0].tiles, vec![(0, 0), (0, 1), (1, 1)]);
    assert!(!grid.tiles.contains_key(&key_of((1, 0))));
    assert_eq!(grid.tiles[&key_of((1, 1))].gid, 3);
    assert!(grid.open_edges.is_empty());
    assert_eq!(chunk_map[&7].data, vec![1, 0, 1, 3]);
    assert!(bookkeeping.gid_to_cantor_pair_map[&3].contains(&7));
    assert!(bookkeeping.chunk_to_cantor_pair_map[&7].contains(&3));
    assert!(bookkeeping.gid_to_cantor_pair_map[&1].contains(&7));
}

#[test]
fn writing_a_chunk_near_the_id_limit_leaves_edges_open() {
    let params = TerrainParams { chunk_size: 2, tile_width: 16, tile_height: 16 };
    let shapes: HashMap<u32, Vec<(i32, i32)>> = HashMap::new();
    let mut grid = TerrainGrid::new();
    let mut bookkeeping = PolylineBookkeeping::new();
    bookkeeping.id_gen = u32::MAX - 3;
    let mut lines = Vec::new();
    let mut chunk_map: HashMap<u32, Chunk> = HashMap::new();
    let (removed, traced) = grid.write_chunk(
        &mut bookkeeping,
        &mut lines,
        &mut chunk_map,
        7,
        &full_chunk((0, 0), 1),
        &params,
        &shapes,
    );
    assert!(removed.is_empty());
    assert_eq!(traced, None);
    assert_eq!(grid.open_edges.len(), 8);
    assert_eq!(bookkeeping.id_gen, u32::MAX - 3);
    assert!(lines.is_empty());
}

#[test]
fn a_changed_collision_shape_rewrites_the_chunks_using_it() {
    let params = TerrainParams { chunk_size: 2, tile_width: 16, tile_height: 16 };
    let mut shapes: HashMap<u32, Vec<(i32, i32)>> = HashMap::new();
    let mut grid = TerrainGrid::new();
    let mut bookkeeping = PolylineBookkeeping::new();
    grid.initialize_terrain_grid(&mut bookkeeping, &vec![(7, full_chunk((0, 0), 1))], &params, &shapes);
    let mut lines = grid.calc_polylines(&mut bookkeeping);
    let mut chunk_map: HashMap<u32, Chunk> = HashMap::new();
    chunk_map.insert(7, full_chunk((0, 0), 1));
    shapes.insert(1, vec![(0, 8), (16, 8), (16, 16), (0, 16)]);
    let released =
        grid.update_collision_shape(&mut bookkeeping, &mut lines, &mut chunk_map, 1, &params, &shapes);
    assert_eq!(released.len(), 1);
    assert_eq!(released[0].id, 1);
    assert_eq!(chunk_map.len(), 1);
    assert_eq!(chunk_map[&7].data, vec![1, 1, 1, 1]);
    assert_eq!(grid.tiles[&key_of((0, 0))].vertices.data, vec![(0, 8), (16, 8), (16, 16), (0, 16)]);
    assert!(grid.open_edges.is_empty());
    assert!(!lines.is_empty());
    assert!(lines.iter().all(|l| l.id > 1));
    assert!(lines.iter().all(|l| released.iter().all(|r| r.id != l.id)));
    assert!(bookkeeping.gid_to_cantor_pair_map[&1].contains(&7));
}

#[test]
fn a_gid_used_nowhere_rewrites_nothing() {
    let params = TerrainParams { chunk_size: 2, tile_width: 16, tile_height: 16 };
    let shapes: HashMap<u32, Vec<(i32, i32)>> = HashMap::new();
    let mut grid = TerrainGrid::new();
    let mut bookkeeping = PolylineBookkeeping::new();
    let mut lines = Vec::new();
    let mut chunk_map: HashMap<u32, Chunk> = HashMap::new();
    let released =
        grid.update_collision_shape(&mut bookkeeping, &mut lines, &mut chunk_map, 9, &params, &shapes);
    assert!(released.is_empty());
    assert!(grid.tiles.is_empty());
}

#[test]
fn polyline_points_drop_repeated_vertices() {
    let params = TerrainParams { chunk_size: 1, tile_width: 16, tile_height: 16 };
    let shapes: HashMap<u32, Vec<(i32, i32)>> = HashMap::new();
    let mut grid = TerrainGrid::new();
    grid.set_chunk_in_bookkeeping(&params, &shapes, &Chunk { position: (0, 0), data: vec![1] });
    grid.prepare_polyline_calculation_for_tiles(&vec![(0, 0)]);
    let mut bookkeeping = PolylineBookkeeping::new();
    let lines = grid.calc_polylines(&mut bookkeeping);
    assert_eq!(polyline_points(&lines[0]), vec![(0, 0), (16, 0), (16, 16), (0, 16), (0, 0)]);
    let empty = TerrainPolyLineBuilder::new(3);
    assert!(polyline_points(&empty).is_empty());
}
