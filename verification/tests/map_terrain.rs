use std::collections::HashMap;

use shiku_home::blueprint::{ChunkUpdate, LayerKind};
use shiku_home::map_terrain::GameMapTerrain;

#[test]
fn chunk_update_creates_the_chunk_and_a_repeat_changes_nothing() {
    let mut map = GameMapTerrain { chunk_size: 2, terrain: Vec::new() };
    let update = ChunkUpdate { position: (3, 4), tile_updates: vec![(1, vec![(0, 7)]), (0, vec![(1, 5)])] };
    let first = map.apply_chunk_update(LayerKind::Terrain, 9, &update).expect("changed");
    assert_eq!(first.position, (3, 4));
    assert_eq!(first.data, vec![0, 5, 7, 0]);
    assert_eq!(map.terrain.len(), 1);
    assert_eq!(map.terrain[0].1[&9].data, vec![0, 5, 7, 0]);

    assert!(map.apply_chunk_update(LayerKind::Terrain, 9, &update).is_none());
    assert_eq!(map.terrain[0].1[&9].data, vec![0, 5, 7, 0]);
}

#[test]
fn chunk_update_out_of_the_chunk_is_ignored() {
    let mut map = GameMapTerrain { chunk_size: 2, terrain: vec![(LayerKind::Terrain, HashMap::new())] };
    let update = ChunkUpdate { position: (0, 0), tile_updates: vec![(5, vec![(0, 7)])] };
    assert!(map.apply_chunk_update(LayerKind::Terrain, 1, &update).is_none());
    assert_eq!(map.terrain[0].1[&1].data, vec![0, 0, 0, 0]);
    assert_eq!(map.terrain.len(), 1);
}
