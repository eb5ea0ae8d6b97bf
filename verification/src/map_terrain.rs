use std::collections::HashMap;

use vstd::prelude::*;

use crate::blueprint::{Chunk, ChunkUpdate, Gid, LayerKind};
use crate::blueprint_ops::{apply_updates, distinct_tiles, flat_updates, lemma_apply_updates_twice, tile_index};
use crate::terrain::CantorPair;

verus! {

/// The terrain of a game map: its chunk size and, for each layer once, its
/// chunks by chunk id.
pub struct GameMapTerrain {
    pub chunk_size: u32,
    pub terrain: Vec<(LayerKind, HashMap<CantorPair, Chunk>)>,
}

/// No layer occurs twice.
pub open spec fn unique_layers(terrain: Seq<(LayerKind, HashMap<CantorPair, Chunk>)>) -> bool {
    forall|i: int, j: int| 0 <= i < j < terrain.len() ==> terrain[i].0 != terrain[j].0
}

/// The chunk stored under the id in the layer, if any.
pub open spec fn chunk_at(terrain: Seq<(LayerKind, HashMap<CantorPair, Chunk>)>, layer: LayerKind, id: CantorPair) -> Option<
    Chunk,
> {
    if exists|i: int| 0 <= i < terrain.len() && (#[trigger] terrain[i]).0 == layer && terrain[i].1@.contains_key(id) {
        let i = choose|i: int| 0 <= i < terrain.len() && (#[trigger] terrain[i]).0 == layer && terrain[i].1@.contains_key(id);
        Some(terrain[i].1@[id])
    } else {
        None
    }
}

/// The chunk an update of the id in the layer starts from: the stored one,
/// or an empty one at the update's position.
pub open spec fn start_chunk(map: GameMapTerrain, layer: LayerKind, id: CantorPair, position: (i32, i32)) -> (
    (i32, i32),
    Seq<Gid>,
) {
    match chunk_at(map.terrain@, layer, id) {
        Some(c) => (c.position, c.data@),
        None => (position, Seq::new((map.chunk_size * map.chunk_size) as nat, |i: int| 0u32)),
    }
}

/// Each tile index an update computes fits the signed 32-bit numbers it is
/// computed in.
pub open spec fn update_fits(chunk_size: u32, ups: Seq<(i32, i32, Gid)>) -> bool {
    forall|k: int|
        0 <= k < ups.len() ==> {
            let (y, x, gid) = #[trigger] ups[k];
            i32::MIN <= y * (chunk_size as i32) <= i32::MAX && i32::MIN <= tile_index(y, x, chunk_size) <= i32::MAX
        }
}

/// What applying the chunk update under `chunk_id` in the layer leaves: the
/// chunk it started from with the updates written into it, handed back
/// when a tile changed, and every other chunk as it was.
pub open spec fn chunk_update_done(
    before: GameMapTerrain,
    after: GameMapTerrain,
    layer_kind: LayerKind,
    chunk_id: CantorPair,
    chunk_update: ChunkUpdate,
    updated: Option<Chunk>,
) -> bool {
    let start = start_chunk(before, layer_kind, chunk_id, chunk_update.position);
    let (data, changed) = apply_updates(start.1, before.chunk_size, flat_updates(chunk_update.tile_updates@));
    &&& after.chunk_size == before.chunk_size
    &&& chunk_at(after.terrain@, layer_kind, chunk_id) matches Some(c) && c.position == start.0 && c.data@ == data
    &&& if changed {
        updated matches Some(c) && c.position == start.0 && c.data@ == data
    } else {
        updated is None
    }
    &&& forall|l: LayerKind, id: CantorPair|
        !(l == layer_kind && id == chunk_id) ==> #[trigger] chunk_at(after.terrain@, l, id) == chunk_at(
            before.terrain@,
            l,
            id,
        )
}

/// With no layer twice, the chunks of a layer are those of its one entry.
proof fn lemma_chunk_at(terrain: Seq<(LayerKind, HashMap<CantorPair, Chunk>)>, i: int, id: CantorPair)
    requires
        unique_layers(terrain),
        0 <= i < terrain.len(),
    ensures
        chunk_at(terrain, terrain[i].0, id) == if terrain[i].1@.contains_key(id) {
            Some(terrain[i].1@[id])
        } else {
            None::<Chunk>
        },
{
    let layer = terrain[i].0;
    if exists|j: int| 0 <= j < terrain.len() && (#[trigger] terrain[j]).0 == layer && terrain[j].1@.contains_key(id) {
        let j = choose|j: int| 0 <= j < terrain.len() && (#[trigger] terrain[j]).0 == layer && terrain[j].1@.contains_key(id);
        if j != i {
            if j < i {
                assert(terrain[j].0 != terrain[i].0);
            } else {
                assert(terrain[i].0 != terrain[j].0);
            }
        }
    } else {
        if terrain[i].1@.contains_key(id) {
            assert(terrain[i].0 == layer);
        }
    }
}

/// Where the layer stands in the list, if it does.
fn layer_index(terrain: &Vec<(LayerKind, HashMap<CantorPair, Chunk>)>, layer: LayerKind) -> (found: Option<usize>)
    ensures
        match found {
            Some(i) => i < terrain@.len() && terrain@[i as int].0 == layer,
            None => forall|j: int| 0 <= j < terrain@.len() ==> (#[trigger] terrain@[j]).0 != layer,
        },
{
    let mut i: usize = 0;
    while i < terrain.len()
        invariant
            i <= terrain@.len(),
            forall|j: int| 0 <= j < i ==> (#[trigger] terrain@[j]).0 != layer,
        decreases terrain@.len() - i,
    {
        if terrain[i].0 == layer {
            return Some(i);
        }
        i = i + 1;
    }
    None
}

impl GameMapTerrain {
    /// No layer occurs twice.
    pub open spec fn wf(&self) -> bool {
        unique_layers(self.terrain@)
    }

    /// Writes the tile updates into the chunk stored under `chunk_id` in the
    /// layer, first making an empty chunk at the update's position where
    /// there is none, and hands back a copy of the chunk if any tile
    /// changed. The id is the one that the update's position pairs to.
    pub fn apply_chunk_update(&mut self, layer_kind: LayerKind, chunk_id: CantorPair, chunk_update: &ChunkUpdate) -> (updated:
        Option<Chunk>)
        requires
            old(self).wf(),
            old(self).chunk_size * old(self).chunk_size <= usize::MAX,
            update_fits(old(self).chunk_size, flat_updates(chunk_update.tile_updates@)),
        ensures
            final(self).wf(),
            chunk_update_done(*old(self), *final(self), layer_kind, chunk_id, *chunk_update, updated),
    {
        let ghost t0 = self.terrain@;
        let found = layer_index(&self.terrain, layer_kind);
        let i: usize = match found {
            Some(i) => i,
            None => {
                self.terrain.push((layer_kind, HashMap::new()));
                self.terrain.len() - 1
            },
        };
        let ghost t1 = self.terrain@;
        proof {
            assert(unique_layers(t1));
            assert(t1[i as int].0 == layer_kind);
            assert forall|l: LayerKind, id: CantorPair| #[trigger] chunk_at(t1, l, id) == chunk_at(t0, l, id) by {
                if found is None {
                    if exists|j: int| 0 <= j < t1.len() && (#[trigger] t1[j]).0 == l && t1[j].1@.contains_key(id) {
                        let j = choose|j: int| 0 <= j < t1.len() && (#[trigger] t1[j]).0 == l && t1[j].1@.contains_key(id);
                        assert(j < t0.len());
                        assert(t0[j] == t1[j]);
                        lemma_chunk_at(t0, j, id);
                        lemma_chunk_at(t1, j, id);
                    } else if exists|j: int| 0 <= j < t0.len() && (#[trigger] t0[j]).0 == l && t0[j].1@.contains_key(id) {
                        let j = choose|j: int| 0 <= j < t0.len() && (#[trigger] t0[j]).0 == l && t0[j].1@.contains_key(id);
                        assert(t1[j] == t0[j]);
                    }
                }
            }
        }
        let mut layer = self.terrain.remove(i);
        let ghost layer0 = layer;
        let mut chunk = match layer.1.remove(&chunk_id) {
            Some(c) => c,
            None => Chunk::new(chunk_update.position, self.chunk_size as usize),
        };
        proof {
            lemma_chunk_at(t1, i as int, chunk_id);
        }
        let changed = chunk.apply_tile_updates(self.chunk_size, chunk_update);
        let updated = if changed {
            Some(chunk.duplicate())
        } else {
            None
        };
        let ghost written = chunk;
        layer.1.insert(chunk_id, chunk);
        self.terrain.insert(i, layer);
        proof {
            let t2 = self.terrain@;
            assert(t2 == t1.update(i as int, (layer_kind, layer.1)));
            assert(unique_layers(t2)) by {
                assert forall|a: int, b: int| 0 <= a < b < t2.len() implies t2[a].0 != t2[b].0 by {
                    assert(t2[a].0 == t1[a].0 && t2[b].0 == t1[b].0);
                }
            }
            lemma_chunk_at(t2, i as int, chunk_id);
            assert(layer.1@[chunk_id] == written);
            assert forall|l: LayerKind, id: CantorPair|
                !(l == layer_kind && id == chunk_id) implies #[trigger] chunk_at(t2, l, id) == chunk_at(t0, l, id) by {
                assert(chunk_at(t1, l, id) == chunk_at(t0, l, id));
                if l == layer_kind {
                    lemma_chunk_at(t2, i as int, id);
                    lemma_chunk_at(t1, i as int, id);
                    assert(layer.1@[id] == layer0.1@[id]);
                } else {
                    if exists|j: int| 0 <= j < t2.len() && (#[trigger] t2[j]).0 == l && t2[j].1@.contains_key(id) {
                        let j = choose|j: int| 0 <= j < t2.len() && (#[trigger] t2[j]).0 == l && t2[j].1@.contains_key(id);
                        assert(t1[j] == t2[j]);
                        lemma_chunk_at(t1, j, id);
                        lemma_chunk_at(t2, j, id);
                    } else if exists|j: int| 0 <= j < t1.len() && (#[trigger] t1[j]).0 == l && t1[j].1@.contains_key(id) {
                        let j = choose|j: int| 0 <= j < t1.len() && (#[trigger] t1[j]).0 == l && t1[j].1@.contains_key(id);
                        assert(t2[j] == t1[j]);
                    }
                }
            }
        }
        updated
    }
}

/// Applying the same chunk update twice: where the update names each tile
/// once, the second time changes nothing and hands back nothing.
pub proof fn lemma_chunk_update_twice(
    chunk_size: u32,
    start: Seq<Gid>,
    once: Seq<Gid>,
    ups: Seq<(i32, i32, Gid)>,
)
    requires
        distinct_tiles(ups, chunk_size),
        once == apply_updates(start, chunk_size, ups).0,
    ensures
        apply_updates(once, chunk_size, ups) == (once, false),
{
    lemma_apply_updates_twice(start, chunk_size, ups);
}

/// A chunk update applied a second time, to what the first left, changes
/// nothing and hands back nothing, when the update names each tile once:
/// the chunk keeps its position and tiles and every other chunk stays.
pub proof fn lemma_chunk_update_applied_twice(
    m0: GameMapTerrain,
    m1: GameMapTerrain,
    m2: GameMapTerrain,
    layer_kind: LayerKind,
    chunk_id: CantorPair,
    chunk_update: ChunkUpdate,
    first: Option<Chunk>,
    second: Option<Chunk>,
)
    requires
        distinct_tiles(flat_updates(chunk_update.tile_updates@), m0.chunk_size),
        chunk_update_done(m0, m1, layer_kind, chunk_id, chunk_update, first),
        chunk_update_done(m1, m2, layer_kind, chunk_id, chunk_update, second),
    ensures
        second is None,
        chunk_at(m1.terrain@, layer_kind, chunk_id) matches Some(c1) && chunk_at(m2.terrain@, layer_kind, chunk_id)
            matches Some(c2) && c2.position == c1.position && c2.data@ == c1.data@,
        forall|l: LayerKind, id: CantorPair|
            !(l == layer_kind && id == chunk_id) ==> #[trigger] chunk_at(m2.terrain@, l, id) == chunk_at(
                m1.terrain@,
                l,
                id,
            ),
{
    let ups = flat_updates(chunk_update.tile_updates@);
    let start = start_chunk(m0, layer_kind, chunk_id, chunk_update.position);
    let c1 = chunk_at(m1.terrain@, layer_kind, chunk_id)->Some_0;
    lemma_chunk_update_twice(m0.chunk_size, start.1, c1.data@, ups);
}

} // verus!
