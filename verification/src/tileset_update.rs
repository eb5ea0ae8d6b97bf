use std::collections::HashMap;

use vstd::prelude::*;

use crate::blueprint::{Image, SimpleAnimationFrame, TerrainBrush, Tile, Tileset};

verus! {

/// An edit of a tileset made in the editor. Edits of collision shapes,
/// which are made of floating-point numbers, are handled outside this
/// library.
pub enum TilesetUpdate {
    AddBrush(TerrainBrush),
    RemoveBrush(usize),
    UpdateBrush(usize, TerrainBrush),
    ChangeTileImage(u32, Image),
    ChangeTileAnimation(u32, Option<Vec<SimpleAnimationFrame>>),
    RemoveTile(u32),
    AddTile(u32, Tile),
    /// Drops the collision shape of the tile, making the tile if there is
    /// none; the shapes themselves are held with the physics, outside the
    /// library.
    RemoveCollisionShape(u32),
}

/// The image loads that an edit asks of the modules using the tileset: a
/// path to stop loading and a path to start loading.
pub struct ImageChanges {
    pub unregister: Option<String>,
    pub register: Option<String>,
}

/// A tile that has nothing yet.
pub open spec fn empty_tile() -> Tile {
    Tile { id: 0, image: None, animation: None }
}

/// The tile of the gid, or an empty tile when there is none.
pub open spec fn tile_or_empty(tiles: Map<u32, Tile>, gid: u32) -> Tile {
    if tiles.contains_key(gid) {
        tiles[gid]
    } else {
        empty_tile()
    }
}

/// `count` is the largest gid among the tiles, or 0 without tiles.
pub open spec fn is_largest_gid(tiles: Map<u32, Tile>, count: u32) -> bool {
    if tiles.dom().is_empty() {
        count == 0
    } else {
        tiles.contains_key(count) && forall|k: u32| #[trigger] tiles.contains_key(k) ==> k <= count
    }
}

/// What an edit makes of a tileset, apart from its tile count, which an
/// edit of the tiles themselves sets to the largest gid.
pub open spec fn edited(before: Tileset, after: Tileset, update: TilesetUpdate) -> bool {
    &&& after.name == before.name
    &&& after.resource_path == before.resource_path
    &&& after.image == before.image
    &&& after.tile_width == before.tile_width
    &&& after.tile_height == before.tile_height
    &&& after.columns == before.columns
    &&& match update {
        TilesetUpdate::AddBrush(brush) => after.brushes@ == before.brushes@.push(brush)
            && after.tiles == before.tiles && after.tile_count == before.tile_count,
        TilesetUpdate::RemoveBrush(i) => after.brushes@ == before.brushes@.remove(i as int)
            && after.tiles == before.tiles && after.tile_count == before.tile_count,
        TilesetUpdate::UpdateBrush(i, brush) => after.brushes@ == (if i < before.brushes@.len() {
            before.brushes@.update(i as int, brush)
        } else {
            before.brushes@
        }) && after.tiles == before.tiles && after.tile_count == before.tile_count,
        TilesetUpdate::ChangeTileImage(gid, image) => after.tiles@ == before.tiles@.insert(
            gid,
            Tile { image: Some(image), ..tile_or_empty(before.tiles@, gid) },
        ) && after.brushes == before.brushes && after.tile_count == before.tile_count,
        TilesetUpdate::ChangeTileAnimation(gid, animation) => after.tiles@ == before.tiles@.insert(
            gid,
            Tile { animation: animation, ..tile_or_empty(before.tiles@, gid) },
        ) && after.brushes == before.brushes && after.tile_count == before.tile_count,
        TilesetUpdate::RemoveTile(gid) => after.tiles@ == before.tiles@.remove(gid)
            && after.brushes == before.brushes && is_largest_gid(after.tiles@, after.tile_count),
        TilesetUpdate::AddTile(gid, tile) => after.tiles@ == before.tiles@.insert(gid, tile)
            && after.brushes == before.brushes && is_largest_gid(after.tiles@, after.tile_count),
        TilesetUpdate::RemoveCollisionShape(gid) => after.tiles@ == before.tiles@.insert(
            gid,
            tile_or_empty(before.tiles@, gid),
        ) && after.brushes == before.brushes && after.tile_count == before.tile_count,
    }
}

/// The image loads an edit asks for: a changed tile image replaces the old
/// one where the tile had one, a removed tile's image is dropped, an added
/// tile's image is loaded.
pub open spec fn image_changes_of(before: Tileset, update: TilesetUpdate) -> (Option<Seq<char>>, Option<Seq<char>>) {
    match update {
        TilesetUpdate::ChangeTileImage(gid, image) => match tile_or_empty(before.tiles@, gid).image {
            Some(old) => (Some(old.path@), Some(image.path@)),
            None => (None, None),
        },
        TilesetUpdate::RemoveTile(gid) => if before.tiles@.contains_key(gid) {
            match before.tiles@[gid].image {
                Some(old) => (Some(old.path@), None),
                None => (None, None),
            }
        } else {
            (None, None)
        },
        TilesetUpdate::AddTile(gid, tile) => match tile.image {
            Some(image) => (None, Some(image.path@)),
            None => (None, None),
        },
        _ => (None, None),
    }
}

pub open spec fn changes_view(c: ImageChanges) -> (Option<Seq<char>>, Option<Seq<char>>) {
    (
        match c.unregister {
            Some(p) => Some(p@),
            None => None,
        },
        match c.register {
            Some(p) => Some(p@),
            None => None,
        },
    )
}

/// The largest gid among the tiles, or 0 without tiles.
fn largest_gid(tiles: &HashMap<u32, Tile>) -> (count: u32)
    ensures
        is_largest_gid(tiles@, count),
{
    let ghost m = tiles@;
    let ghost all = vstd::std_specs::iter::IteratorSpec::remaining(
        &vstd::std_specs::hash::spec_hash_map_iter(tiles),
    );
    let mut largest: u32 = 0;
    let mut seen = false;
    for (gid, tile) in it: tiles.iter()
        invariant
            it.seq() == all,
            m == tiles@,
            forall|i: int| 0 <= i < all.len() ==> m.contains_key(*(#[trigger] all[i]).0),
            forall|k: u32| #[trigger] m.contains_key(k) ==> all.contains((&k, &m[k])),
            seen == (it.index() > 0),
            seen ==> m.contains_key(largest),
            !seen ==> largest == 0,
            all.len() == m.dom().len(),
            forall|j: int| 0 <= j < it.index() ==> *(#[trigger] all[j]).0 <= largest,
    {
        let ghost idx = it.index();
        proof {
            assert((gid, tile) == all[idx]);
        }
        if !seen || *gid > largest {
            largest = *gid;
        }
        seen = true;
    }
    proof {
        if m.dom().is_empty() {
            assert(m.dom().len() == 0);
        } else {
            let k0 = m.dom().choose();
            assert(m.contains_key(k0));
            assert(all.contains((&k0, &m[k0])));
            assert forall|k: u32| #[trigger] m.contains_key(k) implies k <= largest by {
                assert(all.contains((&k, &m[k])));
                let j = choose|j: int| 0 <= j < all.len() && all[j] == (&k, &m[k]);
                assert(*all[j].0 == k);
            }
        }
    }
    largest
}

/// A tile that has nothing yet.
fn new_empty_tile() -> (tile: Tile)
    ensures
        tile == empty_tile(),
{
    Tile { id: 0, image: None, animation: None }
}

impl Tileset {
    /// Applies an edit of the editor and tells which image loads it asks of
    /// the modules that use the tileset.
    pub fn apply_update(&mut self, update: TilesetUpdate) -> (changes: ImageChanges)
        requires
            update matches TilesetUpdate::RemoveBrush(i) ==> i < old(self).brushes@.len(),
        ensures
            edited(*old(self), *final(self), update),
            changes_view(changes) == image_changes_of(*old(self), update),
    {
        let ghost before = *self;
        match update {
            TilesetUpdate::AddBrush(brush) => {
                self.brushes.push(brush);
                ImageChanges { unregister: None, register: None }
            },
            TilesetUpdate::RemoveBrush(i) => {
                self.brushes.remove(i);
                ImageChanges { unregister: None, register: None }
            },
            TilesetUpdate::UpdateBrush(i, brush) => {
                if i < self.brushes.len() {
                    self.brushes.set(i, brush);
                }
                ImageChanges { unregister: None, register: None }
            },
            TilesetUpdate::ChangeTileImage(gid, image) => {
                let new_path = image.path.clone();
                let mut tile = match self.tiles.remove(&gid) {
                    Some(tile) => tile,
                    None => new_empty_tile(),
                };
                let unregister = match &tile.image {
                    Some(old) => Some(old.path.clone()),
                    None => None,
                };
                let register = match &tile.image {
                    Some(old) => Some(new_path),
                    None => None,
                };
                tile.image = Some(image);
                self.tiles.insert(gid, tile);
                proof {
                    assert(self.tiles@ =~= before.tiles@.insert(
                        gid,
                        Tile { image: Some(image), ..tile_or_empty(before.tiles@, gid) },
                    ));
                }
                ImageChanges { unregister, register }
            },
            TilesetUpdate::ChangeTileAnimation(gid, animation) => {
                let mut tile = match self.tiles.remove(&gid) {
                    Some(tile) => tile,
                    None => new_empty_tile(),
                };
                tile.animation = animation;
                self.tiles.insert(gid, tile);
                proof {
                    assert(self.tiles@ =~= before.tiles@.insert(
                        gid,
                        Tile { animation: animation, ..tile_or_empty(before.tiles@, gid) },
                    ));
                }
                ImageChanges { unregister: None, register: None }
            },
            TilesetUpdate::RemoveTile(gid) => {
                let unregister = match self.tiles.remove(&gid) {
                    Some(tile) => match tile.image {
                        Some(image) => Some(image.path),
                        None => None,
                    },
                    None => None,
                };
                self.tile_count = largest_gid(&self.tiles);
                ImageChanges { unregister, register: None }
            },
            TilesetUpdate::AddTile(gid, tile) => {
                let register = match &tile.image {
                    Some(image) => Some(image.path.clone()),
                    None => None,
                };
                self.tiles.insert(gid, tile);
                self.tile_count = largest_gid(&self.tiles);
                ImageChanges { unregister: None, register }
            },
            TilesetUpdate::RemoveCollisionShape(gid) => {
                let tile = match self.tiles.remove(&gid) {
                    Some(tile) => tile,
                    None => new_empty_tile(),
                };
                self.tiles.insert(gid, tile);
                proof {
                    assert(self.tiles@ =~= before.tiles@.insert(gid, tile_or_empty(before.tiles@, gid)));
                }
                ImageChanges { unregister: None, register: None }
            },
        }
    }
}

/// Removing a tile that was just added gives back the tiles there were,
/// and drops the very image that adding it loaded.
pub proof fn lemma_add_then_remove_tile(before: Tileset, mid: Tileset, after: Tileset, gid: u32, tile: Tile)
    requires
        !before.tiles@.contains_key(gid),
        edited(before, mid, TilesetUpdate::AddTile(gid, tile)),
        edited(mid, after, TilesetUpdate::RemoveTile(gid)),
    ensures
        after.tiles@ == before.tiles@,
        image_changes_of(mid, TilesetUpdate::RemoveTile(gid)).0 == image_changes_of(
            before,
            TilesetUpdate::AddTile(gid, tile),
        ).1,
{
    assert(after.tiles@ =~= before.tiles@);
}

} // verus!
