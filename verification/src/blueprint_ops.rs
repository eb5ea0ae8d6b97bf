use vstd::hash_set::StringHashSet;
use vstd::prelude::*;

use crate::blueprint::{
    BlueprintResource, BlueprintService, CharAnimationToTilesetMap, Chunk, ChunkUpdate, Gid,
    GidMap, IOPoint, ResourceKind, ResourcePath, Tileset,
};

verus! {

/// The tile updates of a chunk update, one `(y, x, gid)` per update, rows
/// in order and each row in order.
pub open spec fn flat_updates(rows: Seq<(i32, Vec<(i32, Gid)>)>) -> Seq<(i32, i32, Gid)>
    decreases rows.len(),
{
    if rows.len() == 0 {
        Seq::empty()
    } else {
        let (y, row) = rows.last();
        flat_updates(rows.drop_last()) + row@.map_values(|p: (i32, Gid)| (y, p.0, p.1))
    }
}

/// The index into a chunk's data that the update of column `x` in row `y`
/// writes.
pub open spec fn tile_index(y: i32, x: i32, chunk_size: u32) -> int {
    y * (chunk_size as i32) + x
}

/// The tiles after applying `ups` one after another to `data`, and whether
/// any of them wrote a gid that differed from the one there. Updates whose
/// index falls outside the chunk are skipped.
pub open spec fn apply_updates(data: Seq<Gid>, chunk_size: u32, ups: Seq<(i32, i32, Gid)>) -> (Seq<Gid>, bool)
    decreases ups.len(),
{
    if ups.len() == 0 {
        (data, false)
    } else {
        let (d, changed) = apply_updates(data, chunk_size, ups.drop_last());
        let (y, x, gid) = ups.last();
        let i = tile_index(y, x, chunk_size);
        if (d.len() as i32) > i && i >= 0 && d[i] != gid {
            (d.update(i, gid), true)
        } else {
            (d, changed)
        }
    }
}

proof fn lemma_apply_updates_len(data: Seq<Gid>, chunk_size: u32, ups: Seq<(i32, i32, Gid)>)
    ensures
        apply_updates(data, chunk_size, ups).0.len() == data.len(),
    decreases ups.len(),
{
    if ups.len() > 0 {
        lemma_apply_updates_len(data, chunk_size, ups.drop_last());
    }
}

/// The resources of the given kind, in order.
pub open spec fn resources_of_kind(s: Seq<BlueprintResource>, kind: ResourceKind) -> Seq<BlueprintResource>
    decreases s.len(),
{
    if s.len() == 0 {
        Seq::empty()
    } else if s.last().kind == kind {
        resources_of_kind(s.drop_last(), kind).push(s.last())
    } else {
        resources_of_kind(s.drop_last(), kind)
    }
}

/// How many gids a tileset takes: its tile count when it is one image, the
/// number of its tiles otherwise.
pub open spec fn gid_count(t: Tileset) -> u32 {
    if t.image is Some {
        t.tile_count
    } else {
        t.tiles@.len() as u32
    }
}

/// The gids taken by all the tilesets, added as 32-bit counters add.
pub open spec fn gid_total(ts: Seq<Tileset>) -> u32
    decreases ts.len(),
{
    if ts.len() == 0 {
        0
    } else {
        vstd::wrapping::u32_specs::wrapping_add(gid_total(ts.drop_last()), gid_count(ts.last()))
    }
}

/// The paths and values of an association list, as a map; later pairs win.
/// `gids` numbers the tileset resources of `resources` in order, each from
/// the gid count of the tilesets before it, and `anims` pairs each character
/// animation resource with its tileset, as `tilesets` and
/// `char_animation_tilesets` give them.
pub open spec fn numbered_maps(
    resources: Seq<BlueprintResource>,
    tilesets: Seq<Tileset>,
    char_animation_tilesets: Seq<ResourcePath>,
    gids: Seq<(ResourcePath, Gid)>,
    anims: Seq<(ResourcePath, ResourcePath)>,
) -> bool {
    &&& gids.len() == tilesets.len()
    &&& forall|i: int|
        0 <= i < tilesets.len() ==> #[trigger] gids[i].0@ == resources_of_kind(resources, ResourceKind::Tileset)[i].path@
            && gids[i].1 == gid_total(tilesets.take(i))
    &&& unique_keys(anims)
    &&& pairs_view(anims) == zip_view(
        resources_of_kind(resources, ResourceKind::CharacterAnimation),
        char_animation_tilesets,
    )
}

pub open spec fn pairs_view(s: Seq<(ResourcePath, ResourcePath)>) -> Map<Seq<char>, Seq<char>>
    decreases s.len(),
{
    if s.len() == 0 {
        Map::empty()
    } else {
        pairs_view(s.drop_last()).insert(s.last().0@, s.last().1@)
    }
}

/// No path occurs twice.
pub open spec fn unique_keys(s: Seq<(ResourcePath, ResourcePath)>) -> bool {
    forall|i: int, j: int| 0 <= i < j < s.len() ==> s[i].0@ != s[j].0@
}

/// The map that pairing each path of `paths` with the value at the same
/// place gives, later pairs winning.
pub open spec fn zip_view(paths: Seq<BlueprintResource>, values: Seq<ResourcePath>) -> Map<Seq<char>, Seq<char>>
    decreases paths.len(),
{
    if paths.len() == 0 || paths.len() != values.len() {
        Map::empty()
    } else {
        zip_view(paths.drop_last(), values.drop_last()).insert(paths.last().path@, values.last()@)
    }
}

/// `paths` are the images to load for the tileset: its one image, or the
/// image of each tile that has one, each such tile once, in some order.
pub open spec fn image_paths_of(t: Tileset, paths: Seq<ResourcePath>) -> bool {
    match t.image {
        Some(image) => paths.len() == 1 && paths[0]@ == image.path@,
        None => exists|ids: Seq<u32>|
            {
                &&& ids.no_duplicates()
                &&& ids.to_set() == t.tiles@.dom().filter(|k: u32| t.tiles@[k].image is Some)
                &&& paths.len() == ids.len()
                &&& forall|i: int|
                    0 <= i < ids.len() ==> #[trigger] paths[i]@ == t.tiles@[ids[i]].image->Some_0.path@
            },
    }
}

impl Tileset {
    /// How many gids this tileset takes.
    pub fn gid_count(&self) -> (n: u32)
        ensures
            n == gid_count(*self),
    {
        if self.image.is_some() {
            self.tile_count
        } else {
            self.tiles.len() as u32
        }
    }

    /// The images to load for this tileset: its one image, or the image of
    /// each tile that has one, in the order the tiles are stored.
    pub fn get_image_paths(&self) -> (paths: Vec<ResourcePath>)
        ensures
            image_paths_of(*self, paths@),
    {
        if let Some(image) = &self.image {
            let mut paths = Vec::new();
            paths.push(image.path.clone());
            return paths;
        }
        let mut paths: Vec<ResourcePath> = Vec::new();
        let ghost mut ids: Seq<u32> = Seq::empty();
        let ghost tiles = self.tiles@;
        let ghost all = vstd::std_specs::iter::IteratorSpec::remaining(
            &vstd::std_specs::hash::spec_hash_map_iter(&self.tiles),
        );
        for (id, tile) in it: self.tiles.iter()
            invariant
                it.seq() == all,
                tiles == self.tiles@,
                all.no_duplicates(),
                forall|i: int|
                    0 <= i < all.len() ==> tiles.contains_key(*(#[trigger] all[i]).0) && tiles[*all[i].0]
                        == *all[i].1,
                forall|k: u32| #[trigger] tiles.contains_key(k) ==> all.contains((&k, &tiles[k])),
                ids.no_duplicates(),
                paths@.len() == ids.len(),
                forall|i: int|
                    0 <= i < ids.len() ==> #[trigger] paths@[i]@ == tiles[ids[i]].image->Some_0.path@,
                forall|k: u32|
                    #[trigger] ids.contains(k) <==> exists|j: int|
                        0 <= j < it.index() && *all[j].0 == k && all[j].1.image is Some,
        {
            let ghost idx = it.index();
            let ghost ids_before = ids;
            proof {
                assert((id, tile) == all[idx]);
            }
            if let Some(image) = &tile.image {
                proof {
                    assert forall|j: int| 0 <= j < idx && *all[j].0 == *id implies false by {
                        assert(all[j] == all[idx]);
                    }
                    assert(!ids.contains(*id));
                    ids = ids.push(*id);
                }
                paths.push(image.path.clone());
            }
            proof {
                assert forall|k: u32|
                    #[trigger] ids.contains(k) implies exists|j: int|
                        0 <= j < idx + 1 && *all[j].0 == k && all[j].1.image is Some by {
                    if ids_before.contains(k) {
                        let j = choose|j: int|
                            0 <= j < idx && *all[j].0 == k && all[j].1.image is Some;
                        assert(0 <= j < idx + 1 && *all[j].0 == k && all[j].1.image is Some);
                    } else {
                        assert(*all[idx].0 == k && all[idx].1.image is Some);
                    }
                }
                assert forall|k: u32|
                    (exists|j: int| 0 <= j < idx + 1 && *all[j].0 == k && all[j].1.image is Some)
                    implies #[trigger] ids.contains(k) by {
                    let j = choose|j: int|
                        0 <= j < idx + 1 && *all[j].0 == k && all[j].1.image is Some;
                    if j < idx {
                        assert(ids_before.contains(k));
                        let w = choose|w: int| 0 <= w < ids_before.len() && ids_before[w] == k;
                        assert(ids[w] == k);
                    } else {
                        assert(ids[ids.len() - 1] == k);
                    }
                }
            }
        }
        proof {
            assert(ids.to_set() =~= tiles.dom().filter(|k: u32| tiles[k].image is Some)) by {
                assert forall|k: u32|
                    tiles.dom().filter(|k: u32| tiles[k].image is Some).contains(k) implies ids.to_set().contains(
                    k,
                ) by {
                    assert(all.contains((&k, &tiles[k])));
                    let j = choose|j: int| 0 <= j < all.len() && all[j] == (&k, &tiles[k]);
                    assert(*all[j].0 == k);
                }
            }
        }
        paths
    }
}

/// Sets `key` to `value` in an association list without repeated keys.
pub fn insert_pair(pairs: &mut Vec<(ResourcePath, ResourcePath)>, key: ResourcePath, value: ResourcePath)
    requires
        unique_keys(old(pairs)@),
    ensures
        unique_keys(final(pairs)@),
        pairs_view(final(pairs)@) == pairs_view(old(pairs)@).insert(key@, value@),
{
    let mut i: usize = 0;
    while i < pairs.len()
        invariant
            *pairs == *old(pairs),
            unique_keys(pairs@),
            i <= pairs@.len(),
            forall|k: int| 0 <= k < i ==> pairs@[k].0@ != key@,
        decreases pairs@.len() - i,
    {
        if pairs[i].0 == key {
            let ghost before = pairs@;
            pairs.set(i, (key, value));
            proof {
                lemma_pairs_view_replace(before, i as int, key, value);
            }
            return;
        }
        i = i + 1;
    }
    pairs.push((key, value));
    proof {
        assert(pairs@.drop_last() =~= old(pairs)@);
    }
}

/// Replacing the value at the one place where a key occurs updates the map
/// at that key.
proof fn lemma_pairs_view_replace(
    s: Seq<(ResourcePath, ResourcePath)>,
    i: int,
    key: ResourcePath,
    value: ResourcePath,
)
    requires
        unique_keys(s),
        0 <= i < s.len(),
        s[i].0@ == key@,
    ensures
        pairs_view(s.update(i, (key, value))) == pairs_view(s).insert(key@, value@),
    decreases s.len(),
{
    let t = s.update(i, (key, value));
    if i == s.len() - 1 {
        assert(t.drop_last() =~= s.drop_last());
        assert(pairs_view(t) =~= pairs_view(s).insert(key@, value@));
    } else {
        lemma_pairs_view_replace(s.drop_last(), i, key, value);
        assert(t.drop_last() =~= s.drop_last().update(i, (key, value)));
        assert(s.last().0@ != key@);
        assert(pairs_view(t) =~= pairs_view(s).insert(key@, value@));
    }
}

impl BlueprintService {
    /// The first gid of each tileset resource, counting from 0 in the order of
    /// the resources, and the tileset of each character animation resource.
    /// `tilesets` holds the loaded tileset of each tileset resource and
    /// `char_animation_tilesets` the tileset path of each character animation
    /// resource, in the order of `resources`.
    #[verifier::spinoff_prover]
    #[verifier::rlimit(40)]
    pub fn generate_gid_and_char_anim_to_tileset_map(
        resources: &Vec<BlueprintResource>,
        tilesets: &Vec<Tileset>,
        char_animation_tilesets: &Vec<ResourcePath>,
    ) -> (maps: (GidMap, CharAnimationToTilesetMap))
        requires
            tilesets@.len() == resources_of_kind(resources@, ResourceKind::Tileset).len(),
            char_animation_tilesets@.len() == resources_of_kind(
                resources@,
                ResourceKind::CharacterAnimation,
            ).len(),
        ensures
            maps.0.0@.len() == tilesets@.len(),
            forall|i: int|
                0 <= i < tilesets@.len() ==> #[trigger] maps.0.0@[i].0@ == resources_of_kind(
                    resources@,
                    ResourceKind::Tileset,
                )[i].path@ && maps.0.0@[i].1 == gid_total(tilesets@.take(i)),
            unique_keys(maps.1.0@),
            pairs_view(maps.1.0@) == zip_view(
                resources_of_kind(resources@, ResourceKind::CharacterAnimation),
                char_animation_tilesets@,
            ),
    {
        let ghost whole = resources_of_kind(resources@, ResourceKind::Tileset);
        let tileset_count = tilesets.len();
        let mut gid_map: Vec<(ResourcePath, Gid)> = Vec::new();
        let mut current_count: u32 = 0;
        let mut t: usize = 0;
        let mut i: usize = 0;
        while i < resources.len()
            invariant
                i <= resources@.len(),
                tilesets@.len() == resources_of_kind(resources@, ResourceKind::Tileset).len(),
                t == resources_of_kind(resources@.take(i as int), ResourceKind::Tileset).len(),
                resources_of_kind(resources@.take(i as int), ResourceKind::Tileset)
                    == resources_of_kind(resources@, ResourceKind::Tileset).take(t as int),
                t <= tilesets@.len(),
                whole == resources_of_kind(resources@, ResourceKind::Tileset),
                tileset_count == tilesets@.len(),
                gid_map@.len() == t,
                current_count == gid_total(tilesets@.take(t as int)),
                forall|k: int|
                    0 <= k < t ==> #[trigger] gid_map@[k].0@ == whole[k].path@ && gid_map@[k].1
                        == gid_total(tilesets@.take(k)),
            decreases resources@.len() - i,
        {
            proof {
                lemma_resources_of_kind_prefix(resources@, i as int + 1, ResourceKind::Tileset);
                assert(resources@.take(i + 1).drop_last() =~= resources@.take(i as int));
                assert(resources@.take(i + 1).last() == resources@[i as int]);
                assert(resources_of_kind(resources@.take(i + 1), ResourceKind::Tileset) == (
                if resources@[i as int].kind == ResourceKind::Tileset {
                    resources_of_kind(resources@.take(i as int), ResourceKind::Tileset).push(resources@[i as int])
                } else {
                    resources_of_kind(resources@.take(i as int), ResourceKind::Tileset)
                }));
            }
            if resources[i].kind == ResourceKind::Tileset {
                proof {
                    assert(resources@.take(i + 1).last() == resources@[i as int]);
                    assert(resources_of_kind(resources@.take(i + 1), ResourceKind::Tileset)
                        == resources_of_kind(resources@.take(i as int), ResourceKind::Tileset).push(
                        resources@[i as int],
                    ));
                    assert(whole.take(t + 1)[t as int] == resources@[i as int]);
                    assert(whole[t as int] == resources@[i as int]);
                    assert(tilesets@.take(t + 1).drop_last() =~= tilesets@.take(t as int));
                }
                let ghost map_before = gid_map@;
                let ghost total_before = current_count;
                gid_map.push((resources[i].path.clone(), current_count));
                proof {
                    assert(t + 1 <= whole.len());
                    assert forall|k: int| 0 <= k < t + 1 implies #[trigger] gid_map@[k].0@ == whole[k].path@
                        && gid_map@[k].1 == gid_total(tilesets@.take(k)) by {
                        if k < t {
                            assert(gid_map@[k] == map_before[k]);
                            assert(map_before[k].0@ == whole[k].path@);
                        } else {
                            assert(gid_map@[k].0 == resources@[i as int].path);
                        }
                    }
                }
                current_count = current_count.wrapping_add(tilesets[t].gid_count());
                t = t + 1;
            }
            i = i + 1;
        }
        proof {
            assert(resources@.take(resources@.len() as int) =~= resources@);
        }
        let anim_map = Self::generate_character_animation_to_tileset_map(
            resources,
            char_animation_tilesets,
        );
        (GidMap(gid_map), anim_map)
    }

    /// The tileset of each character animation resource; `char_animation_tilesets`
    /// holds, in order, the tileset path of each character animation resource.
    pub fn generate_character_animation_to_tileset_map(
        resources: &Vec<BlueprintResource>,
        char_animation_tilesets: &Vec<ResourcePath>,
    ) -> (map: CharAnimationToTilesetMap)
        requires
            char_animation_tilesets@.len() == resources_of_kind(
                resources@,
                ResourceKind::CharacterAnimation,
            ).len(),
        ensures
            unique_keys(map.0@),
            pairs_view(map.0@) == zip_view(
                resources_of_kind(resources@, ResourceKind::CharacterAnimation),
                char_animation_tilesets@,
            ),
    {
        let ghost anims = resources_of_kind(resources@, ResourceKind::CharacterAnimation);
        let anim_count = char_animation_tilesets.len();
        let mut pairs: Vec<(ResourcePath, ResourcePath)> = Vec::new();
        let mut a: usize = 0;
        let mut i: usize = 0;
        while i < resources.len()
            invariant
                i <= resources@.len(),
                anims == resources_of_kind(resources@, ResourceKind::CharacterAnimation),
                char_animation_tilesets@.len() == anims.len(),
                anim_count == anims.len(),
                a == resources_of_kind(resources@.take(i as int), ResourceKind::CharacterAnimation).len(),
                resources_of_kind(resources@.take(i as int), ResourceKind::CharacterAnimation)
                    == anims.take(a as int),
                a <= anims.len(),
                unique_keys(pairs@),
                pairs_view(pairs@) == zip_view(anims.take(a as int), char_animation_tilesets@.take(a as int)),
            decreases resources@.len() - i,
        {
            proof {
                lemma_resources_of_kind_prefix(resources@, i as int + 1, ResourceKind::CharacterAnimation);
                assert(resources@.take(i + 1).drop_last() =~= resources@.take(i as int));
                assert(resources@.take(i + 1).last() == resources@[i as int]);
                assert(resources_of_kind(resources@.take(i + 1), ResourceKind::CharacterAnimation) == (
                if resources@[i as int].kind == ResourceKind::CharacterAnimation {
                    resources_of_kind(resources@.take(i as int), ResourceKind::CharacterAnimation).push(resources@[i as int])
                } else {
                    resources_of_kind(resources@.take(i as int), ResourceKind::CharacterAnimation)
                }));
            }
            if resources[i].kind == ResourceKind::CharacterAnimation {
                proof {
                    assert(resources@.take(i + 1).last() == resources@[i as int]);
                    assert(resources_of_kind(resources@.take(i + 1), ResourceKind::CharacterAnimation)
                        == resources_of_kind(resources@.take(i as int), ResourceKind::CharacterAnimation).push(
                        resources@[i as int],
                    ));
                    assert(anims.take(a + 1)[a as int] == resources@[i as int]);
                    assert(anims[a as int] == resources@[i as int]);
                    assert(anims.take(a + 1).drop_last() =~= anims.take(a as int));
                    assert(char_animation_tilesets@.take(a + 1).drop_last() =~= char_animation_tilesets@.take(a as int));
                }
                insert_pair(&mut pairs, resources[i].path.clone(), char_animation_tilesets[a].clone());
                a = a + 1;
            }
            i = i + 1;
        }
        proof {
            assert(resources@.take(resources@.len() as int) =~= resources@);
            assert(anims.take(anims.len() as int) =~= anims);
            assert(char_animation_tilesets@.take(anims.len() as int) =~= char_animation_tilesets@);
        }
        CharAnimationToTilesetMap(pairs)
    }

    /// The names of the points, as a set.
    pub fn io_points_to_hashset(points: &[IOPoint]) -> (names: StringHashSet)
        ensures
            names@ == points@.map_values(|p: IOPoint| p.name@).to_set(),
    {
        let mut names = StringHashSet::new();
        let mut i: usize = 0;
        while i < points.len()
            invariant
                i <= points@.len(),
                names@ == points@.take(i as int).map_values(|p: IOPoint| p.name@).to_set(),
            decreases points@.len() - i,
        {
            names.insert(points[i].name.clone());
            proof {
                assert(points@.take(i + 1).map_values(|p: IOPoint| p.name@) =~= points@.take(
                    i as int,
                ).map_values(|p: IOPoint| p.name@).push(points@[i as int].name@));
                points@.take(i as int).map_values(|p: IOPoint| p.name@).lemma_push_to_set_commute(
                    points@[i as int].name@,
                );
            }
            i = i + 1;
        }
        proof {
            assert(points@.take(points@.len() as int) =~= points@);
        }
        names
    }
}

/// The resources of a kind among the first `n` are a prefix of those among
/// all, and one longer exactly when the `n`-th resource has the kind.
proof fn lemma_resources_of_kind_prefix(s: Seq<BlueprintResource>, n: int, kind: ResourceKind)
    requires
        0 <= n <= s.len(),
    ensures
        resources_of_kind(s.take(n), kind) == resources_of_kind(s, kind).take(
            resources_of_kind(s.take(n), kind).len() as int,
        ),
        resources_of_kind(s.take(n), kind).len() <= resources_of_kind(s, kind).len(),
    decreases s.len(),
{
    if n == s.len() {
        assert(s.take(n) =~= s);
        assert(resources_of_kind(s, kind).take(resources_of_kind(s, kind).len() as int)
            =~= resources_of_kind(s, kind));
    } else {
        lemma_resources_of_kind_prefix(s.drop_last(), n, kind);
        assert(s.drop_last().take(n) =~= s.take(n));
        let p = resources_of_kind(s.take(n), kind);
        let whole = resources_of_kind(s.drop_last(), kind);
        if s.last().kind == kind {
            assert(resources_of_kind(s, kind) == whole.push(s.last()));
            assert(whole.push(s.last()).take(p.len() as int) =~= whole.take(p.len() as int));
        }
    }
}

impl Chunk {
    /// Writes the gids of the update into this chunk and tells whether any
    /// tile changed.
    pub fn apply_tile_updates(&mut self, chunk_size: u32, update: &ChunkUpdate) -> (changed: bool)
        requires
            forall|k: int|
                0 <= k < flat_updates(update.tile_updates@).len() ==> {
                    let (y, x, gid) = #[trigger] flat_updates(update.tile_updates@)[k];
                    i32::MIN <= y * (chunk_size as i32) <= i32::MAX && i32::MIN <= tile_index(
                        y,
                        x,
                        chunk_size,
                    ) <= i32::MAX
                },
        ensures
            final(self).position == old(self).position,
            (final(self).data@, changed) == apply_updates(
                old(self).data@,
                chunk_size,
                flat_updates(update.tile_updates@),
            ),
    {
        let ghost rows = update.tile_updates@;
        let ghost start = self.data@;
        let size = chunk_size as i32;
        let len = self.data.len() as i32;
        let mut changed = false;
        let mut r: usize = 0;
        while r < update.tile_updates.len()
            invariant
                rows == update.tile_updates@,
                r <= rows.len(),
                size == chunk_size as i32,
                len == start.len() as i32,
                self.position == old(self).position,
                forall|k: int|
                    0 <= k < flat_updates(rows).len() ==> {
                        let (y, x, gid) = #[trigger] flat_updates(rows)[k];
                        i32::MIN <= y * (chunk_size as i32) <= i32::MAX && i32::MIN <= tile_index(
                            y,
                            x,
                            chunk_size,
                        ) <= i32::MAX
                    },
                (self.data@, changed) == apply_updates(start, chunk_size, flat_updates(rows.take(r as int))),
            decreases rows.len() - r,
        {
            let y = update.tile_updates[r].0;
            let row = &update.tile_updates[r].1;
            let ghost done = flat_updates(rows.take(r as int));
            proof {
                assert(rows.take(r + 1).drop_last() =~= rows.take(r as int));
                assert(flat_updates(rows) =~= flat_updates(rows.take(r + 1)) + flat_updates(rows.skip(r + 1)))
                    by {
                    lemma_flat_updates_split(rows, r + 1);
                };
            }
            let mut c: usize = 0;
            while c < row.len()
                invariant
                    rows == update.tile_updates@,
                    r < rows.len(),
                    y == rows[r as int].0,
                    *row == rows[r as int].1,
                    c <= row@.len(),
                    size == chunk_size as i32,
                    len == start.len() as i32,
                    self.position == old(self).position,
                    done == flat_updates(rows.take(r as int)),
                    flat_updates(rows.take(r + 1)) == done + row@.map_values(
                        |p: (i32, Gid)| (y, p.0, p.1),
                    ),
                    forall|k: int|
                        0 <= k < flat_updates(rows).len() ==> {
                            let (yy, x, gid) = #[trigger] flat_updates(rows)[k];
                            i32::MIN <= yy * (chunk_size as i32) <= i32::MAX && i32::MIN
                                <= tile_index(yy, x, chunk_size) <= i32::MAX
                        },
                    flat_updates(rows) == flat_updates(rows.take(r + 1)) + flat_updates(
                        rows.skip(r + 1),
                    ),
                    (self.data@, changed) == apply_updates(
                        start,
                        chunk_size,
                        done + row@.map_values(|p: (i32, Gid)| (y, p.0, p.1)).take(c as int),
                    ),
                decreases row@.len() - c,
            {
                let (x, gid) = row[c];
                let ghost ups = done + row@.map_values(|p: (i32, Gid)| (y, p.0, p.1)).take(c as int);
                let ghost next = done + row@.map_values(|p: (i32, Gid)| (y, p.0, p.1)).take(c + 1);
                proof {
                    let k = done.len() + c;
                    assert(flat_updates(rows)[k] == (y, x, gid));
                    assert(next.drop_last() =~= ups);
                    assert(next.last() == (y, x, gid));
                    lemma_apply_updates_len(start, chunk_size, ups);
                }
                let i = y * size + x;
                if len > i && i >= 0 {
                    if self.data[i as usize] != gid {
                        self.data.set(i as usize, gid);
                        changed = true;
                    }
                }
                c = c + 1;
            }
            proof {
                assert(row@.map_values(|p: (i32, Gid)| (y, p.0, p.1)).take(row@.len() as int)
                    =~= row@.map_values(|p: (i32, Gid)| (y, p.0, p.1)));
            }
            r = r + 1;
        }
        proof {
            assert(rows.take(rows.len() as int) =~= rows);
        }
        changed
    }
}

proof fn lemma_flat_updates_split(rows: Seq<(i32, Vec<(i32, Gid)>)>, n: int)
    requires
        0 <= n <= rows.len(),
    ensures
        flat_updates(rows) == flat_updates(rows.take(n)) + flat_updates(rows.skip(n)),
    decreases rows.len(),
{
    if rows.len() == n {
        assert(rows.take(n) =~= rows);
        assert(rows.skip(n) =~= Seq::<(i32, Vec<(i32, Gid)>)>::empty());
        assert(flat_updates(rows) + Seq::<(i32, i32, Gid)>::empty() =~= flat_updates(rows));
    } else {
        lemma_flat_updates_split(rows.drop_last(), n);
        assert(rows.drop_last().take(n) =~= rows.take(n));
        assert(rows.skip(n).drop_last() =~= rows.drop_last().skip(n));
        assert(rows.skip(n).last() == rows.last());
        assert(flat_updates(rows.take(n)) + flat_updates(rows.skip(n)) =~= flat_updates(
            rows.take(n),
        ) + flat_updates(rows.drop_last().skip(n)) + rows.last().1@.map_values(
            |p: (i32, Gid)| (rows.last().0, p.0, p.1),
        ));
    }
}

/// No two updates write the same tile.
pub open spec fn distinct_tiles(ups: Seq<(i32, i32, Gid)>, chunk_size: u32) -> bool {
    forall|i: int, j: int|
        0 <= i < j < ups.len() ==> tile_index(ups[i].0, ups[i].1, chunk_size) != tile_index(
            ups[j].0,
            ups[j].1,
            chunk_size,
        )
}

/// A tile that no update writes keeps what was written there before.
proof fn lemma_apply_updates_frame(data: Seq<Gid>, chunk_size: u32, ups: Seq<(i32, i32, Gid)>, idx: int, gid: Gid)
    requires
        0 <= idx < data.len(),
        forall|k: int| 0 <= k < ups.len() ==> tile_index(ups[k].0, ups[k].1, chunk_size) != idx,
    ensures
        apply_updates(data.update(idx, gid), chunk_size, ups) == (
            apply_updates(data, chunk_size, ups).0.update(idx, gid),
            apply_updates(data, chunk_size, ups).1,
        ),
    decreases ups.len(),
{
    if ups.len() > 0 {
        lemma_apply_updates_frame(data, chunk_size, ups.drop_last(), idx, gid);
        lemma_apply_updates_len(data, chunk_size, ups.drop_last());
        let d = apply_updates(data, chunk_size, ups.drop_last()).0;
        let (y, x, g) = ups.last();
        let i = tile_index(y, x, chunk_size);
        assert(i != idx);
        if (d.len() as i32) > i && i >= 0 && d[i] != g {
            assert(d.update(idx, gid).update(i, g) =~= d.update(i, g).update(idx, gid));
        }
    }
}

/// Writing the same tile updates a second time changes nothing and reports
/// no change, when the updates write each tile at most once.
pub proof fn lemma_apply_updates_twice(data: Seq<Gid>, chunk_size: u32, ups: Seq<(i32, i32, Gid)>)
    requires
        distinct_tiles(ups, chunk_size),
    ensures
        apply_updates(apply_updates(data, chunk_size, ups).0, chunk_size, ups) == (
            apply_updates(data, chunk_size, ups).0,
            false,
        ),
    decreases ups.len(),
{
    if ups.len() > 0 {
        let rest = ups.drop_last();
        lemma_apply_updates_twice(data, chunk_size, rest);
        lemma_apply_updates_len(data, chunk_size, rest);
        let d1 = apply_updates(data, chunk_size, rest).0;
        let (y, x, g) = ups.last();
        let i = tile_index(y, x, chunk_size);
        if (d1.len() as i32) > i && i >= 0 && d1[i] != g {
            let f = d1.update(i, g);
            assert forall|k: int| 0 <= k < rest.len() implies tile_index(rest[k].0, rest[k].1, chunk_size)
                != i by {
                assert(rest[k] == ups[k]);
                assert(ups.last() == ups[ups.len() - 1]);
            }
            lemma_apply_updates_frame(d1, chunk_size, rest, i, g);
            lemma_apply_updates_len(f, chunk_size, rest);
        } else {
            lemma_apply_updates_len(d1, chunk_size, rest);
        }
    }
}

/// Some update lands on a tile of the chunk that held another gid.
pub open spec fn changes_some(data: Seq<Gid>, chunk_size: u32, ups: Seq<(i32, i32, Gid)>) -> bool {
    exists|k: int|
        0 <= k < ups.len() && 0 <= tile_index(ups[k].0, ups[k].1, chunk_size) < data.len() && data[tile_index(
            ups[k].0,
            ups[k].1,
            chunk_size,
        )] != (#[trigger] ups[k]).2
}

/// What a chunk update does, when it names each tile once: every tile it
/// names inside the chunk holds the update's gid afterwards, whatever that
/// gid is (0, the empty tile, included); every other tile keeps its gid;
/// and a change is reported exactly when some named tile held another gid.
pub proof fn lemma_apply_updates_writes(data: Seq<Gid>, chunk_size: u32, ups: Seq<(i32, i32, Gid)>)
    requires
        distinct_tiles(ups, chunk_size),
        data.len() <= i32::MAX,
    ensures
        apply_updates(data, chunk_size, ups).0.len() == data.len(),
        forall|k: int|
            0 <= k < ups.len() && 0 <= tile_index(ups[k].0, ups[k].1, chunk_size) < data.len()
                ==> apply_updates(data, chunk_size, ups).0[tile_index(ups[k].0, ups[k].1, chunk_size)] == (
            #[trigger] ups[k]).2,
        forall|j: int|
            0 <= j < data.len() && (forall|k: int| 0 <= k < ups.len() ==> tile_index(ups[k].0, ups[k].1, chunk_size) != j)
                ==> #[trigger] apply_updates(data, chunk_size, ups).0[j] == data[j],
        apply_updates(data, chunk_size, ups).1 == changes_some(data, chunk_size, ups),
    decreases ups.len(),
{
    lemma_apply_updates_len(data, chunk_size, ups);
    if ups.len() > 0 {
        let rest = ups.drop_last();
        assert(distinct_tiles(rest, chunk_size)) by {
            assert forall|a: int, b: int| 0 <= a < b < rest.len() implies tile_index(rest[a].0, rest[a].1, chunk_size)
                != tile_index(rest[b].0, rest[b].1, chunk_size) by {
                assert(rest[a] == ups[a] && rest[b] == ups[b]);
            }
        }
        lemma_apply_updates_writes(data, chunk_size, rest);
        lemma_apply_updates_len(data, chunk_size, rest);
        let (d, changed) = apply_updates(data, chunk_size, rest);
        let last = ups.len() - 1;
        let (y, x, g) = ups.last();
        assert(ups.last() == ups[last]);
        let i = tile_index(y, x, chunk_size);
        assert((d.len() as i32) as int == d.len());
        assert forall|k: int| 0 <= k < rest.len() implies tile_index(rest[k].0, rest[k].1, chunk_size) != i by {
            assert(rest[k] == ups[k]);
        }
        if 0 <= i < data.len() {
            assert(d[i] == data[i]);
        }
        let r = apply_updates(data, chunk_size, ups).0;
        assert forall|k: int|
            0 <= k < ups.len() && 0 <= tile_index(ups[k].0, ups[k].1, chunk_size) < data.len() implies r[tile_index(
            ups[k].0,
            ups[k].1,
            chunk_size,
        )] == (#[trigger] ups[k]).2 by {
            if k < last {
                assert(rest[k] == ups[k]);
                assert(tile_index(ups[k].0, ups[k].1, chunk_size) != i);
            }
        }
        assert forall|j: int|
            0 <= j < data.len() && (forall|k: int| 0 <= k < ups.len() ==> tile_index(ups[k].0, ups[k].1, chunk_size) != j)
                implies #[trigger] r[j] == data[j] by {
            assert(tile_index(ups[last].0, ups[last].1, chunk_size) != j);
            assert forall|k: int| 0 <= k < rest.len() implies tile_index(rest[k].0, rest[k].1, chunk_size) != j by {
                assert(rest[k] == ups[k]);
            }
        }
        if changes_some(data, chunk_size, ups) {
            let k = choose|k: int|
                0 <= k < ups.len() && 0 <= tile_index(ups[k].0, ups[k].1, chunk_size) < data.len() && data[tile_index(
                    ups[k].0,
                    ups[k].1,
                    chunk_size,
                )] != (#[trigger] ups[k]).2;
            if k < last {
                assert(rest[k] == ups[k]);
                assert(changes_some(data, chunk_size, rest));
            }
        }
        if changes_some(data, chunk_size, rest) {
            let k = choose|k: int|
                0 <= k < rest.len() && 0 <= tile_index(rest[k].0, rest[k].1, chunk_size) < data.len() && data[tile_index(
                    rest[k].0,
                    rest[k].1,
                    chunk_size,
                )] != (#[trigger] rest[k]).2;
            assert(rest[k] == ups[k]);
            assert(changes_some(data, chunk_size, ups));
        }
    }
}

} // verus!
