use vstd::prelude::*;

use crate::object_types::ObjectType;
use crate::util::same_text;

verus! {

/// A tile of an object's tileset as variants are read from it: its local
/// id and its `variant` and `tile_name` text properties, where it has them.
pub struct VariantTile {
    pub id: u32,
    pub variant: Option<String>,
    pub tile_name: Option<String>,
}

/// The ids of an object variant: the tile it starts at and the gid under
/// which each of its named tiles is found, in the order they were read.
pub struct VariantIds {
    pub start_id: u32,
    pub gids: Vec<(String, u32)>,
}

/// How the gids of a variant follow from those of the default variant. In
/// the default's own tileset a variant is as far from the default as its
/// first tile is from the default's; in a tileset of its own it is as far
/// as the two tilesets' first gids are apart.
#[derive(Clone, Copy)]
pub enum GidShift {
    WithinTileset { default_start_id: u32 },
    AcrossTilesets { variant_first_gid: u32, default_first_gid: u32 },
}

/// The tile marks the default variant.
pub open spec fn is_default_tile(t: VariantTile) -> bool {
    t.variant matches Some(v) && v@ == "default"@
}

/// The tile starts a variant other than the default.
pub open spec fn starts_variant(t: VariantTile) -> bool {
    t.variant matches Some(v) && v@ != "default"@
}

pub open spec fn gids_view(gids: Seq<(String, u32)>) -> Seq<(Seq<char>, int)> {
    gids.map_values(|p: (String, u32)| (p.0@, p.1 as int))
}

/// The id of the last tile that marks the default variant, if any does.
pub open spec fn last_default(tiles: Seq<VariantTile>) -> Option<u32>
    decreases tiles.len(),
{
    if tiles.len() == 0 {
        None
    } else if is_default_tile(tiles.last()) {
        Some(tiles.last().id)
    } else {
        last_default(tiles.drop_last())
    }
}

/// Each named tile with its gid, its id plus the tileset's first gid, in
/// the order of the tiles.
pub open spec fn named_gids(tiles: Seq<VariantTile>, first_gid: u32) -> Seq<(Seq<char>, int)>
    decreases tiles.len(),
{
    if tiles.len() == 0 {
        Seq::empty()
    } else {
        let rest = named_gids(tiles.drop_last(), first_gid);
        match tiles.last().tile_name {
            Some(n) => rest.push((n@, tiles.last().id + first_gid)),
            None => rest,
        }
    }
}

/// The gid of every named tile fits in a `u32`.
pub open spec fn gids_fit(tiles: Seq<VariantTile>, first_gid: u32) -> bool {
    forall|i: int|
        0 <= i < tiles.len() && (#[trigger] tiles[i]).tile_name is Some ==> tiles[i].id + first_gid <= u32::MAX
}

/// Reads the default variant of a tileset whose first gid is `first_gid`:
/// there is one when a tile is marked `default`, it starts at the last such
/// tile, and its gids are those of all named tiles.
pub fn get_default_variant(tiles: &Vec<VariantTile>, first_gid: u32) -> (variant: Option<VariantIds>)
    requires
        gids_fit(tiles@, first_gid),
    ensures
        match last_default(tiles@) {
            Some(start) => variant matches Some(v) && v.start_id == start && gids_view(v.gids@) == named_gids(
                tiles@,
                first_gid,
            ),
            None => variant is None,
        },
{
    let mut start: Option<u32> = None;
    let mut gids: Vec<(String, u32)> = Vec::new();
    let mut i: usize = 0;
    proof {
        assert(tiles@.take(0) =~= Seq::<VariantTile>::empty());
        assert(gids_view(gids@) =~= Seq::<(Seq<char>, int)>::empty());
    }
    while i < tiles.len()
        invariant
            i <= tiles@.len(),
            gids_fit(tiles@, first_gid),
            start == last_default(tiles@.take(i as int)),
            gids_view(gids@) == named_gids(tiles@.take(i as int), first_gid),
        decreases tiles@.len() - i,
    {
        let tile = &tiles[i];
        proof {
            assert(tiles@.take(i + 1).drop_last() =~= tiles@.take(i as int));
            assert(tiles@.take(i + 1).last() == tiles@[i as int]);
        }
        match &tile.variant {
            Some(v) => {
                if same_text(v.as_str(), "default") {
                    start = Some(tile.id);
                }
            },
            None => {},
        }
        match &tile.tile_name {
            Some(n) => {
                let ghost before = gids@;
                assert(tiles@[i as int].tile_name is Some);
                gids.push((n.clone(), tile.id + first_gid));
                proof {
                    assert(gids_view(gids@) =~= gids_view(before).push((n@, tile.id + first_gid)));
                }
            },
            None => {},
        }
        i = i + 1;
    }
    proof {
        assert(tiles@.take(tiles@.len() as int) =~= tiles@);
    }
    match start {
        Some(s) => Some(VariantIds { start_id: s, gids }),
        None => None,
    }
}

/// How far a variant starting at `start_id` lies from the default.
pub open spec fn shift_offset(shift: GidShift, start_id: u32) -> int {
    match shift {
        GidShift::WithinTileset { default_start_id } => start_id - default_start_id,
        GidShift::AcrossTilesets { variant_first_gid, default_first_gid } => variant_first_gid - default_first_gid,
    }
}

/// The gid that a default gid becomes in the variant starting at
/// `start_id`. Across tilesets the sum is taken as a signed 32-bit number,
/// so one below zero comes out as that number modulo 2^32.
pub open spec fn shifted_gid(shift: GidShift, start_id: u32, gid: int) -> int {
    let x = gid + shift_offset(shift, start_id);
    if x < 0 {
        x + 0x1_0000_0000
    } else {
        x
    }
}

/// Shifting the default gid `gid` stays inside the numbers it is computed
/// in: unsigned within the tileset, where the variant cannot start before
/// the default, and signed 32-bit across tilesets.
pub open spec fn shift_fits(shift: GidShift, start_id: u32, gid: int) -> bool {
    match shift {
        GidShift::WithinTileset { default_start_id } => default_start_id <= start_id && gid + (start_id
            - default_start_id) <= u32::MAX,
        GidShift::AcrossTilesets { variant_first_gid, default_first_gid } => {
            &&& variant_first_gid <= i32::MAX
            &&& default_first_gid <= i32::MAX
            &&& gid <= i32::MAX
            &&& gid + variant_first_gid - default_first_gid <= i32::MAX
        },
    }
}

pub open spec fn shifted(defaults: Seq<(Seq<char>, int)>, shift: GidShift, start_id: u32) -> Seq<(Seq<char>, int)> {
    defaults.map_values(|p: (Seq<char>, int)| (p.0, shifted_gid(shift, start_id, p.1)))
}

/// Every variant that a tile starts, with its name, its first tile and its
/// gids, in the order of the tiles.
pub open spec fn variant_entries(
    tiles: Seq<VariantTile>,
    defaults: Seq<(Seq<char>, int)>,
    shift: GidShift,
) -> Seq<(Seq<char>, u32, Seq<(Seq<char>, int)>)>
    decreases tiles.len(),
{
    if tiles.len() == 0 {
        Seq::empty()
    } else {
        let rest = variant_entries(tiles.drop_last(), defaults, shift);
        let t = tiles.last();
        match t.variant {
            Some(v) => if v@ != "default"@ {
                rest.push((v@, t.id, shifted(defaults, shift, t.id)))
            } else {
                rest
            },
            None => rest,
        }
    }
}

/// Every shift that the tiles call for stays inside its numbers.
pub open spec fn shifts_fit(tiles: Seq<VariantTile>, defaults: Seq<(Seq<char>, int)>, shift: GidShift) -> bool {
    forall|i: int, k: int|
        0 <= i < tiles.len() && 0 <= k < defaults.len() && starts_variant(#[trigger] tiles[i]) ==> shift_fits(
            shift,
            tiles[i].id,
            (#[trigger] defaults[k]).1,
        )
}

pub open spec fn entries_view(vs: Seq<(String, VariantIds)>) -> Seq<(Seq<char>, u32, Seq<(Seq<char>, int)>)> {
    vs.map_values(|e: (String, VariantIds)| (e.0@, e.1.start_id, gids_view(e.1.gids@)))
}

/// The default gids moved to the variant starting at `start_id`.
fn shift_gids(defaults: &Vec<(String, u32)>, shift: GidShift, start_id: u32) -> (gids: Vec<(String, u32)>)
    requires
        forall|k: int| 0 <= k < defaults@.len() ==> shift_fits(shift, start_id, (#[trigger] defaults@[k]).1 as int),
    ensures
        gids_view(gids@) == shifted(gids_view(defaults@), shift, start_id),
{
    let mut gids: Vec<(String, u32)> = Vec::new();
    let mut k: usize = 0;
    while k < defaults.len()
        invariant
            k <= defaults@.len(),
            forall|j: int| 0 <= j < defaults@.len() ==> shift_fits(shift, start_id, (#[trigger] defaults@[j]).1 as int),
            gids_view(gids@) == shifted(gids_view(defaults@.take(k as int)), shift, start_id),
        decreases defaults@.len() - k,
    {
        let (name, gid) = &defaults[k];
        assert(shift_fits(shift, start_id, defaults@[k as int].1 as int));
        let moved: u32 = match shift {
            GidShift::WithinTileset { default_start_id } => *gid + (start_id - default_start_id),
            GidShift::AcrossTilesets { variant_first_gid, default_first_gid } => {
                let sum: i64 = *gid as i64 + (variant_first_gid as i64 - default_first_gid as i64);
                if sum < 0 {
                    (sum + 0x1_0000_0000i64) as u32
                } else {
                    sum as u32
                }
            },
        };
        let ghost before = gids@;
        gids.push((name.clone(), moved));
        proof {
            assert(moved == shifted_gid(shift, start_id, *gid as int));
            assert(gids_view(defaults@.take(k + 1)) =~= gids_view(defaults@.take(k as int)).push(
                (name@, *gid as int),
            ));
            assert(gids_view(gids@) =~= gids_view(before).push((name@, moved as int)));
            assert(shifted(gids_view(defaults@.take(k + 1)), shift, start_id) =~= shifted(
                gids_view(defaults@.take(k as int)),
                shift,
                start_id,
            ).push((name@, shifted_gid(shift, start_id, *gid as int))));
        }
        k = k + 1;
    }
    proof {
        assert(defaults@.take(defaults@.len() as int) =~= defaults@);
    }
    gids
}

/// Reads the variants a tileset holds besides the default: each tile marked
/// with a variant name other than `default` starts that variant, whose gids
/// are the default's moved by `shift`.
pub fn tileset_variants(tiles: &Vec<VariantTile>, defaults: &Vec<(String, u32)>, shift: GidShift) -> (variants: Vec<
    (String, VariantIds),
>)
    requires
        shifts_fit(tiles@, gids_view(defaults@), shift),
    ensures
        entries_view(variants@) == variant_entries(tiles@, gids_view(defaults@), shift),
{
    let mut variants: Vec<(String, VariantIds)> = Vec::new();
    let mut i: usize = 0;
    proof {
        assert(tiles@.take(0) =~= Seq::<VariantTile>::empty());
        assert(entries_view(variants@) =~= variant_entries(tiles@.take(0), gids_view(defaults@), shift));
    }
    while i < tiles.len()
        invariant
            i <= tiles@.len(),
            shifts_fit(tiles@, gids_view(defaults@), shift),
            entries_view(variants@) == variant_entries(tiles@.take(i as int), gids_view(defaults@), shift),
        decreases tiles@.len() - i,
    {
        let tile = &tiles[i];
        proof {
            assert(tiles@.take(i + 1).drop_last() =~= tiles@.take(i as int));
            assert(tiles@.take(i + 1).last() == tiles@[i as int]);
        }
        match &tile.variant {
            Some(v) => {
                if !same_text(v.as_str(), "default") {
                    proof {
                        assert(starts_variant(tiles@[i as int]));
                        assert forall|k: int| 0 <= k < defaults@.len() implies shift_fits(
                            shift,
                            tile.id,
                            (#[trigger] defaults@[k]).1 as int,
                        ) by {
                            assert(starts_variant(tiles@[i as int]));
                            assert(gids_view(defaults@)[k].1 == defaults@[k].1 as int);
                        }
                    }
                    let gids = shift_gids(defaults, shift, tile.id);
                    let ghost before = variants@;
                    variants.push((v.clone(), VariantIds { start_id: tile.id, gids }));
                    proof {
                        assert(entries_view(variants@) =~= entries_view(before).push(
                            (v@, tile.id, shifted(gids_view(defaults@), shift, tile.id)),
                        ));
                    }
                }
            },
            None => {},
        }
        i = i + 1;
    }
    proof {
        assert(tiles@.take(tiles@.len() as int) =~= tiles@);
    }
    variants
}

/// `needle` occurs in `hay`; an empty one occurs in every text.
pub open spec fn contains_text(hay: Seq<char>, needle: Seq<char>) -> bool {
    exists|i: int| 0 <= i && i + needle.len() <= hay.len() && #[trigger] hay.subrange(i, i + needle.len()) == needle
}

/// A tileset of this name holds variants of the object: the name has
/// exactly one underscore, and the object's name occurs before it.
pub open spec fn names_variants_of(tileset: Seq<char>, object: Seq<char>) -> bool {
    exists|u: int|
        0 <= u < tileset.len() && #[trigger] tileset[u] == '_' && (forall|j: int|
            0 <= j < tileset.len() && j != u ==> tileset[j] != '_') && contains_text(tileset.take(u), object)
}

/// Whether `needle` is found in `hay` at `at`.
fn found_at(hay: &str, at: usize, needle: &str) -> (found: bool)
    requires
        at + needle@.len() <= hay@.len(),
    ensures
        found == (hay@.subrange(at as int, at + needle@.len()) == needle@),
{
    let m = needle.unicode_len();
    let n = hay.unicode_len();
    let mut k: usize = 0;
    while k < m
        invariant
            m == needle@.len(),
            n == hay@.len(),
            at + m <= hay@.len(),
            k <= m,
            forall|j: int| 0 <= j < k ==> hay@[at + j] == needle@[j],
        decreases m - k,
    {
        if hay.get_char(at + k) != needle.get_char(k) {
            assert(hay@.subrange(at as int, at + m)[k as int] != needle@[k as int]);
            return false;
        }
        k = k + 1;
    }
    assert(hay@.subrange(at as int, at + m) =~= needle@);
    true
}

/// Whether a tileset of this name holds variants of the object named
/// `object_type_name`, as the tilesets of a module are searched for them.
pub fn names_variant_tileset(tileset_name: &str, object_type_name: &str) -> (names: bool)
    ensures
        names == names_variants_of(tileset_name@, object_type_name@),
{
    let n = tileset_name.unicode_len();
    let ghost s = tileset_name@;
    let mut under: Option<usize> = None;
    let mut i: usize = 0;
    while i < n
        invariant
            n == s.len(),
            s == tileset_name@,
            i <= n,
            match under {
                None => forall|j: int| 0 <= j < i ==> s[j] != '_',
                Some(u) => u < i && s[u as int] == '_' && forall|j: int| 0 <= j < i && j != u ==> s[j] != '_',
            },
        decreases n - i,
    {
        if tileset_name.get_char(i) == '_' {
            match under {
                Some(u) => {
                    proof {
                        assert forall|v: int|
                            0 <= v < s.len() && #[trigger] s[v] == '_' implies !(forall|j: int|
                                0 <= j < s.len() && j != v ==> s[j] != '_') by {
                            if v != i {
                                assert(s[i as int] == '_');
                            } else {
                                assert(s[u as int] == '_');
                            }
                        }
                    }
                    return false;
                },
                None => {
                    under = Some(i);
                },
            }
        }
        i = i + 1;
    }
    let u = match under {
        Some(u) => u,
        None => {
            return false;
        },
    };
    proof {
        assert forall|v: int|
            0 <= v < s.len() && #[trigger] s[v] == '_' implies v == u by {}
    }
    let m = object_type_name.unicode_len();
    if m > u {
        proof {
            assert(!contains_text(s.take(u as int), object_type_name@));
        }
        return false;
    }
    let mut at: usize = 0;
    while at + m <= u
        invariant
            n == s.len(),
            s == tileset_name@,
            m == object_type_name@.len(),
            u < n,
            s[u as int] == '_',
            forall|j: int| 0 <= j < s.len() && j != u ==> #[trigger] s[j] != '_',
            m <= u,
            at <= u - m + 1,
            forall|j: int| 0 <= j < at ==> #[trigger] s.take(u as int).subrange(j, j + m) != object_type_name@,
        decreases u + 1 - at,
    {
        let found = found_at(tileset_name, at, object_type_name);
        proof {
            assert(s.take(u as int).subrange(at as int, at + m) =~= s.subrange(at as int, at + m));
        }
        if found {
            proof {
                assert(contains_text(s.take(u as int), object_type_name@));
                assert(s[u as int] == '_');
                assert(forall|j: int| 0 <= j < s.len() && j != u ==> s[j] != '_');
            }
            return true;
        }
        at = at + 1;
    }
    proof {
        assert(!contains_text(s.take(u as int), object_type_name@));
    }
    false
}

/// A tileset of a module as the variants of object types are read from
/// it: its name, the first gid it takes and its tiles.
pub struct VariantTileset {
    pub name: String,
    pub first_gid: u32,
    pub tiles: Vec<VariantTile>,
}

/// No two tilesets share a name.
pub open spec fn unique_tileset_names(ts: Seq<VariantTileset>) -> bool {
    forall|i: int, j: int| 0 <= i < j < ts.len() ==> (#[trigger] ts[i]).name@ != (#[trigger] ts[j]).name@
}

/// A tileset has the name.
pub open spec fn has_tileset(ts: Seq<VariantTileset>, name: Seq<char>) -> bool {
    exists|i: int| 0 <= i < ts.len() && (#[trigger] ts[i]).name@ == name
}

/// Where the tileset of the name stands.
pub open spec fn tileset_index(ts: Seq<VariantTileset>, name: Seq<char>) -> int {
    choose|i: int| 0 <= i < ts.len() && (#[trigger] ts[i]).name@ == name
}

/// The variants that the tilesets named after the object hold, in the order
/// of the tilesets.
pub open spec fn across_entries(
    ts: Seq<VariantTileset>,
    object: Seq<char>,
    defaults: Seq<(Seq<char>, int)>,
    default_first_gid: u32,
) -> Seq<(Seq<char>, u32, Seq<(Seq<char>, int)>)>
    decreases ts.len(),
{
    if ts.len() == 0 {
        Seq::empty()
    } else {
        let t = ts.last();
        across_entries(ts.drop_last(), object, defaults, default_first_gid) + if names_variants_of(t.name@, object) {
            variant_entries(
                t.tiles@,
                defaults,
                GidShift::AcrossTilesets { variant_first_gid: t.first_gid, default_first_gid },
            )
        } else {
            Seq::empty()
        }
    }
}

/// The shifts into every tileset named after the object stay inside their
/// numbers.
pub open spec fn across_fit(
    ts: Seq<VariantTileset>,
    object: Seq<char>,
    defaults: Seq<(Seq<char>, int)>,
    default_first_gid: u32,
) -> bool {
    forall|j: int|
        0 <= j < ts.len() && names_variants_of((#[trigger] ts[j]).name@, object) ==> shifts_fit(
            ts[j].tiles@,
            defaults,
            GidShift::AcrossTilesets { variant_first_gid: ts[j].first_gid, default_first_gid },
        )
}

/// The variants of the object, when a tileset has its name and marks a
/// default: the default first, then the other variants of that tileset,
/// then those of the tilesets named after the object.
pub open spec fn found_variants(ts: Seq<VariantTileset>, object: Seq<char>) -> Option<
    Seq<(Seq<char>, u32, Seq<(Seq<char>, int)>)>,
> {
    if has_tileset(ts, object) {
        let own = ts[tileset_index(ts, object)];
        match last_default(own.tiles@) {
            Some(start) => {
                let defaults = named_gids(own.tiles@, own.first_gid);
                Some(
                    seq![("default"@, start, defaults)] + variant_entries(
                        own.tiles@,
                        defaults,
                        GidShift::WithinTileset { default_start_id: start },
                    ) + across_entries(ts, object, defaults, own.first_gid),
                )
            },
            None => None,
        }
    } else {
        None
    }
}

/// Every gid the reading of the object's variants computes fits the numbers
/// it is computed in.
pub open spec fn variants_fit(ts: Seq<VariantTileset>, object: Seq<char>) -> bool {
    has_tileset(ts, object) ==> {
        let own = ts[tileset_index(ts, object)];
        &&& gids_fit(own.tiles@, own.first_gid)
        &&& match last_default(own.tiles@) {
            Some(start) => {
                let defaults = named_gids(own.tiles@, own.first_gid);
                &&& shifts_fit(own.tiles@, defaults, GidShift::WithinTileset { default_start_id: start })
                &&& across_fit(ts, object, defaults, own.first_gid)
            },
            None => true,
        }
    }
}

/// Adds to the object type the variants its tilesets hold: none when no
/// tileset has the object's name or that tileset marks no default;
/// otherwise the default, the tileset's other variants and those of every
/// tileset named after the object, after the variants it had.
pub fn extract_variants(tilesets: &Vec<VariantTileset>, object_type: &mut ObjectType)
    requires
        unique_tileset_names(tilesets@),
        variants_fit(tilesets@, old(object_type).name@),
    ensures
        final(object_type).name == old(object_type).name,
        final(object_type).props == old(object_type).props,
        final(object_type).physics == old(object_type).physics,
        final(object_type).physics_position == old(object_type).physics_position,
        final(object_type).layer_name == old(object_type).layer_name,
        final(object_type).render == old(object_type).render,
        entries_view(final(object_type).variants@) == match found_variants(tilesets@, old(object_type).name@) {
            Some(found) => entries_view(old(object_type).variants@) + found,
            None => entries_view(old(object_type).variants@),
        },
{
    let ghost object = object_type.name@;
    let mut own: Option<usize> = None;
    let mut i: usize = 0;
    while i < tilesets.len()
        invariant
            i <= tilesets@.len(),
            object == object_type.name@,
            match own {
                None => forall|j: int| 0 <= j < i ==> (#[trigger] tilesets@[j]).name@ != object,
                Some(k) => k < i && tilesets@[k as int].name@ == object,
            },
        decreases tilesets@.len() - i,
    {
        if own.is_none() && same_text(tilesets[i].name.as_str(), object_type.name.as_str()) {
            own = Some(i);
        }
        i = i + 1;
    }
    let k = match own {
        Some(k) => k,
        None => {
            return;
        },
    };
    proof {
        assert(has_tileset(tilesets@, object));
        let c = tileset_index(tilesets@, object);
        if c != k {
            if c < k {
                assert(tilesets@[c].name@ != tilesets@[k as int].name@);
            } else {
                assert(tilesets@[k as int].name@ != tilesets@[c].name@);
            }
        }
    }
    let own_tileset = &tilesets[k];
    let default = match get_default_variant(&own_tileset.tiles, own_tileset.first_gid) {
        Some(d) => d,
        None => {
            return;
        },
    };
    let ghost defaults = gids_view(default.gids@);
    let own_variants = tileset_variants(
        &own_tileset.tiles,
        &default.gids,
        GidShift::WithinTileset { default_start_id: default.start_id },
    );
    let mut across: Vec<(String, VariantIds)> = Vec::new();
    let mut j: usize = 0;
    proof {
        assert(tilesets@.take(0) =~= Seq::<VariantTileset>::empty());
        assert(entries_view(across@) =~= Seq::<(Seq<char>, u32, Seq<(Seq<char>, int)>)>::empty());
    }
    while j < tilesets.len()
        invariant
            j <= tilesets@.len(),
            k < tilesets@.len(),
            object == object_type.name@,
            defaults == gids_view(default.gids@),
            defaults == named_gids(tilesets@[k as int].tiles@, tilesets@[k as int].first_gid),
            own_tileset == tilesets@[k as int],
            across_fit(tilesets@, object, defaults, own_tileset.first_gid),
            entries_view(across@) == across_entries(tilesets@.take(j as int), object, defaults, own_tileset.first_gid),
        decreases tilesets@.len() - j,
    {
        let t = &tilesets[j];
        proof {
            assert(tilesets@.take(j + 1).drop_last() =~= tilesets@.take(j as int));
            assert(tilesets@.take(j + 1).last() == tilesets@[j as int]);
        }
        let ghost before = across@;
        if names_variant_tileset(t.name.as_str(), object_type.name.as_str()) {
            let mut found = tileset_variants(
                &t.tiles,
                &default.gids,
                GidShift::AcrossTilesets { variant_first_gid: t.first_gid, default_first_gid: own_tileset.first_gid },
            );
            let ghost got = found@;
            across.append(&mut found);
            proof {
                assert(entries_view(across@) =~= entries_view(before) + entries_view(got));
            }
        } else {
            proof {
                assert(entries_view(across@) =~= entries_view(before) + Seq::<(Seq<char>, u32, Seq<(Seq<char>, int)>)>::empty());
            }
        }
        j = j + 1;
    }
    proof {
        assert(tilesets@.take(tilesets@.len() as int) =~= tilesets@);
    }
    let ghost start_id = default.start_id;
    let ghost old_variants = object_type.variants@;
    let mut own_variants = own_variants;
    object_type.variants.push((String::from_str("default"), default));
    object_type.variants.append(&mut own_variants);
    object_type.variants.append(&mut across);
    proof {
        let head: Seq<(Seq<char>, u32, Seq<(Seq<char>, int)>)> = seq![("default"@, start_id, defaults)];
        assert(entries_view(object_type.variants@) =~= entries_view(old_variants) + head + variant_entries(
            tilesets@[k as int].tiles@,
            defaults,
            GidShift::WithinTileset { default_start_id: start_id },
        ) + across_entries(tilesets@, object, defaults, own_tileset.first_gid));
    }
}

} // verus!
