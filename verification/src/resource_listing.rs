use vstd::prelude::*;

use crate::instances::{decimal_text, number_text, push_char};
use crate::util::same_text;

verus! {

/// How a listed resource of a module is loaded: as a tileset starting at a
/// gid, written in decimal, or as an image.
pub enum ListedResourceKind {
    TileSet { start_gid: String },
    Image,
}

/// A resource a module loads: where it lies, below the shared directory,
/// how it is loaded and the name it is known by.
pub struct ListedResource {
    pub path: String,
    pub kind: ListedResourceKind,
    pub meta_name: String,
}

/// The resources a module loads for a map.
pub struct ResourceListing {
    pub module_name: String,
    pub resources: Vec<ListedResource>,
}

/// What the resource list reads of a tileset's own file: its name, and
/// either one image for the whole set or the images of its tiles. Paths
/// are given by their components.
pub struct TilesetImages {
    pub name: String,
    pub image: Option<Vec<String>>,
    pub tile_images: Vec<Vec<String>>,
}

/// A tileset as a map refers to it: the first gid it takes, the path of its
/// file, and what that file holds where it could be read.
pub struct MapTileset {
    pub first_gid: u32,
    pub path: Vec<String>,
    pub info: Option<TilesetImages>,
}

pub open spec fn texts_view(v: Seq<String>) -> Seq<Seq<char>> {
    v.map_values(|s: String| s@)
}

/// The components after the last `shared` one; all of them when there is
/// none.
pub open spec fn after_shared(comps: Seq<Seq<char>>) -> Seq<Seq<char>>
    decreases comps.len(),
{
    if comps.len() == 0 {
        Seq::empty()
    } else if comps.last() == "shared"@ {
        Seq::empty()
    } else {
        after_shared(comps.drop_last()).push(comps.last())
    }
}

/// The parts joined by `/`.
pub open spec fn joined(parts: Seq<Seq<char>>) -> Seq<char>
    decreases parts.len(),
{
    if parts.len() == 0 {
        Seq::empty()
    } else if parts.len() == 1 {
        parts[0]
    } else {
        joined(parts.drop_last()) + seq!['/'] + parts.last()
    }
}

/// A path as the resource list writes it: relative to the shared
/// directory, with `/` between its components.
pub open spec fn relative_path(comps: Seq<Seq<char>>) -> Seq<char> {
    joined(after_shared(comps))
}

/// A file name with its four-character extension cut off.
pub open spec fn file_stem(comps: Seq<Seq<char>>) -> Seq<char> {
    comps.last().take(comps.last().len() - 4)
}

/// The path names a file whose name ends in four ASCII characters, as an
/// image's extension does.
pub open spec fn has_extension(comps: Seq<Seq<char>>) -> bool {
    &&& comps.len() > 0
    &&& comps.last().len() >= 4
    &&& forall|k: int| comps.last().len() - 4 <= k < comps.last().len() ==> (#[trigger] comps.last()[k]) as u32 <= 127
}

pub open spec fn listed_view(r: ListedResource) -> (Seq<char>, Option<Seq<char>>, Seq<char>) {
    (
        r.path@,
        match r.kind {
            ListedResourceKind::TileSet { start_gid } => Some(start_gid@),
            ListedResourceKind::Image => None,
        },
        r.meta_name@,
    )
}

pub open spec fn listing_view(rs: Seq<ListedResource>) -> Seq<(Seq<char>, Option<Seq<char>>, Seq<char>)> {
    rs.map_values(|r: ListedResource| listed_view(r))
}

/// The images of the tiles, each named after the tileset and its file.
pub open spec fn tile_image_entries(name: Seq<char>, images: Seq<Vec<String>>) -> Seq<
    (Seq<char>, Option<Seq<char>>, Seq<char>),
>
    decreases images.len(),
{
    if images.len() == 0 {
        Seq::empty()
    } else {
        let comps = texts_view(images.last()@);
        tile_image_entries(name, images.drop_last()).push((relative_path(comps), None, name + file_stem(comps)))
    }
}

/// What one tileset adds to the list: nothing when its file could not be
/// read; else the tileset itself, then its one image or its tiles' images.
pub open spec fn tileset_entries(t: MapTileset) -> Seq<(Seq<char>, Option<Seq<char>>, Seq<char>)> {
    match t.info {
        None => Seq::empty(),
        Some(info) => {
            let head = seq![(relative_path(texts_view(t.path@)), Some(decimal_text(t.first_gid as int)), info.name@)];
            match info.image {
                Some(img) => head.push((relative_path(texts_view(img@)), None, info.name@ + "Image"@)),
                None => head + tile_image_entries(info.name@, info.tile_images@),
            }
        },
    }
}

/// The list for all tilesets, in their order.
pub open spec fn listing_of(tilesets: Seq<MapTileset>) -> Seq<(Seq<char>, Option<Seq<char>>, Seq<char>)>
    decreases tilesets.len(),
{
    if tilesets.len() == 0 {
        Seq::empty()
    } else {
        listing_of(tilesets.drop_last()) + tileset_entries(tilesets.last())
    }
}

/// When the tileset lists its tiles' images, each names a file with an
/// extension.
pub open spec fn tileset_images_named(t: MapTileset) -> bool {
    match t.info {
        Some(info) => info.image is None ==> forall|j: int|
            0 <= j < info.tile_images@.len() ==> has_extension(texts_view(#[trigger] info.tile_images@[j]@)),
        None => true,
    }
}

/// Every tile image of a tileset that lists its tiles' images names a file
/// with an extension.
pub open spec fn tile_images_named(tilesets: Seq<MapTileset>) -> bool {
    forall|i: int| 0 <= i < tilesets.len() ==> tileset_images_named(#[trigger] tilesets[i])
}

/// Appends the characters of `s`.
fn append_text(text: &mut String, s: &str)
    ensures
        final(text)@ == old(text)@ + s@,
{
    let n = s.unicode_len();
    let mut i: usize = 0;
    while i < n
        invariant
            n == s@.len(),
            i <= n,
            text@ == old(text)@ + s@.take(i as int),
        decreases n - i,
    {
        push_char(text, s.get_char(i));
        proof {
            assert(s@.take(i + 1) =~= s@.take(i as int).push(s@[i as int]));
        }
        i = i + 1;
    }
    proof {
        assert(s@.take(n as int) =~= s@);
    }
}

/// When no component from `k` on is `shared` and the one before `k`, if
/// any, is, the components after the last `shared` are those from `k` on.
proof fn lemma_after_shared_from(comps: Seq<Seq<char>>, k: int)
    requires
        0 <= k <= comps.len(),
        k > 0 ==> comps[k - 1] == "shared"@,
        forall|j: int| k <= j < comps.len() ==> comps[j] != "shared"@,
    ensures
        after_shared(comps) == comps.subrange(k, comps.len() as int),
    decreases comps.len(),
{
    if comps.len() == k {
        assert(comps.subrange(k, comps.len() as int) =~= Seq::<Seq<char>>::empty());
        if k > 0 {
            assert(comps.last() == "shared"@);
        }
    } else {
        let rest = comps.drop_last();
        assert forall|j: int| k <= j < rest.len() implies rest[j] != "shared"@ by {
            assert(rest[j] == comps[j]);
        }
        if k > 0 {
            assert(rest[k - 1] == comps[k - 1]);
        }
        lemma_after_shared_from(rest, k);
        assert(comps.subrange(k, comps.len() as int) =~= rest.subrange(k, rest.len() as int).push(comps.last()));
    }
}

/// The path relative to the shared directory, its components joined by `/`.
pub fn get_relative_image_path(components: &Vec<String>) -> (path: String)
    ensures
        path@ == relative_path(texts_view(components@)),
{
    let ghost comps = texts_view(components@);
    let n = components.len();
    let mut k: usize = n;
    while k > 0 && !same_text(components[k - 1].as_str(), "shared")
        invariant
            n == components@.len(),
            comps == texts_view(components@),
            k <= n,
            forall|j: int| k <= j < n ==> comps[j] != "shared"@,
        decreases k,
    {
        k = k - 1;
    }
    proof {
        lemma_after_shared_from(comps, k as int);
    }
    let mut path = String::new();
    let mut j: usize = k;
    proof {
        assert(comps.subrange(k as int, k as int) =~= Seq::<Seq<char>>::empty());
    }
    while j < n
        invariant
            n == components@.len(),
            comps == texts_view(components@),
            k <= j <= n,
            path@ == joined(comps.subrange(k as int, j as int)),
        decreases n - j,
    {
        let ghost before = comps.subrange(k as int, j as int);
        if j > k {
            push_char(&mut path, '/');
        }
        append_text(&mut path, components[j].as_str());
        proof {
            let after = comps.subrange(k as int, j + 1);
            assert(after.drop_last() =~= before);
            assert(after.last() == components@[j as int]@);
            if j == k {
                assert(after.len() == 1);
                assert(path@ =~= after[0]);
            } else {
                assert(path@ =~= joined(before) + seq!['/'] + after.last());
            }
        }
        j = j + 1;
    }
    path
}

/// A tileset's name followed by the name of the image file without its
/// extension.
fn image_meta_name(tileset_name: &String, components: &Vec<String>) -> (name: String)
    requires
        has_extension(texts_view(components@)),
    ensures
        name@ == tileset_name@ + file_stem(texts_view(components@)),
{
    let ghost comps = texts_view(components@);
    let file = &components[components.len() - 1];
    assert(file@ == comps.last());
    let stop = file.unicode_len() - 4;
    let mut name = tileset_name.clone();
    let mut i: usize = 0;
    while i < stop
        invariant
            stop == file@.len() - 4,
            i <= stop,
            name@ == tileset_name@ + file@.take(i as int),
        decreases stop - i,
    {
        push_char(&mut name, file.as_str().get_char(i));
        proof {
            assert(file@.take(i + 1) =~= file@.take(i as int).push(file@[i as int]));
        }
        i = i + 1;
    }
    name
}

/// Lists the resources a map of the module needs: for each tileset whose
/// file could be read, the tileset at its first gid, then its one image or
/// else the image of each of its tiles.
pub fn tiled_map_resources(module_name: &str, tilesets: &Vec<MapTileset>) -> (listing: ResourceListing)
    requires
        tile_images_named(tilesets@),
    ensures
        listing.module_name@ == module_name@,
        listing_view(listing.resources@) == listing_of(tilesets@),
{
    let mut resources: Vec<ListedResource> = Vec::new();
    let mut t: usize = 0;
    proof {
        assert(tilesets@.take(0) =~= Seq::<MapTileset>::empty());
        assert(listing_view(resources@) =~= Seq::<(Seq<char>, Option<Seq<char>>, Seq<char>)>::empty());
    }
    while t < tilesets.len()
        invariant
            t <= tilesets@.len(),
            tile_images_named(tilesets@),
            listing_view(resources@) == listing_of(tilesets@.take(t as int)),
        decreases tilesets@.len() - t,
    {
        let tileset = &tilesets[t];
        let ghost start = resources@;
        proof {
            assert(tilesets@.take(t + 1).drop_last() =~= tilesets@.take(t as int));
            assert(tilesets@.take(t + 1).last() == tilesets@[t as int]);
        }
        match &tileset.info {
            Some(info) => {
                let start_gid = number_text(tileset.first_gid as i64);
                resources.push(
                    ListedResource {
                        path: get_relative_image_path(&tileset.path),
                        kind: ListedResourceKind::TileSet { start_gid },
                        meta_name: info.name.clone(),
                    },
                );
                match &info.image {
                    Some(image) => {
                        let mut meta_name = info.name.clone();
                        append_text(&mut meta_name, "Image");
                        resources.push(
                            ListedResource {
                                path: get_relative_image_path(image),
                                kind: ListedResourceKind::Image,
                                meta_name,
                            },
                        );
                        proof {
                            assert(listing_view(resources@) =~= listing_view(start) + tileset_entries(
                                tilesets@[t as int],
                            ));
                        }
                    },
                    None => {
                        let ghost head = resources@;
                        proof {
                            assert(info.tile_images@.take(0) =~= Seq::<Vec<String>>::empty());
                            assert(listing_view(head) =~= listing_view(start) + seq![
                                listed_view(head.last()),
                            ]);
                        }
                        let mut j: usize = 0;
                        while j < info.tile_images.len()
                            invariant
                                t < tilesets@.len(),
                                tileset == tilesets@[t as int],
                                tileset.info == Some(*info),
                                info.image is None,
                                tile_images_named(tilesets@),
                                j <= info.tile_images@.len(),
                                listing_view(resources@) == listing_view(head) + tile_image_entries(
                                    info.name@,
                                    info.tile_images@.take(j as int),
                                ),
                            decreases info.tile_images@.len() - j,
                        {
                            let image = &info.tile_images[j];
                            assert(has_extension(texts_view(info.tile_images@[j as int]@)));
                            let meta_name = image_meta_name(&info.name, image);
                            let ghost before = resources@;
                            resources.push(
                                ListedResource {
                                    path: get_relative_image_path(image),
                                    kind: ListedResourceKind::Image,
                                    meta_name,
                                },
                            );
                            proof {
                                let taken = info.tile_images@.take(j + 1);
                                assert(taken.drop_last() =~= info.tile_images@.take(j as int));
                                assert(taken.last() == info.tile_images@[j as int]);
                                assert(listing_view(resources@) =~= listing_view(before).push(
                                    listed_view(resources@.last()),
                                ));
                            }
                            j = j + 1;
                        }
                        proof {
                            assert(info.tile_images@.take(info.tile_images@.len() as int)
                                =~= info.tile_images@);
                            assert(listing_view(head) + tile_image_entries(info.name@, info.tile_images@)
                                =~= listing_view(start) + tileset_entries(tilesets@[t as int]));
                        }
                    },
                }
            },
            None => {
                proof {
                    assert(tileset_entries(tilesets@[t as int]) =~= Seq::<
                        (Seq<char>, Option<Seq<char>>, Seq<char>),
                    >::empty());
                    assert(listing_view(start) + tileset_entries(tilesets@[t as int]) =~= listing_view(start));
                }
            },
        }
        t = t + 1;
    }
    proof {
        assert(tilesets@.take(tilesets@.len() as int) =~= tilesets@);
    }
    let mut name = String::new();
    append_text(&mut name, module_name);
    ResourceListing { module_name: name, resources }
}

} // verus!
