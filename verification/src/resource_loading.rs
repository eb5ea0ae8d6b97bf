use vstd::prelude::*;

use crate::blueprint::{Audio, BlueprintResource, Font, ResourceKind, ResourcePath, Tileset};
use crate::blueprint_ops::image_paths_of;

verus! {

/// What kind of file a client loads.
#[derive(PartialEq, Eq, Structural, Clone, Copy, Debug)]
pub enum LoadResourceKind {
    Image,
    Font,
    Audio,
}

/// A file the clients of a module load.
pub struct LoadResource {
    pub path: String,
    pub kind: LoadResourceKind,
}

/// A blueprint resource, as loaded from its file.
pub enum LoadedResource {
    Tileset(Tileset),
    Font(Font),
    Audio(Audio),
}

/// The files to load for a resource whose file holds `loaded`: the images of
/// a tileset, the font file of a font, the resource path of an audio
/// resource; nothing for other kinds, or when the file could not be loaded
/// as the resource's kind.
pub open spec fn load_list(kind: ResourceKind, loaded: Option<LoadedResource>, result: Seq<LoadResource>) -> bool {
    match (kind, loaded) {
        (ResourceKind::Tileset, Some(LoadedResource::Tileset(t))) => exists|paths: Seq<ResourcePath>|
            {
                &&& image_paths_of(t, paths)
                &&& result.len() == paths.len()
                &&& forall|i: int|
                    0 <= i < paths.len() ==> (#[trigger] result[i]).kind == LoadResourceKind::Image
                        && result[i].path@ == paths[i]@
            },
        (ResourceKind::Font, Some(LoadedResource::Font(f))) => result.len() == 1 && result[0].kind
            == LoadResourceKind::Font && result[0].path@ == f.font_path@,
        (ResourceKind::Audio, Some(LoadedResource::Audio(a))) => result.len() == 1 && result[0].kind
            == LoadResourceKind::Audio && result[0].path@ == a.resource_path@,
        _ => result.len() == 0,
    }
}

/// The files the clients of a module load for one of its resources, given
/// what the resource's file held, if it could be loaded.
pub fn loading_resources_from_blueprint_resource(
    blueprint_resource: &BlueprintResource,
    loaded: Option<LoadedResource>,
) -> (resources: Vec<LoadResource>)
    ensures
        load_list(blueprint_resource.kind, loaded, resources@),
{
    let mut resources: Vec<LoadResource> = Vec::new();
    match (blueprint_resource.kind, loaded) {
        (ResourceKind::Tileset, Some(LoadedResource::Tileset(tileset))) => {
            let paths = tileset.get_image_paths();
            let mut i: usize = 0;
            while i < paths.len()
                invariant
                    i <= paths@.len(),
                    resources@.len() == i,
                    forall|k: int|
                        0 <= k < i ==> (#[trigger] resources@[k]).kind == LoadResourceKind::Image
                            && resources@[k].path@ == paths@[k]@,
                decreases paths@.len() - i,
            {
                resources.push(LoadResource { path: paths[i].clone(), kind: LoadResourceKind::Image });
                i = i + 1;
            }
        },
        (ResourceKind::Font, Some(LoadedResource::Font(font))) => {
            resources.push(LoadResource { path: font.font_path, kind: LoadResourceKind::Font });
        },
        (ResourceKind::Audio, Some(LoadedResource::Audio(audio))) => {
            resources.push(LoadResource { path: audio.resource_path, kind: LoadResourceKind::Audio });
        },
        _ => {},
    }
    resources
}

} // verus!
