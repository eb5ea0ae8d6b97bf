use shiku_home::resource_listing::{
    get_relative_image_path, tiled_map_resources, ListedResource, ListedResourceKind, MapTileset, TilesetImages,
};

fn comps(path: &str) -> Vec<String> {
    path.split('/').map(|c| c.to_string()).collect()
}

fn view(r: &ListedResource) -> (String, Option<String>, String) {
    let kind = match &r.kind {
        ListedResourceKind::TileSet { start_gid } => Some(start_gid.clone()),
        ListedResourceKind::Image => None,
    };
    (r.path.clone(), kind, r.meta_name.clone())
}

#[test]
fn relative_path_starts_after_the_last_shared_component() {
    assert_eq!(get_relative_image_path(&comps("home/shared/forest/tiles.png")), "forest/tiles.png");
    assert_eq!(get_relative_image_path(&comps("shared/a/shared/b.png")), "b.png");
    assert_eq!(get_relative_image_path(&comps("x/y.png")), "x/y.png");
    assert_eq!(get_relative_image_path(&comps("x/shared")), "");
    assert_eq!(get_relative_image_path(&Vec::new()), "");
}

#[test]
fn tileset_with_one_image_lists_itself_and_the_image() {
    let tilesets = vec![MapTileset {
        first_gid: 17,
        path: comps("root/shared/forest/forest.tsx"),
        info: Some(TilesetImages {
            name: "forest".to_string(),
            image: Some(comps("root/shared/forest/forest.png")),
            tile_images: Vec::new(),
        }),
    }];
    let listing = tiled_map_resources("Woods", &tilesets);
    assert_eq!(listing.module_name, "Woods");
    let views: Vec<_> = listing.resources.iter().map(view).collect();
    assert_eq!(
        views,
        vec![
            ("forest/forest.tsx".to_string(), Some("17".to_string()), "forest".to_string()),
            ("forest/forest.png".to_string(), None, "forestImage".to_string()),
        ]
    );
}

#[test]
fn tileset_of_single_images_lists_each_tile_image() {
    let tilesets = vec![
        MapTileset { first_gid: 1, path: comps("shared/gone.tsx"), info: None },
        MapTileset {
            first_gid: 5,
            path: comps("shared/props.tsx"),
            info: Some(TilesetImages {
                name: "props".to_string(),
                image: None,
                tile_images: vec![comps("shared/props/barrel.png"), comps("shared/props/crate.png")],
            }),
        },
    ];
    let listing = tiled_map_resources("Town", &tilesets);
    let views: Vec<_> = listing.resources.iter().map(view).collect();
    assert_eq!(
        views,
        vec![
            ("props.tsx".to_string(), Some("5".to_string()), "props".to_string()),
            ("props/barrel.png".to_string(), None, "propsbarrel".to_string()),
            ("props/crate.png".to_string(), None, "propscrate".to_string()),
        ]
    );
}
