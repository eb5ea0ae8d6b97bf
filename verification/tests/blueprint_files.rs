use std::collections::HashMap;

use shiku_home::blueprint::{
    BlueprintResource, BlueprintService, CharAnimationToTilesetMap, Chunk, ChunkUpdate, Conductor,
    FileBrowserFileKind, FileBrowserResult, IOPoint, Image, Module, ModuleUpdate, ResourceKind,
    Tile, Tileset,
};

fn resource(path: &str, kind: ResourceKind) -> BlueprintResource {
    BlueprintResource {
        file_name: path.to_string(),
        dir: String::new(),
        path: path.to_string(),
        kind,
    }
}

fn tileset(image: Option<Image>, tile_count: u32, tiles: Vec<(u32, Option<Image>)>) -> Tileset {
    let mut tile_map = HashMap::new();
    for (id, image) in tiles {
        tile_map.insert(id, Tile { id, image, animation: None });
    }
    Tileset {
        name: "set".to_string(),
        resource_path: "sets".to_string(),
        image,
        tile_width: 16,
        tile_height: 16,
        tile_count,
        columns: 4,
        tiles: tile_map,
        brushes: Vec::new(),
    }
}

fn image(path: &str) -> Image {
    Image { path: path.to_string(), width: 16, height: 16 }
}

#[test]
fn file_types_by_name() {
    assert_eq!(BlueprintService::determine_file_type("conductor.json"), FileBrowserFileKind::Conductor);
    assert_eq!(BlueprintService::determine_file_type("a.tileset.json"), FileBrowserFileKind::Tileset);
    assert_eq!(BlueprintService::determine_file_type("a.map.json"), FileBrowserFileKind::GameMap);
    assert_eq!(BlueprintService::determine_file_type("a.scene.json"), FileBrowserFileKind::Scene);
    assert_eq!(BlueprintService::determine_file_type("a.script.json"), FileBrowserFileKind::Script);
    assert_eq!(BlueprintService::determine_file_type("a.module.json"), FileBrowserFileKind::Module);
    assert_eq!(
        BlueprintService::determine_file_type("hero.char_anim.json"),
        FileBrowserFileKind::CharacterAnimation
    );
    assert_eq!(BlueprintService::determine_file_type("maps"), FileBrowserFileKind::Folder);
    assert_eq!(BlueprintService::determine_file_type(""), FileBrowserFileKind::Folder);
}

#[test]
fn unknown_file_types() {
    assert_eq!(BlueprintService::determine_file_type("a.png"), FileBrowserFileKind::Unknown);
    assert_eq!(BlueprintService::determine_file_type("a.thing.json"), FileBrowserFileKind::Unknown);
    assert_eq!(BlueprintService::determine_file_type("a.map.txt"), FileBrowserFileKind::Unknown);
    assert_eq!(BlueprintService::determine_file_type("a.b.map.json"), FileBrowserFileKind::Unknown);
    assert_eq!(BlueprintService::determine_file_type("conductor.txt"), FileBrowserFileKind::Unknown);
    assert_eq!(BlueprintService::determine_file_type(".json"), FileBrowserFileKind::Unknown);
}

#[test]
fn resource_types_by_name() {
    assert_eq!(BlueprintService::determine_resource_type("a.tileset.json"), ResourceKind::Tileset);
    assert_eq!(BlueprintService::determine_resource_type("a.scene.json"), ResourceKind::Scene);
    assert_eq!(BlueprintService::determine_resource_type("a.script.json"), ResourceKind::Script);
    assert_eq!(BlueprintService::determine_resource_type("a.map.json"), ResourceKind::GameMap);
    assert_eq!(
        BlueprintService::determine_resource_type("a.char_anim.json"),
        ResourceKind::CharacterAnimation
    );
    assert_eq!(BlueprintService::determine_resource_type("a.module.json"), ResourceKind::Unknown);
    assert_eq!(BlueprintService::determine_resource_type("conductor.json"), ResourceKind::Unknown);
}

#[test]
fn file_kinds_become_resource_kinds() {
    assert_eq!(ResourceKind::from(FileBrowserFileKind::Tileset), ResourceKind::Tileset);
    assert_eq!(ResourceKind::from(FileBrowserFileKind::GameMap), ResourceKind::GameMap);
    assert_eq!(ResourceKind::from(FileBrowserFileKind::Scene), ResourceKind::Scene);
    assert_eq!(ResourceKind::from(FileBrowserFileKind::Script), ResourceKind::Script);
    assert_eq!(
        ResourceKind::from(FileBrowserFileKind::CharacterAnimation),
        ResourceKind::CharacterAnimation
    );
    assert_eq!(ResourceKind::from(FileBrowserFileKind::Folder), ResourceKind::Unknown);
    assert_eq!(ResourceKind::from(FileBrowserFileKind::Module), ResourceKind::Unknown);
}

#[test]
fn browsing_lists_resources_and_folders() {
    let mut result = FileBrowserResult {
        path: "/out/maps".to_string(),
        dir: "maps".to_string(),
        dirs: Vec::new(),
        resources: Vec::new(),
    };
    result.add_entry("forest.map.json");
    result.add_entry("caves");
    result.add_entry("main.module.json");
    result.add_entry("notes.txt");
    assert_eq!(result.resources.len(), 1);
    assert_eq!(result.resources[0].file_name, "forest.map.json");
    assert_eq!(result.resources[0].dir, "maps");
    assert_eq!(result.resources[0].path, "maps/forest.map.json");
    assert_eq!(result.resources[0].kind, ResourceKind::GameMap);
    assert_eq!(result.dirs, vec!["caves".to_string()]);
    assert_eq!(result.dir, "maps");
}

#[test]
fn new_module_is_empty() {
    let module = Module::new("Forest".to_string(), "m1".to_string());
    assert_eq!(module.id, "m1");
    assert_eq!(module.name, "Forest");
    assert!(module.main_map.is_none());
    assert_eq!(module.max_guests, 0);
    assert!(module.resources.is_empty());
    assert!(!module.close_after_full);
}

#[test]
fn default_conductor_is_empty() {
    let conductor = Conductor::default();
    assert!(conductor.module_connection_map.is_empty());
    assert!(conductor.resources.is_empty());
    assert!(conductor.gid_map.0.is_empty());
}

#[test]
fn module_update_with_resources() {
    let update = ModuleUpdate::default().resources(vec![resource("a.map.json", ResourceKind::GameMap)]);
    assert!(update.name.is_none());
    assert_eq!(update.resources.as_ref().map(|r| r.len()), Some(1));
    assert!(update.max_guests.is_none());
}

#[test]
fn new_chunk_is_all_zero() {
    let chunk = Chunk::new((2, -1), 3);
    assert_eq!(chunk.position, (2, -1));
    assert_eq!(chunk.data, vec![0; 9]);
}

#[test]
fn tile_updates_write_gids() {
    let mut chunk = Chunk::new((0, 0), 2);
    let update = ChunkUpdate { position: (0, 0), tile_updates: vec![(1, vec![(0, 7), (1, 0)])] };
    assert!(chunk.apply_tile_updates(2, &update));
    assert_eq!(chunk.data, vec![0, 0, 7, 0]);
    assert!(!chunk.apply_tile_updates(2, &update));
}

#[test]
fn tile_updates_outside_the_chunk_are_skipped() {
    let mut chunk = Chunk::new((0, 0), 2);
    let update = ChunkUpdate { position: (0, 0), tile_updates: vec![(3, vec![(0, 7)]), (0, vec![(-1, 5)])] };
    assert!(!chunk.apply_tile_updates(2, &update));
    assert_eq!(chunk.data, vec![0, 0, 0, 0]);
}

#[test]
fn gid_count_of_image_and_tile_tilesets() {
    assert_eq!(tileset(Some(image("sheet.png")), 12, vec![]).gid_count(), 12);
    assert_eq!(tileset(None, 12, vec![(0, None), (4, None)]).gid_count(), 2);
}

#[test]
fn image_paths_of_a_tileset() {
    assert_eq!(tileset(Some(image("sheet.png")), 12, vec![]).get_image_paths(), vec!["sheet.png".to_string()]);
    let mut paths = tileset(None, 0, vec![(0, Some(image("a.png"))), (1, None), (2, Some(image("b.png")))])
        .get_image_paths();
    paths.sort();
    assert_eq!(paths, vec!["a.png".to_string(), "b.png".to_string()]);
}

#[test]
fn gids_are_numbered_tileset_after_tileset() {
    let resources = vec![
        resource("a.tileset.json", ResourceKind::Tileset),
        resource("hero.char_anim.json", ResourceKind::CharacterAnimation),
        resource("b.tileset.json", ResourceKind::Tileset),
        resource("c.tileset.json", ResourceKind::Tileset),
    ];
    let tilesets = vec![
        tileset(Some(image("a.png")), 10, vec![]),
        tileset(None, 0, vec![(0, None), (1, None), (2, None)]),
        tileset(Some(image("c.png")), 4, vec![]),
    ];
    let anim_tilesets = vec!["a.tileset.json".to_string()];
    let (gid_map, anim_map) =
        BlueprintService::generate_gid_and_char_anim_to_tileset_map(&resources, &tilesets, &anim_tilesets);
    assert_eq!(
        gid_map.0,
        vec![
            ("a.tileset.json".to_string(), 0),
            ("b.tileset.json".to_string(), 10),
            ("c.tileset.json".to_string(), 13)
        ]
    );
    assert_eq!(anim_map.0, vec![("hero.char_anim.json".to_string(), "a.tileset.json".to_string())]);
}

#[test]
fn later_animation_of_same_path_wins() {
    let resources = vec![
        resource("hero.char_anim.json", ResourceKind::CharacterAnimation),
        resource("hero.char_anim.json", ResourceKind::CharacterAnimation),
    ];
    let anim_tilesets = vec!["one".to_string(), "two".to_string()];
    let CharAnimationToTilesetMap(pairs) =
        BlueprintService::generate_character_animation_to_tileset_map(&resources, &anim_tilesets);
    assert_eq!(pairs, vec![("hero.char_anim.json".to_string(), "two".to_string())]);
}

#[test]
fn io_point_names_as_a_set() {
    let points = vec![
        IOPoint { name: "door".to_string(), condition_script: String::new() },
        IOPoint { name: "gate".to_string(), condition_script: String::new() },
        IOPoint { name: "door".to_string(), condition_script: "x".to_string() },
    ];
    let names = BlueprintService::io_points_to_hashset(&points);
    assert_eq!(names.len(), 2);
    assert!(names.contains("door"));
    assert!(names.contains("gate"));
    assert!(!names.contains("window"));
}

#[test]
fn resource_kind_agrees_with_file_kind() {
    for name in [
        "a.tileset.json",
        "a.map.json",
        "a.scene.json",
        "a.script.json",
        "a.module.json",
        "a.char_anim.json",
        "conductor.json",
        "folder",
        "a.b.c.json",
        "x.map.png",
        "",
    ] {
        assert_eq!(
            BlueprintService::determine_resource_type(name),
            ResourceKind::from(BlueprintService::determine_file_type(name))
        );
    }
}
