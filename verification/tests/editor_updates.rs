use std::collections::HashMap;

use shiku_home::blueprint::{
    Audio, BlueprintResource, Conductor, Font, GidMap, IOPoint, Image, ResourceKind, StandardKernelThree,
    TerrainBrush, Tile, Tileset,
};
use shiku_home::resource_loading::{loading_resources_from_blueprint_resource, LoadResourceKind, LoadedResource};
use shiku_home::script_functions::GameNodeScriptFunction;
use shiku_home::tileset_update::TilesetUpdate;

fn kernel(inside: u32) -> StandardKernelThree {
    StandardKernelThree {
        inside,
        top_left_corner: 0,
        top_right_corner: 0,
        bottom_left_corner: 0,
        bottom_right_corner: 0,
        top_left_inner_corner: 0,
        top_right_inner_corner: 0,
        bottom_left_inner_corner: 0,
        bottom_right_inner_corner: 0,
        top_edge: 0,
        bottom_edge: 0,
        left_edge: 0,
        right_edge: 0,
        left_top_bottom_right_middle_piece: 0,
        right_top_bottom_left_middle_piece: 0,
    }
}

fn brush_inside(b: &TerrainBrush) -> u32 {
    let TerrainBrush::StandardKernelThree(_, k) = b;
    k.inside
}

fn image(path: &str) -> Image {
    Image { path: path.to_string(), width: 8, height: 8 }
}

fn tileset() -> Tileset {
    let mut tiles = HashMap::new();
    tiles.insert(3, Tile { id: 3, image: Some(image("three.png")), animation: None });
    tiles.insert(5, Tile { id: 5, image: None, animation: None });
    Tileset {
        name: "grass".to_string(),
        resource_path: "sets".to_string(),
        image: None,
        tile_width: 8,
        tile_height: 8,
        tile_count: 5,
        columns: 2,
        tiles,
        brushes: Vec::new(),
    }
}

fn point(name: &str) -> IOPoint {
    IOPoint { name: name.to_string(), condition_script: String::new() }
}

fn connection(exit: &str, module: &str, entry: &str) -> (String, (String, String)) {
    (exit.to_string(), (module.to_string(), entry.to_string()))
}

#[test]
fn brushes_are_added_updated_and_removed() {
    let mut t = tileset();
    t.apply_update(TilesetUpdate::AddBrush(TerrainBrush::StandardKernelThree("a".to_string(), kernel(1))));
    t.apply_update(TilesetUpdate::AddBrush(TerrainBrush::StandardKernelThree("b".to_string(), kernel(2))));
    t.apply_update(TilesetUpdate::UpdateBrush(0, TerrainBrush::StandardKernelThree("a".to_string(), kernel(9))));
    t.apply_update(TilesetUpdate::UpdateBrush(7, TerrainBrush::StandardKernelThree("z".to_string(), kernel(7))));
    assert_eq!(t.brushes.iter().map(brush_inside).collect::<Vec<_>>(), vec![9, 2]);
    t.apply_update(TilesetUpdate::RemoveBrush(0));
    assert_eq!(t.brushes.iter().map(brush_inside).collect::<Vec<_>>(), vec![2]);
}

#[test]
fn changing_a_tile_image_replaces_the_old_load() {
    let mut t = tileset();
    let changes = t.apply_update(TilesetUpdate::ChangeTileImage(3, image("new.png")));
    assert_eq!(changes.unregister, Some("three.png".to_string()));
    assert_eq!(changes.register, Some("new.png".to_string()));
    assert_eq!(t.tiles[&3].image.as_ref().map(|i| i.path.clone()), Some("new.png".to_string()));
    let changes = t.apply_update(TilesetUpdate::ChangeTileImage(9, image("nine.png")));
    assert_eq!(changes.unregister, None);
    assert_eq!(changes.register, None);
    assert_eq!(t.tiles[&9].id, 0);
    assert_eq!(t.tile_count, 5);
}

#[test]
fn adding_and_removing_tiles_sets_the_count() {
    let mut t = tileset();
    let changes = t.apply_update(TilesetUpdate::AddTile(12, Tile { id: 12, image: Some(image("twelve.png")), animation: None }));
    assert_eq!(changes.register, Some("twelve.png".to_string()));
    assert_eq!(t.tile_count, 12);
    let changes = t.apply_update(TilesetUpdate::RemoveTile(12));
    assert_eq!(changes.unregister, Some("twelve.png".to_string()));
    assert_eq!(t.tile_count, 5);
    t.apply_update(TilesetUpdate::RemoveTile(5));
    t.apply_update(TilesetUpdate::RemoveTile(3));
    assert_eq!(t.tile_count, 0);
    assert!(t.tiles.is_empty());
}

#[test]
fn tile_animation_is_set() {
    let mut t = tileset();
    let changes = t.apply_update(TilesetUpdate::ChangeTileAnimation(5, Some(Vec::new())));
    assert!(changes.register.is_none() && changes.unregister.is_none());
    assert!(t.tiles[&5].animation.is_some());
    assert_eq!(t.tiles[&5].id, 5);
}

#[test]
fn removed_insert_points_drop_connections_into_them() {
    let mut conductor = Conductor {
        module_connection_map: vec![
            connection("out_a", "forest", "door"),
            connection("out_b", "cave", "gate"),
            connection("out_c", "forest", "gate"),
        ],
        resources: Vec::new(),
        gid_map: GidMap(Vec::new()),
    };
    conductor.remove_connections_to_removed_insert_points(&[point("door"), point("gate")], &[point("door")]);
    assert_eq!(conductor.module_connection_map, vec![connection("out_a", "forest", "door")]);
}

#[test]
fn removed_exit_points_drop_their_connections() {
    let mut conductor = Conductor {
        module_connection_map: vec![connection("out_a", "forest", "door"), connection("out_b", "cave", "gate")],
        resources: Vec::new(),
        gid_map: GidMap(Vec::new()),
    };
    conductor.remove_connections_from_removed_exit_points(&[point("out_a"), point("out_b")], &[point("out_b"), point("new")]);
    assert_eq!(conductor.module_connection_map, vec![connection("out_b", "cave", "gate")]);
    conductor.remove_connections_from_removed_exit_points(&[point("out_b")], &[point("out_b")]);
    assert_eq!(conductor.module_connection_map.len(), 1);
}

#[test]
fn script_functions_by_name() {
    let names: Vec<String> = vec!["init", "helper", "update", "init", "actor_left"]
        .into_iter()
        .map(String::from)
        .collect();
    let functions = GameNodeScriptFunction::map_from_function_names(&names);
    assert_eq!(
        functions,
        vec![
            (GameNodeScriptFunction::Init, "init"),
            (GameNodeScriptFunction::Update, "update"),
            (GameNodeScriptFunction::ActorLeft, "actor_left"),
        ]
    );
    assert!(GameNodeScriptFunction::map_from_function_names(&Vec::new()).is_empty());
}


#[test]
fn resources_to_load_for_each_kind() {
    let resource = |kind: ResourceKind| BlueprintResource {
        file_name: "x".to_string(),
        dir: String::new(),
        path: "x".to_string(),
        kind,
    };
    let mut t = tileset();
    t.image = Some(image("sheet.png"));
    let images = loading_resources_from_blueprint_resource(&resource(ResourceKind::Tileset), Some(LoadedResource::Tileset(t)));
    assert_eq!(images.len(), 1);
    assert_eq!(images[0].path, "sheet.png");
    assert_eq!(images[0].kind, LoadResourceKind::Image);
    let tiles = loading_resources_from_blueprint_resource(&resource(ResourceKind::Tileset), Some(LoadedResource::Tileset(tileset())));
    assert_eq!(tiles.iter().map(|r| r.path.clone()).collect::<Vec<_>>(), vec!["three.png".to_string()]);
    let font = Font { name: "f".to_string(), resource_path: "fonts".to_string(), font_path: "f.ttf".to_string() };
    let fonts = loading_resources_from_blueprint_resource(&resource(ResourceKind::Font), Some(LoadedResource::Font(font)));
    assert_eq!(fonts[0].path, "f.ttf");
    assert_eq!(fonts[0].kind, LoadResourceKind::Font);
    let audio = Audio { name: "a".to_string(), resource_path: "sounds".to_string(), audio_path: "a.ogg".to_string() };
    let sounds = loading_resources_from_blueprint_resource(&resource(ResourceKind::Audio), Some(LoadedResource::Audio(audio)));
    assert_eq!(sounds[0].path, "sounds");
    assert_eq!(sounds[0].kind, LoadResourceKind::Audio);
    assert!(loading_resources_from_blueprint_resource(&resource(ResourceKind::Tileset), None).is_empty());
    assert!(loading_resources_from_blueprint_resource(&resource(ResourceKind::Scene), None).is_empty());
}

#[test]
fn removing_a_collision_shape_keeps_or_makes_the_tile() {
    let mut t = tileset();
    let changes = t.apply_update(TilesetUpdate::RemoveCollisionShape(3));
    assert!(changes.register.is_none() && changes.unregister.is_none());
    assert_eq!(t.tiles[&3].image.as_ref().map(|i| i.path.clone()), Some("three.png".to_string()));
    let changes = t.apply_update(TilesetUpdate::RemoveCollisionShape(8));
    assert!(changes.register.is_none() && changes.unregister.is_none());
    assert_eq!(t.tiles[&8].id, 0);
    assert!(t.tiles[&8].image.is_none());
    assert_eq!(t.tile_count, 5);
}

#[test]
fn deleting_a_module_drops_its_connections_both_ways() {
    let mut conductor = Conductor {
        module_connection_map: vec![
            connection("forest_out", "cave", "gate"),
            connection("cave_out", "forest", "forest_in"),
            connection("cave_out2", "lake", "shore"),
        ],
        resources: Vec::new(),
        gid_map: GidMap(Vec::new()),
    };
    conductor.remove_connections_of_module(&[point("forest_out")], &[point("forest_in")]);
    assert_eq!(conductor.module_connection_map, vec![connection("cave_out2", "lake", "shore")]);
}
