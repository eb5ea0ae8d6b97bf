use std::collections::HashMap;

use shiku_home::blueprint::{BlueprintResource, Image, Module, ResourceKind, Tileset};
use shiku_home::resource_modules::ResourceToModuleMap;

fn script(path: &str) -> BlueprintResource {
    BlueprintResource {
        file_name: path.to_string(),
        dir: String::new(),
        path: path.to_string(),
        kind: ResourceKind::Script,
    }
}

fn modules_of(map: &ResourceToModuleMap, path: &str) -> Option<Vec<String>> {
    map.entries
        .iter()
        .find(|(p, _)| p == path)
        .map(|(_, modules)| {
            let mut modules = modules.clone();
            modules.sort();
            modules
        })
}

#[test]
fn new_map_is_empty() {
    let map = ResourceToModuleMap::new();
    assert!(map.entries.is_empty());
}

#[test]
fn add_module_twice_keeps_one() {
    let mut map = ResourceToModuleMap::new();
    map.add_module(&"a.rhai".to_string(), &"m1".to_string());
    map.add_module(&"a.rhai".to_string(), &"m1".to_string());
    map.add_module(&"a.rhai".to_string(), &"m2".to_string());
    assert_eq!(map.entries.len(), 1);
    assert_eq!(modules_of(&map, "a.rhai"), Some(vec!["m1".to_string(), "m2".to_string()]));
}

#[test]
fn remove_module_leaves_empty_entry() {
    let mut map = ResourceToModuleMap::new();
    map.add_module(&"a.rhai".to_string(), &"m1".to_string());
    map.remove_module(&"a.rhai".to_string(), &"m1".to_string());
    assert_eq!(modules_of(&map, "a.rhai"), Some(vec![]));
    map.remove_module(&"b.rhai".to_string(), &"m1".to_string());
    assert_eq!(modules_of(&map, "b.rhai"), Some(vec![]));
}

#[test]
fn update_adds_new_and_drops_removed_resources() {
    let mut map = ResourceToModuleMap::new();
    let current = vec![script("a.rhai"), script("b.rhai")];
    map.update_resource_to_module_map(&"m1".to_string(), &vec![], &current);
    map.add_module(&"b.rhai".to_string(), &"m2".to_string());
    assert_eq!(modules_of(&map, "a.rhai"), Some(vec!["m1".to_string()]));

    let updated = vec![script("b.rhai"), script("c.rhai")];
    map.update_resource_to_module_map(&"m1".to_string(), &current, &updated);
    assert_eq!(modules_of(&map, "a.rhai"), Some(vec![]));
    assert_eq!(modules_of(&map, "b.rhai"), Some(vec!["m1".to_string(), "m2".to_string()]));
    assert_eq!(modules_of(&map, "c.rhai"), Some(vec!["m1".to_string()]));
    assert_eq!(map.entries.len(), 3);
}

#[test]
fn update_leaves_kept_resources_alone() {
    let mut map = ResourceToModuleMap::new();
    let resources = vec![script("a.rhai")];
    map.update_resource_to_module_map(&"m1".to_string(), &resources, &resources);
    assert!(map.entries.is_empty());
}

fn resource(path: &str, kind: ResourceKind) -> BlueprintResource {
    BlueprintResource {
        file_name: path.to_string(),
        dir: String::new(),
        path: path.to_string(),
        kind,
    }
}

fn tileset_with_image(tile_count: u32) -> Tileset {
    Tileset {
        name: "set".to_string(),
        resource_path: "sets".to_string(),
        image: Some(Image { path: "set.png".to_string(), width: 64, height: 64 }),
        tile_width: 16,
        tile_height: 16,
        tile_count,
        columns: 4,
        tiles: HashMap::new(),
        brushes: Vec::new(),
    }
}

#[test]
fn module_update_resources_renumbers_and_reports_new_ones() {
    let mut module = Module::new("Forest".to_string(), "m1".to_string());
    let mut map = ResourceToModuleMap::new();
    let first = vec![resource("a.tileset.json", ResourceKind::Tileset), script("s.rhai")];
    let added = module.update_resources(first, &vec![tileset_with_image(10)], &vec![], &mut map);
    let added_paths: Vec<&str> = added.iter().map(|r| r.path.as_str()).collect();
    assert_eq!(added_paths, vec!["a.tileset.json", "s.rhai"]);
    assert_eq!(module.gid_map.0, vec![("a.tileset.json".to_string(), 0)]);

    let second = vec![
        resource("b.tileset.json", ResourceKind::Tileset),
        resource("a.tileset.json", ResourceKind::Tileset),
        resource("hero.anim.json", ResourceKind::CharacterAnimation),
    ];
    let added = module.update_resources(
        second,
        &vec![tileset_with_image(4), tileset_with_image(10)],
        &vec!["b.tileset.json".to_string()],
        &mut map,
    );
    let added_paths: Vec<&str> = added.iter().map(|r| r.path.as_str()).collect();
    assert_eq!(added_paths, vec!["b.tileset.json", "hero.anim.json"]);
    assert_eq!(
        module.gid_map.0,
        vec![("b.tileset.json".to_string(), 0), ("a.tileset.json".to_string(), 4)]
    );
    assert_eq!(
        module.char_animation_to_tileset_map.0,
        vec![("hero.anim.json".to_string(), "b.tileset.json".to_string())]
    );
    assert_eq!(module.resources.len(), 3);
    let module_id = module.id.clone();
    assert_eq!(modules_of(&map, "s.rhai"), Some(vec![]));
    assert_eq!(modules_of(&map, "a.tileset.json"), Some(vec![module_id.clone()]));
    assert_eq!(modules_of(&map, "b.tileset.json"), Some(vec![module_id.clone()]));
    assert_eq!(modules_of(&map, "hero.anim.json"), Some(vec![module_id]));
}
