use shiku_home::object_variants::{
    extract_variants, get_default_variant, VariantTileset, names_variant_tileset, tileset_variants, GidShift, VariantIds, VariantTile,
};

fn tile(id: u32, variant: Option<&str>, tile_name: Option<&str>) -> VariantTile {
    VariantTile { id, variant: variant.map(|v| v.to_string()), tile_name: tile_name.map(|n| n.to_string()) }
}

fn pairs(ids: &VariantIds) -> Vec<(String, u32)> {
    ids.gids.clone()
}

#[test]
fn default_variant_starts_at_its_marked_tile_and_names_gids() {
    let tiles = vec![
        tile(0, Some("default"), Some("idle")),
        tile(1, None, Some("walk")),
        tile(2, Some("red"), None),
    ];
    let default = get_default_variant(&tiles, 10).unwrap();
    assert_eq!(default.start_id, 0);
    assert_eq!(pairs(&default), vec![("idle".to_string(), 10), ("walk".to_string(), 11)]);
}

#[test]
fn tileset_without_default_mark_has_no_default_variant() {
    let tiles = vec![tile(0, Some("red"), Some("idle")), tile(1, None, Some("walk"))];
    assert!(get_default_variant(&tiles, 1).is_none());
}

#[test]
fn variants_within_tileset_move_by_their_start() {
    let tiles = vec![
        tile(0, Some("default"), Some("idle")),
        tile(1, None, Some("walk")),
        tile(4, Some("red"), None),
        tile(5, None, None),
    ];
    let defaults = vec![("idle".to_string(), 10u32), ("walk".to_string(), 11u32)];
    let variants = tileset_variants(&tiles, &defaults, GidShift::WithinTileset { default_start_id: 0 });
    assert_eq!(variants.len(), 1);
    assert_eq!(variants[0].0, "red");
    assert_eq!(variants[0].1.start_id, 4);
    assert_eq!(pairs(&variants[0].1), vec![("idle".to_string(), 14), ("walk".to_string(), 15)]);
}

#[test]
fn variants_across_tilesets_move_by_first_gids() {
    let tiles = vec![tile(0, Some("blue"), None), tile(3, Some("green"), None)];
    let defaults = vec![("idle".to_string(), 10u32)];
    let shift = GidShift::AcrossTilesets { variant_first_gid: 40, default_first_gid: 10 };
    let variants = tileset_variants(&tiles, &defaults, shift);
    assert_eq!(variants.len(), 2);
    assert_eq!(variants[0].0, "blue");
    assert_eq!(pairs(&variants[0].1), vec![("idle".to_string(), 40)]);
    assert_eq!(variants[1].0, "green");
    assert_eq!(variants[1].1.start_id, 3);
    assert_eq!(pairs(&variants[1].1), vec![("idle".to_string(), 40)]);
}

#[test]
fn across_tilesets_a_negative_gid_wraps() {
    let tiles = vec![tile(0, Some("blue"), None)];
    let defaults = vec![("idle".to_string(), 1u32)];
    let shift = GidShift::AcrossTilesets { variant_first_gid: 1, default_first_gid: 5 };
    let variants = tileset_variants(&tiles, &defaults, shift);
    assert_eq!(pairs(&variants[0].1), vec![("idle".to_string(), u32::MAX - 2)]);
}

#[test]
fn variant_tileset_names_need_one_underscore_after_the_object() {
    assert!(names_variant_tileset("slime_blue", "slime"));
    assert!(names_variant_tileset("bigslime_blue", "slime"));
    assert!(!names_variant_tileset("slime", "slime"));
    assert!(!names_variant_tileset("slime_blue_dark", "slime"));
    assert!(!names_variant_tileset("blue_slime", "slime"));
    assert!(names_variant_tileset("x_", ""));
}

fn object(name: &str) -> shiku_home::object_types::ObjectType {
    shiku_home::object_types::ObjectType {
        name: name.to_string(),
        props: Vec::new(),
        physics: Vec::new(),
        physics_position: "default".to_string(),
        layer_name: shiku_home::render::LayerName::GameObjects,
        render: shiku_home::object_types::RenderType::NoRender,
        variants: Vec::new(),
    }
}

fn summary(ids: &[(String, VariantIds)]) -> Vec<(String, u32, Vec<(String, u32)>)> {
    ids.iter().map(|(name, v)| (name.clone(), v.start_id, v.gids.clone())).collect()
}

#[test]
fn extract_variants_reads_default_own_and_named_tilesets() {
    let tilesets = vec![
        VariantTileset {
            name: "slime".to_string(),
            first_gid: 10,
            tiles: vec![tile(0, Some("default"), Some("idle")), tile(2, Some("red"), None)],
        },
        VariantTileset { name: "slime_blue".to_string(), first_gid: 50, tiles: vec![tile(0, Some("blue"), None)] },
        VariantTileset { name: "tree".to_string(), first_gid: 90, tiles: vec![tile(0, Some("oak"), None)] },
    ];
    let mut slime = object("slime");
    extract_variants(&tilesets, &mut slime);
    assert_eq!(
        summary(&slime.variants),
        vec![
            ("default".to_string(), 0, vec![("idle".to_string(), 10)]),
            ("red".to_string(), 2, vec![("idle".to_string(), 12)]),
            ("blue".to_string(), 0, vec![("idle".to_string(), 50)]),
        ]
    );
    let mut rock = object("rock");
    extract_variants(&tilesets, &mut rock);
    assert!(rock.variants.is_empty());
}
