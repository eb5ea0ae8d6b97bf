use std::collections::HashMap;

use shiku_home::blueprint::{BlueprintResource, Module, ResourceKind, Script, Tileset};
use shiku_home::guest::{Actors, Admin, Guest, LoginData, LoginProvider};
use shiku_home::json_resource::JsonResource;
use shiku_home::render::{GeneralObject, GeneralObjectText, LayerName, RenderTypeText, RenderTypeTimer};
use shiku_home::visibility::{EntityVisibility, HideEntityMap};

fn guest() -> Guest {
    Guest {
        id: 11,
        session_id: "s1".to_string(),
        current_module: None,
        current_instance_id: None,
        pending_module_exit: None,
        login_data: None,
        ws_connection_id: None,
    }
}

fn admin() -> Admin {
    Admin { id: 22, session_id: "s2".to_string(), login_data: None, is_logged_in: false, ws_connection_id: None }
}

fn login() -> LoginData {
    LoginData {
        provider_user_id: "u".to_string(),
        display_name: "Name".to_string(),
        views: Some(3),
        provider: LoginProvider::Twitch,
    }
}

#[test]
fn guest_actor_setters() {
    let mut g = guest();
    assert_eq!(g.get_id(), 11);
    assert_eq!(g.get_session_id(), "s1");
    assert_eq!(g.get_ws_connection_id(), None);
    g.set_ws_connection_id(99);
    g.set_session_id("s9".to_string());
    g.set_login_data(login());
    g.set_is_logged_in(true);
    assert_eq!(g.get_ws_connection_id(), Some(99));
    assert_eq!(g.get_session_id(), "s9");
    assert_eq!(g.login_data.as_ref().map(|l| l.display_name.clone()), Some("Name".to_string()));
}

#[test]
fn admin_actor_setters() {
    let mut a = admin();
    assert_eq!(a.get_id(), 22);
    a.set_is_logged_in(true);
    a.set_ws_connection_id(5);
    a.set_session_id("s3".to_string());
    a.set_login_data(login());
    assert!(a.is_logged_in);
    assert_eq!(a.get_ws_connection_id(), Some(5));
    assert_eq!(a.get_session_id(), "s3");
    assert_eq!(a.login_data.as_ref().map(|l| l.provider), Some(LoginProvider::Twitch));
}

#[test]
fn hide_then_show_entity() {
    let mut hidden: HideEntityMap = HashMap::new();
    let entity = "crate_1".to_string();
    assert!(!hidden.entity_hidden(&1, &entity));
    hidden.hide_entity(&1, &entity);
    assert!(hidden.entity_hidden(&1, &entity));
    assert!(!hidden.entity_hidden(&2, &entity));
    hidden.show_entity(&1, &entity);
    assert!(!hidden.entity_hidden(&1, &entity));
}

#[test]
fn text_render_from_object_text() {
    let object = Some(GeneralObject {
        text: Some(GeneralObjectText {
            text: "Hello".to_string(),
            color: "#ff0000".to_string(),
            font_family: "Serif".to_string(),
        }),
    });
    let render = RenderTypeText::from_general_object(&object, LayerName::FG2);
    assert_eq!(render.text, "Hello");
    assert_eq!(render.color, "#ff0000");
    assert_eq!(render.font_family, "Serif");
    assert_eq!(render.layer, LayerName::FG2);
    assert!(!render.center_x);
    let timer = RenderTypeTimer::from_general_object(&object, LayerName::Menu);
    assert_eq!(timer.date, "Hello");
    assert_eq!(timer.layer, LayerName::Menu);
}

#[test]
fn text_render_without_text_is_black_and_empty() {
    let render = RenderTypeText::from_general_object(&None, LayerName::Guest);
    assert_eq!(render.text, "");
    assert_eq!(render.color, "#000000");
    assert_eq!(render.font_family, "");
    let timer = RenderTypeTimer::from_general_object(&Some(GeneralObject { text: None }), LayerName::BG1);
    assert_eq!(timer.date, "");
    assert_eq!(timer.color, "#000000");
    assert_eq!(timer.layer, LayerName::BG1);
}

#[test]
fn json_resource_paths() {
    let module = Module::new("Forest".to_string(), "m1".to_string());
    assert_eq!(module.get_full_resource_path(), "Forest/Forest.module.json");
    assert_eq!(module.get_file_name(), "Forest.module.json");
    let script = Script {
        id: "1".to_string(),
        name: "door".to_string(),
        resource_path: "scripts".to_string(),
        content: String::new(),
    };
    let resource = BlueprintResource::from_json_resource(&script);
    assert_eq!(resource.file_name, "door.script.json");
    assert_eq!(resource.dir, "scripts");
    assert_eq!(resource.path, "scripts/door.script.json");
    assert_eq!(resource.kind, ResourceKind::Script);
    let tileset = Tileset {
        name: "grass".to_string(),
        resource_path: "sets".to_string(),
        image: None,
        tile_width: 16,
        tile_height: 16,
        tile_count: 0,
        columns: 0,
        tiles: HashMap::new(),
        brushes: Vec::new(),
    };
    assert_eq!(tileset.get_resource_kind(), ResourceKind::Tileset);
    assert_eq!(BlueprintResource::from_json_resource(&tileset).path, "sets/grass.tileset.json");
}
