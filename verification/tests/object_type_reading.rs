use shiku_home::object_types::{
    object_types_from_events, read_object_types, ObjectTypeReader, ObjectTypeXmlEvent, PhysicsType,
    PropertyKind, PropertyType, ReadObjectTypesError, RenderType,
};
use shiku_home::render::LayerName;

const OBJECT_TYPES: &str = r##"<?xml version="1.0" encoding="UTF-8"?>
<objecttypes>
 <objecttype name="Door" color="#a0a0a4">
  <property name="physics" type="string" default="StaticRigidBody" propertytype="Physics"/>
  <property name="physics_col_top" type="string" default="Area" propertytype="Physics"/>
  <property name="layer" type="string" default="FG3" propertytype="LayerName"/>
  <property name="render" type="string" default="Text" propertytype="Render"/>
  <property name="speed" type="float" default="1.5"/>
  <property name="count" type="int" default="-12"/>
  <property name="open" type="bool" default="false"/>
  <property name="target" type="object" default="7"/>
  <property name="physics_position" type="string" default="center"/>
 </objecttype>
 <objecttype name="Tween">
  <property name="duration" type="int" default="3"/>
 </objecttype>
 <objecttype name="Sign">
  <property name="move" type="class" default="Linear" propertytype="Tween"/>
 </objecttype>
</objecttypes>
"##;

fn start(name: &str, attributes: &[(&str, &str)]) -> ObjectTypeXmlEvent {
    ObjectTypeXmlEvent::Start(
        name.to_string(),
        attributes.iter().map(|(a, v)| (a.to_string(), v.to_string())).collect(),
    )
}

fn end(name: &str) -> ObjectTypeXmlEvent {
    ObjectTypeXmlEvent::End(name.to_string())
}

fn physics_of<'a>(list: &'a [(String, PhysicsType)], name: &str) -> Option<&'a PhysicsType> {
    list.iter().find(|(n, _)| n == name).map(|(_, p)| p)
}

#[test]
fn reads_object_type_file() {
    let types = read_object_types(OBJECT_TYPES.as_bytes()).unwrap();
    assert_eq!(types.len(), 2);
    let door = &types[0];
    assert_eq!(door.name, "Door");
    assert_eq!(door.props.len(), 9);
    assert_eq!(door.layer_name, LayerName::FG3);
    assert_eq!(door.render, RenderType::RenderTypeText);
    assert_eq!(door.physics_position, "center");
    assert_eq!(door.physics.len(), 2);
    assert_eq!(physics_of(&door.physics, "default"), Some(&PhysicsType::StaticRigidBody));
    assert_eq!(physics_of(&door.physics, "top"), Some(&PhysicsType::Area));
    assert!(matches!(&door.props[4].default, PropertyKind::Float(t) if t == "1.5"));
    assert!(matches!(door.props[5].default, PropertyKind::Int(-12)));
    assert!(matches!(door.props[6].default, PropertyKind::Boolean(false)));
    assert!(matches!(&door.props[7].default, PropertyKind::Object(t) if t == "7"));
    assert_eq!(door.props[0].property_type, PropertyType::Physics(PhysicsType::StaticRigidBody));
    let sign = &types[1];
    assert_eq!(sign.name, "Sign");
    assert_eq!(sign.layer_name, LayerName::GameObjects);
    assert_eq!(sign.render, RenderType::NoRender);
    assert_eq!(sign.physics_position, "default");
    assert_eq!(sign.props[0].property_type, PropertyType::Tween);
    assert!(matches!(&sign.props[0].default, PropertyKind::Class(t) if t == "Tween"));
}

#[test]
fn invalid_int_default_is_refused() {
    let xml = r#"<objecttypes><objecttype name="A"><property name="n" type="int" default="x1"/></objecttype></objecttypes>"#;
    assert_eq!(read_object_types(xml.as_bytes()).err(), Some(ReadObjectTypesError::InvalidIntDefault));
    let too_big = r#"<objecttypes><objecttype name="A"><property name="n" type="int" default="2147483648"/></objecttype></objecttypes>"#;
    assert_eq!(read_object_types(too_big.as_bytes()).err(), Some(ReadObjectTypesError::InvalidIntDefault));
}

#[test]
fn int_defaults_at_the_limits() {
    let xml = r#"<objecttypes><objecttype name="A"><property name="n" type="int" default="-2147483648"/><property name="m" type="int" default="+7"/></objecttype></objecttypes>"#;
    let types = read_object_types(xml.as_bytes()).unwrap();
    assert!(matches!(types[0].props[0].default, PropertyKind::Int(i32::MIN)));
    assert!(matches!(types[0].props[1].default, PropertyKind::Int(7)));
}

#[test]
fn reading_stops_at_a_reader_failure() {
    let xml = r#"<objecttypes><objecttype name="A"></objecttype><objecttype name="B"></oops>"#;
    let types = read_object_types(xml.as_bytes()).unwrap();
    assert_eq!(types.len(), 1);
    assert_eq!(types[0].name, "A");
}

#[test]
fn collider_name_cut_inside_a_character_is_refused() {
    let events = vec![
        start("objecttype", &[("name", "A")]),
        start(
            "property",
            &[("name", "physics_co\u{20ac}physics_col_x"), ("type", "string"), ("default", "Area"), ("propertytype", "Physics")],
        ),
        end("property"),
        end("objecttype"),
    ];
    assert_eq!(object_types_from_events(&events).err(), Some(ReadObjectTypesError::UnsplittableColliderName));
}

#[test]
fn events_without_closing_keep_nothing() {
    let events = vec![start("objecttype", &[("name", "A")]), ObjectTypeXmlEvent::Other];
    assert!(object_types_from_events(&events).unwrap().is_empty());
}

#[test]
fn reader_names_type_by_last_name_attribute() {
    let mut reader = ObjectTypeReader::new();
    reader.start_element(&"objecttype".to_string(), &vec![
        ("name".to_string(), "First".to_string()),
        ("name".to_string(), "Second".to_string()),
    ]).unwrap();
    reader.end_element(&"objecttype".to_string());
    assert_eq!(reader.object_types.len(), 1);
    assert_eq!(reader.object_types[0].name, "Second");
}

#[test]
fn property_kind_names_its_generated_type() {
    assert_eq!(PropertyKind::Float("1.5".to_string()).to_string(), "Real");
    assert_eq!(PropertyKind::Int(3).to_string(), "u32");
    assert_eq!(PropertyKind::String("a".to_string()).to_string(), "String");
    assert_eq!(PropertyKind::Object("7".to_string()).to_string(), "EntityId");
    assert_eq!(PropertyKind::Boolean(true).to_string(), "bool");
    assert_eq!(PropertyKind::Class("Door".to_string()).to_string(), "Door");
    assert_eq!(PropertyKind::Empty.to_string(), "String");
}

#[test]
fn physics_render_and_property_types_are_shown_by_name() {
    assert_eq!(PhysicsType::StaticRigidBody.to_string(), "StaticRigidBody");
    assert_eq!(PhysicsType::RigidBody.to_string(), "RigidBody");
    assert_eq!(PhysicsType::Area.to_string(), "Area");
    assert_eq!(PhysicsType::NoPhysics.to_string(), "None");
    assert_eq!(RenderType::StaticImage.to_string(), "StaticImage");
    assert_eq!(RenderType::RenderTypeText.to_string(), "RenderTypeText");
    assert_eq!(RenderType::RenderTypeTimer.to_string(), "RenderTypeTimer");
    assert_eq!(RenderType::NoRender.to_string(), "NoRender");
    assert_eq!(PropertyType::Physics(PhysicsType::Area).to_string(), "Physics");
    assert_eq!(PropertyType::Render(RenderType::NoRender).to_string(), "Render");
    assert_eq!(PropertyType::Tween.to_string(), "Tween");
    assert_eq!(PropertyType::Plain.to_string(), "None");
}
