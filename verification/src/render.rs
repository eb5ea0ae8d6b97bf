use vstd::prelude::*;
use vstd::string::*;

verus! {

/// The render layers of the world, front to back.
#[derive(PartialEq, Eq, Structural, Clone, Copy, Debug)]
pub enum LayerName {
    Guest,
    FG0,
    FG1,
    FG2,
    FG3,
    FG4,
    FG5,
    FG6,
    FG7,
    FG8,
    FG9,
    FG10,
    FG11,
    Menu,
    GameObjects,
    BG0,
    BG1,
    BG2,
    BG3,
    BG4,
    BG5,
    BG6,
    BG7,
    BG8,
    BG9,
    BG10,
    BG11,
    Terrain,
}

/// The text settings of a map object, as far as rendering reads them.
pub struct GeneralObjectText {
    pub text: String,
    pub color: String,
    pub font_family: String,
}

/// A map object, as far as rendering reads it.
pub struct GeneralObject {
    pub text: Option<GeneralObjectText>,
}

pub struct NoRender {}

pub struct ShakeScreenEffect {
    pub shake_amount: u32,
    pub shake_delay: u32,
    pub shake_count_max: u32,
    pub is_bidirectional: bool,
}

pub struct RenderTypeTimer {
    pub date: String,
    pub font_family: String,
    pub color: String,
    pub layer: LayerName,
}

pub struct RenderTypeText {
    pub text: String,
    pub font_family: String,
    pub color: String,
    pub layer: LayerName,
    pub center_x: bool,
}

/// The text of the object, if it has an object with text.
pub open spec fn object_text(general_object_option: Option<GeneralObject>) -> Option<GeneralObjectText> {
    match general_object_option {
        Some(o) => o.text,
        None => None,
    }
}

impl RenderTypeText {
    /// A text render taking text, colour and font from the object's text,
    /// or black empty text when the object has none.
    pub fn from_general_object(
        general_object_option: &Option<GeneralObject>,
        layer_name: LayerName,
    ) -> (render: RenderTypeText)
        ensures
            render.layer == layer_name,
            !render.center_x,
            match object_text(*general_object_option) {
                Some(t) => render.color@ == t.color@ && render.text@ == t.text@
                    && render.font_family@ == t.font_family@,
                None => render.color@ == "#000000"@ && render.text@ == ""@ && render.font_family@
                    == ""@,
            },
    {
        if let Some(general_object) = general_object_option {
            if let Some(text) = &general_object.text {
                return RenderTypeText {
                    color: text.color.clone(),
                    text: text.text.clone(),
                    font_family: text.font_family.clone(),
                    layer: layer_name,
                    center_x: false,
                };
            }
        }
        RenderTypeText {
            color: String::from_str("#000000"),
            text: String::from_str(""),
            font_family: String::from_str(""),
            layer: layer_name,
            center_x: false,
        }
    }
}

impl RenderTypeTimer {
    /// A timer render taking its date from the object's text, colour and
    /// font too, or black and empty when the object has no text.
    pub fn from_general_object(
        general_object_option: &Option<GeneralObject>,
        layer_name: LayerName,
    ) -> (render: RenderTypeTimer)
        ensures
            render.layer == layer_name,
            match object_text(*general_object_option) {
                Some(t) => render.color@ == t.color@ && render.date@ == t.text@
                    && render.font_family@ == t.font_family@,
                None => render.color@ == "#000000"@ && render.date@ == ""@ && render.font_family@
                    == ""@,
            },
    {
        if let Some(general_object) = general_object_option {
            if let Some(text) = &general_object.text {
                return RenderTypeTimer {
                    color: text.color.clone(),
                    date: text.text.clone(),
                    font_family: text.font_family.clone(),
                    layer: layer_name,
                };
            }
        }
        RenderTypeTimer {
            color: String::from_str("#000000"),
            date: String::from_str(""),
            font_family: String::from_str(""),
            layer: layer_name,
        }
    }
}

} // verus!
