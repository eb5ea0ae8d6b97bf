use vstd::prelude::*;
use vstd::string::*;

use crate::object_variants::{entries_view, VariantIds};
use crate::render::LayerName;

verus! {

/// How an object type takes part in physics.
#[derive(PartialEq, Eq, Structural, Clone, Copy, Debug)]
pub enum PhysicsType {
    Area,
    RigidBody,
    StaticRigidBody,
    NoPhysics,
}

/// How an object type is drawn.
#[derive(PartialEq, Eq, Structural, Clone, Copy, Debug)]
pub enum RenderType {
    StaticImage,
    RenderTypeText,
    RenderTypeTimer,
    NoRender,
}

/// What a property of an object type configures.
#[derive(PartialEq, Eq, Structural, Clone, Copy, Debug)]
pub enum PropertyType {
    Physics(PhysicsType),
    Tween,
    Render(RenderType),
    Plain,
}

/// The default value of a property. A float default is kept as the text
/// it was written with.
pub enum PropertyKind {
    Float(String),
    Int(i32),
    String(String),
    Object(String),
    Class(String),
    Boolean(bool),
    Empty,
}

/// A property of an object type.
pub struct ObjectTypeProp {
    pub name: String,
    pub kind: String,
    pub default: PropertyKind,
    pub property_type: PropertyType,
}

/// An object type of the map editor: its properties and what they say about
/// its physics colliders, its layer and how it is drawn, and the variants of
/// it that its tilesets hold. `physics` pairs each collider name with its
/// physics, no name twice.
pub struct ObjectType {
    pub name: String,
    pub props: Vec<ObjectTypeProp>,
    pub physics: Vec<(String, PhysicsType)>,
    pub physics_position: String,
    pub layer_name: LayerName,
    pub render: RenderType,
    pub variants: Vec<(String, VariantIds)>,
}

impl PhysicsType {
    /// The name the physics is shown by.
    pub open spec fn display_text(self) -> Seq<char> {
        match self {
            PhysicsType::StaticRigidBody => "StaticRigidBody"@,
            PhysicsType::RigidBody => "RigidBody"@,
            PhysicsType::Area => "Area"@,
            PhysicsType::NoPhysics => "None"@,
        }
    }

    /// The name the physics is shown by.
    pub fn to_string(&self) -> (text: String)
        ensures
            text@ == self.display_text(),
    {
        match self {
            PhysicsType::StaticRigidBody => String::from_str("StaticRigidBody"),
            PhysicsType::RigidBody => String::from_str("RigidBody"),
            PhysicsType::Area => String::from_str("Area"),
            PhysicsType::NoPhysics => String::from_str("None"),
        }
    }
}

impl RenderType {
    /// The name the render type is shown by: its variant's name.
    pub open spec fn display_text(self) -> Seq<char> {
        match self {
            RenderType::StaticImage => "StaticImage"@,
            RenderType::RenderTypeText => "RenderTypeText"@,
            RenderType::RenderTypeTimer => "RenderTypeTimer"@,
            RenderType::NoRender => "NoRender"@,
        }
    }

    /// The name the render type is shown by: its variant's name.
    pub fn to_string(&self) -> (text: String)
        ensures
            text@ == self.display_text(),
    {
        match self {
            RenderType::StaticImage => String::from_str("StaticImage"),
            RenderType::RenderTypeText => String::from_str("RenderTypeText"),
            RenderType::RenderTypeTimer => String::from_str("RenderTypeTimer"),
            RenderType::NoRender => String::from_str("NoRender"),
        }
    }
}

impl PropertyType {
    /// The name of what the property configures.
    pub open spec fn display_text(self) -> Seq<char> {
        match self {
            PropertyType::Physics(_) => "Physics"@,
            PropertyType::Render(_) => "Render"@,
            PropertyType::Tween => "Tween"@,
            PropertyType::Plain => "None"@,
        }
    }

    /// The name of what the property configures.
    pub fn to_string(&self) -> (text: String)
        ensures
            text@ == self.display_text(),
    {
        match self {
            PropertyType::Physics(_) => String::from_str("Physics"),
            PropertyType::Render(_) => String::from_str("Render"),
            PropertyType::Tween => String::from_str("Tween"),
            PropertyType::Plain => String::from_str("None"),
        }
    }
}

impl PropertyKind {
    /// The name of the type that holds a value of the property in generated
    /// code; a class default names its class.
    pub open spec fn display_text(self) -> Seq<char> {
        match self {
            PropertyKind::Float(_) => "Real"@,
            PropertyKind::Int(_) => "u32"@,
            PropertyKind::String(_) => "String"@,
            PropertyKind::Object(_) => "EntityId"@,
            PropertyKind::Boolean(_) => "bool"@,
            PropertyKind::Class(value) => value@,
            PropertyKind::Empty => "String"@,
        }
    }

    /// The name of the type that holds a value of the property in generated
    /// code; a class default names its class.
    pub fn to_string(&self) -> (text: String)
        ensures
            text@ == self.display_text(),
    {
        match self {
            PropertyKind::Float(_) => String::from_str("Real"),
            PropertyKind::Int(_) => String::from_str("u32"),
            PropertyKind::String(_) => String::from_str("String"),
            PropertyKind::Object(_) => String::from_str("EntityId"),
            PropertyKind::Boolean(_) => String::from_str("bool"),
            PropertyKind::Class(value) => value.clone(),
            PropertyKind::Empty => String::from_str("String"),
        }
    }
}

/// An event of the XML reader, as far as object types are read from it.
pub enum ObjectTypeXmlEvent {
    /// An element opens: its local name and its attributes' local names and
    /// values.
    Start(String, Vec<(String, String)>),
    /// An element closes.
    End(String),
    /// Any other event.
    Other,
    /// The reader failed; nothing after this is read.
    Failure,
}

/// A property default, with texts as character sequences.
pub enum KindModel {
    Float(Seq<char>),
    Int(i32),
    Text(Seq<char>),
    Object(Seq<char>),
    Class(Seq<char>),
    Boolean(bool),
    Empty,
}

/// A property, with texts as character sequences.
pub struct PropModel {
    pub name: Seq<char>,
    pub kind: Seq<char>,
    pub default: KindModel,
    pub property_type: PropertyType,
}

/// An object type, with texts as character sequences and the colliders as
/// a map.
pub struct TypeModel {
    pub name: Seq<char>,
    pub props: Seq<PropModel>,
    pub physics: Map<Seq<char>, PhysicsType>,
    pub physics_position: Seq<char>,
    pub layer_name: LayerName,
    pub render: RenderType,
    pub variants: Seq<(Seq<char>, u32, Seq<(Seq<char>, int)>)>,
}

pub open spec fn kind_model(k: PropertyKind) -> KindModel {
    match k {
        PropertyKind::Float(t) => KindModel::Float(t@),
        PropertyKind::Int(i) => KindModel::Int(i),
        PropertyKind::String(t) => KindModel::Text(t@),
        PropertyKind::Object(t) => KindModel::Object(t@),
        PropertyKind::Class(t) => KindModel::Class(t@),
        PropertyKind::Boolean(b) => KindModel::Boolean(b),
        PropertyKind::Empty => KindModel::Empty,
    }
}

pub open spec fn prop_model(p: ObjectTypeProp) -> PropModel {
    PropModel {
        name: p.name@,
        kind: p.kind@,
        default: kind_model(p.default),
        property_type: p.property_type,
    }
}

/// The colliders of an association list, later pairs winning.
pub open spec fn physics_view(s: Seq<(String, PhysicsType)>) -> Map<Seq<char>, PhysicsType>
    decreases s.len(),
{
    if s.len() == 0 {
        Map::empty()
    } else {
        physics_view(s.drop_last()).insert(s.last().0@, s.last().1)
    }
}

/// No collider name occurs twice.
pub open spec fn unique_names(s: Seq<(String, PhysicsType)>) -> bool {
    forall|i: int, j: int| 0 <= i < j < s.len() ==> s[i].0@ != s[j].0@
}

pub open spec fn type_model(t: ObjectType) -> TypeModel {
    TypeModel {
        name: t.name@,
        props: t.props@.map_values(|p: ObjectTypeProp| prop_model(p)),
        physics: physics_view(t.physics@),
        physics_position: t.physics_position@,
        layer_name: t.layer_name,
        render: t.render,
        variants: entries_view(t.variants@),
    }
}

pub open spec fn types_model(s: Seq<ObjectType>) -> Seq<TypeModel> {
    s.map_values(|t: ObjectType| type_model(t))
}

/// The value of a decimal digit.
pub open spec fn digit_value(c: char) -> int {
    c as int - '0' as int
}

pub open spec fn is_digit(c: char) -> bool {
    '0' <= c && c <= '9'
}

/// The value of a nonempty run of decimal digits, most significant first.
pub open spec fn digits_value(s: Seq<char>) -> int
    decreases s.len(),
{
    if s.len() == 0 {
        0
    } else {
        digits_value(s.drop_last()) * 10 + digit_value(s.last())
    }
}

/// Every character is a decimal digit.
pub open spec fn all_digits(s: Seq<char>) -> bool {
    forall|k: int| 0 <= k < s.len() ==> is_digit(#[trigger] s[k])
}

/// The text without its leading sign, if it has one.
pub open spec fn unsigned_part(s: Seq<char>) -> Seq<char> {
    if s.len() > 0 && (s[0] == '-' || s[0] == '+') {
        s.drop_first()
    } else {
        s
    }
}

/// The number an integer text stands for, as `str::parse::<i32>` reads it:
/// an optional sign, then at least one decimal digit and nothing else, and
/// a value that fits.
pub open spec fn int_value(s: Seq<char>) -> Option<i32> {
    let magnitude = digits_value(unsigned_part(s));
    let value = if s.len() > 0 && s[0] == '-' {
        -magnitude
    } else {
        magnitude
    };
    if unsigned_part(s).len() > 0 && all_digits(unsigned_part(s)) && i32::MIN <= value <= i32::MAX {
        Some(value as i32)
    } else {
        None
    }
}

/// `w` occurs in `s`.
pub open spec fn has_infix(s: Seq<char>, w: Seq<char>) -> bool {
    exists|i: int| 0 <= i && i + w.len() <= s.len() && #[trigger] s.subrange(i, i + w.len()) == w
}

/// The number of bytes UTF-8 takes for the character.
pub open spec fn utf8_width(c: char) -> int {
    if (c as u32) < 0x80 {
        1
    } else if (c as u32) < 0x800 {
        2
    } else if (c as u32) < 0x10000 {
        3
    } else {
        4
    }
}

/// What is left of the text after its first `n` bytes of UTF-8, when `n`
/// bytes end at a character boundary.
pub open spec fn skip_bytes(s: Seq<char>, n: int) -> Option<Seq<char>>
    decreases s.len(),
{
    if n <= 0 {
        if n == 0 {
            Some(s)
        } else {
            None
        }
    } else if s.len() == 0 {
        None
    } else {
        skip_bytes(s.drop_first(), n - utf8_width(s[0]))
    }
}

/// Whether the string holds exactly the given text.
fn text_is(s: &String, word: &str) -> (same: bool)
    ensures
        same == (s@ == word@),
{
    let w = String::from_str(word);
    *s == w
}

/// The characters of a text, in order.
fn chars_of(s: &str) -> (chars: Vec<char>)
    ensures
        chars@ == s@,
{
    let n = s.unicode_len();
    let mut chars: Vec<char> = Vec::new();
    let mut i: usize = 0;
    while i < n
        invariant
            n == s@.len(),
            i <= n,
            chars@ == s@.take(i as int),
        decreases n - i,
    {
        chars.push(s.get_char(i));
        proof {
            assert(s@.take(i + 1) =~= s@.take(i as int).push(s@[i as int]));
        }
        i = i + 1;
    }
    proof {
        assert(s@.take(n as int) =~= s@);
    }
    chars
}

proof fn lemma_digits_value_push(s: Seq<char>, c: char)
    ensures
        digits_value(s.push(c)) == digits_value(s) * 10 + digit_value(c),
{
    assert(s.push(c).drop_last() =~= s);
}

/// Reads an integer text as `str::parse::<i32>` does.
pub fn parse_int(text: &String) -> (value: Option<i32>)
    ensures
        value == int_value(text@),
{
    let chars = chars_of(text.as_str());
    let n = chars.len();
    let negative = n > 0 && chars[0] == '-';
    let start: usize = if n > 0 && (chars[0] == '-' || chars[0] == '+') {
        1
    } else {
        0
    };
    let ghost unsigned = unsigned_part(chars@);
    proof {
        assert(unsigned =~= chars@.subrange(start as int, n as int));
    }
    if start == n {
        return None;
    }
    let mut magnitude: i64 = 0;
    let mut i: usize = start;
    while i < n
        invariant
            chars@ == text@,
            n == chars@.len(),
            start <= i <= n,
            start < n,
            unsigned == chars@.subrange(start as int, n as int),
            unsigned == unsigned_part(chars@),
            negative == (chars@.len() > 0 && chars@[0] == '-'),
            forall|k: int| start <= k < i ==> is_digit(#[trigger] chars@[k]),
            magnitude == digits_value(chars@.subrange(start as int, i as int)),
            0 <= magnitude <= 0x8000_0000,
        decreases n - i,
    {
        let c = chars[i];
        if !('0' <= c && c <= '9') {
            proof {
                assert(unsigned[i - start] == c);
                assert(!is_digit(unsigned[i - start]));
                assert(!all_digits(unsigned));
            }
            return None;
        }
        let d = (c as u32 - '0' as u32) as i64;
        proof {
            assert(chars@.subrange(start as int, i + 1) =~= chars@.subrange(start as int, i as int).push(c));
            lemma_digits_value_push(chars@.subrange(start as int, i as int), c);
        }
        let next = magnitude * 10 + d;
        if next > 0x8000_0000 {
            proof {
                assert(unsigned.subrange(0, i - start + 1) =~= chars@.subrange(start as int, i + 1));
                assert forall|j: int| 0 <= j < i - start + 1 implies is_digit(#[trigger] unsigned[j]) by {
                    assert(unsigned[j] == chars@[j + start]);
                }
                lemma_digits_prefix_bound(unsigned, (i - start + 1) as int, next as int);
            }
            return None;
        }
        magnitude = next;
        i = i + 1;
    }
    proof {
        assert(chars@.subrange(start as int, n as int) == unsigned);
        assert forall|k: int| 0 <= k < unsigned.len() implies is_digit(#[trigger] unsigned[k]) by {
            assert(unsigned[k] == chars@[k + start]);
        }
    }
    if negative {
        Some((0 - magnitude) as i32)
    } else if magnitude <= 0x7fff_ffff {
        Some(magnitude as i32)
    } else {
        None
    }
}

/// A run of digits is worth at least as much as any of its prefixes.
proof fn lemma_digits_prefix_bound(s: Seq<char>, k: int, v: int)
    requires
        0 < k <= s.len(),
        forall|j: int| 0 <= j < k ==> is_digit(#[trigger] s[j]),
        v == digits_value(s.subrange(0, k)),
        v > 0x8000_0000,
    ensures
        (forall|j: int| 0 <= j < s.len() ==> is_digit(#[trigger] s[j])) ==> digits_value(s)
            > 0x8000_0000,
    decreases s.len() - k,
{
    if forall|j: int| 0 <= j < s.len() ==> is_digit(#[trigger] s[j]) {
        if k < s.len() {
            assert(s.subrange(0, k + 1) =~= s.subrange(0, k).push(s[k]));
            lemma_digits_value_push(s.subrange(0, k), s[k]);
            assert(is_digit(s[k]));
            lemma_digits_prefix_bound(s, k + 1, digits_value(s.subrange(0, k + 1)));
        } else {
            assert(s.subrange(0, k) =~= s);
        }
    }
}

/// Whether `w` occurs in `s`.
fn contains_text(s: &Vec<char>, w: &Vec<char>) -> (found: bool)
    ensures
        found == has_infix(s@, w@),
{
    let n = s.len();
    let m = w.len();
    if m > n {
        return false;
    }
    let mut i: usize = 0;
    while i <= n - m
        invariant
            n == s@.len(),
            m == w@.len(),
            m <= n,
            i <= n - m + 1,
            forall|j: int| 0 <= j < i ==> #[trigger] s@.subrange(j, j + m) != w@,
        decreases n - i,
    {
        let mut k: usize = 0;
        let mut same = true;
        while k < m
            invariant
                n == s@.len(),
                m == w@.len(),
                i + m <= n,
                k <= m,
                same == (forall|q: int| 0 <= q < k ==> s@[i + q] == w@[q]),
            decreases m - k,
        {
            if s[i + k] != w[k] {
                same = false;
            }
            k = k + 1;
        }
        if same {
            proof {
                assert(s@.subrange(i as int, i + m) =~= w@);
            }
            return true;
        }
        proof {
            let q = choose|q: int| 0 <= q < m && s@[i + q] != w@[q];
            assert(s@.subrange(i as int, i + m)[q] != w@[q]);
        }
        i = i + 1;
    }
    proof {
        if has_infix(s@, w@) {
            let j = choose|j: int| 0 <= j && j + w@.len() <= s@.len() && #[trigger] s@.subrange(j, j + w@.len()) == w@;
            assert(s@.subrange(j, j + m) == w@);
        }
    }
    false
}

/// The bytes UTF-8 takes for the character.
fn char_width(c: char) -> (width: usize)
    ensures
        width == utf8_width(c),
{
    let code = c as u32;
    if code < 0x80 {
        1
    } else if code < 0x800 {
        2
    } else if code < 0x10000 {
        3
    } else {
        4
    }
}

/// How many characters the first `n` bytes of UTF-8 hold, when they end at
/// a character boundary.
fn chars_in_bytes(s: &Vec<char>, n: usize) -> (count: Option<usize>)
    ensures
        match count {
            Some(k) => k <= s@.len() && skip_bytes(s@, n as int) == Some(s@.skip(k as int)),
            None => skip_bytes(s@, n as int) is None,
        },
{
    let mut k: usize = 0;
    let mut rest: usize = n;
    proof {
        assert(s@.skip(0) =~= s@);
    }
    while rest > 0
        invariant
            k <= s@.len(),
            skip_bytes(s@, n as int) == skip_bytes(s@.skip(k as int), rest as int),
        decreases rest,
    {
        if k == s.len() {
            return None;
        }
        let w = char_width(s[k]);
        proof {
            assert(s@.skip(k as int).drop_first() =~= s@.skip(k + 1));
            assert(s@.skip(k as int)[0] == s@[k as int]);
        }
        if w > rest {
            proof {
                assert(skip_bytes(s@.skip(k + 1), rest - w) is None);
            }
            return None;
        }
        rest = rest - w;
        k = k + 1;
    }
    Some(k)
}

/// Sets the physics of a collider in a list without repeated names.
fn set_physics(list: &mut Vec<(String, PhysicsType)>, name: String, physics: PhysicsType)
    requires
        unique_names(old(list)@),
    ensures
        unique_names(final(list)@),
        physics_view(final(list)@) == physics_view(old(list)@).insert(name@, physics),
{
    let mut i: usize = 0;
    while i < list.len()
        invariant
            *list == *old(list),
            unique_names(list@),
            i <= list@.len(),
            forall|k: int| 0 <= k < i ==> list@[k].0@ != name@,
        decreases list@.len() - i,
    {
        if list[i].0 == name {
            let ghost before = list@;
            list.set(i, (name, physics));
            proof {
                lemma_physics_view_replace(before, i as int, name, physics);
            }
            return;
        }
        i = i + 1;
    }
    list.push((name, physics));
    proof {
        assert(list@.drop_last() =~= old(list)@);
    }
}

proof fn lemma_physics_view_replace(s: Seq<(String, PhysicsType)>, i: int, name: String, physics: PhysicsType)
    requires
        unique_names(s),
        0 <= i < s.len(),
        s[i].0@ == name@,
    ensures
        physics_view(s.update(i, (name, physics))) == physics_view(s).insert(name@, physics),
    decreases s.len(),
{
    let t = s.update(i, (name, physics));
    if i == s.len() - 1 {
        assert(t.drop_last() =~= s.drop_last());
        assert(physics_view(t) =~= physics_view(s).insert(name@, physics));
    } else {
        lemma_physics_view_replace(s.drop_last(), i, name, physics);
        assert(t.drop_last() =~= s.drop_last().update(i, (name, physics)));
        assert(s.last().0@ != name@);
        assert(physics_view(t) =~= physics_view(s).insert(name@, physics));
    }
}

/// Why object types could not be read: an integer default that is no
/// integer, or a collider property whose name cannot be cut after the bytes
/// of its `physics_col_` prefix.
#[derive(PartialEq, Eq, Structural, Clone, Copy, Debug)]
pub enum ReadObjectTypesError {
    InvalidIntDefault,
    UnsplittableColliderName,
}

/// The layer a layer name stands for.
pub open spec fn layer_of(s: Seq<char>) -> Option<LayerName> {
    if s == "Guest"@ {
        Some(LayerName::Guest)
    } else if s == "FG0"@ {
        Some(LayerName::FG0)
    } else if s == "FG1"@ {
        Some(LayerName::FG1)
    } else if s == "FG2"@ {
        Some(LayerName::FG2)
    } else if s == "FG3"@ {
        Some(LayerName::FG3)
    } else if s == "FG4"@ {
        Some(LayerName::FG4)
    } else if s == "FG5"@ {
        Some(LayerName::FG5)
    } else if s == "FG6"@ {
        Some(LayerName::FG6)
    } else if s == "FG7"@ {
        Some(LayerName::FG7)
    } else if s == "FG8"@ {
        Some(LayerName::FG8)
    } else if s == "FG9"@ {
        Some(LayerName::FG9)
    } else if s == "FG10"@ {
        Some(LayerName::FG10)
    } else if s == "FG11"@ {
        Some(LayerName::FG11)
    } else if s == "Menu"@ {
        Some(LayerName::Menu)
    } else if s == "GameObjects"@ {
        Some(LayerName::GameObjects)
    } else if s == "BG0"@ {
        Some(LayerName::BG0)
    } else if s == "BG1"@ {
        Some(LayerName::BG1)
    } else if s == "BG2"@ {
        Some(LayerName::BG2)
    } else if s == "BG3"@ {
        Some(LayerName::BG3)
    } else if s == "BG4"@ {
        Some(LayerName::BG4)
    } else if s == "BG5"@ {
        Some(LayerName::BG5)
    } else if s == "BG6"@ {
        Some(LayerName::BG6)
    } else if s == "BG7"@ {
        Some(LayerName::BG7)
    } else if s == "BG8"@ {
        Some(LayerName::BG8)
    } else if s == "BG9"@ {
        Some(LayerName::BG9)
    } else if s == "BG10"@ {
        Some(LayerName::BG10)
    } else if s == "BG11"@ {
        Some(LayerName::BG11)
    } else if s == "Terrain"@ {
        Some(LayerName::Terrain)
    } else {
        None
    }
}

/// The physics a physics property's default names.
pub open spec fn physics_of(default: KindModel) -> PhysicsType {
    match default {
        KindModel::Text(v) => if v == "RigidBody"@ {
            PhysicsType::RigidBody
        } else if v == "StaticRigidBody"@ {
            PhysicsType::StaticRigidBody
        } else if v == "Area"@ {
            PhysicsType::Area
        } else {
            PhysicsType::NoPhysics
        },
        _ => PhysicsType::NoPhysics,
    }
}

/// A physics default is read as the physics whose name it spells: every
/// physics, written out by its display text, reads back as itself.
pub proof fn lemma_physics_reads_back(p: PhysicsType)
    ensures
        physics_of(KindModel::Text(p.display_text())) == p,
{
    reveal_strlit("RigidBody");
    reveal_strlit("StaticRigidBody");
    reveal_strlit("Area");
    reveal_strlit("None");
    assert("RigidBody"@.len() == 9);
    assert("StaticRigidBody"@.len() == 15);
    assert("Area"@.len() == 4 && "Area"@[0] == 'A');
    assert("None"@.len() == 4 && "None"@[0] == 'N');
}

/// The way of drawing a render property's default names.
pub open spec fn render_of(default: KindModel) -> RenderType {
    match default {
        KindModel::Text(v) => if v == "StaticImage"@ {
            RenderType::StaticImage
        } else if v == "Text"@ {
            RenderType::RenderTypeText
        } else if v == "Timer"@ {
            RenderType::RenderTypeTimer
        } else {
            RenderType::NoRender
        },
        _ => RenderType::NoRender,
    }
}

/// A render default names the way of drawing whose variant name it is, with
/// the `RenderType` prefix of the name left off where the name has one.
pub proof fn lemma_render_reads_variant_name(r: RenderType, n: Seq<char>)
    requires
        r != RenderType::NoRender,
        r.display_text() == "RenderType"@ + n || (r.display_text() == n && !(n.len() >= 10 && n.take(10)
            == "RenderType"@)),
    ensures
        render_of(KindModel::Text(n)) == r,
{
    reveal_strlit("StaticImage");
    reveal_strlit("Text");
    reveal_strlit("Timer");
    reveal_strlit("RenderType");
    reveal_strlit("RenderTypeText");
    reveal_strlit("RenderTypeTimer");
    assert("StaticImage"@.len() == 11 && "StaticImage"@[0] == 'S');
    assert("Text"@.len() == 4 && "Text"@[1] == 'e');
    assert("Timer"@.len() == 5);
    assert("RenderType"@.len() == 10 && "RenderType"@[0] == 'R');
    assert("RenderTypeText"@.len() == 14 && "RenderTypeTimer"@.len() == 15);
    assert("RenderTypeText"@[0] == 'R' && "RenderTypeTimer"@[0] == 'R');
    if r.display_text() == "RenderType"@ + n {
        assert(n =~= r.display_text().skip(10));
        if r == RenderType::StaticImage {
            assert(("RenderType"@ + n)[0] == 'R');
        } else if r == RenderType::RenderTypeText {
            assert("RenderTypeText"@.skip(10) =~= "Text"@);
        } else {
            assert("RenderTypeTimer"@.skip(10) =~= "Timer"@);
        }
    } else {
        if r == RenderType::RenderTypeText {
            assert("RenderTypeText"@.take(10) =~= "RenderType"@);
        } else if r == RenderType::RenderTypeTimer {
            assert("RenderTypeTimer"@.take(10) =~= "RenderType"@);
        }
    }
}

/// The property with its default read from `v` as its kind says.
pub open spec fn assign_default(prop: PropModel, v: Seq<char>) -> Result<PropModel, ReadObjectTypesError> {
    let k = prop.kind;
    if k == "float"@ {
        Ok(PropModel { default: KindModel::Float(v), ..prop })
    } else if k == "int"@ {
        match int_value(v) {
            Some(i) => Ok(PropModel { default: KindModel::Int(i), ..prop }),
            None => Err(ReadObjectTypesError::InvalidIntDefault),
        }
    } else if k == "string"@ {
        Ok(PropModel { default: KindModel::Text(v), ..prop })
    } else if k == "bool"@ {
        Ok(PropModel { default: KindModel::Boolean(v != "false"@), ..prop })
    } else if k == "object"@ {
        Ok(PropModel { default: KindModel::Object(v), ..prop })
    } else if k == "class"@ {
        Ok(PropModel { default: KindModel::Class(v), ..prop })
    } else {
        Ok(prop)
    }
}

/// The property and the property type after the attribute `a="v"`.
pub open spec fn assign_step(prop: PropModel, pt: Seq<char>, a: Seq<char>, v: Seq<char>) -> Result<
    (PropModel, Seq<char>),
    ReadObjectTypesError,
> {
    if a == "name"@ {
        Ok((PropModel { name: v, ..prop }, pt))
    } else if a == "type"@ {
        Ok((PropModel { kind: v, ..prop }, pt))
    } else if a == "default"@ {
        match assign_default(prop, v) {
            Ok(p) => Ok((p, pt)),
            Err(e) => Err(e),
        }
    } else if a == "propertytype"@ {
        Ok((prop, v))
    } else {
        Ok((prop, pt))
    }
}

/// The type with the physics position a `physics_position` text property
/// gives.
pub open spec fn with_position(cur: TypeModel, prop: PropModel) -> TypeModel {
    if prop.name == "physics_position"@ {
        match prop.default {
            KindModel::Text(v) => TypeModel { physics_position: v, ..cur },
            _ => cur,
        }
    } else {
        cur
    }
}

/// The type and the property after applying what the property type says.
pub open spec fn apply_property_type(cur: TypeModel, prop: PropModel, pt: Seq<char>) -> (TypeModel, PropModel) {
    if pt == "LayerName"@ {
        (
            match prop.default {
                KindModel::Text(name) => match layer_of(name) {
                    Some(l) => TypeModel { layer_name: l, ..cur },
                    None => cur,
                },
                _ => cur,
            },
            prop,
        )
    } else if pt == "Physics"@ {
        (cur, PropModel { property_type: PropertyType::Physics(physics_of(prop.default)), ..prop })
    } else if pt == "Tween"@ {
        (cur, PropModel { default: KindModel::Class("Tween"@), property_type: PropertyType::Tween, ..prop })
    } else if pt == "Render"@ {
        (cur, PropModel { property_type: PropertyType::Render(render_of(prop.default)), ..prop })
    } else {
        (cur, prop)
    }
}

/// The colliders after a physics property: a `physics_col_<name>` property
/// sets the collider `<name>`, a `physics` property the default collider.
pub open spec fn with_collider(cur: TypeModel, prop: PropModel, p: PhysicsType) -> Result<TypeModel, ReadObjectTypesError> {
    let named = if has_infix(prop.name, "physics_col_"@) {
        match skip_bytes(prop.name, 12) {
            Some(rest) => Ok(TypeModel { physics: cur.physics.insert(rest, p), ..cur }),
            None => Err(ReadObjectTypesError::UnsplittableColliderName),
        }
    } else {
        Ok(cur)
    };
    match named {
        Ok(c) => Ok(
            if prop.name == "physics"@ {
                TypeModel { physics: c.physics.insert("default"@, p), ..c }
            } else {
                c
            },
        ),
        Err(e) => Err(e),
    }
}

/// The type after what the property says of its physics and its drawing.
pub open spec fn record_property(cur: TypeModel, prop: PropModel) -> Result<TypeModel, ReadObjectTypesError> {
    let with_physics = match prop.property_type {
        PropertyType::Physics(p) => with_collider(cur, prop, p),
        _ => Ok(cur),
    };
    match with_physics {
        Ok(c) => Ok(
            match prop.property_type {
                PropertyType::Render(r) => TypeModel { render: r, ..c },
                _ => c,
            },
        ),
        Err(e) => Err(e),
    }
}

/// The type, property and property type after one attribute of a property
/// element.
pub open spec fn attr_step(cur: TypeModel, prop: PropModel, pt: Seq<char>, a: Seq<char>, v: Seq<char>) -> Result<
    (TypeModel, PropModel, Seq<char>),
    ReadObjectTypesError,
> {
    match assign_step(prop, pt, a, v) {
        Ok((p1, pt1)) => {
            let (c2, p2) = apply_property_type(with_position(cur, p1), p1, pt1);
            match record_property(c2, p2) {
                Ok(c3) => Ok((c3, p2, pt1)),
                Err(e) => Err(e),
            }
        },
        Err(e) => Err(e),
    }
}

/// The layer a layer name stands for.
fn layer_from_text(text: &String) -> (layer: Option<LayerName>)
    ensures
        layer == layer_of(text@),
{
    if text_is(text, "Guest") {
        Some(LayerName::Guest)
    } else if text_is(text, "FG0") {
        Some(LayerName::FG0)
    } else if text_is(text, "FG1") {
        Some(LayerName::FG1)
    } else if text_is(text, "FG2") {
        Some(LayerName::FG2)
    } else if text_is(text, "FG3") {
        Some(LayerName::FG3)
    } else if text_is(text, "FG4") {
        Some(LayerName::FG4)
    } else if text_is(text, "FG5") {
        Some(LayerName::FG5)
    } else if text_is(text, "FG6") {
        Some(LayerName::FG6)
    } else if text_is(text, "FG7") {
        Some(LayerName::FG7)
    } else if text_is(text, "FG8") {
        Some(LayerName::FG8)
    } else if text_is(text, "FG9") {
        Some(LayerName::FG9)
    } else if text_is(text, "FG10") {
        Some(LayerName::FG10)
    } else if text_is(text, "FG11") {
        Some(LayerName::FG11)
    } else if text_is(text, "Menu") {
        Some(LayerName::Menu)
    } else if text_is(text, "GameObjects") {
        Some(LayerName::GameObjects)
    } else if text_is(text, "BG0") {
        Some(LayerName::BG0)
    } else if text_is(text, "BG1") {
        Some(LayerName::BG1)
    } else if text_is(text, "BG2") {
        Some(LayerName::BG2)
    } else if text_is(text, "BG3") {
        Some(LayerName::BG3)
    } else if text_is(text, "BG4") {
        Some(LayerName::BG4)
    } else if text_is(text, "BG5") {
        Some(LayerName::BG5)
    } else if text_is(text, "BG6") {
        Some(LayerName::BG6)
    } else if text_is(text, "BG7") {
        Some(LayerName::BG7)
    } else if text_is(text, "BG8") {
        Some(LayerName::BG8)
    } else if text_is(text, "BG9") {
        Some(LayerName::BG9)
    } else if text_is(text, "BG10") {
        Some(LayerName::BG10)
    } else if text_is(text, "BG11") {
        Some(LayerName::BG11)
    } else if text_is(text, "Terrain") {
        Some(LayerName::Terrain)
    } else {
        None
    }
}

/// The physics a default names.
fn physics_from_default(default: &PropertyKind) -> (p: PhysicsType)
    ensures
        p == physics_of(kind_model(*default)),
{
    match default {
        PropertyKind::String(v) => if text_is(v, "RigidBody") {
            PhysicsType::RigidBody
        } else if text_is(v, "StaticRigidBody") {
            PhysicsType::StaticRigidBody
        } else if text_is(v, "Area") {
            PhysicsType::Area
        } else {
            PhysicsType::NoPhysics
        },
        _ => PhysicsType::NoPhysics,
    }
}

/// The way of drawing a default names.
fn render_from_default(default: &PropertyKind) -> (r: RenderType)
    ensures
        r == render_of(kind_model(*default)),
{
    match default {
        PropertyKind::String(v) => if text_is(v, "StaticImage") {
            RenderType::StaticImage
        } else if text_is(v, "Text") {
            RenderType::RenderTypeText
        } else if text_is(v, "Timer") {
            RenderType::RenderTypeTimer
        } else {
            RenderType::NoRender
        },
        _ => RenderType::NoRender,
    }
}

/// Reads one attribute of a property element into the property, or into
/// the property type when it is `propertytype`.
fn assign_attribute(prop: &mut ObjectTypeProp, pt: &mut String, a: &String, v: &String) -> (result: Result<
    (),
    ReadObjectTypesError,
>)
    ensures
        match assign_step(prop_model(*old(prop)), old(pt)@, a@, v@) {
            Ok((p, t)) => result is Ok && prop_model(*final(prop)) == p && final(pt)@ == t,
            Err(e) => result == Err::<(), ReadObjectTypesError>(e),
        },
{
    if text_is(a, "name") {
        prop.name = v.clone();
    } else if text_is(a, "type") {
        prop.kind = v.clone();
    } else if text_is(a, "default") {
        if text_is(&prop.kind, "float") {
            prop.default = PropertyKind::Float(v.clone());
        } else if text_is(&prop.kind, "int") {
            match parse_int(v) {
                Some(i) => {
                    prop.default = PropertyKind::Int(i);
                },
                None => {
                    return Err(ReadObjectTypesError::InvalidIntDefault);
                },
            }
        } else if text_is(&prop.kind, "string") {
            prop.default = PropertyKind::String(v.clone());
        } else if text_is(&prop.kind, "bool") {
            prop.default = PropertyKind::Boolean(!text_is(v, "false"));
        } else if text_is(&prop.kind, "object") {
            prop.default = PropertyKind::Object(v.clone());
        } else if text_is(&prop.kind, "class") {
            prop.default = PropertyKind::Class(v.clone());
        }
    } else if text_is(a, "propertytype") {
        *pt = v.clone();
    }
    Ok(())
}

/// Takes over a `physics_position` text property as the type's physics
/// position, then applies what the property type says.
fn apply_property_attributes(cur: &mut ObjectType, prop: &mut ObjectTypeProp, pt: &String)
    ensures
        final(cur).props == old(cur).props,
        final(cur).physics == old(cur).physics,
        (type_model(*final(cur)), prop_model(*final(prop))) == apply_property_type(
            with_position(type_model(*old(cur)), prop_model(*old(prop))),
            prop_model(*old(prop)),
            pt@,
        ),
{
    if text_is(&prop.name, "physics_position") {
        if let PropertyKind::String(value) = &prop.default {
            cur.physics_position = value.clone();
        }
    }
    if text_is(pt, "LayerName") {
        if let PropertyKind::String(layer_name) = &prop.default {
            if let Some(layer) = layer_from_text(layer_name) {
                cur.layer_name = layer;
            }
        }
    } else if text_is(pt, "Physics") {
        prop.property_type = PropertyType::Physics(physics_from_default(&prop.default));
    } else if text_is(pt, "Tween") {
        prop.default = PropertyKind::Class(String::from_str("Tween"));
        prop.property_type = PropertyType::Tween;
    } else if text_is(pt, "Render") {
        prop.property_type = PropertyType::Render(render_from_default(&prop.default));
    }
    proof {
        assert(type_model(*cur).props == type_model(*old(cur)).props);
    }
}

/// Records the collider a physics property names, and the way of drawing a
/// render property gives.
fn record_property_into(cur: &mut ObjectType, prop: &ObjectTypeProp) -> (result: Result<(), ReadObjectTypesError>)
    requires
        unique_names(old(cur).physics@),
    ensures
        unique_names(final(cur).physics@),
        match record_property(type_model(*old(cur)), prop_model(*prop)) {
            Ok(c) => result is Ok && type_model(*final(cur)) == c,
            Err(e) => result == Err::<(), ReadObjectTypesError>(e),
        },
{
    if let PropertyType::Physics(physics) = prop.property_type {
        let name = chars_of(prop.name.as_str());
        let marker = chars_of("physics_col_");
        proof {
            reveal_strlit("physics_col_");
        }
        if contains_text(&name, &marker) {
            match chars_in_bytes(&name, 12) {
                Some(k) => {
                    let rest = String::from_str(prop.name.as_str().substring_char(k, name.len()));
                    proof {
                        assert(rest@ == name@.skip(k as int));
                    }
                    set_physics(&mut cur.physics, rest, physics);
                },
                None => {
                    return Err(ReadObjectTypesError::UnsplittableColliderName);
                },
            }
        }
        if text_is(&prop.name, "physics") {
            set_physics(&mut cur.physics, String::from_str("default"), physics);
        }
    }
    if let PropertyType::Render(render) = prop.property_type {
        cur.render = render;
    }
    proof {
        assert(type_model(*cur).props == type_model(*old(cur)).props);
    }
    Ok(())
}

/// What reading has gathered: the object types done, and the type and the
/// property being read.
pub struct ReadState {
    pub types: Seq<TypeModel>,
    pub cur: TypeModel,
    pub prop: PropModel,
}

/// What one event leads to.
pub enum StepOutcome {
    Next(ReadState),
    Stop,
    Fail(ReadObjectTypesError),
}

/// A type before any of its elements were read.
pub open spec fn fresh_type() -> TypeModel {
    TypeModel {
        name: Seq::empty(),
        props: Seq::empty(),
        physics: Map::empty(),
        physics_position: "default"@,
        layer_name: LayerName::GameObjects,
        render: RenderType::NoRender,
        variants: Seq::empty(),
    }
}

/// A property before any of its attributes were read.
pub open spec fn fresh_prop() -> PropModel {
    PropModel {
        name: Seq::empty(),
        kind: Seq::empty(),
        default: KindModel::Empty,
        property_type: PropertyType::Plain,
    }
}

pub open spec fn initial_state() -> ReadState {
    ReadState { types: Seq::empty(), cur: fresh_type(), prop: fresh_prop() }
}

pub open spec fn attrs_model(attrs: Seq<(String, String)>) -> Seq<(Seq<char>, Seq<char>)> {
    attrs.map_values(|a: (String, String)| (a.0@, a.1@))
}

/// The type, property and property type after the attributes, in order.
pub open spec fn attrs_step(
    cur: TypeModel,
    prop: PropModel,
    pt: Seq<char>,
    attrs: Seq<(Seq<char>, Seq<char>)>,
) -> Result<(TypeModel, PropModel, Seq<char>), ReadObjectTypesError>
    decreases attrs.len(),
{
    if attrs.len() == 0 {
        Ok((cur, prop, pt))
    } else {
        match attrs_step(cur, prop, pt, attrs.drop_last()) {
            Ok((c, p, t)) => attr_step(c, p, t, attrs.last().0, attrs.last().1),
            Err(e) => Err(e),
        }
    }
}

/// The name of an object type after its element's attributes: the last
/// `name` attribute, if there is one.
pub open spec fn type_name_after(name: Seq<char>, attrs: Seq<(Seq<char>, Seq<char>)>) -> Seq<char>
    decreases attrs.len(),
{
    if attrs.len() == 0 {
        name
    } else if attrs.last().0 == "name"@ {
        attrs.last().1
    } else {
        type_name_after(name, attrs.drop_last())
    }
}

/// What one event of the reader does: an `objecttype` element names the
/// type, a `property` element reads its attributes; closing a property adds
/// it to the type, closing a type keeps it unless it is the `Tween` type;
/// a failure stops reading.
pub open spec fn event_step(st: ReadState, e: ObjectTypeXmlEvent) -> StepOutcome {
    match e {
        ObjectTypeXmlEvent::Start(name, attrs) => if name@ == "objecttype"@ {
            StepOutcome::Next(
                ReadState {
                    cur: TypeModel { name: type_name_after(st.cur.name, attrs_model(attrs@)), ..st.cur },
                    ..st
                },
            )
        } else if name@ == "property"@ {
            match attrs_step(st.cur, st.prop, Seq::empty(), attrs_model(attrs@)) {
                Ok((c, p, t)) => StepOutcome::Next(ReadState { types: st.types, cur: c, prop: p }),
                Err(err) => StepOutcome::Fail(err),
            }
        } else {
            StepOutcome::Next(st)
        },
        ObjectTypeXmlEvent::End(name) => if name@ == "objecttype"@ {
            StepOutcome::Next(
                ReadState {
                    types: if st.cur.name != "Tween"@ {
                        st.types.push(st.cur)
                    } else {
                        st.types
                    },
                    cur: fresh_type(),
                    prop: st.prop,
                },
            )
        } else if name@ == "property"@ {
            StepOutcome::Next(
                ReadState {
                    types: st.types,
                    cur: TypeModel { props: st.cur.props.push(st.prop), ..st.cur },
                    prop: fresh_prop(),
                },
            )
        } else {
            StepOutcome::Next(st)
        },
        ObjectTypeXmlEvent::Other => StepOutcome::Next(st),
        ObjectTypeXmlEvent::Failure => StepOutcome::Stop,
    }
}

/// The object types the events describe, or why they cannot be read.
pub open spec fn run_events(st: ReadState, events: Seq<ObjectTypeXmlEvent>) -> Result<
    Seq<TypeModel>,
    ReadObjectTypesError,
>
    decreases events.len(),
{
    if events.len() == 0 {
        Ok(st.types)
    } else {
        match event_step(st, events[0]) {
            StepOutcome::Next(next) => run_events(next, events.drop_first()),
            StepOutcome::Stop => Ok(st.types),
            StepOutcome::Fail(e) => Err(e),
        }
    }
}

proof fn lemma_attrs_step_error(
    cur: TypeModel,
    prop: PropModel,
    pt: Seq<char>,
    attrs: Seq<(Seq<char>, Seq<char>)>,
    i: int,
)
    requires
        0 <= i <= attrs.len(),
        attrs_step(cur, prop, pt, attrs.take(i)) is Err,
    ensures
        attrs_step(cur, prop, pt, attrs) == attrs_step(cur, prop, pt, attrs.take(i)),
    decreases attrs.len(),
{
    if i == attrs.len() {
        assert(attrs.take(i) =~= attrs);
    } else {
        assert(attrs.drop_last().take(i) =~= attrs.take(i));
        lemma_attrs_step_error(cur, prop, pt, attrs.drop_last(), i);
    }
}

/// A type before any of its elements were read.
fn new_object_type() -> (t: ObjectType)
    ensures
        type_model(t) == fresh_type(),
        unique_names(t.physics@),
{
    let t = ObjectType {
        name: String::new(),
        props: Vec::new(),
        physics: Vec::new(),
        physics_position: String::from_str("default"),
        layer_name: LayerName::GameObjects,
        render: RenderType::NoRender,
        variants: Vec::new(),
    };
    proof {
        assert(type_model(t).variants =~= Seq::<(Seq<char>, u32, Seq<(Seq<char>, int)>)>::empty());
        assert(type_model(t).props =~= Seq::<PropModel>::empty());
        assert(type_model(t).physics =~= Map::<Seq<char>, PhysicsType>::empty());
    }
    t
}

/// A property before any of its attributes were read.
fn new_object_type_prop() -> (p: ObjectTypeProp)
    ensures
        prop_model(p) == fresh_prop(),
{
    ObjectTypeProp {
        name: String::new(),
        kind: String::new(),
        default: PropertyKind::Empty,
        property_type: PropertyType::Plain,
    }
}

/// Reads object types from the events of an XML reader, one event at a
/// time.
pub struct ObjectTypeReader {
    pub object_types: Vec<ObjectType>,
    pub current_object_type: ObjectType,
    pub current_object_type_prop: ObjectTypeProp,
}

impl ObjectTypeReader {
    pub open spec fn state(&self) -> ReadState {
        ReadState {
            types: types_model(self.object_types@),
            cur: type_model(self.current_object_type),
            prop: prop_model(self.current_object_type_prop),
        }
    }

    /// Every type, read or being read, names each collider once.
    pub open spec fn wf(&self) -> bool {
        &&& unique_names(self.current_object_type.physics@)
        &&& forall|i: int|
            0 <= i < self.object_types@.len() ==> unique_names(#[trigger] self.object_types@[i].physics@)
    }

    pub fn new() -> (reader: ObjectTypeReader)
        ensures
            reader.wf(),
            reader.state() == initial_state(),
    {
        let reader = ObjectTypeReader {
            object_types: Vec::new(),
            current_object_type: new_object_type(),
            current_object_type_prop: new_object_type_prop(),
        };
        proof {
            assert(types_model(reader.object_types@) =~= Seq::<TypeModel>::empty());
        }
        reader
    }
}

impl ObjectTypeReader {
    /// Reads the opening of an element.
    pub fn start_element(&mut self, name: &String, attributes: &Vec<(String, String)>) -> (result: Result<
        (),
        ReadObjectTypesError,
    >)
        requires
            old(self).wf(),
        ensures
            final(self).wf(),
            match event_step(old(self).state(), ObjectTypeXmlEvent::Start(*name, *attributes)) {
                StepOutcome::Next(next) => result is Ok && final(self).state() == next,
                StepOutcome::Fail(e) => result == Err::<(), ReadObjectTypesError>(e),
                StepOutcome::Stop => false,
            },
    {
        let ghost attrs = attrs_model(attributes@);
        if text_is(name, "objecttype") {
            let ghost start_name = self.current_object_type.name@;
            let mut i: usize = 0;
            while i < attributes.len()
                invariant
                    i <= attributes@.len(),
                    attrs == attrs_model(attributes@),
                    self.wf(),
                    self.current_object_type.name@ == type_name_after(start_name, attrs.take(i as int)),
                    self.object_types == old(self).object_types,
                    self.current_object_type_prop == old(self).current_object_type_prop,
                    self.current_object_type.props == old(self).current_object_type.props,
                    self.current_object_type.physics == old(self).current_object_type.physics,
                    self.current_object_type.physics_position == old(self).current_object_type.physics_position,
                    self.current_object_type.layer_name == old(self).current_object_type.layer_name,
                    self.current_object_type.render == old(self).current_object_type.render,
                    self.current_object_type.variants == old(self).current_object_type.variants,
                decreases attributes@.len() - i,
            {
                proof {
                    assert(attrs.take(i + 1).drop_last() =~= attrs.take(i as int));
                    assert(attrs.take(i + 1).last() == attrs[i as int]);
                }
                if text_is(&attributes[i].0, "name") {
                    self.current_object_type.name = attributes[i].1.clone();
                }
                i = i + 1;
            }
            proof {
                assert(attrs.take(attributes@.len() as int) =~= attrs);
            }
            Ok(())
        } else if text_is(name, "property") {
            let ghost c0 = self.state().cur;
            let ghost p0 = self.state().prop;
            let mut pt = String::new();
            let mut i: usize = 0;
            proof {
                assert(attrs.take(0) =~= Seq::<(Seq<char>, Seq<char>)>::empty());
            }
            while i < attributes.len()
                invariant
                    i <= attributes@.len(),
                    attrs == attrs_model(attributes@),
                    self.wf(),
                    self.object_types == old(self).object_types,
                    name@ == "property"@,
                    name@ != "objecttype"@,
                    c0 == old(self).state().cur,
                    p0 == old(self).state().prop,
                    attrs_step(c0, p0, Seq::empty(), attrs.take(i as int)) == Ok::<
                        (TypeModel, PropModel, Seq<char>),
                        ReadObjectTypesError,
                    >((self.state().cur, self.state().prop, pt@)),
                decreases attributes@.len() - i,
            {
                proof {
                    assert(attrs.take(i + 1).drop_last() =~= attrs.take(i as int));
                    assert(attrs.take(i + 1).last() == attrs[i as int]);
                    assert(attrs[i as int] == (attributes@[i as int].0@, attributes@[i as int].1@));
                }
                let ghost c1 = self.state().cur;
                let ghost p1 = self.state().prop;
                let ghost t1 = pt@;
                match assign_attribute(&mut self.current_object_type_prop, &mut pt, &attributes[i].0, &attributes[i].1) {
                    Ok(()) => {},
                    Err(e) => {
                        proof {
                            lemma_attrs_step_error(c0, p0, Seq::empty(), attrs, i + 1);
                        }
                        return Err(e);
                    },
                }
                apply_property_attributes(&mut self.current_object_type, &mut self.current_object_type_prop, &pt);
                match record_property_into(&mut self.current_object_type, &self.current_object_type_prop) {
                    Ok(()) => {},
                    Err(e) => {
                        proof {
                            lemma_attrs_step_error(c0, p0, Seq::empty(), attrs, i + 1);
                        }
                        return Err(e);
                    },
                }
                proof {
                    assert(types_model(self.object_types@) == types_model(old(self).object_types@));
                }
                i = i + 1;
            }
            proof {
                assert(attrs.take(attributes@.len() as int) =~= attrs);
            }
            Ok(())
        } else {
            Ok(())
        }
    }

    /// Reads the closing of an element.
    pub fn end_element(&mut self, name: &String)
        requires
            old(self).wf(),
        ensures
            final(self).wf(),
            event_step(old(self).state(), ObjectTypeXmlEvent::End(*name)) == StepOutcome::Next(
                final(self).state(),
            ),
    {
        if text_is(name, "objecttype") {
            let mut done = new_object_type();
            std::mem::swap(&mut done, &mut self.current_object_type);
            if !text_is(&done.name, "Tween") {
                self.object_types.push(done);
                proof {
                    assert(types_model(self.object_types@) =~= types_model(old(self).object_types@).push(
                        type_model(done),
                    ));
                }
            }
        } else if text_is(name, "property") {
            let mut done = new_object_type_prop();
            std::mem::swap(&mut done, &mut self.current_object_type_prop);
            self.current_object_type.props.push(done);
            proof {
                assert(type_model(self.current_object_type).props =~= type_model(
                    old(self).current_object_type,
                ).props.push(prop_model(done)));
            }
        }
    }
}

/// Reads object types from the events of an XML reader: the types the
/// events describe, up to a failure of the reader, or why they cannot be
/// read.
pub fn object_types_from_events(events: &Vec<ObjectTypeXmlEvent>) -> (result: Result<
    Vec<ObjectType>,
    ReadObjectTypesError,
>)
    ensures
        match run_events(initial_state(), events@) {
            Ok(types) => result matches Ok(read) && types_model(read@) == types,
            Err(e) => result matches Err(err) && err == e,
        },
{
    let mut reader = ObjectTypeReader::new();
    let mut i: usize = 0;
    proof {
        assert(events@.skip(0) =~= events@);
    }
    while i < events.len()
        invariant
            i <= events@.len(),
            reader.wf(),
            run_events(initial_state(), events@) == run_events(reader.state(), events@.skip(i as int)),
        decreases events@.len() - i,
    {
        proof {
            assert(events@.skip(i as int)[0] == events@[i as int]);
            assert(events@.skip(i as int).drop_first() =~= events@.skip(i + 1));
        }
        match &events[i] {
            ObjectTypeXmlEvent::Start(name, attributes) => {
                match reader.start_element(name, attributes) {
                    Ok(()) => {},
                    Err(e) => {
                        return Err(e);
                    },
                }
            },
            ObjectTypeXmlEvent::End(name) => {
                reader.end_element(name);
            },
            ObjectTypeXmlEvent::Other => {},
            ObjectTypeXmlEvent::Failure => {
                return Ok(reader.object_types);
            },
        }
        i = i + 1;
    }
    Ok(reader.object_types)
}

/// The events `xml-rs` reads from the bytes, each turned into an event of
/// this module.
pub uninterp spec fn xml_events(bytes: Seq<u8>) -> Seq<ObjectTypeXmlEvent>;

/// Runs the event reader of `xml-rs` (`EventReader::new`, then its
/// iterator) over the bytes. An opening element keeps its local name and
/// its attributes' local names and values, a closing element its local
/// name, an error becomes `Failure` and any other event `Other`. The events
/// depend on the bytes alone, which `xml_events` names; what they are is
/// the XML grammar, not stated here.
#[verifier::external_body]
fn reader_events(bytes: &[u8]) -> (events: Vec<ObjectTypeXmlEvent>)
    ensures
        events@ == xml_events(bytes@),
{
    xml::EventReader::new(bytes).into_iter().map(|event| match event {
        Ok(xml::reader::XmlEvent::StartElement { name, attributes, .. }) => ObjectTypeXmlEvent::Start(
            name.local_name,
            attributes.into_iter().map(|a| (a.name.local_name, a.value)).collect(),
        ),
        Ok(xml::reader::XmlEvent::EndElement { name }) => ObjectTypeXmlEvent::End(name.local_name),
        Ok(_) => ObjectTypeXmlEvent::Other,
        Err(_) => ObjectTypeXmlEvent::Failure,
    }).collect()
}

/// Reads the object types of a map editor's object type file.
pub fn read_object_types(xml_bytes: &[u8]) -> (result: Result<Vec<ObjectType>, ReadObjectTypesError>)
    ensures
        match run_events(initial_state(), xml_events(xml_bytes@)) {
            Ok(types) => result matches Ok(read) && types_model(read@) == types,
            Err(e) => result matches Err(err) && err == e,
        },
{
    let events = reader_events(xml_bytes);
    object_types_from_events(&events)
}

} // verus!
