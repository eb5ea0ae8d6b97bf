use std::collections::HashMap;

use vstd::prelude::*;

verus! {

pub type EntityId = usize;

pub type JointId = usize;

pub type ResourcePath = String;

pub type ModuleId = String;

pub type ModuleName = String;

pub type ModuleExitSlot = String;

pub type ModuleEnterSlot = String;

pub type Gid = u32;

/// The top-level blueprint: how module exits lead into module entries, the
/// shared resources and the gid ranges of their tilesets. Each exit slot
/// leads to a module and an entry slot of it; no exit slot occurs twice.
pub struct Conductor {
    pub module_connection_map: Vec<(ModuleExitSlot, (ModuleId, ModuleEnterSlot))>,
    pub resources: Vec<BlueprintResource>,
    pub gid_map: GidMap,
}

impl Conductor {
    /// A conductor without connections, resources or gids.
    pub fn default() -> (conductor: Conductor)
        ensures
            conductor.module_connection_map@.len() == 0,
            conductor.resources@.len() == 0,
            conductor.gid_map.0@.len() == 0,
    {
        Conductor {
            module_connection_map: Vec::new(),
            resources: Vec::new(),
            gid_map: GidMap(Vec::new()),
        }
    }
}

/// The result of listing one directory of the blueprint tree.
pub struct FileBrowserResult {
    pub path: String,
    pub dir: String,
    pub dirs: Vec<String>,
    pub resources: Vec<BlueprintResource>,
}

/// What a file of the blueprint tree is, judged by its name.
#[derive(PartialEq, Eq, Structural, Clone, Copy, Debug)]
pub enum FileBrowserFileKind {
    Conductor,
    Audio,
    Font,
    Module,
    GameMap,
    Tileset,
    Script,
    Scene,
    Folder,
    CharacterAnimation,
    Unknown,
}

/// The kinds of resource that modules refer to.
#[derive(PartialEq, Eq, Structural, Clone, Copy, Debug)]
pub enum ResourceKind {
    Tileset,
    Audio,
    Font,
    Scene,
    GameMap,
    Script,
    CharacterAnimation,
    Unknown,
}

/// A resource file a module or the conductor refers to.
pub struct BlueprintResource {
    pub file_name: String,
    pub dir: ResourcePath,
    pub path: ResourcePath,
    pub kind: ResourceKind,
}

pub struct Image {
    pub path: String,
    pub width: u32,
    pub height: u32,
}

pub struct Audio {
    pub name: String,
    pub resource_path: ResourcePath,
    pub audio_path: String,
}

pub struct Font {
    pub name: String,
    pub resource_path: ResourcePath,
    pub font_path: String,
}

/// A three-by-three terrain brush: the gid for each situation of a tile.
pub struct StandardKernelThree {
    pub inside: Gid,
    pub top_left_corner: Gid,
    pub top_right_corner: Gid,
    pub bottom_left_corner: Gid,
    pub bottom_right_corner: Gid,
    pub top_left_inner_corner: Gid,
    pub top_right_inner_corner: Gid,
    pub bottom_left_inner_corner: Gid,
    pub bottom_right_inner_corner: Gid,
    pub top_edge: Gid,
    pub bottom_edge: Gid,
    pub left_edge: Gid,
    pub right_edge: Gid,
    pub left_top_bottom_right_middle_piece: Gid,
    pub right_top_bottom_left_middle_piece: Gid,
}

pub enum TerrainBrush {
    StandardKernelThree(String, StandardKernelThree),
}

/// The size of chunks and tiles of a terrain.
#[derive(Clone, Copy, Debug)]
pub struct TerrainParams {
    pub chunk_size: u32,
    pub tile_width: u32,
    pub tile_height: u32,
}

pub struct SimpleAnimationFrame {
    pub id: u32,
    pub duration: u32,
}

/// One tile of a tileset. The collision shape of a tile, which is made of
/// floating-point numbers, is kept outside this library.
pub struct Tile {
    pub id: u32,
    pub image: Option<Image>,
    pub animation: Option<Vec<SimpleAnimationFrame>>,
}

pub struct Tileset {
    pub name: String,
    pub resource_path: ResourcePath,
    pub image: Option<Image>,
    pub tile_width: u32,
    pub tile_height: u32,
    pub tile_count: u32,
    pub columns: u32,
    pub tiles: HashMap<u32, Tile>,
    pub brushes: Vec<TerrainBrush>,
}

/// A square block of tiles, stored row by row.
pub struct Chunk {
    pub position: (i32, i32),
    pub data: Vec<Gid>,
}

/// New gids for some tiles of a chunk: for each row `y`, pairs of column `x`
/// and gid, applied in the order given.
pub struct ChunkUpdate {
    pub position: (i32, i32),
    pub tile_updates: Vec<(i32, Vec<(i32, Gid)>)>,
}

/// A script resource.
pub struct Script {
    pub id: String,
    pub name: String,
    pub resource_path: ResourcePath,
    pub content: String,
}

pub struct IOPoint {
    pub name: String,
    pub condition_script: String,
}

/// The first gid of each tileset, in the order the tilesets were numbered.
pub struct GidMap(pub Vec<(ResourcePath, Gid)>);

/// For each character animation, the tileset it draws from.
pub struct CharAnimationToTilesetMap(pub Vec<(ResourcePath, ResourcePath)>);

/// A game module: its resources, maps, gid numbering and entry and exit
/// points.
pub struct Module {
    pub id: ModuleId,
    pub name: ModuleName,
    pub resources: Vec<BlueprintResource>,
    pub main_map: Option<ResourcePath>,
    pub gid_map: GidMap,
    pub char_animation_to_tileset_map: CharAnimationToTilesetMap,
    pub insert_points: Vec<IOPoint>,
    pub exit_points: Vec<IOPoint>,
    pub max_guests: usize,
    pub min_guests: usize,
    pub close_after_full: bool,
}

pub struct ModuleUpdate {
    pub name: Option<String>,
    pub resources: Option<Vec<BlueprintResource>>,
    pub insert_points: Option<Vec<IOPoint>>,
    pub exit_points: Option<Vec<IOPoint>>,
    pub main_map: Option<Option<ResourcePath>>,
    pub max_guests: Option<usize>,
    pub min_guests: Option<usize>,
}

pub struct Layer {
    pub name: String,
    pub kind: LayerKind,
}

#[derive(PartialEq, Eq, Structural, Clone, Copy, Debug, Hash)]
pub enum LayerKind {
    BG10,
    BG09,
    BG08,
    BG07,
    BG06,
    BG05,
    BG04,
    BG03,
    BG02,
    BG01,
    BG00,
    ObjectsBelow,
    Terrain,
    ObjectsFront,
    FG00,
    FG01,
    FG02,
    FG03,
    FG04,
    FG05,
    FG06,
    FG07,
    FG08,
    FG09,
    FG10,
}

pub struct Joint {
    pub id: JointId,
    pub entity_a: EntityId,
    pub entity_b: EntityId,
}

/// Loads, saves and classifies blueprint files.
pub struct BlueprintService;

/// Why a blueprint could not be loaded or written. Errors that come from
/// outside this library carry their message.
#[derive(Debug)]
pub enum BlueprintError {
    FileDoesNotExist(String),
    FileAlreadyExists,
    IOError(String),
    WritePoison(String),
    ReadPoison(String),
    SerdeJSON(String),
    Impossible,
    AccessNested(String),
    ConversionToString(String),
    ConversionToStr,
    FileBrowsing(String),
    OsParsing,
}

impl BlueprintResource {
    /// A copy of the resource.
    pub fn duplicate(&self) -> (copy: BlueprintResource)
        ensures
            copy == *self,
    {
        BlueprintResource {
            file_name: self.file_name.clone(),
            dir: self.dir.clone(),
            path: self.path.clone(),
            kind: self.kind,
        }
    }
}

impl Chunk {
    /// A copy of the chunk.
    pub fn duplicate(&self) -> (copy: Chunk)
        ensures
            copy.position == self.position,
            copy.data@ == self.data@,
    {
        let data = self.data.clone();
        proof {
            assert(data@ =~= self.data@);
        }
        Chunk { position: self.position, data }
    }

    /// An empty chunk: `chunk_size * chunk_size` tiles of gid 0.
    pub fn new(position: (i32, i32), chunk_size: usize) -> (chunk: Chunk)
        requires
            chunk_size * chunk_size <= usize::MAX,
        ensures
            chunk.position == position,
            chunk.data@ == Seq::new((chunk_size * chunk_size) as nat, |i: int| 0u32),
    {
        let n = chunk_size * chunk_size;
        let mut data: Vec<Gid> = Vec::new();
        let mut i: usize = 0;
        while i < n
            invariant
                i <= n,
                data@ == Seq::new(i as nat, |k: int| 0u32),
            decreases n - i,
        {
            data.push(0);
            i = i + 1;
        }
        Chunk { position, data }
    }
}

impl Module {
    /// A fresh module with the given name and id and nothing in it.
    pub fn new(name: String, id: String) -> (module: Module)
        ensures
            module.id == id,
            module.name == name,
            module.main_map is None,
            module.max_guests == 0,
            module.min_guests == 0,
            module.gid_map.0@.len() == 0,
            module.char_animation_to_tileset_map.0@.len() == 0,
            module.exit_points@.len() == 0,
            module.insert_points@.len() == 0,
            module.resources@.len() == 0,
            !module.close_after_full,
    {
        Module {
            id,
            name,
            main_map: None,
            max_guests: 0,
            min_guests: 0,
            gid_map: GidMap(Vec::new()),
            char_animation_to_tileset_map: CharAnimationToTilesetMap(Vec::new()),
            exit_points: Vec::new(),
            insert_points: Vec::new(),
            resources: Vec::new(),
            close_after_full: false,
        }
    }
}

impl ModuleUpdate {
    /// An update that changes nothing.
    pub fn default() -> (update: ModuleUpdate)
        ensures
            update.name is None,
            update.resources is None,
            update.insert_points is None,
            update.exit_points is None,
            update.main_map is None,
            update.max_guests is None,
            update.min_guests is None,
    {
        ModuleUpdate {
            name: None,
            resources: None,
            insert_points: None,
            exit_points: None,
            main_map: None,
            max_guests: None,
            min_guests: None,
        }
    }

    /// The same update, which now also replaces the resources.
    pub fn resources(self, resources: Vec<BlueprintResource>) -> (update: ModuleUpdate)
        ensures
            update.resources == Some(resources),
            update.name == self.name,
            update.insert_points == self.insert_points,
            update.exit_points == self.exit_points,
            update.main_map == self.main_map,
            update.max_guests == self.max_guests,
            update.min_guests == self.min_guests,
    {
        let mut update = self;
        update.resources = Some(resources);
        update
    }
}

} // verus!
