//! Game-world bookkeeping for the shiku home server: terrain geometry,
//! keyed collections, blueprint classification and instance membership.
use vstd::prelude::*;

pub mod ring;
pub mod terrain;
pub mod blueprint;
pub mod file_kind;
pub mod lazy_set;
pub mod managed_map;
pub mod guest;
pub mod visibility;
pub mod util;
pub mod render;
pub mod blueprint_ops;
pub mod json_resource;
pub mod module_events;
pub mod instances;
pub mod object_types;
pub mod object_variants;
pub mod tileset_update;
pub mod conductor;
pub mod script_functions;
pub mod resource_loading;
pub mod resource_listing;
pub mod terrain_grid;
pub mod polyline_tracing;
pub mod polyline_removal;
pub mod terrain_writes;
pub mod entity_communication;
pub mod resource_modules;
pub mod module_routing;
pub mod sessions;
pub mod map_terrain;

verus! {

} // verus!
