use vstd::prelude::*;

verus! {

/// Whether two texts have the same characters.
pub fn same_text(a: &str, b: &str) -> (same: bool)
    ensures
        same == (a@ == b@),
{
    let n = a.unicode_len();
    if b.unicode_len() != n {
        return false;
    }
    let mut i: usize = 0;
    while i < n
        invariant
            n == a@.len(),
            n == b@.len(),
            i <= n,
            forall|k: int| 0 <= k < i ==> a@[k] == b@[k],
        decreases n - i,
    {
        if a.get_char(i) != b.get_char(i) {
            return false;
        }
        i = i + 1;
    }
    assert(a@ =~= b@);
    true
}

/// The `Ok` of an option's value, or the given error when there is none.
pub fn safe_unwrap<T, E>(option: Option<T>, err: E) -> (result: Result<T, E>)
    ensures
        result == (match option {
            Some(v) => Ok::<T, E>(v),
            None => Err::<T, E>(err),
        }),
{
    match option {
        Some(val) => Ok(val),
        None => Err(err),
    }
}

/// Like `safe_unwrap`, lending the value instead of moving it.
pub fn safe_unwrap_ref<T, E>(option: &Option<T>, err: E) -> (result: Result<&T, E>)
    ensures
        match *option {
            Some(v) => result == Ok::<&T, E>(&v),
            None => result == Err::<&T, E>(err),
        },
{
    match option {
        Some(val) => Ok(val),
        None => Err(err),
    }
}

/// The header of a generated entity manager source file.
pub const ENTITY_MANAGER_IMPORTS: &'static str = "#![allow(dead_code)]
#![allow(unused_variables)]

use crate::core::entity_manager::{ColliderEntityMap, EntityManager};
use crate::core::rapier_simulation::def::RapierSimulation;
use crate::core::terrain_gen::condense_terrain_from_tiles;
use crate::core::tween::Tween;
use crate::resource_module::def::GuestId;
use crate::resource_module::map::def::{
    GeneralObject, LayerName, ObjectId, TerrainChunk, TiledMap,
};
use log::debug;

use crate::core::entity::def::{Entity, EntityId, RemoveEntity, ShowEntity, UpdateEntity};
use crate::core::entity::physics::{
    physical_shape_from_general_obj, Physical, PhysicalShape, PhysicsArea, PhysicsNone,
    PhysicsRigidBody, PhysicsStaticRigidBody, ShapeRect,
};
use crate::core::entity::render::{
    NoRender, RenderTypeText, RenderTypeTimer, ShowEffect, StaticImage,
};
use crate::core::entity::terrain::TerrainEntity;

use rapier2d::prelude::{ColliderHandle, Isometry, Real, Vector};

use serde::Deserialize;
use snowflake::SnowflakeIdBucket;
use std::collections::HashMap;
use std::iter::{Filter, Map};";

/// The `use` items that open a generated entity manager source file.
pub fn get_imports() -> (imports: String)
    ensures
        imports@ == ENTITY_MANAGER_IMPORTS@,
{
    <String as vstd::string::StringExecFns>::from_str(ENTITY_MANAGER_IMPORTS)
}

} // verus!
