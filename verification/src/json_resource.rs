use vstd::prelude::*;
use vstd::string::*;

use crate::blueprint::{BlueprintResource, Module, ResourceKind, Script, Tileset};

verus! {

/// A blueprint resource stored as `<dir>/<name>.<extension>.json`.
pub trait JsonResource {
    spec fn extension_view() -> Seq<char>;

    spec fn name_view(&self) -> Seq<char>;

    spec fn dir_view(&self) -> Seq<char>;

    spec fn kind_view(&self) -> ResourceKind;

    fn get_resource_extension() -> (extension: &'static str)
        ensures
            extension@ == Self::extension_view(),
    ;

    fn get_resource_kind(&self) -> (kind: ResourceKind)
        ensures
            kind == self.kind_view(),
    ;

    fn get_name(&self) -> (name: &str)
        ensures
            name@ == self.name_view(),
    ;

    fn get_resource_dir(&self) -> (dir: &str)
        ensures
            dir@ == self.dir_view(),
    ;

    /// `<dir>/<name>.<extension>.json`
    fn get_full_resource_path(&self) -> (path: String)
        ensures
            path@ == self.dir_view() + "/"@ + self.name_view() + "."@ + Self::extension_view()
                + ".json"@,
    {
        let mut path = String::from_str(self.get_resource_dir());
        path.append("/");
        path.append(self.get_name());
        path.append(".");
        path.append(Self::get_resource_extension());
        path.append(".json");
        path
    }

    /// `<name>.<extension>.json`
    fn get_file_name(&self) -> (file_name: String)
        ensures
            file_name@ == self.name_view() + "."@ + Self::extension_view() + ".json"@,
    {
        let mut file_name = String::from_str(self.get_name());
        file_name.append(".");
        file_name.append(Self::get_resource_extension());
        file_name.append(".json");
        file_name
    }
}

/// A module's file lies in the directory named after the module.
impl JsonResource for Module {
    open spec fn extension_view() -> Seq<char> {
        "module"@
    }

    open spec fn name_view(&self) -> Seq<char> {
        self.name@
    }

    open spec fn dir_view(&self) -> Seq<char> {
        self.name@
    }

    open spec fn kind_view(&self) -> ResourceKind {
        ResourceKind::Unknown
    }

    fn get_resource_extension() -> (extension: &'static str) {
        "module"
    }

    fn get_resource_kind(&self) -> (kind: ResourceKind) {
        ResourceKind::Unknown
    }

    fn get_name(&self) -> (name: &str) {
        self.name.as_str()
    }

    fn get_resource_dir(&self) -> (dir: &str) {
        self.name.as_str()
    }
}

impl JsonResource for Tileset {
    open spec fn extension_view() -> Seq<char> {
        "tileset"@
    }

    open spec fn name_view(&self) -> Seq<char> {
        self.name@
    }

    open spec fn dir_view(&self) -> Seq<char> {
        self.resource_path@
    }

    open spec fn kind_view(&self) -> ResourceKind {
        ResourceKind::Tileset
    }

    fn get_resource_extension() -> (extension: &'static str) {
        "tileset"
    }

    fn get_resource_kind(&self) -> (kind: ResourceKind) {
        ResourceKind::Tileset
    }

    fn get_name(&self) -> (name: &str) {
        self.name.as_str()
    }

    fn get_resource_dir(&self) -> (dir: &str) {
        self.resource_path.as_str()
    }
}

impl JsonResource for Script {
    open spec fn extension_view() -> Seq<char> {
        "script"@
    }

    open spec fn name_view(&self) -> Seq<char> {
        self.name@
    }

    open spec fn dir_view(&self) -> Seq<char> {
        self.resource_path@
    }

    open spec fn kind_view(&self) -> ResourceKind {
        ResourceKind::Script
    }

    fn get_resource_extension() -> (extension: &'static str) {
        "script"
    }

    fn get_resource_kind(&self) -> (kind: ResourceKind) {
        ResourceKind::Script
    }

    fn get_name(&self) -> (name: &str) {
        self.name.as_str()
    }

    fn get_resource_dir(&self) -> (dir: &str) {
        self.resource_path.as_str()
    }
}

impl BlueprintResource {
    /// The resource entry that points at a stored JSON resource.
    pub fn from_json_resource<T: JsonResource>(value: &T) -> (resource: BlueprintResource)
        ensures
            resource.file_name@ == value.name_view() + "."@ + T::extension_view() + ".json"@,
            resource.dir@ == value.dir_view(),
            resource.path@ == value.dir_view() + "/"@ + value.name_view() + "."@
                + T::extension_view() + ".json"@,
            resource.kind == value.kind_view(),
    {
        BlueprintResource {
            file_name: value.get_file_name(),
            dir: String::from_str(value.get_resource_dir()),
            path: value.get_full_resource_path(),
            kind: value.get_resource_kind(),
        }
    }
}

} // verus!
