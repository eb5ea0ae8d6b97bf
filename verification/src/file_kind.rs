use vstd::prelude::*;
use vstd::string::*;

use crate::blueprint::{BlueprintResource, BlueprintService, FileBrowserFileKind, FileBrowserResult, ResourceKind};

verus! {

/// The pieces of `s` between the dots, as `str::split('.')` yields them:
/// there is always one more piece than there are dots.
pub open spec fn split_dots(s: Seq<char>) -> Seq<Seq<char>>
    decreases s.len(),
{
    if s.len() == 0 {
        seq![Seq::<char>::empty()]
    } else {
        let prev = split_dots(s.drop_last());
        if s.last() == '.' {
            prev.push(Seq::<char>::empty())
        } else {
            prev.update(prev.len() - 1, prev.last().push(s.last()))
        }
    }
}

pub proof fn lemma_split_dots_nonempty(s: Seq<char>)
    ensures
        split_dots(s).len() >= 1,
    decreases s.len(),
{
    if s.len() > 0 {
        lemma_split_dots_nonempty(s.drop_last());
    }
}

/// The kind that the blueprint browser gives a file whose name splits into
/// `parts` at its dots.
pub open spec fn file_kind_of_parts(parts: Seq<Seq<char>>) -> FileBrowserFileKind {
    if parts.len() == 2 && parts[0] == "conductor"@ && parts[1] == "json"@ {
        FileBrowserFileKind::Conductor
    } else if parts.len() == 3 && parts[2] == "json"@ {
        if parts[1] == "tileset"@ {
            FileBrowserFileKind::Tileset
        } else if parts[1] == "map"@ {
            FileBrowserFileKind::GameMap
        } else if parts[1] == "scene"@ {
            FileBrowserFileKind::Scene
        } else if parts[1] == "script"@ {
            FileBrowserFileKind::Script
        } else if parts[1] == "module"@ {
            FileBrowserFileKind::Module
        } else if parts[1] == "char_anim"@ {
            FileBrowserFileKind::CharacterAnimation
        } else {
            FileBrowserFileKind::Unknown
        }
    } else if parts.len() == 1 {
        FileBrowserFileKind::Folder
    } else {
        FileBrowserFileKind::Unknown
    }
}

/// The kind of resource that a file whose name splits into `parts` holds.
pub open spec fn resource_kind_of_parts(parts: Seq<Seq<char>>) -> ResourceKind {
    if parts.len() == 3 && parts[2] == "json"@ {
        if parts[1] == "tileset"@ {
            ResourceKind::Tileset
        } else if parts[1] == "scene"@ {
            ResourceKind::Scene
        } else if parts[1] == "script"@ {
            ResourceKind::Script
        } else if parts[1] == "map"@ {
            ResourceKind::GameMap
        } else if parts[1] == "char_anim"@ {
            ResourceKind::CharacterAnimation
        } else {
            ResourceKind::Unknown
        }
    } else {
        ResourceKind::Unknown
    }
}

/// The resource kind that a browser file kind stands for.
pub open spec fn resource_kind_of_file_kind(kind: FileBrowserFileKind) -> ResourceKind {
    match kind {
        FileBrowserFileKind::Folder
        | FileBrowserFileKind::Unknown
        | FileBrowserFileKind::Conductor
        | FileBrowserFileKind::Module
        | FileBrowserFileKind::Audio
        | FileBrowserFileKind::Font => ResourceKind::Unknown,
        FileBrowserFileKind::CharacterAnimation => ResourceKind::CharacterAnimation,
        FileBrowserFileKind::GameMap => ResourceKind::GameMap,
        FileBrowserFileKind::Tileset => ResourceKind::Tileset,
        FileBrowserFileKind::Script => ResourceKind::Script,
        FileBrowserFileKind::Scene => ResourceKind::Scene,
    }
}

pub open spec fn parts_view(parts: Seq<Vec<char>>) -> Seq<Seq<char>> {
    parts.map_values(|p: Vec<char>| p@)
}

/// Splits a file name at its dots.
pub fn split_at_dots(name: &str) -> (parts: Vec<Vec<char>>)
    ensures
        parts_view(parts@) == split_dots(name@),
{
    let n = name.unicode_len();
    let mut parts: Vec<Vec<char>> = Vec::new();
    let mut current: Vec<char> = Vec::new();
    let mut i: usize = 0;
    proof {
        assert(name@.take(0) =~= Seq::<char>::empty());
        assert(parts_view(parts@).push(current@) =~= split_dots(name@.take(0)));
    }
    while i < n
        invariant
            n == name@.len(),
            i <= n,
            parts_view(parts@).push(current@) == split_dots(name@.take(i as int)),
        decreases n - i,
    {
        let c = name.get_char(i);
        let ghost before = name@.take(i as int);
        proof {
            assert(name@.take(i + 1).drop_last() =~= before);
            assert(name@.take(i + 1).last() == c);
            lemma_split_dots_nonempty(before);
        }
        if c == '.' {
            let done = current;
            parts.push(done);
            current = Vec::new();
            proof {
                assert(parts_view(parts@) =~= parts_view(parts@.drop_last()).push(done@));
                assert(parts_view(parts@).push(current@) =~= split_dots(before).push(
                    Seq::<char>::empty(),
                ));
            }
        } else {
            let ghost old_current = current@;
            current.push(c);
            proof {
                let prev = split_dots(before);
                assert(prev.last() == old_current);
                assert(parts_view(parts@).push(current@) =~= prev.update(
                    prev.len() - 1,
                    prev.last().push(c),
                ));
            }
        }
        i = i + 1;
    }
    proof {
        assert(name@.take(n as int) =~= name@);
    }
    parts.push(current);
    parts
}

/// Whether the characters of `part` spell `word`.
pub fn spells(part: &Vec<char>, word: &str) -> (same: bool)
    ensures
        same == (part@ == word@),
{
    let n = word.unicode_len();
    if part.len() != n {
        return false;
    }
    let mut i: usize = 0;
    while i < n
        invariant
            n == word@.len(),
            part@.len() == n,
            i <= n,
            forall|k: int| 0 <= k < i ==> part@[k] == word@[k],
        decreases n - i,
    {
        if part[i] != word.get_char(i) {
            return false;
        }
        i = i + 1;
    }
    assert(part@ =~= word@);
    true
}

impl BlueprintService {
    /// Classifies a file of the blueprint tree by the pieces of its name.
    pub fn determine_file_type(file_name: &str) -> (kind: FileBrowserFileKind)
        ensures
            kind == file_kind_of_parts(split_dots(file_name@)),
    {
        let parts = split_at_dots(file_name);
        let ghost p = split_dots(file_name@);
        proof {
            assert(parts@.len() == p.len());
        }
        if parts.len() == 2 && spells(&parts[0], "conductor") && spells(&parts[1], "json") {
            return FileBrowserFileKind::Conductor;
        }
        if parts.len() == 3 && spells(&parts[2], "json") {
            if spells(&parts[1], "tileset") {
                return FileBrowserFileKind::Tileset;
            } else if spells(&parts[1], "map") {
                return FileBrowserFileKind::GameMap;
            } else if spells(&parts[1], "scene") {
                return FileBrowserFileKind::Scene;
            } else if spells(&parts[1], "script") {
                return FileBrowserFileKind::Script;
            } else if spells(&parts[1], "module") {
                return FileBrowserFileKind::Module;
            } else if spells(&parts[1], "char_anim") {
                return FileBrowserFileKind::CharacterAnimation;
            } else {
                return FileBrowserFileKind::Unknown;
            }
        }
        if parts.len() == 1 {
            FileBrowserFileKind::Folder
        } else {
            FileBrowserFileKind::Unknown
        }
    }

    /// The kind of resource a file holds, judged by the pieces of its name.
    pub fn determine_resource_type(file_name: &str) -> (kind: ResourceKind)
        ensures
            kind == resource_kind_of_parts(split_dots(file_name@)),
    {
        let parts = split_at_dots(file_name);
        if parts.len() == 3 && spells(&parts[2], "json") {
            if spells(&parts[1], "tileset") {
                ResourceKind::Tileset
            } else if spells(&parts[1], "scene") {
                ResourceKind::Scene
            } else if spells(&parts[1], "script") {
                ResourceKind::Script
            } else if spells(&parts[1], "map") {
                ResourceKind::GameMap
            } else if spells(&parts[1], "char_anim") {
                ResourceKind::CharacterAnimation
            } else {
                ResourceKind::Unknown
            }
        } else {
            ResourceKind::Unknown
        }
    }
}

impl From<FileBrowserFileKind> for ResourceKind {
    fn from(value: FileBrowserFileKind) -> (kind: ResourceKind) {
        match value {
            FileBrowserFileKind::Folder
            | FileBrowserFileKind::Unknown
            | FileBrowserFileKind::Conductor
            | FileBrowserFileKind::Module
            | FileBrowserFileKind::Audio
            | FileBrowserFileKind::Font => ResourceKind::Unknown,
            FileBrowserFileKind::CharacterAnimation => ResourceKind::CharacterAnimation,
            FileBrowserFileKind::GameMap => ResourceKind::GameMap,
            FileBrowserFileKind::Tileset => ResourceKind::Tileset,
            FileBrowserFileKind::Script => ResourceKind::Script,
            FileBrowserFileKind::Scene => ResourceKind::Scene,
        }
    }
}

impl vstd::std_specs::convert::FromSpecImpl<FileBrowserFileKind> for ResourceKind {
    open spec fn obeys_from_spec() -> bool {
        true
    }

    open spec fn from_spec(v: FileBrowserFileKind) -> ResourceKind {
        resource_kind_of_file_kind(v)
    }
}

/// The file kind is one that the browser lists as a resource.
pub open spec fn is_listed_resource(kind: FileBrowserFileKind) -> bool {
    kind == FileBrowserFileKind::Scene || kind == FileBrowserFileKind::Tileset || kind
        == FileBrowserFileKind::GameMap || kind == FileBrowserFileKind::CharacterAnimation || kind
        == FileBrowserFileKind::Script
}

/// The resource entry for a file of the directory `dir`.
pub open spec fn listed_resource(
    entry: BlueprintResource,
    dir: String,
    file_name: Seq<char>,
    kind: FileBrowserFileKind,
) -> bool {
    &&& entry.file_name@ == file_name
    &&& entry.dir == dir
    &&& entry.path@ == dir@ + seq!['/'] + file_name
    &&& entry.kind == resource_kind_of_file_kind(kind)
}

impl FileBrowserResult {
    /// Adds a file found in the browsed directory: a resource file becomes a
    /// resource of the kind its name gives, with its path below the
    /// directory, and a name without a dot a sub-directory. Module and
    /// conductor files, and names of no known kind, add nothing.
    pub fn add_entry(&mut self, file_name: &str)
        ensures
            final(self).path == old(self).path,
            final(self).dir == old(self).dir,
            ({
                let kind = file_kind_of_parts(split_dots(file_name@));
                &&& is_listed_resource(kind) ==> {
                    &&& final(self).resources@.len() == old(self).resources@.len() + 1
                    &&& final(self).resources@.drop_last() == old(self).resources@
                    &&& listed_resource(
                        final(self).resources@.last(),
                        old(self).dir,
                        file_name@,
                        kind,
                    )
                    &&& final(self).dirs == old(self).dirs
                }
                &&& kind == FileBrowserFileKind::Folder ==> {
                    &&& final(self).dirs@.len() == old(self).dirs@.len() + 1
                    &&& final(self).dirs@.drop_last() == old(self).dirs@
                    &&& final(self).dirs@.last()@ == file_name@
                    &&& final(self).resources == old(self).resources
                }
                &&& !is_listed_resource(kind) && kind != FileBrowserFileKind::Folder
                    ==> *final(self) == *old(self)
            }),
    {
        let kind = BlueprintService::determine_file_type(file_name);
        match kind {
            FileBrowserFileKind::Scene
            | FileBrowserFileKind::Tileset
            | FileBrowserFileKind::GameMap
            | FileBrowserFileKind::CharacterAnimation
            | FileBrowserFileKind::Script => {
                let mut path = self.dir.clone();
                path.append("/");
                path.append(file_name);
                proof {
                    reveal_strlit("/");
                }
                let resource = BlueprintResource {
                    file_name: String::from_str(file_name),
                    dir: self.dir.clone(),
                    path,
                    kind: ResourceKind::from(kind),
                };
                assert(resource.path@ == old(self).dir@ + seq!['/'] + file_name@);
                assert(resource.kind == resource_kind_of_file_kind(kind));
                assert(resource.file_name@ == file_name@);
                assert(resource.dir == old(self).dir);
                self.resources.push(resource);
                proof {
                    assert(self.resources@.drop_last() =~= old(self).resources@);
                    assert(is_listed_resource(kind));
                    assert(listed_resource(self.resources@.last(), old(self).dir, file_name@, kind));
                }
            },
            FileBrowserFileKind::Folder => {
                self.dirs.push(String::from_str(file_name));
                proof {
                    assert(self.dirs@.drop_last() =~= old(self).dirs@);
                }
            },
            FileBrowserFileKind::Module
            | FileBrowserFileKind::Conductor
            | FileBrowserFileKind::Audio
            | FileBrowserFileKind::Font
            | FileBrowserFileKind::Unknown => {},
        }
    }
}

/// A file's resource kind is what its browser kind stands for, whatever
/// its name.
pub proof fn lemma_resource_kind_agrees_with_file_kind(name: Seq<char>)
    ensures
        resource_kind_of_parts(split_dots(name)) == resource_kind_of_file_kind(
            file_kind_of_parts(split_dots(name)),
        ),
{
    reveal_strlit("tileset");
    reveal_strlit("map");
    reveal_strlit("scene");
    reveal_strlit("script");
    reveal_strlit("module");
    reveal_strlit("char_anim");
    assert("tileset"@.len() == 7);
    assert("map"@.len() == 3);
    assert("scene"@.len() == 5);
    assert("script"@.len() == 6 && "script"@[0] == 's');
    assert("module"@.len() == 6 && "module"@[0] == 'm');
    assert("char_anim"@.len() == 9);
}

} // verus!
