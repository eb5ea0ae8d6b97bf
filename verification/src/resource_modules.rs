use vstd::prelude::*;

use crate::blueprint::{BlueprintResource, BlueprintService, Module, ModuleId, ResourcePath, Tileset};
use crate::blueprint_ops::{numbered_maps, resources_of_kind};

verus! {

/// For each resource path, the modules that use the resource: each path
/// once, each module once per path.
pub struct ResourceToModuleMap {
    pub entries: Vec<(ResourcePath, Vec<ModuleId>)>,
}

/// The list holds the text, by value.
pub open spec fn has_text(list: Seq<String>, text: Seq<char>) -> bool {
    exists|j: int| 0 <= j < list.len() && (#[trigger] list[j])@ == text
}

/// The map has an entry for the path.
pub open spec fn has_path(entries: Seq<(ResourcePath, Vec<ModuleId>)>, path: Seq<char>) -> bool {
    exists|i: int| 0 <= i < entries.len() && (#[trigger] entries[i]).0@ == path
}

/// The map records that the module uses the resource at the path.
pub open spec fn uses(entries: Seq<(ResourcePath, Vec<ModuleId>)>, path: Seq<char>, module: Seq<char>) -> bool {
    exists|i: int| 0 <= i < entries.len() && (#[trigger] entries[i]).0@ == path && has_text(entries[i].1@, module)
}

/// The paths of the resources.
pub open spec fn paths_of(resources: Seq<BlueprintResource>) -> Set<Seq<char>> {
    Set::new(|p: Seq<char>| exists|i: int| 0 <= i < resources.len() && (#[trigger] resources[i]).path@ == p)
}

impl ResourceToModuleMap {
    /// Each path has one entry, and no module appears twice in an entry.
    pub open spec fn wf(&self) -> bool {
        &&& forall|i: int, j: int|
            0 <= i < j < self.entries@.len() ==> (#[trigger] self.entries@[i]).0@ != (#[trigger] self.entries@[j]).0@
        &&& forall|i: int, a: int, b: int|
            0 <= i < self.entries@.len() && 0 <= a < b < self.entries@[i].1@.len() ==> (
            #[trigger] self.entries@[i].1@[a])@ != (#[trigger] self.entries@[i].1@[b])@
    }

    /// No resource is used by any module yet.
    pub fn new() -> (map: ResourceToModuleMap)
        ensures
            map.wf(),
            map.entries@.len() == 0,
    {
        ResourceToModuleMap { entries: Vec::new() }
    }
}

/// The index of the text in the list, if it is there.
fn find_text(list: &Vec<String>, text: &String) -> (found: Option<usize>)
    ensures
        match found {
            Some(j) => j < list@.len() && list@[j as int]@ == text@,
            None => !has_text(list@, text@),
        },
{
    let mut j: usize = 0;
    while j < list.len()
        invariant
            j <= list@.len(),
            forall|k: int| 0 <= k < j ==> (#[trigger] list@[k])@ != text@,
        decreases list@.len() - j,
    {
        if list[j] == *text {
            return Some(j);
        }
        j = j + 1;
    }
    None
}

/// The index of the entry for the path, if there is one.
fn find_path(entries: &Vec<(ResourcePath, Vec<ModuleId>)>, path: &String) -> (found: Option<usize>)
    ensures
        match found {
            Some(i) => i < entries@.len() && entries@[i as int].0@ == path@,
            None => !has_path(entries@, path@),
        },
{
    let mut i: usize = 0;
    while i < entries.len()
        invariant
            i <= entries@.len(),
            forall|k: int| 0 <= k < i ==> (#[trigger] entries@[k]).0@ != path@,
        decreases entries@.len() - i,
    {
        if entries[i].0 == *path {
            return Some(i);
        }
        i = i + 1;
    }
    None
}

/// Whether a resource with the path is among the resources.
fn has_resource_path(resources: &Vec<BlueprintResource>, path: &String) -> (found: bool)
    ensures
        found == paths_of(resources@).contains(path@),
{
    let mut i: usize = 0;
    while i < resources.len()
        invariant
            i <= resources@.len(),
            forall|k: int| 0 <= k < i ==> (#[trigger] resources@[k]).path@ != path@,
        decreases resources@.len() - i,
    {
        if resources[i].path == *path {
            proof {
                assert(resources@[i as int].path@ == path@);
            }
            return true;
        }
        i = i + 1;
    }
    false
}

/// Replacing the modules of entries keeps the paths.
proof fn lemma_same_paths(before: Seq<(ResourcePath, Vec<ModuleId>)>, after: Seq<(ResourcePath, Vec<ModuleId>)>)
    requires
        after.len() == before.len(),
        forall|x: int| 0 <= x < before.len() ==> (#[trigger] after[x]).0@ == before[x].0@,
    ensures
        forall|p: Seq<char>| has_path(after, p) <==> has_path(before, p),
{
    assert forall|p: Seq<char>| has_path(after, p) <==> has_path(before, p) by {
        if has_path(after, p) {
            let x = choose|x: int| 0 <= x < after.len() && (#[trigger] after[x]).0@ == p;
            assert(before[x].0@ == p);
        }
        if has_path(before, p) {
            let x = choose|x: int| 0 <= x < before.len() && (#[trigger] before[x]).0@ == p;
            assert(after[x].0@ == p);
        }
    }
}

/// Appending an entry adds its path.
proof fn lemma_pushed_path(before: Seq<(ResourcePath, Vec<ModuleId>)>, entry: (ResourcePath, Vec<ModuleId>))
    ensures
        forall|p: Seq<char>| has_path(before.push(entry), p) <==> has_path(before, p) || p == entry.0@,
{
    let after = before.push(entry);
    assert forall|p: Seq<char>| has_path(after, p) <==> has_path(before, p) || p == entry.0@ by {
        if has_path(after, p) {
            let x = choose|x: int| 0 <= x < after.len() && (#[trigger] after[x]).0@ == p;
            if x < before.len() {
                assert(before[x].0@ == p);
            }
        }
        if has_path(before, p) {
            let x = choose|x: int| 0 <= x < before.len() && (#[trigger] before[x]).0@ == p;
            assert(after[x].0@ == p);
        }
        if p == entry.0@ {
            assert(after[before.len() as int].0@ == p);
        }
    }
}

impl ResourceToModuleMap {
    /// Records that the module uses the resource at the path, making an
    /// entry for the path when there is none.
    pub fn add_module(&mut self, path: &String, module: &String)
        requires
            old(self).wf(),
        ensures
            final(self).wf(),
            forall|p: Seq<char>, m: Seq<char>|
                uses(final(self).entries@, p, m) <==> uses(old(self).entries@, p, m) || (p == path@ && m == module@),
            forall|p: Seq<char>| has_path(final(self).entries@, p) <==> has_path(old(self).entries@, p) || p == path@,
    {
        let ghost before = self.entries@;
        match find_path(&self.entries, path) {
            Some(i) => {
                let mut list = self.entries[i].1.clone();
                proof {
                    assert(list@ =~= before[i as int].1@);
                }
                let known = find_text(&list, module);
                if known.is_none() {
                    list.push(module.clone());
                }
                let key = self.entries[i].0.clone();
                let ghost list_v = list@;
                self.entries.set(i, (key, list));
                proof {
                    assert forall|x: int, a: int, c: int|
                        0 <= x < self.entries@.len() && 0 <= a < c < self.entries@[x].1@.len() implies (
                        #[trigger] self.entries@[x].1@[a])@ != (#[trigger] self.entries@[x].1@[c])@ by {
                        if x == i && known.is_none() && c == list_v.len() - 1 {
                            assert(list_v[a] == before[i as int].1@[a]);
                        }
                    }
                    assert forall|p: Seq<char>, m: Seq<char>|
                        uses(self.entries@, p, m) <==> uses(before, p, m) || (p == path@ && m == module@) by {
                        if uses(self.entries@, p, m) {
                            let x = choose|x: int| 0 <= x < self.entries@.len() && (#[trigger] self.entries@[x]).0@ == p && has_text(self.entries@[x].1@, m);
                            if x == i {
                                let j = choose|j: int| 0 <= j < list_v.len() && (#[trigger] list_v[j])@ == m;
                                if j < before[i as int].1@.len() {
                                    assert(before[i as int].1@[j]@ == m);
                                }
                            } else {
                                assert(before[x] == self.entries@[x]);
                            }
                        }
                        if uses(before, p, m) {
                            let x = choose|x: int| 0 <= x < before.len() && (#[trigger] before[x]).0@ == p && has_text(before[x].1@, m);
                            if x == i {
                                let j = choose|j: int| 0 <= j < before[i as int].1@.len() && (#[trigger] before[i as int].1@[j])@ == m;
                                assert(list_v[j]@ == m);
                                assert(has_text(self.entries@[x].1@, m));
                            } else {
                                assert(self.entries@[x] == before[x]);
                            }
                        }
                        if p == path@ && m == module@ {
                            match known {
                                Some(j) => {
                                    assert(list_v[j as int]@ == m);
                                },
                                None => {
                                    assert(list_v[list_v.len() - 1]@ == m);
                                },
                            }
                            assert(has_text(self.entries@[i as int].1@, m));
                        }
                    }
                    assert forall|x: int| 0 <= x < before.len() implies (#[trigger] self.entries@[x]).0@ == before[x].0@ by {
                        if x == i {
                            assert(before[x].0@ == path@);
                        }
                    }
                    lemma_same_paths(before, self.entries@);
                    assert(before[i as int].0@ == path@);
                }
            },
            None => {
                let mut list: Vec<ModuleId> = Vec::new();
                list.push(module.clone());
                self.entries.push((path.clone(), list));
                proof {
                    let n = before.len() as int;
                    assert forall|p: Seq<char>, m: Seq<char>|
                        uses(self.entries@, p, m) <==> uses(before, p, m) || (p == path@ && m == module@) by {
                        if uses(self.entries@, p, m) {
                            let x = choose|x: int| 0 <= x < self.entries@.len() && (#[trigger] self.entries@[x]).0@ == p && has_text(self.entries@[x].1@, m);
                            if x < n {
                                assert(before[x] == self.entries@[x]);
                            } else {
                                let j = choose|j: int| 0 <= j < self.entries@[x].1@.len() && (#[trigger] self.entries@[x].1@[j])@ == m;
                            }
                        }
                        if uses(before, p, m) {
                            let x = choose|x: int| 0 <= x < before.len() && (#[trigger] before[x]).0@ == p && has_text(before[x].1@, m);
                            assert(self.entries@[x] == before[x]);
                        }
                        if p == path@ && m == module@ {
                            assert(self.entries@[n].1@[0]@ == m);
                            assert(has_text(self.entries@[n].1@, m));
                        }
                    }
                    assert(self.entries@ == before.push(self.entries@.last()));
                    lemma_pushed_path(before, self.entries@.last());
                }
            },
        }
    }
}

impl ResourceToModuleMap {
    /// Records that the module no longer uses the resource at the path,
    /// making an empty entry for the path when there is none.
    pub fn remove_module(&mut self, path: &String, module: &String)
        requires
            old(self).wf(),
        ensures
            final(self).wf(),
            forall|p: Seq<char>, m: Seq<char>|
                uses(final(self).entries@, p, m) <==> uses(old(self).entries@, p, m) && !(p == path@ && m == module@),
            forall|p: Seq<char>| has_path(final(self).entries@, p) <==> has_path(old(self).entries@, p) || p == path@,
    {
        let ghost before = self.entries@;
        match find_path(&self.entries, path) {
            Some(i) => {
                let ghost old_list = before[i as int].1@;
                let mut list: Vec<ModuleId> = Vec::new();
                let n = self.entries[i].1.len();
                let mut j: usize = 0;
                while j < n
                    invariant
                        self.entries@ == before,
                        i < before.len(),
                        old_list == before[i as int].1@,
                        n == old_list.len(),
                        j <= n,
                        forall|a: int, c: int| 0 <= a < c < old_list.len() ==> (#[trigger] old_list[a])@ != (#[trigger] old_list[c])@,
                        forall|a: int, c: int| 0 <= a < c < list@.len() ==> (#[trigger] list@[a])@ != (#[trigger] list@[c])@,
                        forall|t: Seq<char>| has_text(list@, t) <==> (exists|k: int| 0 <= k < j && (#[trigger] old_list[k])@ == t) && t != module@,
                    decreases n - j,
                {
                    let item = &self.entries[i].1[j];
                    let ghost list_before = list@;
                    if *item != *module {
                        list.push(item.clone());
                        proof {
                            assert(list@.last()@ == old_list[j as int]@);
                            assert forall|a: int, c: int| 0 <= a < c < list@.len() implies (#[trigger] list@[a])@ != (#[trigger] list@[c])@ by {
                                if c == list@.len() - 1 {
                                    assert(has_text(list_before, list@[a]@));
                                    let k = choose|k: int| 0 <= k < j && (#[trigger] old_list[k])@ == list@[a]@;
                                }
                            }
                        }
                    }
                    proof {
                        assert forall|t: Seq<char>| has_text(list@, t) <==> (exists|k: int| 0 <= k < j + 1 && (#[trigger] old_list[k])@ == t) && t != module@ by {
                            if has_text(list@, t) {
                                let a = choose|a: int| 0 <= a < list@.len() && (#[trigger] list@[a])@ == t;
                                if a < list_before.len() {
                                    assert(has_text(list_before, t));
                                } else {
                                    assert(old_list[j as int]@ == t);
                                }
                            }
                            if (exists|k: int| 0 <= k < j + 1 && (#[trigger] old_list[k])@ == t) && t != module@ {
                                let k = choose|k: int| 0 <= k < j + 1 && (#[trigger] old_list[k])@ == t;
                                if k < j {
                                    assert(has_text(list_before, t));
                                    let a = choose|a: int| 0 <= a < list_before.len() && (#[trigger] list_before[a])@ == t;
                                    assert(list@[a]@ == t);
                                } else {
                                    assert(list@[list@.len() - 1]@ == t);
                                }
                            }
                        }
                    }
                    j = j + 1;
                }
                let key = self.entries[i].0.clone();
                let ghost list_v = list@;
                self.entries.set(i, (key, list));
                proof {
                    assert forall|t: Seq<char>| has_text(list_v, t) <==> has_text(old_list, t) && t != module@ by {
                        if has_text(old_list, t) && t != module@ {
                            let k = choose|k: int| 0 <= k < old_list.len() && (#[trigger] old_list[k])@ == t;
                        }
                    }
                    assert forall|p: Seq<char>, m: Seq<char>|
                        uses(self.entries@, p, m) <==> uses(before, p, m) && !(p == path@ && m == module@) by {
                        if uses(self.entries@, p, m) {
                            let x = choose|x: int| 0 <= x < self.entries@.len() && (#[trigger] self.entries@[x]).0@ == p && has_text(self.entries@[x].1@, m);
                            if x != i {
                                assert(before[x] == self.entries@[x]);
                                assert(before[x].0@ != before[i as int].0@);
                            }
                        }
                        if uses(before, p, m) && !(p == path@ && m == module@) {
                            let x = choose|x: int| 0 <= x < before.len() && (#[trigger] before[x]).0@ == p && has_text(before[x].1@, m);
                            if x == i {
                                assert(has_text(self.entries@[x].1@, m));
                            } else {
                                assert(self.entries@[x] == before[x]);
                            }
                        }
                    }
                    assert forall|x: int| 0 <= x < before.len() implies (#[trigger] self.entries@[x]).0@ == before[x].0@ by {
                        if x == i {
                            assert(before[x].0@ == path@);
                        }
                    }
                    lemma_same_paths(before, self.entries@);
                    assert(before[i as int].0@ == path@);
                }
            },
            None => {
                self.entries.push((path.clone(), Vec::new()));
                proof {
                    let n = before.len() as int;
                    assert forall|p: Seq<char>, m: Seq<char>|
                        uses(self.entries@, p, m) <==> uses(before, p, m) && !(p == path@ && m == module@) by {
                        if uses(self.entries@, p, m) {
                            let x = choose|x: int| 0 <= x < self.entries@.len() && (#[trigger] self.entries@[x]).0@ == p && has_text(self.entries@[x].1@, m);
                            if x < n {
                                assert(before[x] == self.entries@[x]);
                            } else {
                                let j = choose|j: int| 0 <= j < self.entries@[x].1@.len() && (#[trigger] self.entries@[x].1@[j])@ == m;
                            }
                        }
                        if uses(before, p, m) {
                            let x = choose|x: int| 0 <= x < before.len() && (#[trigger] before[x]).0@ == p && has_text(before[x].1@, m);
                            assert(self.entries@[x] == before[x]);
                        }
                    }
                    assert(self.entries@ == before.push(self.entries@.last()));
                    lemma_pushed_path(before, self.entries@.last());
                }
            },
        }
    }
}

/// The paths of the first `k` resources grow by the path of the next one.
proof fn lemma_paths_of_prefix(resources: Seq<BlueprintResource>, k: int)
    requires
        0 <= k < resources.len(),
    ensures
        forall|p: Seq<char>|
            paths_of(resources.take(k + 1)).contains(p) <==> paths_of(resources.take(k)).contains(p) || p
                == resources[k].path@,
{
    let before = resources.take(k);
    let after = resources.take(k + 1);
    assert forall|p: Seq<char>| paths_of(after).contains(p) <==> paths_of(before).contains(p) || p == resources[k].path@ by {
        if paths_of(after).contains(p) {
            let x = choose|x: int| 0 <= x < after.len() && (#[trigger] after[x]).path@ == p;
            if x < k {
                assert(before[x].path@ == p);
            }
        }
        if paths_of(before).contains(p) {
            let x = choose|x: int| 0 <= x < before.len() && (#[trigger] before[x]).path@ == p;
            assert(after[x].path@ == p);
        }
        if p == resources[k].path@ {
            assert(after[k].path@ == p);
        }
    }
}

impl ResourceToModuleMap {
    /// Brings the map up to date with a module whose resources changed from
    /// `current_resources` to `updated_resources`: the module now uses each
    /// resource that only the updated list has, and no longer uses each one
    /// that only the current list has. Every path of either kind keeps or
    /// gets an entry, empty or not.
    pub fn update_resource_to_module_map(
        &mut self,
        module_id: &ModuleId,
        current_resources: &Vec<BlueprintResource>,
        updated_resources: &Vec<BlueprintResource>,
    )
        requires
            old(self).wf(),
        ensures
            final(self).wf(),
            forall|p: Seq<char>, m: Seq<char>|
                #![trigger uses(final(self).entries@, p, m)]
                uses(final(self).entries@, p, m) <==> (uses(old(self).entries@, p, m) && !(m == module_id@
                    && paths_of(current_resources@).contains(p) && !paths_of(updated_resources@).contains(p)))
                    || (m == module_id@ && paths_of(updated_resources@).contains(p) && !paths_of(
                    current_resources@,
                ).contains(p)),
            forall|p: Seq<char>|
                #![trigger has_path(final(self).entries@, p)]
                has_path(final(self).entries@, p) <==> has_path(old(self).entries@, p) || (paths_of(
                    updated_resources@,
                ).contains(p) != paths_of(current_resources@).contains(p)),
    {
        let ghost start = self.entries@;
        let ghost current = paths_of(current_resources@);
        let ghost updated = paths_of(updated_resources@);
        let mut k: usize = 0;
        while k < updated_resources.len()
            invariant
                self.wf(),
                k <= updated_resources@.len(),
                current == paths_of(current_resources@),
                forall|p: Seq<char>, m: Seq<char>|
                    uses(self.entries@, p, m) <==> uses(start, p, m) || (m == module_id@ && paths_of(
                        updated_resources@.take(k as int),
                    ).contains(p) && !current.contains(p)),
                forall|p: Seq<char>|
                    has_path(self.entries@, p) <==> has_path(start, p) || (paths_of(
                        updated_resources@.take(k as int),
                    ).contains(p) && !current.contains(p)),
            decreases updated_resources@.len() - k,
        {
            let path = &updated_resources[k].path;
            proof {
                lemma_paths_of_prefix(updated_resources@, k as int);
            }
            let ghost before = self.entries@;
            if !has_resource_path(current_resources, path) {
                self.add_module(path, module_id);
            }
            proof {
                assert forall|p: Seq<char>, m: Seq<char>|
                    #![trigger uses(self.entries@, p, m)]
                    uses(self.entries@, p, m) <==> uses(start, p, m) || (m == module_id@ && paths_of(
                        updated_resources@.take(k + 1),
                    ).contains(p) && !current.contains(p)) by {
                    assert(uses(before, p, m) <==> uses(start, p, m) || (m == module_id@ && paths_of(
                        updated_resources@.take(k as int),
                    ).contains(p) && !current.contains(p)));
                    assert(paths_of(updated_resources@.take(k + 1)).contains(p) <==> paths_of(
                        updated_resources@.take(k as int),
                    ).contains(p) || p == path@);
                    if current.contains(path@) {
                        assert(uses(self.entries@, p, m) == uses(before, p, m));
                    } else {
                        assert(uses(self.entries@, p, m) <==> uses(before, p, m) || (p == path@ && m == module_id@));
                    }
                }
            }
            k = k + 1;
        }
        proof {
            assert(updated_resources@.take(updated_resources@.len() as int) =~= updated_resources@);
        }
        let ghost middle = self.entries@;
        let mut k: usize = 0;
        while k < current_resources.len()
            invariant
                self.wf(),
                k <= current_resources@.len(),
                updated == paths_of(updated_resources@),
                forall|p: Seq<char>, m: Seq<char>|
                    uses(self.entries@, p, m) <==> uses(middle, p, m) && !(m == module_id@ && paths_of(
                        current_resources@.take(k as int),
                    ).contains(p) && !updated.contains(p)),
                forall|p: Seq<char>|
                    has_path(self.entries@, p) <==> has_path(middle, p) || (paths_of(
                        current_resources@.take(k as int),
                    ).contains(p) && !updated.contains(p)),
            decreases current_resources@.len() - k,
        {
            let path = &current_resources[k].path;
            proof {
                lemma_paths_of_prefix(current_resources@, k as int);
            }
            let ghost before = self.entries@;
            if !has_resource_path(updated_resources, path) {
                self.remove_module(path, module_id);
            }
            proof {
                assert forall|p: Seq<char>, m: Seq<char>|
                    #![trigger uses(self.entries@, p, m)]
                    uses(self.entries@, p, m) <==> uses(middle, p, m) && !(m == module_id@ && paths_of(
                        current_resources@.take(k + 1),
                    ).contains(p) && !updated.contains(p)) by {
                    assert(uses(before, p, m) <==> uses(middle, p, m) && !(m == module_id@ && paths_of(
                        current_resources@.take(k as int),
                    ).contains(p) && !updated.contains(p)));
                    assert(paths_of(current_resources@.take(k + 1)).contains(p) <==> paths_of(
                        current_resources@.take(k as int),
                    ).contains(p) || p == path@);
                    if updated.contains(path@) {
                        assert(uses(self.entries@, p, m) == uses(before, p, m));
                    } else {
                        assert(uses(self.entries@, p, m) <==> uses(before, p, m) && !(p == path@ && m == module_id@));
                    }
                }
            }
            k = k + 1;
        }
        proof {
            assert(current_resources@.take(current_resources@.len() as int) =~= current_resources@);
        }
    }
}

/// The map keeps each module's resources: when, before an update of a
/// module's resources from `current` to `updated`, the map recorded exactly
/// the paths of `current` for the module, afterwards it records exactly the
/// paths of `updated`, and what it records for other modules is unchanged.
pub proof fn lemma_update_tracks_module_resources(
    before: Seq<(ResourcePath, Vec<ModuleId>)>,
    after: Seq<(ResourcePath, Vec<ModuleId>)>,
    module_id: Seq<char>,
    current: Set<Seq<char>>,
    updated: Set<Seq<char>>,
)
    requires
        forall|p: Seq<char>, m: Seq<char>|
            #![trigger uses(after, p, m)]
            uses(after, p, m) <==> (uses(before, p, m) && !(m == module_id && current.contains(p)
                && !updated.contains(p))) || (m == module_id && updated.contains(p) && !current.contains(p)),
        forall|p: Seq<char>| #[trigger] uses(before, p, module_id) <==> current.contains(p),
    ensures
        forall|p: Seq<char>| #[trigger] uses(after, p, module_id) <==> updated.contains(p),
        forall|p: Seq<char>, m: Seq<char>| m != module_id ==> (#[trigger] uses(after, p, m) <==> uses(before, p, m)),
{
    assert forall|p: Seq<char>| #[trigger] uses(after, p, module_id) <==> updated.contains(p) by {
        assert(uses(before, p, module_id) <==> current.contains(p));
    }
}

/// The resources whose path is not among `known`, in order.
pub open spec fn new_resources(resources: Seq<BlueprintResource>, known: Set<Seq<char>>) -> Seq<BlueprintResource> {
    resources.filter(|r: BlueprintResource| !known.contains(r.path@))
}

impl Module {
    /// Gives the module a new list of resources: numbers its gids and pairs
    /// its character animations with their tilesets anew from the list
    /// (`tilesets` and `char_animation_tilesets` hold what was loaded for
    /// its tileset and character animation resources, in order), records in
    /// `resource_to_module_map` which resources the module gained and lost,
    /// and returns the resources it did not have before, in order, for the
    /// caller to register.
    pub fn update_resources(
        &mut self,
        resources: Vec<BlueprintResource>,
        tilesets: &Vec<Tileset>,
        char_animation_tilesets: &Vec<ResourcePath>,
        resource_to_module_map: &mut ResourceToModuleMap,
    ) -> (added: Vec<BlueprintResource>)
        requires
            old(resource_to_module_map).wf(),
            tilesets@.len() == resources_of_kind(resources@, crate::blueprint::ResourceKind::Tileset).len(),
            char_animation_tilesets@.len() == resources_of_kind(
                resources@,
                crate::blueprint::ResourceKind::CharacterAnimation,
            ).len(),
        ensures
            final(resource_to_module_map).wf(),
            forall|p: Seq<char>, m: Seq<char>|
                uses(final(resource_to_module_map).entries@, p, m) <==> (uses(
                    old(resource_to_module_map).entries@,
                    p,
                    m,
                ) && !(m == old(self).id@ && paths_of(old(self).resources@).contains(p) && !paths_of(
                    resources@,
                ).contains(p))) || (m == old(self).id@ && paths_of(resources@).contains(p) && !paths_of(
                    old(self).resources@,
                ).contains(p)),
            forall|p: Seq<char>|
                has_path(final(resource_to_module_map).entries@, p) <==> has_path(
                    old(resource_to_module_map).entries@,
                    p,
                ) || (paths_of(resources@).contains(p) != paths_of(old(self).resources@).contains(p)),
            final(self).resources@ == resources@,
            numbered_maps(
                resources@,
                tilesets@,
                char_animation_tilesets@,
                final(self).gid_map.0@,
                final(self).char_animation_to_tileset_map.0@,
            ),
            added@ == new_resources(resources@, paths_of(old(self).resources@)),
            final(self).id == old(self).id,
            final(self).name == old(self).name,
            final(self).main_map == old(self).main_map,
            final(self).insert_points == old(self).insert_points,
            final(self).exit_points == old(self).exit_points,
            final(self).max_guests == old(self).max_guests,
            final(self).min_guests == old(self).min_guests,
            final(self).close_after_full == old(self).close_after_full,
    {
        let (gid_map, char_animation_to_tileset_map) = BlueprintService::generate_gid_and_char_anim_to_tileset_map(
            &resources,
            tilesets,
            char_animation_tilesets,
        );
        self.gid_map = gid_map;
        self.char_animation_to_tileset_map = char_animation_to_tileset_map;
        resource_to_module_map.update_resource_to_module_map(&self.id, &self.resources, &resources);
        let ghost known = paths_of(self.resources@);
        let ghost pred = |r: BlueprintResource| !known.contains(r.path@);
        let mut added: Vec<BlueprintResource> = Vec::new();
        let mut i: usize = 0;
        while i < resources.len()
            invariant
                i <= resources@.len(),
                known == paths_of(self.resources@),
                pred == (|r: BlueprintResource| !known.contains(r.path@)),
                added@ == resources@.take(i as int).filter(pred),
            decreases resources@.len() - i,
        {
            proof {
                assert(resources@.take(i + 1) =~= resources@.take(i as int).push(resources@[i as int]));
                resources@.take(i as int).lemma_filter_push(resources@[i as int], pred);
            }
            if !has_resource_path(&self.resources, &resources[i].path) {
                added.push(resources[i].duplicate());
            }
            i = i + 1;
        }
        proof {
            assert(resources@.take(resources@.len() as int) =~= resources@);
        }
        self.resources = resources;
        added
    }
}

} // verus!
