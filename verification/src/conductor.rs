use vstd::prelude::*;

use crate::blueprint::{BlueprintService, Conductor, IOPoint, ModuleEnterSlot, ModuleExitSlot, ModuleId};

verus! {

/// Where each exit slot leads, as a map; later pairs win.
pub open spec fn connections_view(s: Seq<(ModuleExitSlot, (ModuleId, ModuleEnterSlot))>) -> Map<
    Seq<char>,
    (Seq<char>, Seq<char>),
>
    decreases s.len(),
{
    if s.len() == 0 {
        Map::empty()
    } else {
        connections_view(s.drop_last()).insert(s.last().0@, (s.last().1.0@, s.last().1.1@))
    }
}

/// No exit slot occurs twice.
pub open spec fn unique_exits(s: Seq<(ModuleExitSlot, (ModuleId, ModuleEnterSlot))>) -> bool {
    forall|i: int, j: int| 0 <= i < j < s.len() ==> s[i].0@ != s[j].0@
}

/// The names of the points.
pub open spec fn point_names(points: Seq<IOPoint>) -> Set<Seq<char>> {
    points.map_values(|p: IOPoint| p.name@).to_set()
}

/// The names among `current` that `new` no longer has.
pub open spec fn removed_names(current: Seq<IOPoint>, new: Seq<IOPoint>) -> Set<Seq<char>> {
    point_names(current).difference(point_names(new))
}

/// The connections whose entry slot is not one of `names`.
pub open spec fn without_entries(
    m: Map<Seq<char>, (Seq<char>, Seq<char>)>,
    names: Set<Seq<char>>,
) -> Map<Seq<char>, (Seq<char>, Seq<char>)> {
    Map::new(|k: Seq<char>| m.contains_key(k) && !names.contains(m[k].1), |k: Seq<char>| m[k])
}

proof fn lemma_view_push_fresh(s: Seq<(ModuleExitSlot, (ModuleId, ModuleEnterSlot))>, x: (ModuleExitSlot, (ModuleId, ModuleEnterSlot)))
    requires
        unique_exits(s),
        forall|i: int| 0 <= i < s.len() ==> s[i].0@ != x.0@,
    ensures
        unique_exits(s.push(x)),
        connections_view(s.push(x)) == connections_view(s).insert(x.0@, (x.1.0@, x.1.1@)),
{
    assert(s.push(x).drop_last() =~= s);
}

proof fn lemma_view_keys(s: Seq<(ModuleExitSlot, (ModuleId, ModuleEnterSlot))>, k: Seq<char>)
    ensures
        connections_view(s).contains_key(k) <==> exists|i: int| 0 <= i < s.len() && s[i].0@ == k,
    decreases s.len(),
{
    if s.len() > 0 {
        lemma_view_keys(s.drop_last(), k);
        if connections_view(s.drop_last()).contains_key(k) {
            let i = choose|i: int| 0 <= i < s.drop_last().len() && s.drop_last()[i].0@ == k;
            assert(s[i].0@ == k);
        }
        if exists|i: int| 0 <= i < s.len() && s[i].0@ == k {
            let i = choose|i: int| 0 <= i < s.len() && s[i].0@ == k;
            if i < s.len() - 1 {
                assert(s.drop_last()[i].0@ == k);
            }
        }
    }
}

impl Conductor {
    /// No exit slot leads to two places.
    pub open spec fn wf(&self) -> bool {
        unique_exits(self.module_connection_map@)
    }

    /// Keeps the connections whose key or entry slot is not among `names`,
    /// by key when `by_exit`, by entry slot otherwise, in order.
    fn keep_connections(&mut self, names: &vstd::hash_set::StringHashSet, by_exit: bool)
        requires
            old(self).wf(),
        ensures
            final(self).wf(),
            final(self).resources == old(self).resources,
            final(self).gid_map == old(self).gid_map,
            by_exit ==> connections_view(final(self).module_connection_map@) == connections_view(
                old(self).module_connection_map@,
            ).remove_keys(names@),
            !by_exit ==> connections_view(final(self).module_connection_map@) == without_entries(
                connections_view(old(self).module_connection_map@),
                names@,
            ),
    {
        let ghost s = self.module_connection_map@;
        let mut source: Vec<(ModuleExitSlot, (ModuleId, ModuleEnterSlot))> = Vec::new();
        std::mem::swap(&mut source, &mut self.module_connection_map);
        let total = source.len();
        let mut kept: Vec<(ModuleExitSlot, (ModuleId, ModuleEnterSlot))> = Vec::new();
        let mut k: usize = 0;
        proof {
            assert(s.skip(0) =~= s);
        }
        while source.len() > 0
            invariant
                unique_exits(s),
                total == s.len(),
                k <= s.len(),
                source@ == s.skip(k as int),
                source@.len() == s.len() - k,
                unique_exits(kept@),
                forall|j: int| 0 <= j < kept@.len() ==> exists|i: int| 0 <= i < k && #[trigger] kept@[j] == s[i],
                by_exit ==> connections_view(kept@) == connections_view(s.take(k as int)).remove_keys(names@),
                !by_exit ==> connections_view(kept@) == without_entries(connections_view(s.take(k as int)), names@),
                self.resources == old(self).resources,
                self.gid_map == old(self).gid_map,
            decreases source@.len(),
        {
            let item = source.remove(0);
            proof {
                assert(item == s[k as int]);
                assert(source@ =~= s.skip(k + 1));
                assert(s.take(k + 1) =~= s.take(k as int).push(item));
                assert(s.take(k + 1).drop_last() =~= s.take(k as int));
                lemma_view_keys(s.take(k as int), item.0@);
                if connections_view(s.take(k as int)).contains_key(item.0@) {
                    let i = choose|i: int| 0 <= i < s.take(k as int).len() && s.take(k as int)[i].0@ == item.0@;
                    assert(s[i].0@ == s[k as int].0@);
                }
            }
            let drop = if by_exit {
                names.contains(item.0.as_str())
            } else {
                names.contains((item.1).1.as_str())
            };
            if !drop {
                proof {
                    assert forall|j: int| 0 <= j < kept@.len() implies kept@[j].0@ != item.0@ by {
                        let i = choose|i: int| 0 <= i < k && #[trigger] kept@[j] == s[i];
                        assert(s[i].0@ != s[k as int].0@);
                    }
                    lemma_view_push_fresh(kept@, item);
                }
                let ghost before = kept@;
                kept.push(item);
                proof {
                    assert forall|j: int| 0 <= j < kept@.len() implies exists|i: int|
                        0 <= i < k + 1 && #[trigger] kept@[j] == s[i] by {
                        if j < before.len() {
                            assert(kept@[j] == before[j]);
                        } else {
                            assert(kept@[j] == s[k as int]);
                        }
                    }
                }
            }
            proof {
                let t = s.take(k as int);
                let t1 = s.take(k + 1);
                if by_exit {
                    assert(connections_view(kept@) =~= connections_view(t1).remove_keys(names@));
                } else {
                    assert(connections_view(kept@) =~= without_entries(connections_view(t1), names@));
                }
            }
            k = k + 1;
        }
        proof {
            assert(s.take(k as int) =~= s);
        }
        self.module_connection_map = kept;
    }

    /// Drops the connections that lead into an entry slot that the module's
    /// insert points no longer have, whichever module they lead to.
    pub fn remove_connections_to_removed_insert_points(&mut self, current: &[IOPoint], new: &[IOPoint])
        requires
            old(self).wf(),
        ensures
            final(self).wf(),
            connections_view(final(self).module_connection_map@) == without_entries(
                connections_view(old(self).module_connection_map@),
                removed_names(current@, new@),
            ),
            final(self).resources == old(self).resources,
            final(self).gid_map == old(self).gid_map,
    {
        let removed = Self::removed_point_names(current, new);
        self.keep_connections(&removed, false);
    }

    /// Drops the connections out of exit slots that the module's exit points
    /// no longer have.
    pub fn remove_connections_from_removed_exit_points(&mut self, current: &[IOPoint], new: &[IOPoint])
        requires
            old(self).wf(),
        ensures
            final(self).wf(),
            connections_view(final(self).module_connection_map@) == connections_view(
                old(self).module_connection_map@,
            ).remove_keys(removed_names(current@, new@)),
            final(self).resources == old(self).resources,
            final(self).gid_map == old(self).gid_map,
    {
        let removed = Self::removed_point_names(current, new);
        self.keep_connections(&removed, true);
    }

    /// Drops the connections of a module that is deleted: those out of one
    /// of its exit points and those into one of its insert points.
    pub fn remove_connections_of_module(&mut self, exit_points: &[IOPoint], insert_points: &[IOPoint])
        requires
            old(self).wf(),
        ensures
            final(self).wf(),
            connections_view(final(self).module_connection_map@) == without_entries(
                connections_view(old(self).module_connection_map@).remove_keys(point_names(exit_points@)),
                point_names(insert_points@),
            ),
            final(self).resources == old(self).resources,
            final(self).gid_map == old(self).gid_map,
    {
        let exits = BlueprintService::io_points_to_hashset(exit_points);
        let entries = BlueprintService::io_points_to_hashset(insert_points);
        self.keep_connections(&exits, true);
        self.keep_connections(&entries, false);
    }

    /// The names of `current` that `new` no longer has.
    fn removed_point_names(current: &[IOPoint], new: &[IOPoint]) -> (names: vstd::hash_set::StringHashSet)
        ensures
            names@ == removed_names(current@, new@),
    {
        let current_names = BlueprintService::io_points_to_hashset(current);
        let new_names = BlueprintService::io_points_to_hashset(new);
        let mut removed = vstd::hash_set::StringHashSet::new();
        let mut i: usize = 0;
        while i < current.len()
            invariant
                i <= current@.len(),
                current_names@ == point_names(current@),
                new_names@ == point_names(new@),
                removed@ == point_names(current@.take(i as int)).difference(point_names(new@)),
            decreases current@.len() - i,
        {
            let name = &current[i].name;
            if !new_names.contains(name.as_str()) {
                removed.insert(name.clone());
            }
            proof {
                assert(current@.take(i + 1).map_values(|p: IOPoint| p.name@) =~= current@.take(
                    i as int,
                ).map_values(|p: IOPoint| p.name@).push(current@[i as int].name@));
                current@.take(i as int).map_values(|p: IOPoint| p.name@).lemma_push_to_set_commute(
                    current@[i as int].name@,
                );
                assert(removed@ =~= point_names(current@.take(i + 1)).difference(point_names(new@)));
            }
            i = i + 1;
        }
        proof {
            assert(current@.take(current@.len() as int) =~= current@);
        }
        removed
    }
}

/// Once the connections into removed entry slots are dropped, no connection
/// leads into one of them, and every connection that did not is kept as it
/// was.
pub proof fn lemma_no_connection_into_removed_entry(
    m: Map<Seq<char>, (Seq<char>, Seq<char>)>,
    names: Set<Seq<char>>,
)
    ensures
        forall|k: Seq<char>| #[trigger]
            without_entries(m, names).contains_key(k) ==> !names.contains(without_entries(m, names)[k].1),
        forall|k: Seq<char>|
            m.contains_key(k) && !names.contains(m[k].1) ==> #[trigger] without_entries(m, names).contains_key(k)
                && without_entries(m, names)[k] == m[k],
{
}

} // verus!
