use std::collections::HashMap;
use std::hash::Hash;

use vstd::prelude::*;
use vstd::std_specs::hash::obeys_key_model;

verus! {

/// A value in a managed map, with the mark that schedules it for removal.
pub struct ManagedMapEntry<T> {
    delete: bool,
    pub data: T,
}

impl<T> ManagedMapEntry<T> {
    pub closed spec fn is_marked(&self) -> bool {
        self.delete
    }

    pub closed spec fn value(&self) -> T {
        self.data
    }

    /// Schedules this entry for removal at the next `delete`.
    pub fn mark_for_deletion(&mut self)
        ensures
            final(self).is_marked(),
            final(self).value() == old(self).value(),
    {
        self.delete = true;
    }
}

/// A map whose entries are marked for deletion while it is being walked and
/// removed together afterwards.
pub struct ManagedMap<E: Hash + Eq + Clone, T> {
    pub data: HashMap<E, ManagedMapEntry<T>>,
    delete_queue: Vec<E>,
}

/// `removed` holds the value of each marked entry of `m`, once each, in
/// some order.
pub open spec fn hands_back<E, T>(m: Map<E, ManagedMapEntry<T>>, removed: Seq<T>) -> bool {
    exists|ids: Seq<E>|
        {
            &&& ids.no_duplicates()
            &&& ids.to_set() == marked_ids(m)
            &&& removed == ids.map_values(|k: E| m[k].value())
        }
}

/// The ids of the entries of `m` that are marked for deletion.
pub open spec fn marked_ids<E, T>(m: Map<E, ManagedMapEntry<T>>) -> Set<E> {
    m.dom().filter(|k: E| m[k].is_marked())
}

impl<E: Hash + Eq + Clone, T> ManagedMap<E, T> {
    /// The entries, by id.
    pub closed spec fn entries(&self) -> Map<E, ManagedMapEntry<T>> {
        self.data@
    }

    /// Ids hash as table keys must, and cloning an id gives the same id.
    pub open spec fn ids_are_sound() -> bool {
        &&& obeys_key_model::<E>()
        &&& forall|a: E, b: E| #[trigger] cloned(a, b) ==> a == b
    }

    pub fn new() -> (m: ManagedMap<E, T>)
        ensures
            m.entries() == Map::<E, ManagedMapEntry<T>>::empty(),
    {
        ManagedMap { data: HashMap::new(), delete_queue: Vec::new() }
    }

    /// Adds (or replaces) the value for `id`, unmarked.
    pub fn insert(&mut self, id: E, data: T)
        requires
            Self::ids_are_sound(),
        ensures
            final(self).entries().dom() == old(self).entries().dom().insert(id),
            final(self).entries()[id].value() == data,
            !final(self).entries()[id].is_marked(),
            forall|k: E| k != id && #[trigger] old(self).entries().contains_key(k) ==> final(self).entries()[k]
                == old(self).entries()[k],
    {
        self.data.insert(id, ManagedMapEntry { data, delete: false });
    }

    /// The entries, by id, to change in place (such as to mark some of them
    /// for deletion); the map then holds what they were changed to.
    pub fn entries_mut(&mut self) -> (entries: &mut HashMap<E, ManagedMapEntry<T>>)
        ensures
            entries@ == old(self).entries(),
            final(self).entries() == final(entries)@,
    {
        &mut self.data
    }

    /// Removes every entry that is marked for deletion and hands back their
    /// values, one per removed entry; unmarked entries stay as they were.
    pub fn delete(&mut self) -> (removed: Vec<T>)
        requires
            Self::ids_are_sound(),
        ensures
            final(self).entries() == old(self).entries().remove_keys(marked_ids(old(self).entries())),
            hands_back(old(self).entries(), removed@),
    {
        let ghost start = self.data@;
        self.delete_queue = Vec::new();
        let ghost all = vstd::std_specs::iter::IteratorSpec::remaining(
            &vstd::std_specs::hash::spec_hash_map_iter(&self.data),
        );
        for (id, entry) in it: self.data.iter()
            invariant
                Self::ids_are_sound(),
                it.seq() == all,
                self.data@ == start,
                all.len() == start.dom().len(),
                all.no_duplicates(),
                forall|i: int|
                    0 <= i < all.len() ==> start.contains_key(*(#[trigger] all[i]).0) && start[*all[i].0]
                        == *all[i].1,
                forall|k: E| #[trigger] start.contains_key(k) ==> all.contains((&k, &start[k])),
                self.delete_queue@.no_duplicates(),
                forall|k: E|
                    #[trigger] self.delete_queue@.contains(k) <==> exists|j: int|
                        0 <= j < it.index() && *all[j].0 == k && all[j].1.is_marked(),
        {
            let ghost idx = it.index();
            let ghost queue_before = self.delete_queue@;
            proof {
                assert((id, entry) == all[idx]);
            }
            if entry.delete {
                let copy = id.clone();
                proof {
                    assert(cloned(*id, copy));
                    assert(copy == *id);
                    assert forall|j: int| 0 <= j < it.index() && *all[j].0 == *id implies false by {
                        assert(all[j].0 == all[it.index() as int].0);
                        assert(all[j] == all[it.index() as int]);
                    }
                }
                proof {
                    assert(!queue_before.contains(copy));
                }
                self.delete_queue.push(copy);
            }
            proof {
                assert forall|k: E|
                    #[trigger] self.delete_queue@.contains(k) implies exists|j: int|
                        0 <= j < idx + 1 && *all[j].0 == k && all[j].1.is_marked() by {
                    if queue_before.contains(k) {
                        let j = choose|j: int| 0 <= j < idx && *all[j].0 == k && all[j].1.is_marked();
                        assert(0 <= j < idx + 1 && *all[j].0 == k && all[j].1.is_marked());
                    } else {
                        assert(k == *id);
                        assert(*all[idx].0 == k && all[idx].1.is_marked());
                    }
                }
                assert forall|k: E|
                    (exists|j: int| 0 <= j < idx + 1 && *all[j].0 == k && all[j].1.is_marked())
                    implies #[trigger] self.delete_queue@.contains(k) by {
                    let j = choose|j: int|
                        0 <= j < idx + 1 && *all[j].0 == k && all[j].1.is_marked();
                    if j < idx {
                        assert(queue_before.contains(k));
                        let w = choose|w: int| 0 <= w < queue_before.len() && queue_before[w] == k;
                        assert(self.delete_queue@[w] == k);
                    } else {
                        assert(entry.delete);
                        assert(self.delete_queue@ == queue_before.push(k));
                        assert(self.delete_queue@[queue_before.len() as int] == k);
                    }
                }
            }
        }
        let ghost queue = self.delete_queue@;
        proof {
            assert(queue.to_set() =~= marked_ids(start)) by {
                assert forall|k: E| marked_ids(start).contains(k) implies queue.to_set().contains(k) by {
                    if marked_ids(start).contains(k) {
                        assert(all.contains((&k, &start[k])));
                    }
                }
            }
        }
        let mut removed: Vec<T> = Vec::new();
        let mut i: usize = 0;
        while i < self.delete_queue.len()
            invariant
                Self::ids_are_sound(),
                self.delete_queue@ == queue,
                queue.no_duplicates(),
                queue.to_set() == marked_ids(start),
                i <= queue.len(),
                self.data@ == start.remove_keys(queue.take(i as int).to_set()),
                removed@ == queue.take(i as int).map_values(|k: E| start[k].value()),
            decreases queue.len() - i,
        {
            let ghost k = queue[i as int];
            proof {
                assert(marked_ids(start).contains(k));
                assert(!queue.take(i as int).contains(k));
                assert(!queue.take(i as int).to_set().contains(k));
                assert(self.data@.contains_key(k));
            }
            let key = &self.delete_queue[i];
            assert(*key == k);
            assert(vstd::std_specs::hash::contains_borrowed_key(self.data@, key));
            let item = self.data.remove(key);
            match item {
                Some(entry) => {
                    removed.push(entry.data);
                },
                None => {
                    assert(false);
                },
            }
            proof {
                assert(queue.take(i + 1) =~= queue.take(i as int).push(k));
                assert(queue.take(i + 1).to_set() =~= queue.take(i as int).to_set().insert(k)) by {
                    queue.take(i as int).lemma_push_to_set_commute(k);
                }
                assert(self.data@ =~= start.remove_keys(queue.take(i + 1).to_set()));
                assert(removed@ =~= queue.take(i + 1).map_values(|k: E| start[k].value()));
            }
            i = i + 1;
        }
        self.delete_queue = Vec::new();
        proof {
            assert(queue.take(queue.len() as int) =~= queue);
            assert(hands_back(start, removed@));
        }
        removed
    }
}

/// What `delete` keeps are exactly the entries that were not marked, so
/// nothing marked is left and a second `delete` removes nothing.
pub proof fn lemma_delete_keeps_unmarked<E, T>(m: Map<E, ManagedMapEntry<T>>)
    ensures
        forall|k: E| #[trigger]
            m.remove_keys(marked_ids(m)).contains_key(k) <==> m.contains_key(k) && !m[k].is_marked(),
        marked_ids(m.remove_keys(marked_ids(m))) == Set::<E>::empty(),
{
    let kept = m.remove_keys(marked_ids(m));
    assert(marked_ids(kept) =~= Set::<E>::empty());
}

/// Marking one entry and deleting removes exactly that entry and hands back
/// exactly its value: when the entry under `id` is the only marked one, what
/// `delete` keeps is the map without `id`, and what it hands back is the
/// entry's value alone.
pub proof fn lemma_mark_then_delete<E, T>(m: Map<E, ManagedMapEntry<T>>, id: E, removed: Seq<T>)
    requires
        m.contains_key(id),
        m[id].is_marked(),
        forall|k: E| #[trigger] m.contains_key(k) && k != id ==> !m[k].is_marked(),
    ensures
        m.remove_keys(marked_ids(m)) == m.remove(id),
        hands_back(m, removed) ==> removed == seq![m[id].value()],
{
    assert(marked_ids(m) =~= set![id]);
    assert(m.remove_keys(marked_ids(m)) =~= m.remove(id));
    if hands_back(m, removed) {
        let ids = choose|ids: Seq<E>|
            {
                &&& ids.no_duplicates()
                &&& ids.to_set() == marked_ids(m)
                &&& removed == ids.map_values(|k: E| m[k].value())
            };
        assert(ids.to_set().contains(id));
        let j = choose|j: int| 0 <= j < ids.len() && ids[j] == id;
        assert(ids.len() == 1) by {
            ids.unique_seq_to_set();
            assert(set![id].len() == 1);
        }
        assert(j == 0);
        assert(ids =~= seq![id]);
        assert(removed =~= seq![m[id].value()]);
    }
}

/// Inserting a value, marking its entry and deleting: when no other entry
/// is marked, `delete` hands back exactly the inserted value and leaves the
/// map as it was before the insert, without `id`.
pub proof fn lemma_insert_mark_delete<E, T>(
    m0: Map<E, ManagedMapEntry<T>>,
    m1: Map<E, ManagedMapEntry<T>>,
    marked: ManagedMapEntry<T>,
    id: E,
    data: T,
    removed: Seq<T>,
)
    requires
        m1.dom() == m0.dom().insert(id),
        m1[id].value() == data,
        !m1[id].is_marked(),
        forall|k: E| k != id && #[trigger] m0.contains_key(k) ==> m1[k] == m0[k],
        marked.is_marked(),
        marked.value() == m1[id].value(),
        forall|k: E| k != id && #[trigger] m0.contains_key(k) ==> !m0[k].is_marked(),
    ensures
        m1.insert(id, marked).remove_keys(marked_ids(m1.insert(id, marked))) == m0.remove(id),
        hands_back(m1.insert(id, marked), removed) ==> removed == seq![data],
{
    let m2 = m1.insert(id, marked);
    lemma_mark_then_delete(m2, id, removed);
    assert(m2.remove(id) =~= m0.remove(id));
}

} // verus!
