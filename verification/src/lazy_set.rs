use std::collections::hash_map::Entry;
use std::collections::HashMap;
use std::collections::HashSet;
use std::hash::Hash;

use vstd::prelude::*;
use vstd::std_specs::hash::obeys_key_model;

verus! {

/// A map from keys to sets that only holds values for keys that were
/// initialised: entries for other keys are silently ignored.
pub struct LazyHashmapSet<K: Eq + Hash, T: Eq + Hash> {
    data: HashMap<K, HashSet<T>>,
}

/// The sets with `value` put into the set of `key`, when `key` has a set.
pub open spec fn with_entry<K, T>(m: Map<K, Set<T>>, key: K, value: T) -> Map<K, Set<T>> {
    if m.contains_key(key) {
        m.insert(key, m[key].insert(value))
    } else {
        m
    }
}

/// The sets with `value` taken out of the set of `key`, when `key` has a set.
pub open spec fn without_entry<K, T>(m: Map<K, Set<T>>, key: K, value: T) -> Map<K, Set<T>> {
    if m.contains_key(key) {
        m.insert(key, m[key].remove(value))
    } else {
        m
    }
}

/// Taking a value out of the set of a key undoes putting it in, when it was
/// not there before; for a key without a set both leave the sets alone.
pub proof fn lemma_insert_then_remove_entry<K, T>(m: Map<K, Set<T>>, key: K, value: T)
    requires
        !(m.contains_key(key) && m[key].contains(value)),
    ensures
        without_entry(with_entry(m, key, value), key, value) == m,
{
    if m.contains_key(key) {
        assert(m[key].insert(value).remove(value) =~= m[key]);
        assert(without_entry(with_entry(m, key, value), key, value) =~= m);
    }
}

/// A value put into the set of a key that was made known is in that set.
pub proof fn lemma_init_then_insert_entry<K, T>(m: Map<K, Set<T>>, key: K, value: T)
    ensures
        with_entry(m.insert(key, Set::empty()), key, value)[key] == set![value],
{
    assert(Set::<T>::empty().insert(value) =~= set![value]);
}

impl<K: Eq + Hash, T: Eq + Hash> View for LazyHashmapSet<K, T> {
    type V = Map<K, Set<T>>;

    /// The sets, by key.
    closed spec fn view(&self) -> Map<K, Set<T>> {
        Map::new(|k: K| self.data@.contains_key(k), |k: K| self.data@[k]@)
    }
}

impl<K: Eq + Hash, T: Eq + Hash> LazyHashmapSet<K, T> {

    /// The keys and values behave as hash-table keys must.
    pub open spec fn keys_are_hashable() -> bool {
        obeys_key_model::<K>() && obeys_key_model::<T>()
    }

    pub fn new() -> (m: Self)
        ensures
            m.view() == Map::<K, Set<T>>::empty(),
    {
        let m = LazyHashmapSet { data: HashMap::new() };
        assert(m.view() =~= Map::<K, Set<T>>::empty());
        m
    }

    /// Makes `key` known with an empty set, dropping what it held.
    pub fn init(&mut self, key: K)
        requires
            Self::keys_are_hashable(),
        ensures
            final(self).view() == old(self).view().insert(key, Set::<T>::empty()),
    {
        self.data.insert(key, HashSet::new());
        assert(self.view() =~= old(self).view().insert(key, Set::<T>::empty()));
    }

    /// Forgets `key`, handing back its set if it was known.
    pub fn remove(&mut self, key: &K) -> (removed: Option<HashSet<T>>)
        requires
            Self::keys_are_hashable(),
        ensures
            final(self).view() == old(self).view().remove(*key),
            match removed {
                Some(s) => old(self).view().contains_key(*key) && s@ == old(self).view()[*key],
                None => !old(self).view().contains_key(*key),
            },
    {
        let removed = self.data.remove(key);
        assert(self.view() =~= old(self).view().remove(*key));
        removed
    }

    /// Takes `value` out of the set of `key`; true if it was in there.
    pub fn remove_entry(&mut self, key: K, value: &T) -> (was_there: bool)
        requires
            Self::keys_are_hashable(),
        ensures
            was_there == (old(self).view().contains_key(key) && old(self).view()[key].contains(
                *value,
            )),
            final(self).view() == without_entry(old(self).view(), key, *value),
    {
        let ghost old_data = self.data@;
        match self.data.entry(key) {
            Entry::Occupied(mut occupied) => {
                let set = occupied.get_mut();
                let was_there = set.remove(value);
                proof {
                    assert(self.data@ == old_data.insert(key, *set));
                    assert(self.view() =~= old(self).view().insert(
                        key,
                        old(self).view()[key].remove(*value),
                    ));
                }
                was_there
            },
            Entry::Vacant(vacant) => {
                proof {
                    assert(self.data@ == old_data);
                    assert(self.view() =~= old(self).view());
                }
                false
            },
        }
    }

    /// Puts `value` into the set of `key`, if `key` is known.
    pub fn insert_entry(&mut self, key: K, value: T)
        requires
            Self::keys_are_hashable(),
        ensures
            final(self).view() == with_entry(old(self).view(), key, value),
    {
        let ghost old_data = self.data@;
        match self.data.entry(key) {
            Entry::Occupied(mut occupied) => {
                let set = occupied.get_mut();
                set.insert(value);
                proof {
                    assert(self.data@ == old_data.insert(key, *set));
                    assert(self.view() =~= old(self).view().insert(
                        key,
                        old(self).view()[key].insert(value),
                    ));
                }
            },
            Entry::Vacant(vacant) => {
                proof {
                    assert(self.data@ == old_data);
                    assert(self.view() =~= old(self).view());
                }
            },
        }
    }

    /// Keeps in the set of `key` only the values for which `callback` says
    /// true; an unknown key is left alone.
    pub fn filter<F: Fn(&T) -> bool>(&mut self, key: K, callback: F)
        where
            T: Copy,
        requires
            Self::keys_are_hashable(),
            forall|t: T| callback.requires((&t,)),
        ensures
            final(self).view().dom() == old(self).view().dom(),
            forall|k: K|
                k != key && #[trigger] old(self).view().contains_key(k) ==> final(self).view()[k]
                    == old(self).view()[k],
            old(self).view().contains_key(key) ==> forall|t: T| #[trigger]
                final(self).view()[key].contains(t) ==> old(self).view()[key].contains(t)
                    && callback.ensures((&t,), true),
            old(self).view().contains_key(key) ==> forall|t: T|
                #[trigger] old(self).view()[key].contains(t) && !final(self).view()[key].contains(t)
                    ==> callback.ensures((&t,), false),
    {
        let ghost old_data = self.data@;
        match self.data.entry(key) {
            Entry::Occupied(mut occupied) => {
                let set = occupied.get_mut();
                let mut kept: HashSet<T> = HashSet::new();
                let ghost unfiltered = set@;
                let ghost all = vstd::std_specs::iter::IteratorSpec::remaining(&vstd::std_specs::hash::spec_hash_keys_iter(set));
                for t in it: set.iter()
                    invariant
                        it.seq() == all,
                        Self::keys_are_hashable(),
                        forall|u: T| callback.requires((&u,)),
                        all.unref().to_set() == unfiltered,
                        forall|u: T| #[trigger]
                            kept@.contains(u) ==> unfiltered.contains(u) && callback.ensures(
                                (&u,),
                                true,
                            ),
                        forall|j: int|
                            0 <= j < it.index() ==> kept@.contains(*#[trigger] it.seq()[j])
                                || callback.ensures((it.seq()[j],), false),
                {
                    let keep = callback(t);
                    proof {
                        assert(it.seq().unref().contains(*t));
                    }
                    if keep {
                        kept.insert(*t);
                    }
                }
                *set = kept;
                proof {
                    assert forall|u: T| #[trigger]
                        unfiltered.contains(u) && !set@.contains(u) implies callback.ensures(
                        (&u,),
                        false,
                    ) by {
                        assert(all.unref().to_set().contains(u));
                        let j = choose|j: int| 0 <= j < all.len() && all.unref()[j] == u;
                        assert(*all[j] == u);
                    }
                    assert(self.data@ == old_data.insert(key, *set));
                    assert(self.view().dom() =~= old(self).view().dom());
                }
            },
            Entry::Vacant(vacant) => {
                proof {
                    assert(self.data@ == old_data);
                    assert(self.view() =~= old(self).view());
                }
            },
        }
    }

    /// How many values the set of `key` holds; 0 for an unknown key.
    pub fn len(&mut self, key: &K) -> (n: usize)
        requires
            Self::keys_are_hashable(),
        ensures
            final(self).view() == old(self).view(),
            n == (if old(self).view().contains_key(*key) {
                old(self).view()[*key].len()
            } else {
                0
            }),
    {
        match self.data.get(key) {
            Some(set) => set.len(),
            None => 0,
        }
    }
}

} // verus!
