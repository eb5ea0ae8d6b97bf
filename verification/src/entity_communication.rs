use std::collections::{HashMap, HashSet};

use vstd::prelude::*;

use crate::terrain::{related, relate, relation_pairs};

verus! {

/// The id of a node instance of a scene.
pub type NodeInstanceId = u32;

/// An entity of a scene, named by its node instance.
#[derive(Clone, Copy, PartialEq, Eq, Structural, Debug, Hash)]
pub struct Entity(pub NodeInstanceId);

/// Which entities subscribe to which, kept both ways, the events entities
/// published, in order, and the last value each entity published under
/// each event name. Values are those of the script engine, carried as they
/// are.
pub struct EntityCommunicationSystem<V> {
    pub event_queue: Vec<(Entity, String, V)>,
    pub entity_to_subscribers_map: HashMap<NodeInstanceId, HashSet<NodeInstanceId>>,
    pub subscriber_to_entities_map: HashMap<NodeInstanceId, HashSet<NodeInstanceId>>,
    pub last_value_cache: HashMap<NodeInstanceId, Vec<(String, V)>>,
}

/// The two maps hold the same subscriptions, one from the entity's side,
/// the other from the subscriber's.
pub open spec fn mirrored(
    entity_to_subscribers: Map<NodeInstanceId, HashSet<NodeInstanceId>>,
    subscriber_to_entities: Map<NodeInstanceId, HashSet<NodeInstanceId>>,
) -> bool {
    forall|x: NodeInstanceId, y: NodeInstanceId|
        #[trigger] related(entity_to_subscribers, x, y) <==> #[trigger] related(subscriber_to_entities, y, x)
}

/// The value a list of event names and values holds for a name: that of
/// the last pair with the name.
pub open spec fn named_value<V>(s: Seq<(String, V)>, name: Seq<char>) -> Option<V>
    decreases s.len(),
{
    if s.len() == 0 {
        None
    } else if s.last().0@ == name {
        Some(s.last().1)
    } else {
        named_value(s.drop_last(), name)
    }
}

/// The last value the entity published under the event name, if any.
pub open spec fn last_value<V>(cache: Map<NodeInstanceId, Vec<(String, V)>>, entity: NodeInstanceId, name: Seq<char>) -> Option<V> {
    if cache.contains_key(entity) {
        named_value(cache[entity]@, name)
    } else {
        None
    }
}

/// `i` is the last index of a pair with the name.
pub open spec fn is_last_named<V>(s: Seq<(String, V)>, name: Seq<char>, i: int) -> bool {
    &&& 0 <= i < s.len()
    &&& s[i].0@ == name
    &&& forall|j: int| i < j < s.len() ==> (#[trigger] s[j]).0@ != name
}

/// The value of a name is that of its last pair.
proof fn lemma_named_value_last<V>(s: Seq<(String, V)>, name: Seq<char>, i: int)
    requires
        is_last_named(s, name, i),
    ensures
        named_value(s, name) == Some(s[i].1),
    decreases s.len(),
{
    if i < s.len() - 1 {
        assert(s.last().0@ != name);
        lemma_named_value_last(s.drop_last(), name, i);
    }
}

/// A name no pair has has no value.
proof fn lemma_named_value_none<V>(s: Seq<(String, V)>, name: Seq<char>)
    requires
        forall|j: int| 0 <= j < s.len() ==> (#[trigger] s[j]).0@ != name,
    ensures
        named_value(s, name) is None,
    decreases s.len(),
{
    if s.len() > 0 {
        lemma_named_value_none(s.drop_last(), name);
    }
}

/// Replacing the last pair of a name sets the name's value and keeps the
/// others.
proof fn lemma_named_value_update<V>(s: Seq<(String, V)>, i: int, key: String, v: V, name: Seq<char>)
    requires
        is_last_named(s, key@, i),
    ensures
        named_value(s.update(i, (key, v)), name) == if name == key@ {
            Some(v)
        } else {
            named_value(s, name)
        },
    decreases s.len(),
{
    let t = s.update(i, (key, v));
    if i == s.len() - 1 {
        assert(t.drop_last() =~= s.drop_last());
    } else {
        assert(t.drop_last() =~= s.drop_last().update(i, (key, v)));
        assert(s.last().0@ != key@);
        lemma_named_value_update(s.drop_last(), i, key, v, name);
    }
}

/// The last index of a pair with the name, searched from the end.
fn find_last_named<V>(list: &Vec<(String, V)>, name: &String) -> (found: Option<usize>)
    ensures
        match found {
            Some(i) => is_last_named(list@, name@, i as int),
            None => forall|j: int| 0 <= j < list@.len() ==> (#[trigger] list@[j]).0@ != name@,
        },
{
    let mut i: usize = list.len();
    while i > 0
        invariant
            i <= list@.len(),
            forall|j: int| i <= j < list@.len() ==> (#[trigger] list@[j]).0@ != name@,
        decreases i,
    {
        if list[i - 1].0 == *name {
            return Some(i - 1);
        }
        i = i - 1;
    }
    None
}

/// Takes `b` out of the set of `a`, when `a` has a set.
fn unrelate_if_present(m: &mut HashMap<u32, HashSet<u32>>, a: u32, b: u32)
    ensures
        forall|x: u32, y: u32| related(final(m)@, x, y) <==> related(old(m)@, x, y) && !(x == a && y == b),
        final(m)@.dom() == old(m)@.dom(),
{
    let ghost before = m@;
    match m.remove(&a) {
        Some(set) => {
            let mut set = set;
            set.remove(&b);
            m.insert(a, set);
            proof {
                assert forall|x: u32, y: u32| related(m@, x, y) <==> related(before, x, y) && !(x == a && y == b) by {
                    if x != a {
                        assert(m@[x] == before[x]);
                    }
                }
                assert(m@.dom() =~= before.dom());
            }
        },
        None => {
            proof {
                assert(m@ =~= before);
            }
        },
    }
}

impl<V> EntityCommunicationSystem<V> {
    /// No subscriptions, events or cached values.
    pub fn new() -> (system: Self)
        ensures
            system.event_queue@.len() == 0,
            system.entity_to_subscribers_map@ == Map::<NodeInstanceId, HashSet<NodeInstanceId>>::empty(),
            system.subscriber_to_entities_map@ == Map::<NodeInstanceId, HashSet<NodeInstanceId>>::empty(),
            system.last_value_cache@ == Map::<NodeInstanceId, Vec<(String, V)>>::empty(),
    {
        EntityCommunicationSystem {
            event_queue: Vec::new(),
            entity_to_subscribers_map: HashMap::new(),
            subscriber_to_entities_map: HashMap::new(),
            last_value_cache: HashMap::new(),
        }
    }

    /// The subscriber subscribes to the entity: the pair is recorded from
    /// both sides.
    pub fn subscribe(&mut self, entity: Entity, subscriber: Entity)
        ensures
            forall|x: NodeInstanceId, y: NodeInstanceId|
                related(final(self).entity_to_subscribers_map@, x, y) <==> related(
                    old(self).entity_to_subscribers_map@,
                    x,
                    y,
                ) || (x == entity.0 && y == subscriber.0),
            forall|x: NodeInstanceId, y: NodeInstanceId|
                related(final(self).subscriber_to_entities_map@, x, y) <==> related(
                    old(self).subscriber_to_entities_map@,
                    x,
                    y,
                ) || (x == subscriber.0 && y == entity.0),
            mirrored(old(self).entity_to_subscribers_map@, old(self).subscriber_to_entities_map@) ==> mirrored(
                final(self).entity_to_subscribers_map@,
                final(self).subscriber_to_entities_map@,
            ),
            relation_pairs(final(self).entity_to_subscribers_map@) == relation_pairs(
                old(self).entity_to_subscribers_map@,
            ).insert((entity.0, subscriber.0)),
            final(self).event_queue == old(self).event_queue,
            final(self).last_value_cache == old(self).last_value_cache,
    {
        relate(&mut self.entity_to_subscribers_map, entity.0, subscriber.0);
        relate(&mut self.subscriber_to_entities_map, subscriber.0, entity.0);
        proof {
            assert(relation_pairs(self.entity_to_subscribers_map@) =~= relation_pairs(
                old(self).entity_to_subscribers_map@,
            ).insert((entity.0, subscriber.0)));
        }
    }

    /// The subscriber stops subscribing to the entity: the pair is taken
    /// out on both sides where a side has a set for it.
    pub fn unsubscribe(&mut self, entity: Entity, subscriber: Entity)
        ensures
            forall|x: NodeInstanceId, y: NodeInstanceId|
                related(final(self).entity_to_subscribers_map@, x, y) <==> related(
                    old(self).entity_to_subscribers_map@,
                    x,
                    y,
                ) && !(x == entity.0 && y == subscriber.0),
            forall|x: NodeInstanceId, y: NodeInstanceId|
                related(final(self).subscriber_to_entities_map@, x, y) <==> related(
                    old(self).subscriber_to_entities_map@,
                    x,
                    y,
                ) && !(x == subscriber.0 && y == entity.0),
            final(self).entity_to_subscribers_map@.dom() == old(self).entity_to_subscribers_map@.dom(),
            final(self).subscriber_to_entities_map@.dom() == old(self).subscriber_to_entities_map@.dom(),
            mirrored(old(self).entity_to_subscribers_map@, old(self).subscriber_to_entities_map@) ==> mirrored(
                final(self).entity_to_subscribers_map@,
                final(self).subscriber_to_entities_map@,
            ),
            relation_pairs(final(self).entity_to_subscribers_map@) == relation_pairs(
                old(self).entity_to_subscribers_map@,
            ).remove((entity.0, subscriber.0)),
            final(self).event_queue == old(self).event_queue,
            final(self).last_value_cache == old(self).last_value_cache,
    {
        unrelate_if_present(&mut self.entity_to_subscribers_map, entity.0, subscriber.0);
        unrelate_if_present(&mut self.subscriber_to_entities_map, subscriber.0, entity.0);
        proof {
            assert(relation_pairs(self.entity_to_subscribers_map@) =~= relation_pairs(
                old(self).entity_to_subscribers_map@,
            ).remove((entity.0, subscriber.0)));
        }
    }

    /// Drops the entity's subscribers: its own set goes, and it leaves the
    /// set of each subscriber it had.
    pub fn remove_entity(&mut self, entity: Entity)
        ensures
            forall|x: NodeInstanceId, y: NodeInstanceId|
                related(final(self).entity_to_subscribers_map@, x, y) <==> related(
                    old(self).entity_to_subscribers_map@,
                    x,
                    y,
                ) && x != entity.0,
            final(self).entity_to_subscribers_map@.dom() == old(self).entity_to_subscribers_map@.dom().remove(entity.0),
            forall|x: NodeInstanceId, y: NodeInstanceId|
                related(final(self).subscriber_to_entities_map@, x, y) <==> related(
                    old(self).subscriber_to_entities_map@,
                    x,
                    y,
                ) && !(y == entity.0 && related(old(self).entity_to_subscribers_map@, entity.0, x)),
            final(self).subscriber_to_entities_map@.dom() == old(self).subscriber_to_entities_map@.dom(),
            mirrored(old(self).entity_to_subscribers_map@, old(self).subscriber_to_entities_map@) ==> mirrored(
                final(self).entity_to_subscribers_map@,
                final(self).subscriber_to_entities_map@,
            ),
            final(self).event_queue == old(self).event_queue,
            final(self).last_value_cache == old(self).last_value_cache,
    {
        let ghost e2s0 = self.entity_to_subscribers_map@;
        let ghost s2e0 = self.subscriber_to_entities_map@;
        let e = entity.0;
        match self.entity_to_subscribers_map.remove(&e) {
            Some(subscribers) => {
                let ghost mut seen: Seq<NodeInstanceId> = Seq::empty();
                proof {
                    vstd::std_specs::hash::axiom_spec_hash_keys_iter(&subscribers);
                }
                for s in it: subscribers.iter()
                    invariant
                        seen.len() == it.index(),
                        it.seq().unref().to_set() == subscribers@,
                        forall|j: int| 0 <= j < seen.len() ==> #[trigger] seen[j] == *it.seq()[j],
                        forall|x: NodeInstanceId|
                            #[trigger] subscribers@.contains(x) ==> seen.contains(x) || exists|j: int|
                                it.index() <= j < it.seq().len() && *it.seq()[j] == x,
                        forall|x: NodeInstanceId| #[trigger] seen.contains(x) ==> subscribers@.contains(x),
                        forall|x: NodeInstanceId, y: NodeInstanceId|
                            related(self.subscriber_to_entities_map@, x, y) <==> related(s2e0, x, y) && !(y == e
                                && seen.contains(x)),
                        self.subscriber_to_entities_map@.dom() == s2e0.dom(),
                        self.entity_to_subscribers_map@ == e2s0.remove(e),
                        self.event_queue == old(self).event_queue,
                        self.last_value_cache == old(self).last_value_cache,
                {
                    let ghost old_seen = seen;
                    proof {
                        assert(it.seq().unref()[it.index()] == *s);
                        assert(it.seq().unref().to_set().contains(*s));
                        seen = seen.push(*s);
                        assert forall|x: NodeInstanceId| #[trigger] seen.contains(x) <==> old_seen.contains(x) || x == *s by {
                            if seen.contains(x) && x != *s {
                                let w = choose|w: int| 0 <= w < seen.len() && seen[w] == x;
                                assert(old_seen[w] == x);
                            }
                            if old_seen.contains(x) {
                                let w = choose|w: int| 0 <= w < old_seen.len() && old_seen[w] == x;
                                assert(seen[w] == x);
                            }
                            if x == *s {
                                assert(seen[seen.len() - 1] == x);
                            }
                        }
                        assert forall|x: NodeInstanceId|
                            #[trigger] subscribers@.contains(x) implies seen.contains(x) || exists|j: int|
                                it.index() + 1 <= j < it.seq().len() && *it.seq()[j] == x by {
                            if !old_seen.contains(x) {
                                let j = choose|j: int| it.index() <= j < it.seq().len() && *it.seq()[j] == x;
                                if j == it.index() {
                                    assert(x == *s);
                                }
                            }
                        }
                    }
                    unrelate_if_present(&mut self.subscriber_to_entities_map, *s, e);
                }
                proof {
                    assert forall|x: NodeInstanceId| #[trigger] subscribers@.contains(x) <==> seen.contains(x) by {}
                }
            },
            None => {},
        }
        proof {
            assert forall|x: NodeInstanceId, y: NodeInstanceId|
                related(self.entity_to_subscribers_map@, x, y) <==> related(e2s0, x, y) && x != e by {
                if x != e && e2s0.contains_key(x) {
                    assert(self.entity_to_subscribers_map@[x] == e2s0[x]);
                }
            }
            assert(self.entity_to_subscribers_map@.dom() =~= e2s0.dom().remove(e));
            if mirrored(e2s0, s2e0) {
                assert forall|x: NodeInstanceId, y: NodeInstanceId|
                    #[trigger] related(self.entity_to_subscribers_map@, x, y) <==> #[trigger] related(
                        self.subscriber_to_entities_map@,
                        y,
                        x,
                    ) by {
                    assert(related(e2s0, x, y) <==> related(s2e0, y, x));
                    if x == e {
                        assert(related(e2s0, e, y) <==> related(s2e0, y, e));
                    }
                }
            }
        }
    }
}

impl<V: Clone> EntityCommunicationSystem<V> {
    /// The entity publishes a value under an event name: a copy becomes the
    /// last value it published under that name, and the event joins the
    /// queue.
    pub fn publish(&mut self, entity: Entity, event: String, data: V)
        ensures
            final(self).event_queue@ == old(self).event_queue@.push((entity, event, data)),
            last_value(final(self).last_value_cache@, entity.0, event@) is Some,
            cloned(data, last_value(final(self).last_value_cache@, entity.0, event@)->Some_0),
            forall|e: NodeInstanceId, name: Seq<char>|
                (e != entity.0 || name != event@) ==> #[trigger] last_value(final(self).last_value_cache@, e, name)
                    == last_value(old(self).last_value_cache@, e, name),
            final(self).entity_to_subscribers_map == old(self).entity_to_subscribers_map,
            final(self).subscriber_to_entities_map == old(self).subscriber_to_entities_map,
    {
        let ghost cache0 = self.last_value_cache@;
        let mut cache = match self.last_value_cache.remove(&entity.0) {
            Some(c) => c,
            None => Vec::new(),
        };
        let ghost list0 = cache@;
        let key = event.clone();
        let value = data.clone();
        match find_last_named(&cache, &key) {
            Some(i) => {
                cache.set(i, (key, value));
                proof {
                    assert forall|name: Seq<char>| #[trigger] named_value(cache@, name) == if name == event@ {
                        Some(value)
                    } else {
                        named_value(list0, name)
                    } by {
                        lemma_named_value_update(list0, i as int, key, value, name);
                    }
                }
            },
            None => {
                cache.push((key, value));
                proof {
                    assert(cache@.drop_last() =~= list0);
                    assert forall|name: Seq<char>| #[trigger] named_value(cache@, name) == if name == event@ {
                        Some(value)
                    } else {
                        named_value(list0, name)
                    } by {
                        assert(cache@.last() == (key, value));
                    }
                }
            },
        }
        self.last_value_cache.insert(entity.0, cache);
        self.event_queue.push((entity, event, data));
        proof {
            assert forall|e: NodeInstanceId, name: Seq<char>|
                (e != entity.0 || name != event@) implies #[trigger] last_value(self.last_value_cache@, e, name)
                    == last_value(cache0, e, name) by {
                if e == entity.0 {
                    assert(named_value(self.last_value_cache@[e]@, name) == named_value(list0, name));
                    if !cache0.contains_key(e) {
                        assert(list0 == Seq::<(String, V)>::empty());
                    }
                }
            }
        }
    }

    /// A copy of the last value the entity published under the event name,
    /// or `None` when it published none.
    pub fn get_last_cached_value(&self, entity: Entity, event: &str) -> (value: Option<V>)
        ensures
            match last_value(self.last_value_cache@, entity.0, event@) {
                Some(v) => value is Some && cloned(v, value->Some_0),
                None => value is None,
            },
    {
        match self.last_value_cache.get(&entity.0) {
            Some(cache) => {
                let name = event.to_owned();
                match find_last_named(cache, &name) {
                    Some(i) => {
                        proof {
                            lemma_named_value_last(cache@, event@, i as int);
                        }
                        Some(cache[i].1.clone())
                    },
                    None => {
                        proof {
                            lemma_named_value_none(cache@, event@);
                        }
                        None
                    },
                }
            },
            None => None,
        }
    }
}

/// Unsubscribing undoes subscribing: a pair that was not subscribed,
/// subscribed and then unsubscribed, leaves the subscriptions as they were.
pub proof fn lemma_subscribe_then_unsubscribe(pairs: Set<(NodeInstanceId, NodeInstanceId)>, pair: (NodeInstanceId, NodeInstanceId))
    requires
        !pairs.contains(pair),
    ensures
        pairs.insert(pair).remove(pair) == pairs,
{
    assert(pairs.insert(pair).remove(pair) =~= pairs);
}

} // verus!
