use std::collections::HashMap;

use vstd::hash_set::StringHashSet;
use vstd::prelude::*;

use crate::guest::ActorId;

verus! {

pub type EntityId = String;

/// For each actor, the entities hidden from it.
pub type HideEntityMap = HashMap<ActorId, StringHashSet>;

/// The hidden entities by actor, as sets of entity ids.
pub open spec fn hidden_view(m: Map<ActorId, StringHashSet>) -> Map<ActorId, Set<Seq<char>>> {
    Map::new(|a: ActorId| m.contains_key(a), |a: ActorId| m[a]@)
}

/// The entities hidden from `actor`; none when it has no entry.
pub open spec fn hidden_for(m: Map<ActorId, Set<Seq<char>>>, actor: ActorId) -> Set<Seq<char>> {
    if m.contains_key(actor) {
        m[actor]
    } else {
        Set::empty()
    }
}

/// Hides and shows entities per actor.
pub trait EntityVisibility {
    fn hide_entity(&mut self, guest_id: &ActorId, entity_id: &EntityId);

    fn show_entity(&mut self, guest_id: &ActorId, entity_id: &EntityId);

    fn entity_hidden(&mut self, guest_id: &ActorId, entity_id: &EntityId) -> bool;
}

impl EntityVisibility for HideEntityMap {
    /// Hides the entity from the actor.
    fn hide_entity(&mut self, guest_id: &ActorId, entity_id: &EntityId)
        ensures
            hidden_view(final(self)@) == hidden_view(old(self)@).insert(
                *guest_id,
                hidden_for(hidden_view(old(self)@), *guest_id).insert(entity_id@),
            ),
    {
        let ghost before = self@;
        let set = self.entry(*guest_id).or_insert(StringHashSet::new());
        set.insert(entity_id.clone());
        proof {
            assert(hidden_view(self@) =~= hidden_view(before).insert(
                *guest_id,
                hidden_for(hidden_view(before), *guest_id).insert(entity_id@),
            ));
        }
    }

    /// Shows the entity to the actor again.
    fn show_entity(&mut self, guest_id: &ActorId, entity_id: &EntityId)
        ensures
            hidden_view(final(self)@) == hidden_view(old(self)@).insert(
                *guest_id,
                hidden_for(hidden_view(old(self)@), *guest_id).remove(entity_id@),
            ),
    {
        let ghost before = self@;
        let set = self.entry(*guest_id).or_insert(StringHashSet::new());
        set.remove(entity_id.as_str());
        proof {
            assert(hidden_view(self@) =~= hidden_view(before).insert(
                *guest_id,
                hidden_for(hidden_view(before), *guest_id).remove(entity_id@),
            ));
        }
    }

    /// Whether the entity is hidden from the actor; the actor gets an
    /// entry, empty if it had none.
    fn entity_hidden(&mut self, guest_id: &ActorId, entity_id: &EntityId) -> (hidden: bool)
        ensures
            hidden == hidden_for(hidden_view(old(self)@), *guest_id).contains(entity_id@),
            hidden_view(final(self)@) == hidden_view(old(self)@).insert(
                *guest_id,
                hidden_for(hidden_view(old(self)@), *guest_id),
            ),
    {
        let ghost before = self@;
        let set = self.entry(*guest_id).or_insert(StringHashSet::new());
        let hidden = set.contains(entity_id.as_str());
        proof {
            assert(hidden_view(self@) =~= hidden_view(before).insert(
                *guest_id,
                hidden_for(hidden_view(before), *guest_id),
            ));
        }
        hidden
    }
}

/// Hiding an entity from an actor makes it hidden from that actor, and
/// showing it again makes it visible, whatever was hidden before.
pub proof fn lemma_hide_then_show(m: Map<ActorId, Set<Seq<char>>>, actor: ActorId, entity: Seq<char>)
    ensures
        hidden_for(m.insert(actor, hidden_for(m, actor).insert(entity)), actor).contains(entity),
        !hidden_for(m.insert(actor, hidden_for(m, actor).remove(entity)), actor).contains(entity),
{
}

} // verus!
