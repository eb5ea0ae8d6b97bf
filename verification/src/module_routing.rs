use vstd::prelude::*;

use crate::blueprint::ModuleId;
use crate::guest::{ActorId, GameInstanceId, GuestId};
use crate::instances::GuestCommunication;
use crate::module_events::{GuestStateChange, ModuleToSystemEvent, ProcessModuleEventError, ToastAlertLevel};

verus! {

/// The batches of entity news a module hands to its guests each update, by
/// their index: shown entities, removed entities, shown effects, entity
/// updates, position updates.
pub const ENTITY_BATCHES: usize = 5;

/// The batches, among the first `n`, that a guest is sent: each non-empty
/// one, in order.
pub open spec fn batches_sent(id: GuestId, nonempty: Seq<bool>, n: int) -> Seq<(ActorId, usize)>
    decreases n,
{
    if n <= 0 {
        Seq::empty()
    } else {
        batches_sent(id, nonempty, n - 1) + if nonempty[n - 1] {
            seq![(id, (n - 1) as usize)]
        } else {
            Seq::empty()
        }
    }
}

/// The sends of one update: for each guest in order that is connected and
/// has loaded its resources, each non-empty batch in order.
pub open spec fn update_sends(guests: Seq<(GuestId, GuestCommunication)>, nonempty: Seq<bool>) -> Seq<(ActorId, usize)>
    decreases guests.len(),
{
    if guests.len() == 0 {
        Seq::empty()
    } else {
        let g = guests.last();
        update_sends(guests.drop_last(), nonempty) + if g.1.connected && g.1.resources_loaded {
            batches_sent(g.0, nonempty, ENTITY_BATCHES as int)
        } else {
            Seq::empty()
        }
    }
}

/// Which batches of entity news go to which guest: a guest that is
/// connected and has loaded its resources gets each batch that is not
/// empty (`nonempty[k]` for batch `k`); the others get nothing.
pub fn entity_update_sends(guests: &Vec<(GuestId, GuestCommunication)>, nonempty: [bool; 5]) -> (sends: Vec<
    (ActorId, usize),
>)
    ensures
        sends@ == update_sends(guests@, nonempty@),
{
    let mut sends: Vec<(ActorId, usize)> = Vec::new();
    let mut i: usize = 0;
    while i < guests.len()
        invariant
            i <= guests@.len(),
            sends@ == update_sends(guests@.take(i as int), nonempty@),
        decreases guests@.len() - i,
    {
        proof {
            assert(guests@.take(i + 1).drop_last() =~= guests@.take(i as int));
            assert(guests@.take(i + 1).last() == guests@[i as int]);
        }
        let id = guests[i].0;
        if guests[i].1.connected && guests[i].1.resources_loaded {
            let ghost start = sends@;
            let mut k: usize = 0;
            while k < ENTITY_BATCHES
                invariant
                    k <= ENTITY_BATCHES,
                    sends@ == start + batches_sent(id, nonempty@, k as int),
                decreases ENTITY_BATCHES - k,
            {
                let ghost before = sends@;
                if nonempty[k] {
                    sends.push((id, k));
                    proof {
                        assert(sends@ =~= start + batches_sent(id, nonempty@, k + 1));
                    }
                } else {
                    proof {
                        assert(sends@ =~= start + batches_sent(id, nonempty@, k + 1));
                    }
                }
                k = k + 1;
            }
        } else {
            proof {
                assert(sends@ =~= update_sends(guests@.take(i + 1), nonempty@));
            }
        }
        i = i + 1;
    }
    proof {
        assert(guests@.take(guests@.len() as int) =~= guests@);
    }
    sends
}

/// What the system hands out for an event of a module.
pub enum SystemNotice {
    /// To an admin: a game instance of the module was opened.
    InstanceOpened(ModuleId, GameInstanceId),
    /// To an admin: a game instance of the module was closed.
    InstanceClosed(ModuleId, GameInstanceId),
    /// To a guest: a message for everyone.
    GlobalMessage(String),
    /// To a guest: a toast.
    Toast(ToastAlertLevel, String),
}

/// Where an event of a module goes.
pub enum SystemEventRoute {
    /// Each actor is sent its notice.
    Send(Vec<(ActorId, SystemNotice)>),
    /// The guest's state changes.
    ChangeGuest(ActorId, GuestStateChange),
}

/// Each actor of the list, in order, with the same notice.
pub open spec fn to_each(actors: Seq<ActorId>, notice: SystemNotice) -> Seq<(ActorId, SystemNotice)> {
    Seq::new(actors.len(), |i: int| (actors[i], notice))
}

/// Pairs each actor with a copy of the notice.
fn notify_each(actors: &Vec<ActorId>, notice: SystemNotice) -> (sends: Vec<(ActorId, SystemNotice)>)
    ensures
        sends@ == to_each(actors@, notice),
{
    let mut sends: Vec<(ActorId, SystemNotice)> = Vec::new();
    let mut i: usize = 0;
    while i < actors.len()
        invariant
            i <= actors@.len(),
            sends@ == to_each(actors@.take(i as int), notice),
        decreases actors@.len() - i,
    {
        let copy = match &notice {
            SystemNotice::InstanceOpened(m, g) => SystemNotice::InstanceOpened(m.clone(), g.clone()),
            SystemNotice::InstanceClosed(m, g) => SystemNotice::InstanceClosed(m.clone(), g.clone()),
            SystemNotice::GlobalMessage(text) => SystemNotice::GlobalMessage(text.clone()),
            SystemNotice::Toast(level, text) => SystemNotice::Toast(*level, text.clone()),
        };
        sends.push((actors[i], copy));
        proof {
            assert(sends@ =~= to_each(actors@.take(i + 1), notice));
        }
        i = i + 1;
    }
    proof {
        assert(actors@.take(actors@.len() as int) =~= actors@);
    }
    sends
}

/// Whether the list holds the actor.
fn has_actor(actors: &Vec<ActorId>, id: ActorId) -> (found: bool)
    ensures
        found == actors@.contains(id),
{
    let mut i: usize = 0;
    while i < actors.len()
        invariant
            i <= actors@.len(),
            forall|j: int| 0 <= j < i ==> actors@[j] != id,
        decreases actors@.len() - i,
    {
        if actors[i] == id {
            proof {
                assert(actors@[i as int] == id);
            }
            return true;
        }
        i = i + 1;
    }
    false
}

/// Where an event of a module goes, with `guests` and `admins` the actors
/// that the system knows: instance openings and closings to every admin, a
/// global message to every guest, a toast to its guest, and a state change
/// to its guest. A toast or state change for a guest the system does not
/// know is refused.
pub fn route_system_event(guests: &Vec<ActorId>, admins: &Vec<ActorId>, event: ModuleToSystemEvent) -> (route: Result<
    SystemEventRoute,
    ProcessModuleEventError,
>)
    ensures
        match event {
            ModuleToSystemEvent::GameInstanceCreated(m, g) => route matches Ok(SystemEventRoute::Send(sends))
                && sends@ == to_each(admins@, SystemNotice::InstanceOpened(m, g)),
            ModuleToSystemEvent::GameInstanceClosed(m, g) => route matches Ok(SystemEventRoute::Send(sends))
                && sends@ == to_each(admins@, SystemNotice::InstanceClosed(m, g)),
            ModuleToSystemEvent::GlobalMessage(text) => route matches Ok(SystemEventRoute::Send(sends))
                && sends@ == to_each(guests@, SystemNotice::GlobalMessage(text)),
            ModuleToSystemEvent::ToastMessage(id, level, text) => if guests@.contains(id) {
                route matches Ok(SystemEventRoute::Send(sends)) && sends@ == seq![(id, SystemNotice::Toast(level, text))]
            } else {
                route == Err::<SystemEventRoute, ProcessModuleEventError>(ProcessModuleEventError::GuestNotFound)
            },
            ModuleToSystemEvent::GuestStateChange(id, change) => if guests@.contains(id) {
                route == Ok::<SystemEventRoute, ProcessModuleEventError>(SystemEventRoute::ChangeGuest(id, change))
            } else {
                route == Err::<SystemEventRoute, ProcessModuleEventError>(ProcessModuleEventError::GuestNotFound)
            },
        },
{
    match event {
        ModuleToSystemEvent::GameInstanceCreated(m, g) => Ok(
            SystemEventRoute::Send(notify_each(admins, SystemNotice::InstanceOpened(m, g))),
        ),
        ModuleToSystemEvent::GameInstanceClosed(m, g) => Ok(
            SystemEventRoute::Send(notify_each(admins, SystemNotice::InstanceClosed(m, g))),
        ),
        ModuleToSystemEvent::GlobalMessage(text) => Ok(
            SystemEventRoute::Send(notify_each(guests, SystemNotice::GlobalMessage(text))),
        ),
        ModuleToSystemEvent::ToastMessage(id, level, text) => {
            if has_actor(guests, id) {
                let mut sends: Vec<(ActorId, SystemNotice)> = Vec::new();
                sends.push((id, SystemNotice::Toast(level, text)));
                proof {
                    assert(sends@ =~= seq![(id, SystemNotice::Toast(level, text))]);
                }
                Ok(SystemEventRoute::Send(sends))
            } else {
                Err(ProcessModuleEventError::GuestNotFound)
            }
        },
        ModuleToSystemEvent::GuestStateChange(id, change) => {
            if has_actor(guests, id) {
                Ok(SystemEventRoute::ChangeGuest(id, change))
            } else {
                Err(ProcessModuleEventError::GuestNotFound)
            }
        },
    }
}

/// Whether an edited script is saved: only when every module that uses it
/// recompiled it (`recompiled` holds each module's outcome).
pub fn script_update_saves(recompiled: &Vec<bool>) -> (saves: bool)
    ensures
        saves == forall|i: int| 0 <= i < recompiled@.len() ==> #[trigger] recompiled@[i],
{
    let mut saves = true;
    let mut i: usize = 0;
    while i < recompiled.len()
        invariant
            i <= recompiled@.len(),
            saves == forall|j: int| 0 <= j < i ==> #[trigger] recompiled@[j],
        decreases recompiled@.len() - i,
    {
        saves = saves && recompiled[i];
        i = i + 1;
    }
    saves
}

} // verus!
