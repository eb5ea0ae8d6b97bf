use std::collections::HashMap;
use std::collections::HashSet;

use snowflake::SnowflakeIdBucket;
use vstd::prelude::*;

use crate::blueprint::{Module, ModuleEnterSlot, ModuleId};
use crate::guest::{ActorId, Admin, GameInstanceId, Guest};
use crate::module_events::{
    AdminEnterSuccessState, AdminLeftSuccessState, DestroyWorldError, EnterFailedState, EnterSuccessState, GuestInput,
    LeaveFailedState, LeaveSuccessState, ModuleToSystemEvent, SystemToModuleEvent,
};

verus! {

pub type WorldId = String;

/// The id generator of `rs-snowflake`, used as it is.
#[verifier::external_type_specification]
#[verifier::external_body]
pub struct ExSnowflakeIdBucket(SnowflakeIdBucket);

/// `SnowflakeIdBucket::new` from `rs-snowflake`: a generator for the given
/// machine and node. Nothing is promised of the generator; the crate reads
/// the clock here.
pub assume_specification[ SnowflakeIdBucket::new ](machine_id: i32, node_id: i32) -> SnowflakeIdBucket;

/// A snowflake generator of `rs-snowflake` together with the ids it has
/// handed out so far.
pub struct InstanceIdSource {
    bucket: SnowflakeIdBucket,
    issued: Ghost<Set<i64>>,
}

impl InstanceIdSource {
    /// The ids the generator has handed out.
    pub closed spec fn issued(&self) -> Set<i64> {
        self.issued@
    }

    /// A generator for machine 1, node 6, that has handed out nothing.
    pub fn new() -> (source: InstanceIdSource)
        ensures
            source.issued() == Set::<i64>::empty(),
    {
        InstanceIdSource { bucket: SnowflakeIdBucket::new(1, 6), issued: Ghost(Set::empty()) }
    }
}

/// Calls `SnowflakeIdBucket::get_id` from `rs-snowflake`: the next id of the
/// generator. Its value depends on the clock; what the source shows is that
/// one generator never hands out the same id twice (ids are made of the
/// time and a counter, and the time steps up when the counter wraps). So
/// the id is not among those the generator handed out before, and it is
/// recorded as handed out.
#[verifier::external_body]
fn next_snowflake(source: &mut InstanceIdSource) -> (id: i64)
    ensures
        !old(source).issued().contains(id),
        final(source).issued() == old(source).issued().insert(id),
{
    source.bucket.get_id()
}

/// The decimal digit for `d`, with `0 <= d < 10`.
pub open spec fn decimal_digit(d: int) -> char {
    (d + 48) as char
}

/// The decimal digits of a natural number, most significant first.
pub open spec fn decimal_digits(n: nat) -> Seq<char>
    decreases n,
{
    if n < 10 {
        seq![decimal_digit(n as int)]
    } else {
        decimal_digits(n / 10).push(decimal_digit((n % 10) as int))
    }
}

/// The decimal text of an integer, with a leading minus when negative.
pub open spec fn decimal_text(v: int) -> Seq<char> {
    if v < 0 {
        seq!['-'] + decimal_digits((-v) as nat)
    } else {
        decimal_digits(v as nat)
    }
}

/// `String::push` from std: appends the character to the text.
#[verifier::external_body]
pub(crate) fn push_char(text: &mut String, c: char)
    ensures
        final(text)@ == old(text)@.push(c),
{
    text.push(c)
}

/// The decimal digit for `d`.
fn digit_char(d: u64) -> (c: char)
    requires
        d < 10,
    ensures
        c == decimal_digit(d as int),
{
    let b: u8 = 48u8 + (d as u8);
    b as char
}

/// The decimal text of the number, with a leading minus when negative, as
/// `i64::to_string` writes it.
pub(crate) fn number_text(v: i64) -> (text: String)
    ensures
        text@ == decimal_text(v as int),
{
    let magnitude: u64 = if v < 0 {
        (-(v as i128)) as u64
    } else {
        v as u64
    };
    let ghost n0 = magnitude as nat;
    let mut m: u64 = magnitude;
    let mut low: Vec<char> = Vec::new();
    let ghost mut rest: Seq<char> = Seq::empty();
    while m >= 10
        invariant
            decimal_digits(n0) == decimal_digits(m as nat) + rest,
            rest == low@.reverse(),
        decreases m,
    {
        let d = m % 10;
        let c = digit_char(d);
        proof {
            assert(decimal_digits(m as nat) == decimal_digits((m / 10) as nat).push(decimal_digit((m % 10) as int)));
            assert(decimal_digits(m as nat) + rest =~= decimal_digits((m / 10) as nat) + (seq![c] + rest));
            rest = seq![c] + rest;
        }
        low.push(c);
        proof {
            assert(rest =~= low@.reverse());
        }
        m = m / 10;
    }
    let mut text = String::new();
    if v < 0 {
        push_char(&mut text, '-');
    }
    let ghost sign: Seq<char> = if v < 0 { seq!['-'] } else { Seq::empty() };
    push_char(&mut text, digit_char(m));
    proof {
        assert(decimal_digits(m as nat) == seq![decimal_digit(m as int)]);
        assert(text@ =~= sign + decimal_digits(m as nat));
    }
    let mut i: usize = low.len();
    while i > 0
        invariant
            i <= low@.len(),
            text@ == sign + decimal_digits(m as nat) + low@.subrange(i as int, low@.len() as int).reverse(),
        decreases i,
    {
        i = i - 1;
        push_char(&mut text, low[i]);
        proof {
            assert(low@.subrange(i as int, low@.len() as int).reverse() =~= low@.subrange(
                i + 1,
                low@.len() as int,
            ).reverse().push(low@[i as int]));
        }
    }
    proof {
        assert(low@.subrange(0, low@.len() as int) =~= low@);
        assert(text@ =~= sign + decimal_digits(n0));
    }
    text
}

/// Whether a guest in an instance has its resources loaded and is connected.
pub struct GuestCommunication {
    pub resources_loaded: bool,
    pub connected: bool,
}

/// A guest inside a game instance.
pub struct ModuleGuest {
    pub id: ActorId,
    pub guest_input: GuestInput,
    pub guest_com: GuestCommunication,
}

/// An admin inside a game instance.
pub struct ModuleAdmin {
    pub id: ActorId,
    pub connected: bool,
    pub resources_loaded: bool,
}

/// A world of an instance and the actors inside it.
pub struct WorldMembers {
    pub world_id: WorldId,
    pub guests: HashSet<ActorId>,
    pub admins: HashSet<ActorId>,
}

/// A running copy of a module, as far as membership goes: who is in it,
/// which worlds it has and who is in each, and whether it still takes
/// guests.
pub struct GameInstance {
    pub id: GameInstanceId,
    pub guests: HashMap<ActorId, ModuleGuest>,
    pub admins: HashMap<ActorId, ModuleAdmin>,
    pub worlds: Vec<WorldMembers>,
    pub closed: bool,
}

/// No world id occurs twice.
pub open spec fn unique_worlds(ws: Seq<WorldMembers>) -> bool {
    forall|i: int, j: int| 0 <= i < j < ws.len() ==> (#[trigger] ws[i]).world_id@ != (#[trigger] ws[j]).world_id@
}

/// Some world has this id.
pub open spec fn has_world(ws: Seq<WorldMembers>, id: Seq<char>) -> bool {
    exists|k: int| 0 <= k < ws.len() && (#[trigger] ws[k]).world_id@ == id
}

/// `after` is `before` with the admin put into, or taken out of, the world
/// of that id, where there is one.
pub open spec fn worlds_with_admin(
    before: Seq<WorldMembers>,
    after: Seq<WorldMembers>,
    world: Seq<char>,
    admin_id: ActorId,
    present: bool,
) -> bool {
    &&& after.len() == before.len()
    &&& forall|k: int|
        0 <= k < before.len() ==> {
            &&& (#[trigger] after[k]).world_id == before[k].world_id
            &&& after[k].guests == before[k].guests
            &&& after[k].admins@ == if before[k].world_id@ == world {
                if present {
                    before[k].admins@.insert(admin_id)
                } else {
                    before[k].admins@.remove(admin_id)
                }
            } else {
                before[k].admins@
            }
        }
}

/// An instance with the given id, nobody in it, no worlds, open.
pub open spec fn fresh_instance(id: GameInstanceId, inst: GameInstance) -> bool {
    &&& inst.id == id
    &&& inst.guests@ == Map::<ActorId, ModuleGuest>::empty()
    &&& inst.admins@ == Map::<ActorId, ModuleAdmin>::empty()
    &&& inst.worlds@.len() == 0
    &&& !inst.closed
}

impl GameInstance {
    pub fn new(id: GameInstanceId) -> (inst: GameInstance)
        ensures
            fresh_instance(id, inst),
    {
        GameInstance { id, guests: HashMap::new(), admins: HashMap::new(), worlds: Vec::new(), closed: false }
    }

    /// The place of the world with that id.
    pub fn find_world(&self, world_id: &WorldId) -> (found: Option<usize>)
        ensures
            match found {
                Some(k) => k < self.worlds@.len() && self.worlds@[k as int].world_id@ == world_id@,
                None => !has_world(self.worlds@, world_id@),
            },
    {
        let mut k: usize = 0;
        while k < self.worlds.len()
            invariant
                k <= self.worlds@.len(),
                forall|j: int| 0 <= j < k ==> (#[trigger] self.worlds@[j]).world_id@ != world_id@,
            decreases self.worlds@.len() - k,
        {
            if self.worlds[k].world_id == *world_id {
                return Some(k);
            }
            k = k + 1;
        }
        None
    }

    /// Puts the admin into or out of the world of that id, if there is one.
    fn set_world_admin(&mut self, admin_id: ActorId, world_id: &WorldId, present: bool)
        requires
            unique_worlds(old(self).worlds@),
        ensures
            final(self).id == old(self).id,
            final(self).guests == old(self).guests,
            final(self).admins == old(self).admins,
            final(self).closed == old(self).closed,
            unique_worlds(final(self).worlds@),
            worlds_with_admin(old(self).worlds@, final(self).worlds@, world_id@, admin_id, present),
    {
        match self.find_world(world_id) {
            Some(k) => {
                if present {
                    self.worlds[k].admins.insert(admin_id);
                } else {
                    self.worlds[k].admins.remove(&admin_id);
                }
                proof {
                    assert forall|j: int| 0 <= j < old(self).worlds@.len() && j != k implies
                        old(self).worlds@[j].world_id@ != world_id@ by {
                        assert(old(self).worlds@[j].world_id@ != old(self).worlds@[k as int].world_id@);
                    }
                }
            },
            None => {},
        }
    }

    /// Lets an admin in: a member of the instance, not yet connected and
    /// without resources if it was not one, and inside the world of that id
    /// if the instance has it.
    pub fn let_admin_enter(&mut self, admin_id: ActorId, world_id: &WorldId)
        requires
            unique_worlds(old(self).worlds@),
        ensures
            unique_worlds(final(self).worlds@),
            admin_joined(*old(self), *final(self), admin_id, world_id@),
    {
        self.set_world_admin(admin_id, world_id, true);
        if !self.admins.contains_key(&admin_id) {
            self.admins.insert(admin_id, ModuleAdmin { id: admin_id, connected: false, resources_loaded: false });
        }
    }

    /// Lets an admin out of the world of that id and out of the instance.
    pub fn let_admin_leave(&mut self, admin_id: ActorId, world_id: &WorldId)
        requires
            unique_worlds(old(self).worlds@),
        ensures
            unique_worlds(final(self).worlds@),
            admin_gone(*old(self), *final(self), admin_id, world_id@),
    {
        self.set_world_admin(admin_id, world_id, false);
        self.admins.remove(&admin_id);
    }
}

/// The instances of one module and who is in which.
pub struct GameInstanceManager {
    pub game_instances: Vec<GameInstance>,
    pub connected_actor_ids: HashSet<ActorId>,
    pub guest_to_game_instance_map: HashMap<ActorId, GameInstanceId>,
    pub active_admins: HashMap<ActorId, Vec<GameInstanceId>>,
    pub module_blueprint: Module,
    pub outbox: Vec<ModuleToSystemEvent>,
    pub instance_id_gen: InstanceIdSource,
}

/// Some instance has this id.
pub open spec fn has_instance(s: Seq<GameInstance>, id: Seq<char>) -> bool {
    exists|i: int| 0 <= i < s.len() && (#[trigger] s[i]).id@ == id
}

/// The instance still takes guests.
pub open spec fn open_for_guests(inst: GameInstance, max_guests: usize) -> bool {
    !inst.closed && inst.guests@.len() < max_guests
}

/// `i` is the first instance that takes guests.
pub open spec fn first_open(s: Seq<GameInstance>, max_guests: usize, i: int) -> bool {
    &&& 0 <= i < s.len()
    &&& open_for_guests(s[i], max_guests)
    &&& forall|j: int| 0 <= j < i ==> !open_for_guests(#[trigger] s[j], max_guests)
}

/// No instance takes guests.
pub open spec fn none_open(s: Seq<GameInstance>, max_guests: usize) -> bool {
    forall|j: int| 0 <= j < s.len() ==> !open_for_guests(#[trigger] s[j], max_guests)
}

/// The guest record of a guest that just entered.
pub open spec fn entering_guest(guest_id: ActorId, g: ModuleGuest) -> bool {
    g.id == guest_id && g.guest_com.connected && !g.guest_com.resources_loaded
}

/// `after` is `before` with the guest let in, closed when the module closes
/// full instances and this one is now full.
pub open spec fn admitted(before: GameInstance, after: GameInstance, guest_id: ActorId, blueprint: Module) -> bool {
    &&& after.id == before.id
    &&& after.admins@ == before.admins@
    &&& after.worlds == before.worlds
    &&& after.guests@.dom() == before.guests@.dom().insert(guest_id)
    &&& entering_guest(guest_id, after.guests@[guest_id])
    &&& forall|a: ActorId| a != guest_id && #[trigger] before.guests@.contains_key(a) ==> after.guests@[a]
        == before.guests@[a]
    &&& after.closed == (before.closed || (blueprint.close_after_full && after.guests@.len()
        >= blueprint.max_guests))
}

/// What leaving gives a guest: the instance it was mapped to, if that
/// instance still exists.
pub open spec fn leave_outcome(
    map: Map<ActorId, GameInstanceId>,
    instances: Seq<GameInstance>,
    guest_id: ActorId,
) -> Result<(GameInstanceId, LeaveSuccessState), LeaveFailedState> {
    if map.contains_key(guest_id) && has_instance(instances, map[guest_id]@) {
        Ok((map[guest_id], LeaveSuccessState::Left))
    } else {
        Err(LeaveFailedState::NotInModule)
    }
}

/// `after` is `before` with an instance of id `id` added when there was
/// none, and its creation announced.
pub open spec fn created(
    before: Seq<GameInstance>,
    after: Seq<GameInstance>,
    outbox_before: Seq<ModuleToSystemEvent>,
    outbox_after: Seq<ModuleToSystemEvent>,
    module_id: ModuleId,
    id: GameInstanceId,
) -> bool {
    &&& has_instance(before, id@) ==> after == before
    &&& !has_instance(before, id@) ==> after.len() == before.len() + 1 && after.drop_last() == before
        && fresh_instance(id, after.last())
    &&& outbox_after == outbox_before.push(ModuleToSystemEvent::GameInstanceCreated(module_id, id))
}

/// The text is the decimal text of one of the numbers.
pub open spec fn issued_text(issued: Set<i64>, text: Seq<char>) -> bool {
    exists|n: i64| issued.contains(n) && text == #[trigger] decimal_text(n as int)
}

/// A decimal text is never empty and its last character is the digit of
/// the number's last place.
proof fn lemma_decimal_digits_shape(n: nat)
    ensures
        decimal_digits(n).len() >= 1,
        decimal_digits(n).last() == decimal_digit((n % 10) as int),
        n >= 10 ==> decimal_digits(n).len() >= 2,
        forall|k: int| 0 <= k < decimal_digits(n).len() ==> #[trigger] decimal_digits(n)[k] != '-',
    decreases n,
{
    if n >= 10 {
        lemma_decimal_digits_shape(n / 10);
        let d = decimal_digits(n / 10).push(decimal_digit((n % 10) as int));
        assert(decimal_digits(n) == d);
        assert forall|k: int| 0 <= k < d.len() implies #[trigger] d[k] != '-' by {
            if k < d.len() - 1 {
                assert(d[k] == decimal_digits(n / 10)[k]);
            }
        }
    }
}

/// Different numbers have different decimal digits.
proof fn lemma_decimal_digits_injective(a: nat, b: nat)
    requires
        decimal_digits(a) == decimal_digits(b),
    ensures
        a == b,
    decreases a,
{
    lemma_decimal_digits_shape(a);
    lemma_decimal_digits_shape(b);
    assert(a % 10 == b % 10) by {
        assert(decimal_digit((a % 10) as int) == decimal_digit((b % 10) as int));
    }
    if a >= 10 && b >= 10 {
        let da = decimal_digits(a / 10);
        let db = decimal_digits(b / 10);
        assert(da == decimal_digits(a).drop_last());
        assert(db == decimal_digits(b).drop_last());
        lemma_decimal_digits_injective(a / 10, b / 10);
    } else if a >= 10 || b >= 10 {
        assert(false);
    }
}

/// Different numbers have different decimal texts.
pub proof fn lemma_decimal_text_injective(a: int, b: int)
    requires
        decimal_text(a) == decimal_text(b),
    ensures
        a == b,
{
    if a < 0 {
        lemma_decimal_digits_shape((-a) as nat);
    }
    if b < 0 {
        lemma_decimal_digits_shape((-b) as nat);
    }
    if a < 0 && b < 0 {
        assert(decimal_digits((-a) as nat) == decimal_text(a).drop_first());
        assert(decimal_digits((-b) as nat) == decimal_text(b).drop_first());
        lemma_decimal_digits_injective((-a) as nat, (-b) as nat);
    } else if a >= 0 && b >= 0 {
        lemma_decimal_digits_injective(a as nat, b as nat);
    } else if a < 0 {
        lemma_decimal_digits_shape(b as nat);
        assert(decimal_text(a)[0] == '-');
        assert(decimal_text(b)[0] != '-');
    } else {
        lemma_decimal_digits_shape(a as nat);
        assert(decimal_text(b)[0] == '-');
        assert(decimal_text(a)[0] != '-');
    }
}

/// One of the ids is `id`.
pub open spec fn holds_id(s: Seq<GameInstanceId>, id: Seq<char>) -> bool {
    exists|k: int| 0 <= k < s.len() && (#[trigger] s[k])@ == id
}

/// No id occurs twice.
pub open spec fn ids_distinct(s: Seq<GameInstanceId>) -> bool {
    forall|i: int, j: int| 0 <= i < j < s.len() ==> (#[trigger] s[i])@ != (#[trigger] s[j])@
}

/// The instances an admin is recorded as active in.
pub open spec fn admin_instances(m: Map<ActorId, Vec<GameInstanceId>>, a: ActorId) -> Seq<
    GameInstanceId,
> {
    if m.contains_key(a) {
        m[a]@
    } else {
        Seq::empty()
    }
}

/// `after` is `before` with only the instance at `i` replaced.
pub open spec fn only_changed_at(before: Seq<GameInstance>, after: Seq<GameInstance>, i: int) -> bool {
    &&& 0 <= i < before.len()
    &&& after.len() == before.len()
    &&& forall|j: int| 0 <= j < before.len() && j != i ==> after[j] == before[j]
}

/// `after` is `before` with the admin a member of it, newly recorded as not
/// yet connected and without resources if it was not one, and inside the
/// world of that id if the instance has it.
pub open spec fn admin_joined(before: GameInstance, after: GameInstance, admin_id: ActorId, world: Seq<char>) -> bool {
    &&& after.id == before.id
    &&& worlds_with_admin(before.worlds@, after.worlds@, world, admin_id, true)
    &&& after.guests == before.guests
    &&& after.closed == before.closed
    &&& after.admins@ == if before.admins@.contains_key(admin_id) {
        before.admins@
    } else {
        before.admins@.insert(
            admin_id,
            ModuleAdmin { id: admin_id, connected: false, resources_loaded: false },
        )
    }
}

/// `after` is `before` without the admin among its members, and without it
/// in the world of that id.
pub open spec fn admin_gone(before: GameInstance, after: GameInstance, admin_id: ActorId, world: Seq<char>) -> bool {
    &&& after.id == before.id
    &&& worlds_with_admin(before.worlds@, after.worlds@, world, admin_id, false)
    &&& after.guests == before.guests
    &&& after.closed == before.closed
    &&& after.admins@ == before.admins@.remove(admin_id)
}

/// The place of an id among the ids.
fn id_position(ids: &Vec<GameInstanceId>, id: &GameInstanceId) -> (found: Option<usize>)
    ensures
        match found {
            Some(k) => k < ids@.len() && ids@[k as int]@ == id@,
            None => !holds_id(ids@, id@),
        },
{
    let mut k: usize = 0;
    while k < ids.len()
        invariant
            k <= ids@.len(),
            forall|j: int| 0 <= j < k ==> (#[trigger] ids@[j])@ != id@,
        decreases ids@.len() - k,
    {
        if ids[k] == *id {
            return Some(k);
        }
        k = k + 1;
    }
    None
}

impl GameInstanceManager {
    /// Instance ids are unique, no admin is recorded twice in an instance
    /// and no instance has a world twice: what a caller can check.
    pub open spec fn shape_wf(&self) -> bool {
        &&& forall|i: int, j: int|
            0 <= i < j < self.game_instances@.len() ==> (#[trigger] self.game_instances@[i]).id@
                != (#[trigger] self.game_instances@[j]).id@
        &&& forall|a: ActorId| #[trigger]
            self.active_admins@.contains_key(a) ==> ids_distinct(self.active_admins@[a]@)
        &&& forall|i: int|
            0 <= i < self.game_instances@.len() ==> unique_worlds(#[trigger] self.game_instances@[i].worlds@)
    }

    /// The checkable shape holds, and every instance id is one the id
    /// source issued, written in decimal.
    pub open spec fn wf(&self) -> bool {
        &&& self.shape_wf()
        &&& forall|i: int|
            0 <= i < self.game_instances@.len() ==> issued_text(
                self.instance_id_gen.issued(),
                #[trigger] self.game_instances@[i].id@,
            )
    }

    /// A manager without instances for the given module.
    pub fn new(module_blueprint: Module) -> (manager: GameInstanceManager)
        ensures
            manager.wf(),
            manager.game_instances@.len() == 0,
            manager.connected_actor_ids@ == Set::<ActorId>::empty(),
            manager.guest_to_game_instance_map@ == Map::<ActorId, GameInstanceId>::empty(),
            manager.active_admins@ == Map::<ActorId, Vec<GameInstanceId>>::empty(),
            manager.module_blueprint == module_blueprint,
            manager.outbox@.len() == 0,
    {
        GameInstanceManager {
            game_instances: Vec::new(),
            connected_actor_ids: HashSet::new(),
            guest_to_game_instance_map: HashMap::new(),
            active_admins: HashMap::new(),
            module_blueprint,
            outbox: Vec::new(),
            instance_id_gen: InstanceIdSource::new(),
        }
    }

    /// The place of the instance with the given id.
    pub fn find_instance(&self, id: &GameInstanceId) -> (found: Option<usize>)
        ensures
            match found {
                Some(i) => i < self.game_instances@.len() && self.game_instances@[i as int].id@ == id@,
                None => !has_instance(self.game_instances@, id@),
            },
    {
        let mut i: usize = 0;
        while i < self.game_instances.len()
            invariant
                i <= self.game_instances@.len(),
                forall|j: int| 0 <= j < i ==> (#[trigger] self.game_instances@[j]).id@ != id@,
            decreases self.game_instances@.len() - i,
        {
            if self.game_instances[i].id == *id {
                return Some(i);
            }
            i = i + 1;
        }
        None
    }

    /// Starts an instance whose id is the decimal text of `number`, a number
    /// the id generator handed out, and announces it. Should the id already
    /// be taken, the instance that has it stays as it is.
    pub fn create_game_instance_with_number(&mut self, number: i64) -> (id: GameInstanceId)
        requires
            old(self).wf(),
            old(self).instance_id_gen.issued().contains(number),
        ensures
            final(self).wf(),
            id@ == decimal_text(number as int),
            has_instance(final(self).game_instances@, id@),
            created(
                old(self).game_instances@,
                final(self).game_instances@,
                old(self).outbox@,
                final(self).outbox@,
                old(self).module_blueprint.id,
                id,
            ),
            final(self).instance_id_gen == old(self).instance_id_gen,
            final(self).connected_actor_ids == old(self).connected_actor_ids,
            final(self).guest_to_game_instance_map == old(self).guest_to_game_instance_map,
            final(self).active_admins == old(self).active_admins,
            final(self).module_blueprint == old(self).module_blueprint,
    {
        let id = number_text(number);
        match self.find_instance(&id) {
            Some(i) => {},
            None => {
                self.game_instances.push(GameInstance::new(id.clone()));
                proof {
                    assert(self.game_instances@.drop_last() =~= old(self).game_instances@);
                    assert(self.game_instances@[self.game_instances@.len() - 1].id@ == id@);
                    assert(issued_text(self.instance_id_gen.issued(), id@));
                    assert forall|i: int| 0 <= i < self.game_instances@.len() implies issued_text(
                        self.instance_id_gen.issued(),
                        #[trigger] self.game_instances@[i].id@,
                    ) by {
                        if i < old(self).game_instances@.len() {
                            assert(self.game_instances@[i] == old(self).game_instances@[i]);
                        }
                    }
                }
            },
        }
        self.outbox.push(
            ModuleToSystemEvent::GameInstanceCreated(self.module_blueprint.id.clone(), id.clone()),
        );
        id
    }

    /// Starts a new instance under a fresh id from the id generator and
    /// announces it.
    pub fn create_new_game_instance(&mut self) -> (id: GameInstanceId)
        requires
            old(self).wf(),
        ensures
            final(self).wf(),
            exists|n: i64| id@ == #[trigger] decimal_text(n as int),
            !has_instance(old(self).game_instances@, id@),
            has_instance(final(self).game_instances@, id@),
            created(
                old(self).game_instances@,
                final(self).game_instances@,
                old(self).outbox@,
                final(self).outbox@,
                old(self).module_blueprint.id,
                id,
            ),
            final(self).connected_actor_ids == old(self).connected_actor_ids,
            final(self).guest_to_game_instance_map == old(self).guest_to_game_instance_map,
            final(self).active_admins == old(self).active_admins,
            final(self).module_blueprint == old(self).module_blueprint,
    {
        let number = next_snowflake(&mut self.instance_id_gen);
        proof {
            assert forall|i: int| 0 <= i < self.game_instances@.len() implies issued_text(
                self.instance_id_gen.issued(),
                #[trigger] self.game_instances@[i].id@,
            ) by {
                assert(issued_text(old(self).instance_id_gen.issued(), self.game_instances@[i].id@));
                let m = choose|m: i64| old(self).instance_id_gen.issued().contains(m) && self.game_instances@[i].id@ == #[trigger] decimal_text(m as int);
                assert(self.instance_id_gen.issued().contains(m));
            }
            if has_instance(old(self).game_instances@, decimal_text(number as int)) {
                let i = choose|i: int| 0 <= i < old(self).game_instances@.len() && (#[trigger] old(self).game_instances@[i]).id@ == decimal_text(number as int);
                assert(issued_text(old(self).instance_id_gen.issued(), old(self).game_instances@[i].id@));
                let m = choose|m: i64| old(self).instance_id_gen.issued().contains(m) && old(self).game_instances@[i].id@ == #[trigger] decimal_text(m as int);
                lemma_decimal_text_injective(m as int, number as int);
                assert(false);
            }
        }
        let id = self.create_game_instance_with_number(number);
        id
    }

    /// An instance a guest can join: the first open one that has room, or a
    /// new one when there is none.
    pub fn lazy_get_game_instance_for_guest_to_join(&mut self) -> (id: GameInstanceId)
        requires
            old(self).wf(),
        ensures
            final(self).wf(),
            has_instance(final(self).game_instances@, id@),
            final(self).connected_actor_ids == old(self).connected_actor_ids,
            final(self).guest_to_game_instance_map == old(self).guest_to_game_instance_map,
            final(self).active_admins == old(self).active_admins,
            final(self).module_blueprint == old(self).module_blueprint,
            (exists|i: int|
                first_open(old(self).game_instances@, old(self).module_blueprint.max_guests, i)
                    && id == old(self).game_instances@[i].id) ==> final(self).game_instances
                == old(self).game_instances && final(self).outbox == old(self).outbox,
            none_open(old(self).game_instances@, old(self).module_blueprint.max_guests) ==> created(
                old(self).game_instances@,
                final(self).game_instances@,
                old(self).outbox@,
                final(self).outbox@,
                old(self).module_blueprint.id,
                id,
            ),
            none_open(old(self).game_instances@, old(self).module_blueprint.max_guests) || exists|
                i: int,
            |
                first_open(old(self).game_instances@, old(self).module_blueprint.max_guests, i)
                    && id == old(self).game_instances@[i].id,
            none_open(old(self).game_instances@, old(self).module_blueprint.max_guests) ==> !has_instance(
                old(self).game_instances@,
                id@,
            ),
    {
        let max_guest_count = self.module_blueprint.max_guests;
        let mut i: usize = 0;
        while i < self.game_instances.len()
            invariant
                i <= self.game_instances@.len(),
                *self == *old(self),
                self.wf(),
                max_guest_count == self.module_blueprint.max_guests,
                forall|j: int|
                    0 <= j < i ==> !open_for_guests(#[trigger] self.game_instances@[j], max_guest_count),
            decreases self.game_instances@.len() - i,
        {
            if !self.game_instances[i].closed && self.game_instances[i].guests.len() < max_guest_count {
                proof {
                    assert(first_open(self.game_instances@, max_guest_count, i as int));
                }
                let id = self.game_instances[i].id.clone();
                proof {
                    assert(has_instance(self.game_instances@, self.game_instances@[i as int].id@));
                }
                return id;
            }
            i = i + 1;
        }
        self.create_new_game_instance()
    }

    /// Lets a guest into an instance of the module, unless it is in one
    /// already.
    pub fn try_enter(&mut self, guest: &Guest, module_enter_slot: &ModuleEnterSlot) -> (result: Result<
        (GameInstanceId, EnterSuccessState),
        EnterFailedState,
    >)
        requires
            old(self).wf(),
        ensures
            final(self).wf(),
            old(self).guest_to_game_instance_map@.contains_key(guest.id) ==> result == Err::<
                (GameInstanceId, EnterSuccessState),
                EnterFailedState,
            >(EnterFailedState::AlreadyEntered) && *final(self) == *old(self),
            !old(self).guest_to_game_instance_map@.contains_key(guest.id) ==> {
                &&& result matches Ok((id, state))
                &&& state == EnterSuccessState::Entered
                &&& final(self).guest_to_game_instance_map@ == old(
                    self,
                ).guest_to_game_instance_map@.insert(guest.id, id)
                &&& final(self).connected_actor_ids@ == old(self).connected_actor_ids@.insert(guest.id)
                &&& has_instance(final(self).game_instances@, id@)
                &&& exists|i: int, before: Seq<GameInstance>|
                    {
                        &&& 0 <= i < before.len()
                        &&& before[i].id@ == id@
                        &&& final(self).game_instances@.len() == before.len()
                        &&& admitted(
                            before[i],
                            final(self).game_instances@[i],
                            guest.id,
                            old(self).module_blueprint,
                        )
                        &&& forall|j: int|
                            0 <= j < before.len() && j != i ==> final(self).game_instances@[j]
                                == before[j]
                        &&& (first_open(
                            old(self).game_instances@,
                            old(self).module_blueprint.max_guests,
                            i,
                        ) && before == old(self).game_instances@ && final(self).outbox == old(self).outbox)
                            || (none_open(
                            old(self).game_instances@,
                            old(self).module_blueprint.max_guests,
                        ) && !has_instance(old(self).game_instances@, id@) && created(
                            old(self).game_instances@,
                            before,
                            old(self).outbox@,
                            final(self).outbox@,
                            old(self).module_blueprint.id,
                            id,
                        ))
                    }
            },
            final(self).active_admins == old(self).active_admins,
            final(self).module_blueprint == old(self).module_blueprint,
    {
        if self.guest_to_game_instance_map.contains_key(&guest.id) {
            return Err(EnterFailedState::AlreadyEntered);
        }
        let ghost start = self.game_instances@;
        let game_instance_id = self.lazy_get_game_instance_for_guest_to_join();
        let ghost before = self.game_instances@;
        match self.find_instance(&game_instance_id) {
            Some(i) => {
                let entering = ModuleGuest {
                    id: guest.id,
                    guest_input: GuestInput::new(),
                    guest_com: GuestCommunication { connected: true, resources_loaded: false },
                };
                self.game_instances[i].guests.insert(guest.id, entering);
                self.guest_to_game_instance_map.insert(guest.id, game_instance_id.clone());
                self.connected_actor_ids.insert(guest.id);
                if self.module_blueprint.close_after_full && self.game_instances[i].guests.len()
                    >= self.module_blueprint.max_guests {
                    self.game_instances[i].closed = true;
                }
                proof {
                    assert(self.game_instances@.len() == before.len());
                    assert forall|a: int, b: int|
                        0 <= a < b < self.game_instances@.len() implies (
                        #[trigger] self.game_instances@[a]).id@ != (
                        #[trigger] self.game_instances@[b]).id@ by {
                        assert(self.game_instances@[a].id == before[a].id);
                        assert(self.game_instances@[b].id == before[b].id);
                    }
                    assert(has_instance(self.game_instances@, game_instance_id@)) by {
                        assert(self.game_instances@[i as int].id@ == game_instance_id@);
                    }
                    assert(self.game_instances@[i as int].guests@.dom() =~= before[i as int].guests@.dom().insert(guest.id));
                    assert(admitted(
                        before[i as int],
                        self.game_instances@[i as int],
                        guest.id,
                        old(self).module_blueprint,
                    ));
                    if exists|k: int|
                        first_open(start, old(self).module_blueprint.max_guests, k) && game_instance_id
                            == start[k].id {
                        let k = choose|k: int|
                            first_open(start, old(self).module_blueprint.max_guests, k)
                                && game_instance_id == start[k].id;
                        assert(k == i) by {
                            if k != i {
                                assert(before[k].id@ == before[i as int].id@);
                            }
                        }
                    }
                }
                Ok((game_instance_id, EnterSuccessState::Entered))
            },
            None => {
                proof {
                    assert(false);
                }
                Err(EnterFailedState::GameInstanceNotFoundWTF)
            },
        }
    }
}


impl GameInstanceManager {
    /// Takes a guest out of the module. The guest is unmapped in any case;
    /// it leaves with success, and counts as gone, when the instance it was
    /// mapped to still exists. Its record stays in the instance, which keeps
    /// its members as they are.
    pub fn try_leave(&mut self, guest: &Guest) -> (result: Result<
        (GameInstanceId, LeaveSuccessState),
        LeaveFailedState,
    >)
        requires
            old(self).wf(),
        ensures
            final(self).wf(),
            result == leave_outcome(
                old(self).guest_to_game_instance_map@,
                old(self).game_instances@,
                guest.id,
            ),
            final(self).guest_to_game_instance_map@ == old(self).guest_to_game_instance_map@.remove(
                guest.id,
            ),
            result is Ok ==> final(self).connected_actor_ids@ == old(self).connected_actor_ids@.remove(
                guest.id,
            ),
            result is Err ==> final(self).connected_actor_ids == old(self).connected_actor_ids,
            final(self).game_instances == old(self).game_instances,
            final(self).active_admins == old(self).active_admins,
            final(self).outbox == old(self).outbox,
            final(self).module_blueprint == old(self).module_blueprint,
    {
        match self.guest_to_game_instance_map.remove(&guest.id) {
            Some(game_instance_id) => {
                match self.find_instance(&game_instance_id) {
                    Some(i) => {
                        self.connected_actor_ids.remove(&guest.id);
                        proof {
                            assert(has_instance(self.game_instances@, game_instance_id@)) by {
                                assert(self.game_instances@[i as int].id@ == game_instance_id@);
                            }
                        }
                        Ok((game_instance_id, LeaveSuccessState::Left))
                    },
                    None => Err(LeaveFailedState::NotInModule),
                }
            },
            None => Err(LeaveFailedState::NotInModule),
        }
    }
}

impl GameInstanceManager {
    /// Records an admin as active in an instance and lets it into that
    /// instance when the instance exists. Whether the instance was new to the
    /// admin decides the state given back.
    pub fn let_admin_into_instance(
        &mut self,
        admin: &Admin,
        instance_id: GameInstanceId,
        world_id: WorldId,
    ) -> (result: Result<AdminEnterSuccessState, EnterFailedState>)
        requires
            old(self).wf(),
        ensures
            final(self).wf(),
            ({
                let before_ids = admin_instances(old(self).active_admins@, admin.id);
                let held = holds_id(before_ids, instance_id@);
                &&& result == Ok::<AdminEnterSuccessState, EnterFailedState>(
                    if held {
                        AdminEnterSuccessState::EnteredWorld
                    } else {
                        AdminEnterSuccessState::EnteredInstanceAndWorld
                    },
                )
                &&& final(self).active_admins@ == old(self).active_admins@.insert(
                    admin.id,
                    final(self).active_admins@[admin.id],
                )
                &&& final(self).active_admins@[admin.id]@ == if held {
                    before_ids
                } else {
                    before_ids.push(instance_id)
                }
            }),
            has_instance(old(self).game_instances@, instance_id@) ==> exists|i: int|
                #![trigger old(self).game_instances@[i]]
                only_changed_at(old(self).game_instances@, final(self).game_instances@, i)
                    && old(self).game_instances@[i].id@ == instance_id@ && admin_joined(
                    old(self).game_instances@[i],
                    final(self).game_instances@[i],
                    admin.id,
                    world_id@,
                ),
            !has_instance(old(self).game_instances@, instance_id@) ==> final(self).game_instances
                == old(self).game_instances,
            final(self).connected_actor_ids@ == old(self).connected_actor_ids@.insert(admin.id),
            final(self).guest_to_game_instance_map == old(self).guest_to_game_instance_map,
            final(self).outbox == old(self).outbox,
            final(self).module_blueprint == old(self).module_blueprint,
    {
        let ghost before_ids = admin_instances(self.active_admins@, admin.id);
        let held: bool;
        {
            let ids = self.active_admins.entry(admin.id).or_insert(Vec::new());
            proof {
                assert(ids@ == before_ids);
            }
            match id_position(ids, &instance_id) {
                Some(k) => {
                    held = true;
                },
                None => {
                    held = false;
                    ids.push(instance_id.clone());
                },
            }
        }
        match self.find_instance(&instance_id) {
            Some(i) => {
                proof {
                    assert(unique_worlds(self.game_instances@[i as int].worlds@));
                }
                self.game_instances[i].let_admin_enter(admin.id, &world_id);
                proof {
                    assert(only_changed_at(old(self).game_instances@, self.game_instances@, i as int));
                }
            },
            None => {},
        }
        self.connected_actor_ids.insert(admin.id);
        proof {
            assert forall|a: ActorId| #[trigger]
                self.active_admins@.contains_key(a) implies ids_distinct(self.active_admins@[a]@) by {
                if a == admin.id {
                    if !held {
                        let s = self.active_admins@[a]@;
                        assert forall|x: int, y: int| 0 <= x < y < s.len() implies (#[trigger] s[x])@
                            != (#[trigger] s[y])@ by {
                            if y == s.len() - 1 {
                                assert(before_ids[x] == s[x]);
                            } else {
                                assert(before_ids[x] == s[x] && before_ids[y] == s[y]);
                            }
                        }
                    }
                }
            }
        }
        if held {
            Ok(AdminEnterSuccessState::EnteredWorld)
        } else {
            Ok(AdminEnterSuccessState::EnteredInstanceAndWorld)
        }
    }
}

impl GameInstanceManager {
    /// Takes an admin out of an instance it is recorded as active in. An admin
    /// that is not recorded there is refused, though an empty record is made
    /// for it. Otherwise the instance leaves its record, the admin leaves the
    /// instance when the instance exists, and it no longer counts as
    /// connected.
    pub fn let_admin_leave_instance(
        &mut self,
        admin: &Admin,
        instance_id: GameInstanceId,
        world_id: WorldId,
    ) -> (result: Result<AdminLeftSuccessState, LeaveFailedState>)
        requires
            old(self).wf(),
        ensures
            final(self).wf(),
            ({
                let before_ids = admin_instances(old(self).active_admins@, admin.id);
                &&& final(self).active_admins@ == old(self).active_admins@.insert(
                    admin.id,
                    final(self).active_admins@[admin.id],
                )
                &&& !holds_id(before_ids, instance_id@) ==> {
                    &&& result == Err::<AdminLeftSuccessState, LeaveFailedState>(
                        LeaveFailedState::NotInModule,
                    )
                    &&& final(self).active_admins@[admin.id]@ == before_ids
                    &&& final(self).game_instances == old(self).game_instances
                    &&& final(self).connected_actor_ids == old(self).connected_actor_ids
                }
                &&& holds_id(before_ids, instance_id@) ==> {
                    &&& result == Ok::<AdminLeftSuccessState, LeaveFailedState>(
                        if has_instance(old(self).game_instances@, instance_id@) {
                            AdminLeftSuccessState::LeftWorldAndInstance
                        } else {
                            AdminLeftSuccessState::LeftWorld
                        },
                    )
                    &&& exists|k: int|
                        0 <= k < before_ids.len() && (#[trigger] before_ids[k])@ == instance_id@
                            && final(self).active_admins@[admin.id]@ == before_ids.remove(k)
                    &&& final(self).connected_actor_ids@
                        == old(self).connected_actor_ids@.remove(admin.id)
                    &&& has_instance(old(self).game_instances@, instance_id@) ==> exists|i: int|
                        #![trigger old(self).game_instances@[i]]
                        only_changed_at(old(self).game_instances@, final(self).game_instances@, i)
                            && old(self).game_instances@[i].id@ == instance_id@ && admin_gone(
                            old(self).game_instances@[i],
                            final(self).game_instances@[i],
                            admin.id,
                            world_id@,
                        )
                    &&& !has_instance(old(self).game_instances@, instance_id@)
                        ==> final(self).game_instances == old(self).game_instances
                }
            }),
            final(self).guest_to_game_instance_map == old(self).guest_to_game_instance_map,
            final(self).outbox == old(self).outbox,
            final(self).module_blueprint == old(self).module_blueprint,
    {
        let ghost before_ids = admin_instances(self.active_admins@, admin.id);
        {
            let ids = self.active_admins.entry(admin.id).or_insert(Vec::new());
            proof {
                assert(ids@ == before_ids);
            }
            match id_position(ids, &instance_id) {
                Some(k) => {
                    ids.remove(k);
                    proof {
                        let s = ids@;
                        assert forall|x: int, y: int| 0 <= x < y < s.len() implies (#[trigger] s[x])@
                            != (#[trigger] s[y])@ by {
                            if x < k {
                                assert(s[x] == before_ids[x]);
                            } else {
                                assert(s[x] == before_ids[x + 1]);
                            }
                            if y < k {
                                assert(s[y] == before_ids[y]);
                            } else {
                                assert(s[y] == before_ids[y + 1]);
                            }
                        }
                        assert(before_ids[k as int]@ == instance_id@);
                    }
                },
                None => {
                    return Err(LeaveFailedState::NotInModule);
                },
            }
        }
        let mut success_state = AdminLeftSuccessState::LeftWorld;
        match self.find_instance(&instance_id) {
            Some(i) => {
                proof {
                    assert(unique_worlds(self.game_instances@[i as int].worlds@));
                }
                self.game_instances[i].let_admin_leave(admin.id, &world_id);
                success_state = AdminLeftSuccessState::LeftWorldAndInstance;
                proof {
                    assert(only_changed_at(old(self).game_instances@, self.game_instances@, i as int));
                    assert(has_instance(old(self).game_instances@, instance_id@)) by {
                        assert(old(self).game_instances@[i as int].id@ == instance_id@);
                    }
                }
            },
            None => {},
        }
        self.connected_actor_ids.remove(&admin.id);
        Ok(success_state)
    }
}

/// `after` is `before` with the guest and the admin of that id, where there
/// are such, marked as connected or not.
pub open spec fn connection_set(before: GameInstance, after: GameInstance, actor: ActorId, connected: bool) -> bool {
    &&& after.id == before.id
    &&& after.worlds == before.worlds
    &&& after.closed == before.closed
    &&& after.guests@ == if before.guests@.contains_key(actor) {
        before.guests@.insert(
            actor,
            ModuleGuest {
                id: before.guests@[actor].id,
                guest_input: before.guests@[actor].guest_input,
                guest_com: GuestCommunication {
                    resources_loaded: before.guests@[actor].guest_com.resources_loaded,
                    connected,
                },
            },
        )
    } else {
        before.guests@
    }
    &&& after.admins@ == if before.admins@.contains_key(actor) {
        before.admins@.insert(
            actor,
            ModuleAdmin {
                id: before.admins@[actor].id,
                connected,
                resources_loaded: before.admins@[actor].resources_loaded,
            },
        )
    } else {
        before.admins@
    }
}

/// The guest is mapped to an instance that exists and holds it as connected.
pub open spec fn guest_is_active(
    map: Map<ActorId, GameInstanceId>,
    instances: Seq<GameInstance>,
    a: ActorId,
) -> bool {
    &&& map.contains_key(a)
    &&& exists|i: int|
        #![trigger instances[i]]
        0 <= i < instances.len() && instances[i].id@ == map[a]@ && instances[i].guests@.contains_key(a)
            && instances[i].guests@[a].guest_com.connected
}

/// The events that announce the closing of the instances, in order.
pub open spec fn closed_events(module_id: ModuleId, ids: Seq<GameInstanceId>) -> Seq<ModuleToSystemEvent> {
    ids.map_values(|id: GameInstanceId| ModuleToSystemEvent::GameInstanceClosed(module_id, id))
}

impl GameInstance {
    /// Marks the guest and the admin of that id, where there are such, as
    /// connected or not.
    pub fn set_connected(&mut self, actor: ActorId, connected: bool)
        ensures
            connection_set(*old(self), *final(self), actor, connected),
    {
        match self.guests.remove(&actor) {
            Some(guest) => {
                let mut guest = guest;
                guest.guest_com.connected = connected;
                self.guests.insert(actor, guest);
            },
            None => {},
        }
        match self.admins.remove(&actor) {
            Some(admin) => {
                let mut admin = admin;
                admin.connected = connected;
                self.admins.insert(actor, admin);
            },
            None => {},
        }
        proof {
            assert(self.guests@ =~= if old(self).guests@.contains_key(actor) {
                old(self).guests@.insert(actor, self.guests@[actor])
            } else {
                old(self).guests@
            });
            assert(self.admins@ =~= if old(self).admins@.contains_key(actor) {
                old(self).admins@.insert(actor, self.admins@[actor])
            } else {
                old(self).admins@
            });
        }
    }
}

impl GameInstance {
    /// Records the buttons a guest of this instance holds now; a guest that
    /// is not in the instance changes nothing.
    pub fn set_guest_input(&mut self, guest_id: ActorId, input: GuestInput)
        ensures
            final(self).id == old(self).id,
            final(self).admins@ == old(self).admins@,
            final(self).worlds == old(self).worlds,
            final(self).closed == old(self).closed,
            final(self).guests@ == if old(self).guests@.contains_key(guest_id) {
                old(self).guests@.insert(guest_id, ModuleGuest { guest_input: input, ..old(self).guests@[guest_id] })
            } else {
                old(self).guests@
            },
    {
        match self.guests.remove(&guest_id) {
            Some(guest) => {
                let mut guest = guest;
                guest.guest_input = input;
                self.guests.insert(guest_id, guest);
                proof {
                    assert(self.guests@ =~= old(self).guests@.insert(
                        guest_id,
                        ModuleGuest { guest_input: input, ..old(self).guests@[guest_id] },
                    ));
                }
            },
            None => {
                proof {
                    assert(self.guests@ =~= old(self).guests@);
                }
            },
        }
    }
}

impl GameInstanceManager {
    /// Applies a connection event of the system to the instance it names: a
    /// disconnected actor is marked so there and no longer counts as
    /// connected, a reconnected one the other way round. An event for an
    /// instance that does not exist changes nothing.
    pub fn apply_system_event(&mut self, instance_id: &GameInstanceId, event: SystemToModuleEvent)
        requires
            old(self).wf(),
        ensures
            final(self).wf(),
            has_instance(old(self).game_instances@, instance_id@) ==> exists|i: int|
                #![trigger old(self).game_instances@[i]]
                only_changed_at(old(self).game_instances@, final(self).game_instances@, i)
                    && old(self).game_instances@[i].id@ == instance_id@ && match event {
                    SystemToModuleEvent::Disconnected(a) => connection_set(
                        old(self).game_instances@[i],
                        final(self).game_instances@[i],
                        a,
                        false,
                    ) && final(self).connected_actor_ids@ == old(self).connected_actor_ids@.remove(a),
                    SystemToModuleEvent::Reconnected(a) => connection_set(
                        old(self).game_instances@[i],
                        final(self).game_instances@[i],
                        a,
                        true,
                    ) && final(self).connected_actor_ids@ == old(self).connected_actor_ids@.insert(a),
                },
            !has_instance(old(self).game_instances@, instance_id@) ==> final(self).game_instances
                == old(self).game_instances && final(self).connected_actor_ids
                == old(self).connected_actor_ids,
            final(self).guest_to_game_instance_map == old(self).guest_to_game_instance_map,
            final(self).active_admins == old(self).active_admins,
            final(self).outbox == old(self).outbox,
            final(self).module_blueprint == old(self).module_blueprint,
    {
        match self.find_instance(instance_id) {
            Some(i) => {
                match event {
                    SystemToModuleEvent::Disconnected(a) => {
                        self.game_instances[i].set_connected(a, false);
                        self.connected_actor_ids.remove(&a);
                    },
                    SystemToModuleEvent::Reconnected(a) => {
                        self.game_instances[i].set_connected(a, true);
                        self.connected_actor_ids.insert(a);
                    },
                }
                proof {
                    assert(only_changed_at(old(self).game_instances@, self.game_instances@, i as int));
                    assert forall|x: int, y: int|
                        0 <= x < y < self.game_instances@.len() implies (
                        #[trigger] self.game_instances@[x]).id@ != (
                        #[trigger] self.game_instances@[y]).id@ by {
                        assert(self.game_instances@[x].id == old(self).game_instances@[x].id);
                        assert(self.game_instances@[y].id == old(self).game_instances@[y].id);
                    }
                }
            },
            None => {},
        }
    }
}

impl GameInstanceManager {
    /// Whether the guest is in the instance at `i` and connected there.
    fn guest_connected_in(&self, i: usize, a: ActorId) -> (connected: bool)
        requires
            i < self.game_instances@.len(),
        ensures
            connected == (self.game_instances@[i as int].guests@.contains_key(a)
                && self.game_instances@[i as int].guests@[a].guest_com.connected),
    {
        match self.game_instances[i].guests.get(&a) {
            Some(guest) => guest.guest_com.connected,
            None => false,
        }
    }

    /// The actors that are active in the module: the guests that are
    /// connected in the instance they are mapped to, then the admins that are
    /// recorded as active.
    pub fn get_active_actor_ids(&self) -> (ids: Vec<ActorId>)
        requires
            self.wf(),
        ensures
            forall|a: ActorId|
                #![trigger ids@.contains(a)]
                ids@.contains(a) <==> (guest_is_active(
                    self.guest_to_game_instance_map@,
                    self.game_instances@,
                    a,
                ) || self.active_admins@.contains_key(a)),
    {
        let mut active_actors: Vec<ActorId> = Vec::new();
        let ghost map = self.guest_to_game_instance_map@;
        let ghost all = vstd::std_specs::iter::IteratorSpec::remaining(
            &vstd::std_specs::hash::spec_hash_map_iter(&self.guest_to_game_instance_map),
        );
        for (actor_id, game_instance_id) in it: self.guest_to_game_instance_map.iter()
            invariant
                it.seq() == all,
                map == self.guest_to_game_instance_map@,
                self.wf(),
                forall|i: int|
                    0 <= i < all.len() ==> map.contains_key(*(#[trigger] all[i]).0) && map[*all[i].0]
                        == *all[i].1,
                forall|k: ActorId| #[trigger] map.contains_key(k) ==> all.contains((&k, &map[k])),
                forall|a: ActorId|
                    #![trigger active_actors@.contains(a)]
                    active_actors@.contains(a) <==> exists|j: int|
                        0 <= j < it.index() && *all[j].0 == a && guest_is_active(
                            map,
                            self.game_instances@,
                            a,
                        ),
        {
            let ghost idx = it.index();
            let ghost before = active_actors@;
            proof {
                assert((actor_id, game_instance_id) == all[idx]);
            }
            let keep = match self.find_instance(game_instance_id) {
                Some(i) => {
                    let connected = self.guest_connected_in(i, *actor_id);
                    proof {
                        if guest_is_active(map, self.game_instances@, *actor_id) {
                            let w = choose|w: int|
                                #![trigger self.game_instances@[w]]
                                0 <= w < self.game_instances@.len() && self.game_instances@[w].id@
                                    == map[*actor_id]@ && self.game_instances@[w].guests@.contains_key(
                                    *actor_id,
                                ) && self.game_instances@[w].guests@[*actor_id].guest_com.connected;
                            if w != i {
                                assert(self.game_instances@[w].id@ == self.game_instances@[i as int].id@);
                            }
                        }
                    }
                    connected
                },
                None => false,
            };
            if keep {
                active_actors.push(*actor_id);
            }
            proof {
                assert(keep == guest_is_active(map, self.game_instances@, *actor_id));
                assert forall|a: ActorId| #[trigger]
                    active_actors@.contains(a) implies exists|j: int|
                        0 <= j < it.index() + 1 && *all[j].0 == a && guest_is_active(
                            map,
                            self.game_instances@,
                            a,
                        ) by {
                    if before.contains(a) {
                    } else {
                        assert(*all[idx].0 == a);
                    }
                }
                assert forall|a: ActorId|
                    (exists|j: int|
                        0 <= j < it.index() + 1 && *all[j].0 == a && guest_is_active(
                            map,
                            self.game_instances@,
                            a,
                        )) implies #[trigger] active_actors@.contains(a) by {
                    let j = choose|j: int|
                        0 <= j < it.index() + 1 && *all[j].0 == a && guest_is_active(
                            map,
                            self.game_instances@,
                            a,
                        );
                    if j < idx {
                        assert(before.contains(a));
                        let k = choose|k: int| 0 <= k < before.len() && before[k] == a;
                        assert(active_actors@[k] == a);
                    } else {
                        assert(active_actors@[active_actors@.len() - 1] == a);
                    }
                }
            }
        }
        let ghost guests_part = active_actors@;
        proof {
            assert forall|a: ActorId| #[trigger]
                guests_part.contains(a) <==> guest_is_active(map, self.game_instances@, a) by {
                if guest_is_active(map, self.game_instances@, a) {
                    assert(all.contains((&a, &map[a])));
                    let j = choose|j: int| 0 <= j < all.len() && all[j] == (&a, &map[a]);
                    assert(*all[j].0 == a);
                }
            }
        }
        let ghost admins = self.active_admins@;
        let ghost all_admins = vstd::std_specs::iter::IteratorSpec::remaining(
            &vstd::std_specs::hash::spec_hash_map_iter(&self.active_admins),
        );
        for (admin_id, instances) in it: self.active_admins.iter()
            invariant
                it.seq() == all_admins,
                admins == self.active_admins@,
                forall|i: int|
                    0 <= i < all_admins.len() ==> admins.contains_key(*(#[trigger] all_admins[i]).0),
                forall|k: ActorId| #[trigger]
                    admins.contains_key(k) ==> all_admins.contains((&k, &admins[k])),
                forall|a: ActorId|
                    #![trigger active_actors@.contains(a)]
                    active_actors@.contains(a) <==> (guests_part.contains(a) || exists|j: int|
                        0 <= j < it.index() && *all_admins[j].0 == a),
        {
            let ghost idx = it.index();
            let ghost before = active_actors@;
            proof {
                assert((admin_id, instances) == all_admins[idx]);
            }
            active_actors.push(*admin_id);
            proof {
                assert forall|a: ActorId| #[trigger]
                    active_actors@.contains(a) implies (guests_part.contains(a) || exists|j: int|
                        0 <= j < it.index() + 1 && *all_admins[j].0 == a) by {
                    if before.contains(a) {
                    } else {
                        assert(*all_admins[idx].0 == a);
                    }
                }
                assert forall|a: ActorId|
                    (guests_part.contains(a) || exists|j: int|
                        0 <= j < it.index() + 1 && *all_admins[j].0 == a) implies #[trigger]
                    active_actors@.contains(a) by {
                    if before.contains(a) {
                        let k = choose|k: int| 0 <= k < before.len() && before[k] == a;
                        assert(active_actors@[k] == a);
                    } else {
                        assert(active_actors@[active_actors@.len() - 1] == a);
                    }
                }
            }
        }
        proof {
            assert forall|a: ActorId| #[trigger]
                admins.contains_key(a) implies active_actors@.contains(a) by {
                assert(all_admins.contains((&a, &admins[a])));
                let j = choose|j: int| 0 <= j < all_admins.len() && all_admins[j] == (&a, &admins[a]);
                assert(*all_admins[j].0 == a);
            }
        }
        active_actors
    }
}

/// The instance is not one of those named.
pub open spec fn not_named(ids: Seq<GameInstanceId>) -> spec_fn(GameInstance) -> bool {
    |g: GameInstance| !holds_id(ids, g.id@)
}

impl GameInstanceManager {
    /// Whether one of the ids is `id`.
    fn names_instance(ids: &Vec<GameInstanceId>, id: &GameInstanceId) -> (named: bool)
        ensures
            named == holds_id(ids@, id@),
    {
        match id_position(ids, id) {
            Some(k) => true,
            None => false,
        }
    }

    /// Closes the named instances: they are dropped, the others keep their
    /// order, and the closing of each named id is announced, in the order of
    /// the ids, whether or not an instance had it.
    pub fn close_game_instances(&mut self, ids: Vec<GameInstanceId>)
        requires
            old(self).shape_wf(),
        ensures
            final(self).shape_wf(),
            old(self).wf() ==> final(self).wf(),
            final(self).game_instances@ == old(self).game_instances@.filter(not_named(ids@)),
            final(self).outbox@ == old(self).outbox@ + closed_events(
                old(self).module_blueprint.id,
                ids@,
            ),
            final(self).connected_actor_ids == old(self).connected_actor_ids,
            final(self).guest_to_game_instance_map == old(self).guest_to_game_instance_map,
            final(self).active_admins == old(self).active_admins,
            final(self).module_blueprint == old(self).module_blueprint,
    {
        let ghost orig = self.game_instances@;
        let total = self.game_instances.len();
        let mut source: Vec<GameInstance> = Vec::new();
        std::mem::swap(&mut source, &mut self.game_instances);
        let mut k: usize = 0;
        while source.len() > 0
            invariant
                k <= orig.len(),
                total == orig.len(),
                source@ == orig.skip(k as int),
                source@.len() == orig.len() - k,
                self.game_instances@ == orig.take(k as int).filter(not_named(ids@)),
                self.instance_id_gen == old(self).instance_id_gen,
                self.outbox == old(self).outbox,
                self.connected_actor_ids == old(self).connected_actor_ids,
                self.guest_to_game_instance_map == old(self).guest_to_game_instance_map,
                self.active_admins == old(self).active_admins,
                self.module_blueprint == old(self).module_blueprint,
            decreases source@.len(),
        {
            let instance = source.remove(0);
            proof {
                reveal(Seq::filter);
                assert(instance == orig[k as int]);
                assert(orig.take(k as int + 1).drop_last() =~= orig.take(k as int));
                assert(source@ =~= orig.skip(k as int + 1));
            }
            if !Self::names_instance(&ids, &instance.id) {
                self.game_instances.push(instance);
            }
            k = k + 1;
        }
        proof {
            assert(orig.take(k as int) =~= orig);
            let kept = self.game_instances@;
            assert forall|x: int, y: int| 0 <= x < y < kept.len() implies (#[trigger] kept[x]).id@
                != (#[trigger] kept[y]).id@ by {
                lemma_filter_keeps_order(orig, not_named(ids@), x, y);
            }
            assert forall|x: int| 0 <= x < kept.len() implies unique_worlds(#[trigger] kept[x].worlds@) by {
                assert(kept.contains(kept[x]));
                orig.lemma_filter_contains_rev(not_named(ids@), kept[x]);
                let i = choose|i: int| 0 <= i < orig.len() && orig[i] == kept[x];
                assert(unique_worlds(old(self).game_instances@[i].worlds@));
            }
            assert forall|x: int| old(self).wf() && 0 <= x < kept.len() implies issued_text(
                self.instance_id_gen.issued(),
                #[trigger] kept[x].id@,
            ) by {
                assert(kept.contains(kept[x]));
                orig.lemma_filter_contains_rev(not_named(ids@), kept[x]);
                let i = choose|i: int| 0 <= i < orig.len() && orig[i] == kept[x];
                assert(issued_text(old(self).instance_id_gen.issued(), old(self).game_instances@[i].id@));
            }
        }
        let mut n: usize = 0;
        while n < ids.len()
            invariant
                n <= ids@.len(),
                self.outbox@ == old(self).outbox@ + closed_events(
                    old(self).module_blueprint.id,
                    ids@.take(n as int),
                ),
                self.shape_wf(),
                old(self).wf() ==> self.wf(),
                self.game_instances@ == orig.filter(not_named(ids@)),
                self.connected_actor_ids == old(self).connected_actor_ids,
                self.guest_to_game_instance_map == old(self).guest_to_game_instance_map,
                self.active_admins == old(self).active_admins,
                self.module_blueprint == old(self).module_blueprint,
            decreases ids@.len() - n,
        {
            self.outbox.push(
                ModuleToSystemEvent::GameInstanceClosed(self.module_blueprint.id.clone(), ids[n].clone()),
            );
            proof {
                assert(ids@.take(n as int + 1) =~= ids@.take(n as int).push(ids@[n as int]));
                assert(closed_events(old(self).module_blueprint.id, ids@.take(n as int + 1))
                    =~= closed_events(old(self).module_blueprint.id, ids@.take(n as int)).push(
                    ModuleToSystemEvent::GameInstanceClosed(old(self).module_blueprint.id, ids@[n as int]),
                ));
            }
            n = n + 1;
        }
        proof {
            assert(ids@.take(n as int) =~= ids@);
        }
    }
}

/// Two places of a filtered sequence come from two places of the unfiltered one,
/// in the same order.
proof fn lemma_filter_keeps_order(s: Seq<GameInstance>, p: spec_fn(GameInstance) -> bool, x: int, y: int)
    requires
        0 <= x < y < s.filter(p).len(),
    ensures
        exists|a: int, b: int|
            0 <= a < b < s.len() && s[a] == s.filter(p)[x] && s[b] == s.filter(p)[y],
    decreases s.len(),
{
    reveal(Seq::filter);
    let t = s.drop_last().filter(p);
    assert(s.filter(p)[x] == t[x]);
    if y < t.len() {
        assert(s.filter(p)[y] == t[y]);
        lemma_filter_keeps_order(s.drop_last(), p, x, y);
        let (a, b) = choose|a: int, b: int|
            0 <= a < b < s.drop_last().len() && s.drop_last()[a] == t[x] && s.drop_last()[b] == t[y];
        assert(s.drop_last()[a] == s[a] && s.drop_last()[b] == s[b]);
    } else {
        assert(s.filter(p)[y] == s.last());
        assert(t.contains(t[x]));
        s.drop_last().lemma_filter_contains_rev(p, t[x]);
        let a = choose|a: int| 0 <= a < s.drop_last().len() && s.drop_last()[a] == t[x];
        assert(s.drop_last()[a] == s[a]);
        assert(s[s.len() - 1] == s.last());
    }
}

/// Why a world could not be created in an instance: it was there already,
/// or building it failed.
pub enum CreateWorldError {
    DidAlreadyExist,
    BlueprintError(String),
    PhysicsPoisenError,
}

/// What destroying a world does to an instance: a world with guests or
/// admins in it stays, a world that is not there cannot go, any other is
/// removed.
pub open spec fn destroyed(
    before: GameInstance,
    after: GameInstance,
    world: Seq<char>,
    result: Result<WorldId, DestroyWorldError>,
) -> bool {
    &&& after.id == before.id
    &&& after.guests == before.guests
    &&& after.admins == before.admins
    &&& after.closed == before.closed
    &&& if !has_world(before.worlds@, world) {
        result == Err::<WorldId, DestroyWorldError>(DestroyWorldError::DidNotExist) && after.worlds
            == before.worlds
    } else {
        exists|k: int|
            #![trigger before.worlds@[k]]
            0 <= k < before.worlds@.len() && before.worlds@[k].world_id@ == world && if before.worlds@[k].guests@.len()
                > 0 || before.worlds@[k].admins@.len() > 0 {
                result == Err::<WorldId, DestroyWorldError>(DestroyWorldError::StillHasInhabitants)
                    && after.worlds == before.worlds
            } else {
                (result matches Ok(id) && id@ == world) && after.worlds@ == before.worlds@.remove(k)
            }
    }
}

/// What creating a world does to an instance: a world of that id already
/// there stays and is reported; otherwise a failed build is reported, and a
/// successful one adds the world, nobody in it.
pub open spec fn world_created(
    before: GameInstance,
    after: GameInstance,
    world: Seq<char>,
    loaded: Result<(), CreateWorldError>,
    result: Result<WorldId, CreateWorldError>,
) -> bool {
    &&& after.id == before.id
    &&& after.guests == before.guests
    &&& after.admins == before.admins
    &&& after.closed == before.closed
    &&& has_world(before.worlds@, world) ==> (result matches Err(CreateWorldError::DidAlreadyExist))
        && after.worlds == before.worlds
    &&& !has_world(before.worlds@, world) && loaded is Err ==> result == match loaded {
        Err(e) => Err::<WorldId, CreateWorldError>(e),
        Ok(_) => Err::<WorldId, CreateWorldError>(CreateWorldError::DidAlreadyExist),
    } && after.worlds == before.worlds
    &&& !has_world(before.worlds@, world) && loaded is Ok ==> {
        &&& (result matches Ok(id) && id@ == world)
        &&& after.worlds@.len() == before.worlds@.len() + 1
        &&& after.worlds@.drop_last() == before.worlds@
        &&& after.worlds@.last().world_id@ == world
        &&& after.worlds@.last().guests@.len() == 0
        &&& after.worlds@.last().admins@.len() == 0
    }
}

impl GameInstance {
    /// Adds a world of that id, nobody in it, unless the instance has one;
    /// `loaded` tells whether building the world worked.
    pub fn create_world(&mut self, world_id: &WorldId, loaded: Result<(), CreateWorldError>) -> (result: Result<
        WorldId,
        CreateWorldError,
    >)
        ensures
            world_created(*old(self), *final(self), world_id@, loaded, result),
            unique_worlds(old(self).worlds@) ==> unique_worlds(final(self).worlds@),
    {
        match self.find_world(world_id) {
            Some(k) => Err(CreateWorldError::DidAlreadyExist),
            None => match loaded {
                Err(e) => Err(e),
                Ok(()) => {
                    self.worlds.push(
                        WorldMembers { world_id: world_id.clone(), guests: HashSet::new(), admins: HashSet::new() },
                    );
                    proof {
                        assert(self.worlds@.drop_last() =~= old(self).worlds@);
                        if unique_worlds(old(self).worlds@) {
                            assert forall|i: int, j: int| 0 <= i < j < self.worlds@.len() implies (
                            #[trigger] self.worlds@[i]).world_id@ != (#[trigger] self.worlds@[j]).world_id@
                                by {
                                assert(self.worlds@[i] == old(self).worlds@[i]);
                                if j < self.worlds@.len() - 1 {
                                    assert(self.worlds@[j] == old(self).worlds@[j]);
                                }
                            }
                        }
                    }
                    Ok(world_id.clone())
                },
            },
        }
    }

    /// Removes the world of that id when nobody is in it.
    pub fn destroy_world(&mut self, world_id: &WorldId) -> (result: Result<WorldId, DestroyWorldError>)
        ensures
            destroyed(*old(self), *final(self), world_id@, result),
            unique_worlds(old(self).worlds@) ==> unique_worlds(final(self).worlds@),
    {
        match self.find_world(world_id) {
            Some(k) => {
                if self.worlds[k].guests.len() > 0 || self.worlds[k].admins.len() > 0 {
                    Err(DestroyWorldError::StillHasInhabitants)
                } else {
                    self.worlds.remove(k);
                    proof {
                        if unique_worlds(old(self).worlds@) {
                            assert forall|i: int, j: int| 0 <= i < j < self.worlds@.len() implies (
                            #[trigger] self.worlds@[i]).world_id@ != (#[trigger] self.worlds@[j]).world_id@
                                by {
                                let oi = if i < k { i } else { i + 1 };
                                let oj = if j < k { j } else { j + 1 };
                                assert(self.worlds@[i] == old(self).worlds@[oi]);
                                assert(self.worlds@[j] == old(self).worlds@[oj]);
                            }
                        }
                    }
                    Ok(world_id.clone())
                }
            },
            None => Err(DestroyWorldError::DidNotExist),
        }
    }
}

impl GameInstanceManager {
    /// Creates the world in every instance, `loaded` telling for each
    /// instance whether building the world there worked, and tells for each
    /// instance what came of it.
    pub fn create_world(&mut self, world_id: &WorldId, loaded: Vec<Result<(), CreateWorldError>>) -> (results: Vec<
        (GameInstanceId, Result<WorldId, CreateWorldError>),
    >)
        requires
            old(self).wf(),
            loaded@.len() == old(self).game_instances@.len(),
        ensures
            final(self).wf(),
            final(self).game_instances@.len() == old(self).game_instances@.len(),
            results@.len() == old(self).game_instances@.len(),
            forall|i: int|
                0 <= i < results@.len() ==> (#[trigger] results@[i]).0 == old(self).game_instances@[i].id
                    && world_created(
                    old(self).game_instances@[i],
                    final(self).game_instances@[i],
                    world_id@,
                    loaded@[i],
                    results@[i].1,
                ),
            final(self).connected_actor_ids == old(self).connected_actor_ids,
            final(self).guest_to_game_instance_map == old(self).guest_to_game_instance_map,
            final(self).active_admins == old(self).active_admins,
            final(self).outbox == old(self).outbox,
            final(self).module_blueprint == old(self).module_blueprint,
    {
        let ghost all_loaded = loaded@;
        let mut loaded = loaded;
        let mut results: Vec<(GameInstanceId, Result<WorldId, CreateWorldError>)> = Vec::new();
        let mut i: usize = 0;
        while i < self.game_instances.len()
            invariant
                i <= self.game_instances@.len(),
                self.game_instances@.len() == old(self).game_instances@.len(),
                loaded@ == all_loaded.skip(i as int),
                all_loaded.len() == old(self).game_instances@.len(),
                results@.len() == i,
                self.wf(),
                forall|j: int| i <= j < self.game_instances@.len() ==> self.game_instances@[j] == old(self).game_instances@[j],
                forall|j: int|
                    0 <= j < i ==> (#[trigger] results@[j]).0 == old(self).game_instances@[j].id && world_created(
                        old(self).game_instances@[j],
                        self.game_instances@[j],
                        world_id@,
                        all_loaded[j],
                        results@[j].1,
                    ),
                self.connected_actor_ids == old(self).connected_actor_ids,
                self.guest_to_game_instance_map == old(self).guest_to_game_instance_map,
                self.active_admins == old(self).active_admins,
                self.outbox == old(self).outbox,
                self.module_blueprint == old(self).module_blueprint,
            decreases self.game_instances@.len() - i,
        {
            let one = loaded.remove(0);
            proof {
                assert(one == all_loaded[i as int]);
                assert(loaded@ =~= all_loaded.skip(i + 1));
                assert(unique_worlds(self.game_instances@[i as int].worlds@));
            }
            let ghost before = self.game_instances@;
            let outcome = self.game_instances[i].create_world(world_id, one);
            let id = self.game_instances[i].id.clone();
            results.push((id, outcome));
            proof {
                assert forall|x: int, y: int|
                    0 <= x < y < self.game_instances@.len() implies (
                    #[trigger] self.game_instances@[x]).id@ != (#[trigger] self.game_instances@[y]).id@ by {
                    assert(self.game_instances@[x].id == before[x].id);
                    assert(self.game_instances@[y].id == before[y].id);
                }
                assert forall|x: int| 0 <= x < self.game_instances@.len() implies unique_worlds(
                    #[trigger] self.game_instances@[x].worlds@,
                ) by {
                    if x != i {
                        assert(self.game_instances@[x] == before[x]);
                    }
                }
            }
            i = i + 1;
        }
        results
    }

    /// Destroys the world in every instance and tells for each instance what
    /// came of it.
    pub fn destroy_world(&mut self, world_id: &WorldId) -> (results: Vec<
        (GameInstanceId, Result<WorldId, DestroyWorldError>),
    >)
        requires
            old(self).wf(),
        ensures
            final(self).wf(),
            final(self).game_instances@.len() == old(self).game_instances@.len(),
            results@.len() == old(self).game_instances@.len(),
            forall|i: int|
                0 <= i < results@.len() ==> (#[trigger] results@[i]).0 == old(self).game_instances@[i].id
                    && destroyed(
                    old(self).game_instances@[i],
                    final(self).game_instances@[i],
                    world_id@,
                    results@[i].1,
                ),
            final(self).connected_actor_ids == old(self).connected_actor_ids,
            final(self).guest_to_game_instance_map == old(self).guest_to_game_instance_map,
            final(self).active_admins == old(self).active_admins,
            final(self).outbox == old(self).outbox,
            final(self).module_blueprint == old(self).module_blueprint,
    {
        let mut results: Vec<(GameInstanceId, Result<WorldId, DestroyWorldError>)> = Vec::new();
        let mut i: usize = 0;
        while i < self.game_instances.len()
            invariant
                i <= self.game_instances@.len(),
                self.game_instances@.len() == old(self).game_instances@.len(),
                results@.len() == i,
                self.wf(),
                forall|j: int| i <= j < self.game_instances@.len() ==> self.game_instances@[j] == old(self).game_instances@[j],
                forall|j: int|
                    0 <= j < i ==> (#[trigger] results@[j]).0 == old(self).game_instances@[j].id && destroyed(
                        old(self).game_instances@[j],
                        self.game_instances@[j],
                        world_id@,
                        results@[j].1,
                    ),
                self.connected_actor_ids == old(self).connected_actor_ids,
                self.guest_to_game_instance_map == old(self).guest_to_game_instance_map,
                self.active_admins == old(self).active_admins,
                self.outbox == old(self).outbox,
                self.module_blueprint == old(self).module_blueprint,
            decreases self.game_instances@.len() - i,
        {
            proof {
                assert(unique_worlds(self.game_instances@[i as int].worlds@));
            }
            let ghost before = self.game_instances@;
            let outcome = self.game_instances[i].destroy_world(world_id);
            let id = self.game_instances[i].id.clone();
            results.push((id, outcome));
            proof {
                assert forall|x: int, y: int|
                    0 <= x < y < self.game_instances@.len() implies (
                    #[trigger] self.game_instances@[x]).id@ != (#[trigger] self.game_instances@[y]).id@ by {
                    assert(self.game_instances@[x].id == before[x].id);
                    assert(self.game_instances@[y].id == before[y].id);
                }
                assert forall|x: int| 0 <= x < self.game_instances@.len() implies unique_worlds(
                    #[trigger] self.game_instances@[x].worlds@,
                ) by {
                    if x != i {
                        assert(self.game_instances@[x] == before[x]);
                    }
                }
            }
            i = i + 1;
        }
        results
    }
}

/// A guest that has just been let into an instance leaves it again with
/// success, naming that instance, and the guest map is what it was before
/// the guest came.
pub proof fn lemma_enter_then_leave(
    map: Map<ActorId, GameInstanceId>,
    instances: Seq<GameInstance>,
    guest_id: ActorId,
    id: GameInstanceId,
)
    requires
        !map.contains_key(guest_id),
        has_instance(instances, id@),
    ensures
        leave_outcome(map.insert(guest_id, id), instances, guest_id) == Ok::<
            (GameInstanceId, LeaveSuccessState),
            LeaveFailedState,
        >((id, LeaveSuccessState::Left)),
        map.insert(guest_id, id).remove(guest_id) == map,
{
    assert(map.insert(guest_id, id).remove(guest_id) =~= map);
}

} // verus!
