use vstd::prelude::*;

use crate::blueprint::{ModuleExitSlot, ModuleId, ModuleName};
use crate::guest::{ActorId, GameInstanceId, LoginProvider};
use crate::util::same_text;

verus! {

/// What a login provider reported for an actor.
pub struct ProviderLoggedIn {
    pub auth_code: Option<String>,
    pub access_token: Option<String>,
    pub login_provider: LoginProvider,
}

pub enum GuestToSystemEvent {
    ProviderLoggedIn(ProviderLoggedIn),
    Ping,
}

/// The buttons a guest holds down on its controller. The two analog axes,
/// which are floats, stay with the caller.
#[derive(Clone, Copy, Debug, PartialEq, Eq, Structural)]
pub struct GuestInput {
    pub jump: bool,
    pub up: bool,
    pub down: bool,
    pub left: bool,
    pub right: bool,
    pub start: bool,
    pub action_1: bool,
    pub action_2: bool,
}

/// Whether the button a script names is held. Scripts can ask for the
/// directions, start and the two actions; any other name, `jump` among
/// them, reads as not held.
pub open spec fn key_state(input: GuestInput, key: Seq<char>) -> bool {
    if key == "right"@ {
        input.right
    } else if key == "left"@ {
        input.left
    } else if key == "up"@ {
        input.up
    } else if key == "down"@ {
        input.down
    } else if key == "start"@ {
        input.start
    } else if key == "action_1"@ {
        input.action_1
    } else if key == "action_2"@ {
        input.action_2
    } else {
        false
    }
}

/// Each button name reads its own button and no other, and names that are
/// not asked for, `jump` among them, read as not held.
pub proof fn lemma_key_names_read_own_buttons(input: GuestInput)
    ensures
        key_state(input, "right"@) == input.right,
        key_state(input, "left"@) == input.left,
        key_state(input, "up"@) == input.up,
        key_state(input, "down"@) == input.down,
        key_state(input, "start"@) == input.start,
        key_state(input, "action_1"@) == input.action_1,
        key_state(input, "action_2"@) == input.action_2,
        !key_state(input, "jump"@),
{
    reveal_strlit("right");
    reveal_strlit("left");
    reveal_strlit("up");
    reveal_strlit("down");
    reveal_strlit("start");
    reveal_strlit("action_1");
    reveal_strlit("action_2");
    reveal_strlit("jump");
    assert("right"@.len() == 5 && "right"@[0] == 'r');
    assert("left"@.len() == 4 && "left"@[0] == 'l');
    assert("up"@.len() == 2);
    assert("down"@.len() == 4 && "down"@[0] == 'd');
    assert("start"@.len() == 5 && "start"@[0] == 's');
    assert("action_1"@.len() == 8 && "action_1"@[7] == '1');
    assert("action_2"@.len() == 8 && "action_2"@[7] == '2');
    assert("jump"@.len() == 4 && "jump"@[0] == 'j');
}

impl GuestInput {
    /// No button held.
    pub fn new() -> (input: GuestInput)
        ensures
            input == (GuestInput {
                jump: false,
                up: false,
                down: false,
                left: false,
                right: false,
                start: false,
                action_1: false,
                action_2: false,
            }),
    {
        GuestInput {
            jump: false,
            up: false,
            down: false,
            left: false,
            right: false,
            start: false,
            action_1: false,
            action_2: false,
        }
    }

    /// Whether the button named `key` is held, as scripts ask for it.
    pub fn is_key_down(&self, key: &str) -> (down: bool)
        ensures
            down == key_state(*self, key@),
    {
        if same_text(key, "right") {
            self.right
        } else if same_text(key, "left") {
            self.left
        } else if same_text(key, "up") {
            self.up
        } else if same_text(key, "down") {
            self.down
        } else if same_text(key, "start") {
            self.start
        } else if same_text(key, "action_1") {
            self.action_1
        } else if same_text(key, "action_2") {
            self.action_2
        } else {
            false
        }
    }
}

pub enum SystemToModuleEvent {
    Disconnected(ActorId),
    Reconnected(ActorId),
}

pub enum GuestStateChange {
    ExitModule(ModuleExitSlot),
    FoundSecret(String, ModuleName),
}

#[derive(PartialEq, Eq, Structural, Clone, Copy, Debug)]
pub enum ToastAlertLevel {
    Error,
    Success,
    Info,
}

/// What a module reports to the system.
pub enum ModuleToSystemEvent {
    GuestStateChange(ActorId, GuestStateChange),
    GameInstanceCreated(ModuleId, GameInstanceId),
    GameInstanceClosed(ModuleId, GameInstanceId),
    GlobalMessage(String),
    ToastMessage(ActorId, ToastAlertLevel, String),
}

/// An event of one guest.
pub struct GuestEvent<T> {
    pub guest_id: ActorId,
    pub event_type: T,
}

#[derive(PartialEq, Eq, Structural, Clone, Copy, Debug)]
pub enum EnterSuccessState {
    Entered,
}

#[derive(PartialEq, Eq, Structural, Clone, Copy, Debug)]
pub enum AdminEnterSuccessState {
    EnteredWorld,
    EnteredInstanceAndWorld,
}

#[derive(PartialEq, Eq, Structural, Clone, Copy, Debug)]
pub enum AdminLeftSuccessState {
    LeftWorld,
    LeftWorldAndInstance,
}

#[derive(PartialEq, Eq, Structural, Clone, Copy, Debug)]
pub enum EnterFailedState {
    PersistedStateGoneMissingGoneWild,
    AlreadyEntered,
    GameInstanceNotFoundWTF,
}

#[derive(PartialEq, Eq, Structural, Clone, Copy, Debug)]
pub enum LeaveSuccessState {
    Left,
}

#[derive(PartialEq, Eq, Structural, Clone, Copy, Debug)]
pub enum LeaveFailedState {
    PersistedStateGoneMissingGoneWild,
    NotInModule,
}

#[derive(PartialEq, Eq, Structural, Clone, Copy, Debug)]
pub enum ModuleState {
    Starting,
    Stopped,
}

#[derive(PartialEq, Eq, Structural, Clone, Copy, Debug)]
pub enum SignalToMedium {
    LoginSuccess,
    LoginFailed,
}

#[derive(PartialEq, Eq, Structural, Clone, Copy, Debug)]
pub enum MouseInputSchema {
    UpIsJumpAndNoDown,
    PurelyDirectionalNoJump,
}

/// Why a world could not be removed.
#[derive(PartialEq, Eq, Structural, Clone, Copy, Debug)]
pub enum DestroyWorldError {
    DidNotExist,
    StillHasInhabitants,
}

/// Why a module event could not be processed.
#[derive(PartialEq, Eq, Structural, Clone, Copy, Debug)]
pub enum ProcessModuleEventError {
    GuestNotFound,
    PersistenceError,
    CouldNotSerializeCommunicationEvent,
}

#[derive(PartialEq, Eq, Structural, Clone, Copy, Debug)]
pub enum HandleLoginError {
    AlreadyLoggedIn,
    PersistenceError,
    /// The actor is not known, or cannot take over the actor already
    /// logged in with its provider account.
    CouldNotFind(ActorId),
    /// The provider account may not log in.
    NotAuthorized(ActorId),
}

#[derive(PartialEq, Eq, Structural, Clone, Copy, Debug)]
pub enum ProcessGameEventError {
    CouldNotSerializePosition,
}

/// A module of the system that can be started and stopped.
pub trait SystemModule {
    fn module_name(&self) -> ModuleName;

    fn status(&self) -> &ModuleState;

    fn start(&mut self);

    fn shutdown(&mut self);
}

} // verus!
