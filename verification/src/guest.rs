use vstd::prelude::*;

use crate::blueprint::{ModuleExitSlot, ModuleName};

verus! {

pub type Snowflake = i64;

pub type ActorId = Snowflake;

pub type GuestId = Snowflake;

pub type SessionId = String;

pub type ProviderUserId = String;

pub type GameInstanceId = String;

#[derive(PartialEq, Eq, Structural, Clone, Copy, Debug)]
pub enum LoginProvider {
    Twitch,
    Google,
}

pub struct OAuth {
    pub access_token: String,
}

/// Who logged in, through which provider.
pub struct LoginData {
    pub provider_user_id: ProviderUserId,
    pub display_name: String,
    pub views: Option<i32>,
    pub provider: LoginProvider,
}

/// A visitor of the world, and where it currently is.
pub struct Guest {
    pub id: GuestId,
    pub session_id: SessionId,
    pub current_module: Option<ModuleName>,
    pub current_instance_id: Option<GameInstanceId>,
    pub pending_module_exit: Option<ModuleExitSlot>,
    pub login_data: Option<LoginData>,
    pub ws_connection_id: Option<Snowflake>,
}

/// An editor of the world.
pub struct Admin {
    pub id: Snowflake,
    pub session_id: SessionId,
    pub login_data: Option<LoginData>,
    pub is_logged_in: bool,
    pub ws_connection_id: Option<Snowflake>,
}

/// What guests and admins have in common: an id, a session, a websocket
/// connection and login data.
pub trait Actors {
    fn get_ws_connection_id(&self) -> Option<Snowflake>;

    fn get_session_id(&self) -> &String;

    fn get_id(&self) -> Snowflake;

    fn set_login_data(&mut self, login_data: LoginData);

    fn set_is_logged_in(&mut self, is_logged_in: bool);

    fn set_ws_connection_id(&mut self, ws_connection_id: Snowflake);

    fn set_session_id(&mut self, session_id: SessionId);
}

impl Actors for Guest {
    fn get_ws_connection_id(&self) -> (id: Option<Snowflake>)
        ensures
            id == self.ws_connection_id,
    {
        self.ws_connection_id
    }

    fn get_session_id(&self) -> (session: &String)
        ensures
            *session == self.session_id,
    {
        &self.session_id
    }

    fn get_id(&self) -> (id: Snowflake)
        ensures
            id == self.id,
    {
        self.id
    }

    fn set_login_data(&mut self, login_data: LoginData)
        ensures
            *final(self) == (Guest { login_data: Some(login_data), ..*old(self) }),
    {
        self.login_data = Some(login_data);
    }

    /// A guest has no logged-in flag: nothing changes.
    fn set_is_logged_in(&mut self, is_logged_in: bool)
        ensures
            *final(self) == *old(self),
    {
    }

    fn set_ws_connection_id(&mut self, ws_connection_id: Snowflake)
        ensures
            *final(self) == (Guest { ws_connection_id: Some(ws_connection_id), ..*old(self) }),
    {
        self.ws_connection_id = Some(ws_connection_id);
    }

    fn set_session_id(&mut self, session_id: SessionId)
        ensures
            *final(self) == (Guest { session_id, ..*old(self) }),
    {
        self.session_id = session_id;
    }
}

impl Actors for Admin {
    fn get_ws_connection_id(&self) -> (id: Option<Snowflake>)
        ensures
            id == self.ws_connection_id,
    {
        self.ws_connection_id
    }

    fn get_session_id(&self) -> (session: &String)
        ensures
            *session == self.session_id,
    {
        &self.session_id
    }

    fn get_id(&self) -> (id: Snowflake)
        ensures
            id == self.id,
    {
        self.id
    }

    fn set_login_data(&mut self, login_data: LoginData)
        ensures
            *final(self) == (Admin { login_data: Some(login_data), ..*old(self) }),
    {
        self.login_data = Some(login_data);
    }

    fn set_is_logged_in(&mut self, is_logged_in: bool)
        ensures
            *final(self) == (Admin { is_logged_in, ..*old(self) }),
    {
        self.is_logged_in = is_logged_in;
    }

    fn set_ws_connection_id(&mut self, ws_connection_id: Snowflake)
        ensures
            *final(self) == (Admin { ws_connection_id: Some(ws_connection_id), ..*old(self) }),
    {
        self.ws_connection_id = Some(ws_connection_id);
    }

    fn set_session_id(&mut self, session_id: SessionId)
        ensures
            *final(self) == (Admin { session_id, ..*old(self) }),
    {
        self.session_id = session_id;
    }
}

} // verus!
