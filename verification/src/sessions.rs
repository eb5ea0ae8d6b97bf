use std::collections::HashMap;
use std::collections::HashSet;

use vstd::prelude::*;

use crate::blueprint::ModuleName;
use crate::guest::{ActorId, Admin, GameInstanceId, Guest, LoginData, ProviderUserId, SessionId, Snowflake};
use crate::module_events::{HandleLoginError, SystemToModuleEvent};
use crate::util::same_text;

verus! {

/// What a new websocket connection presents: the session it had, if any,
/// and whether it asks to be an admin.
pub struct Ticket {
    pub session_id: Option<SessionId>,
    pub admin_login: Option<bool>,
}

/// The guests and admins the system knows, and the connections and sessions
/// that lead to them.
pub struct ActorSessions {
    pub guests: HashMap<Snowflake, Guest>,
    pub admins: HashMap<Snowflake, Admin>,
    pub ws_to_guest_map: HashMap<Snowflake, Snowflake>,
    pub ws_to_admin_map: HashMap<Snowflake, Snowflake>,
    pub session_id_to_guest_map: Vec<(SessionId, Snowflake)>,
    pub session_id_to_admin_map: Vec<(SessionId, Snowflake)>,
    /// The guests whose connection was lost and whose time to come back
    /// runs; the clock itself is kept by the caller.
    pub guests_timing_out: HashSet<ActorId>,
    /// The guest and the admin each provider account first logged in.
    pub provider_id_to_guest_map: Vec<(ProviderUserId, Snowflake)>,
    pub provider_id_to_admin_map: Vec<(ProviderUserId, Snowflake)>,
}

/// The answer to a new connection.
pub enum ConnectionReply {
    /// The session's guest is connected elsewhere; the new connection is
    /// told so and nothing changes.
    AlreadyConnected,
    /// The actor is ready on the new connection: it is sent its session and
    /// whether it still has to log in. `resumed` tells that the actor
    /// existed before; `replaced` is an earlier connection of an admin, to
    /// be closed.
    ConnectionReady {
        actor: ActorId,
        admin: bool,
        session_id: SessionId,
        needs_login: bool,
        resumed: bool,
        replaced: Option<Snowflake>,
    },
}

/// No session occurs twice.
pub open spec fn unique_sessions(pairs: Seq<(SessionId, Snowflake)>) -> bool {
    forall|i: int, j: int| 0 <= i < j < pairs.len() ==> pairs[i].0@ != pairs[j].0@
}

/// The actor the session leads to, if any.
pub open spec fn session_of(pairs: Seq<(SessionId, Snowflake)>, s: Seq<char>) -> Option<Snowflake> {
    if exists|i: int| 0 <= i < pairs.len() && (#[trigger] pairs[i]).0@ == s {
        Some(pairs[choose|i: int| 0 <= i < pairs.len() && (#[trigger] pairs[i]).0@ == s].1)
    } else {
        None
    }
}

/// The session the ticket presents; none counts as the empty one.
pub open spec fn ticket_session(ticket: Ticket) -> Seq<char> {
    match ticket.session_id {
        Some(s) => s@,
        None => Seq::empty(),
    }
}

/// The actor the ticket's session leads to, or 0.
pub open spec fn session_actor(pairs: Seq<(SessionId, Snowflake)>, ticket: Ticket) -> Snowflake {
    match session_of(pairs, ticket_session(ticket)) {
        Some(id) => id,
        None => 0,
    }
}

/// With no session twice, a pair's session leads to its actor.
proof fn lemma_session_at(pairs: Seq<(SessionId, Snowflake)>, i: int)
    requires
        unique_sessions(pairs),
        0 <= i < pairs.len(),
    ensures
        session_of(pairs, pairs[i].0@) == Some(pairs[i].1),
{
    let s = pairs[i].0@;
    assert(pairs[i].0@ == s);
    let j = choose|j: int| 0 <= j < pairs.len() && (#[trigger] pairs[j]).0@ == s;
    if j != i {
        if j < i {
            assert(pairs[j].0@ != pairs[i].0@);
        } else {
            assert(pairs[i].0@ != pairs[j].0@);
        }
    }
}

/// Finds the actor the session leads to.
fn find_session(pairs: &Vec<(SessionId, Snowflake)>, s: &String) -> (found: Option<Snowflake>)
    requires
        unique_sessions(pairs@),
    ensures
        found == session_of(pairs@, s@),
{
    let mut i: usize = 0;
    while i < pairs.len()
        invariant
            i <= pairs@.len(),
            unique_sessions(pairs@),
            forall|j: int| 0 <= j < i ==> (#[trigger] pairs@[j]).0@ != s@,
        decreases pairs@.len() - i,
    {
        if pairs[i].0 == *s {
            proof {
                lemma_session_at(pairs@, i as int);
            }
            return Some(pairs[i].1);
        }
        i = i + 1;
    }
    None
}

/// Where the session stands in the list, if it does.
fn session_index(pairs: &Vec<(SessionId, Snowflake)>, s: &String) -> (found: Option<usize>)
    ensures
        match found {
            Some(i) => i < pairs@.len() && pairs@[i as int].0@ == s@,
            None => forall|j: int| 0 <= j < pairs@.len() ==> (#[trigger] pairs@[j]).0@ != s@,
        },
{
    let mut i: usize = 0;
    while i < pairs.len()
        invariant
            i <= pairs@.len(),
            forall|j: int| 0 <= j < i ==> (#[trigger] pairs@[j]).0@ != s@,
        decreases pairs@.len() - i,
    {
        if pairs[i].0 == *s {
            return Some(i);
        }
        i = i + 1;
    }
    None
}

/// Lets the session lead to the actor, in place of where it led before.
fn set_session(pairs: &mut Vec<(SessionId, Snowflake)>, s: SessionId, id: Snowflake)
    requires
        unique_sessions(old(pairs)@),
    ensures
        unique_sessions(final(pairs)@),
        forall|t: Seq<char>| #[trigger]
            session_of(final(pairs)@, t) == if t == s@ {
                Some(id)
            } else {
                session_of(old(pairs)@, t)
            },
{
    let ghost before = pairs@;
    let ghost key = s@;
    match session_index(pairs, &s) {
        Some(i) => {
            pairs.set(i, (s, id));
            proof {
                assert(unique_sessions(pairs@)) by {
                    assert forall|a: int, b: int| 0 <= a < b < pairs@.len() implies pairs@[a].0@ != pairs@[b].0@ by {
                        if a != i && b != i {
                            assert(pairs@[a] == before[a] && pairs@[b] == before[b]);
                        } else if a == i {
                            assert(pairs@[b] == before[b]);
                        } else {
                            assert(pairs@[a] == before[a]);
                        }
                    }
                }
                assert forall|t: Seq<char>| #[trigger]
                    session_of(pairs@, t) == if t == key {
                        Some(id)
                    } else {
                        session_of(before, t)
                    } by {
                    if t == key {
                        lemma_session_at(pairs@, i as int);
                    } else {
                        if exists|j: int| 0 <= j < before.len() && (#[trigger] before[j]).0@ == t {
                            let j = choose|j: int| 0 <= j < before.len() && (#[trigger] before[j]).0@ == t;
                            assert(pairs@[j] == before[j]);
                            lemma_session_at(before, j);
                            lemma_session_at(pairs@, j);
                        } else {
                            assert forall|j: int| 0 <= j < pairs@.len() implies (#[trigger] pairs@[j]).0@ != t by {
                                if j != i {
                                    assert(pairs@[j] == before[j]);
                                }
                            }
                        }
                    }
                }
            }
        },
        None => {
            pairs.push((s, id));
            proof {
                let n = before.len() as int;
                assert(unique_sessions(pairs@)) by {
                    assert forall|a: int, b: int| 0 <= a < b < pairs@.len() implies pairs@[a].0@ != pairs@[b].0@ by {
                        if b < n {
                            assert(pairs@[a] == before[a] && pairs@[b] == before[b]);
                        } else {
                            assert(pairs@[a] == before[a]);
                        }
                    }
                }
                assert forall|t: Seq<char>| #[trigger]
                    session_of(pairs@, t) == if t == key {
                        Some(id)
                    } else {
                        session_of(before, t)
                    } by {
                    if t == key {
                        lemma_session_at(pairs@, n);
                    } else {
                        if exists|j: int| 0 <= j < before.len() && (#[trigger] before[j]).0@ == t {
                            let j = choose|j: int| 0 <= j < before.len() && (#[trigger] before[j]).0@ == t;
                            assert(pairs@[j] == before[j]);
                            lemma_session_at(before, j);
                            lemma_session_at(pairs@, j);
                        } else {
                            assert forall|j: int| 0 <= j < pairs@.len() implies (#[trigger] pairs@[j]).0@ != t by {
                                if j < n {
                                    assert(pairs@[j] == before[j]);
                                }
                            }
                        }
                    }
                }
            }
        },
    }
}

/// Lets the session lead nowhere.
fn clear_session(pairs: &mut Vec<(SessionId, Snowflake)>, s: &String)
    requires
        unique_sessions(old(pairs)@),
    ensures
        unique_sessions(final(pairs)@),
        forall|t: Seq<char>| #[trigger]
            session_of(final(pairs)@, t) == if t == s@ {
                None
            } else {
                session_of(old(pairs)@, t)
            },
{
    let ghost before = pairs@;
    match session_index(pairs, s) {
        Some(i) => {
            pairs.remove(i);
            proof {
                assert forall|j: int| 0 <= j < pairs@.len() implies #[trigger] pairs@[j] == if j < i {
                    before[j]
                } else {
                    before[j + 1]
                } by {}
                assert(unique_sessions(pairs@)) by {
                    assert forall|a: int, b: int| 0 <= a < b < pairs@.len() implies pairs@[a].0@ != pairs@[b].0@ by {
                        let x = if a < i { a } else { a + 1 };
                        let y = if b < i { b } else { b + 1 };
                        assert(pairs@[a] == before[x] && pairs@[b] == before[y]);
                    }
                }
                assert forall|t: Seq<char>| #[trigger]
                    session_of(pairs@, t) == if t == s@ {
                        None
                    } else {
                        session_of(before, t)
                    } by {
                    if t == s@ {
                        assert forall|j: int| 0 <= j < pairs@.len() implies (#[trigger] pairs@[j]).0@ != t by {
                            let x = if j < i { j } else { j + 1 };
                            assert(pairs@[j] == before[x]);
                            assert(before[i as int].0@ == t);
                        }
                    } else if exists|j: int| 0 <= j < before.len() && (#[trigger] before[j]).0@ == t {
                        let j = choose|j: int| 0 <= j < before.len() && (#[trigger] before[j]).0@ == t;
                        assert(j != i);
                        let k = if j < i { j } else { j - 1 };
                        assert(pairs@[k] == before[j]);
                        lemma_session_at(before, j);
                        lemma_session_at(pairs@, k);
                    } else {
                        assert forall|j: int| 0 <= j < pairs@.len() implies (#[trigger] pairs@[j]).0@ != t by {
                            let x = if j < i { j } else { j + 1 };
                            assert(pairs@[j] == before[x]);
                        }
                    }
                }
            }
        },
        None => {
            proof {
                assert forall|t: Seq<char>| #[trigger]
                    session_of(pairs@, t) == if t == s@ {
                        None
                    } else {
                        session_of(before, t)
                    } by {}
            }
        },
    }
}

/// The one provider account that may log in.
pub open spec fn login_allowed(login: LoginData) -> bool {
    login.provider_user_id@ == "52657886"@
}

/// Whether the provider account of the login may log in.
pub fn check_admin_login(login_data: &LoginData) -> (allowed: bool)
    ensures
        allowed == login_allowed(*login_data),
{
    same_text(login_data.provider_user_id.as_str(), "52657886")
}

/// The connections left once an actor's connection, if it had one, is
/// dropped.
pub open spec fn without_connection(ws: Map<Snowflake, Snowflake>, c: Option<Snowflake>) -> Map<Snowflake, Snowflake> {
    match c {
        Some(c) => ws.remove(c),
        None => ws,
    }
}

/// Where a session leads once the session of an actor whose connection was
/// dropped leads nowhere.
pub open spec fn session_after_close(
    pairs: Seq<(SessionId, Snowflake)>,
    c: Option<Snowflake>,
    closed_session: Seq<char>,
    t: Seq<char>,
) -> Option<Snowflake> {
    if c is Some && t == closed_session {
        None
    } else {
        session_of(pairs, t)
    }
}

/// The guest side of the sessions after `handle_guest_login`.
pub open spec fn guest_login_done(
    before: ActorSessions,
    after: ActorSessions,
    login: LoginData,
    actor_id: ActorId,
    outcome: (Result<ActorId, HandleLoginError>, Option<Snowflake>),
) -> bool {
    let g = before.guests@;
    if !login_allowed(login) {
        &&& outcome == (Err::<ActorId, HandleLoginError>(HandleLoginError::NotAuthorized(actor_id)), None::<Snowflake>)
        &&& after.guests@ == g
        &&& after.ws_to_guest_map@ == before.ws_to_guest_map@
        &&& after.session_id_to_guest_map@ == before.session_id_to_guest_map@
        &&& after.provider_id_to_guest_map@ == before.provider_id_to_guest_map@
    } else {
        match session_of(before.provider_id_to_guest_map@, login.provider_user_id@) {
            Some(prev) => {
                &&& after.provider_id_to_guest_map@ == before.provider_id_to_guest_map@
                &&& if g.contains_key(actor_id) && prev != actor_id && g.contains_key(prev) {
                    let p = g[prev];
                    let a = g[actor_id];
                    let ws_left = without_connection(before.ws_to_guest_map@, p.ws_connection_id);
                    &&& outcome.1 == p.ws_connection_id
                    &&& match a.ws_connection_id {
                        Some(nc) => {
                            &&& outcome.0 == Ok::<ActorId, HandleLoginError>(prev)
                            &&& after.guests@ == g.remove(actor_id).insert(
                                prev,
                                Guest {
                                    ws_connection_id: Some(nc),
                                    login_data: Some(login),
                                    session_id: a.session_id,
                                    ..p
                                },
                            )
                            &&& after.ws_to_guest_map@ == ws_left.insert(nc, prev)
                            &&& forall|t: Seq<char>| #[trigger]
                                session_of(after.session_id_to_guest_map@, t) == if t == a.session_id@ {
                                    Some(prev)
                                } else {
                                    session_after_close(
                                        before.session_id_to_guest_map@,
                                        p.ws_connection_id,
                                        p.session_id@,
                                        t,
                                    )
                                }
                        },
                        None => {
                            &&& outcome.0 == Err::<ActorId, HandleLoginError>(HandleLoginError::CouldNotFind(actor_id))
                            &&& after.guests@ == g.remove(actor_id)
                            &&& after.ws_to_guest_map@ == ws_left
                            &&& forall|t: Seq<char>| #[trigger]
                                session_of(after.session_id_to_guest_map@, t) == session_after_close(
                                    before.session_id_to_guest_map@,
                                    p.ws_connection_id,
                                    p.session_id@,
                                    t,
                                )
                        },
                    }
                } else {
                    &&& outcome == (Err::<ActorId, HandleLoginError>(HandleLoginError::CouldNotFind(actor_id)), None::<Snowflake>)
                    &&& after.guests@ == g.remove(actor_id)
                    &&& after.ws_to_guest_map@ == before.ws_to_guest_map@
                    &&& after.session_id_to_guest_map@ == before.session_id_to_guest_map@
                }
            },
            None => {
                &&& after.ws_to_guest_map@ == before.ws_to_guest_map@
                &&& after.session_id_to_guest_map@ == before.session_id_to_guest_map@
                &&& outcome.1 is None
                &&& if g.contains_key(actor_id) {
                    &&& outcome.0 == Ok::<ActorId, HandleLoginError>(actor_id)
                    &&& after.guests@ == g.insert(actor_id, Guest { login_data: Some(login), ..g[actor_id] })
                    &&& forall|t: Seq<char>| #[trigger]
                        session_of(after.provider_id_to_guest_map@, t) == if t == login.provider_user_id@ {
                            Some(actor_id)
                        } else {
                            session_of(before.provider_id_to_guest_map@, t)
                        }
                } else {
                    &&& outcome.0 == Err::<ActorId, HandleLoginError>(HandleLoginError::CouldNotFind(actor_id))
                    &&& after.guests@ == g
                    &&& after.provider_id_to_guest_map@ == before.provider_id_to_guest_map@
                }
            },
        }
    }
}

impl ActorSessions {
    /// Logs the guest `actor_id` in with the provider account of
    /// `login_data`; only the allowed account may log in. An account that
    /// logged in before belongs to the guest it first logged in: the new
    /// guest is dropped, and the earlier guest takes over its connection
    /// and session, the earlier guest's own connection, if it had one,
    /// being named for closing. An account new here is tied to the guest,
    /// which keeps the login data. Returns the guest now logged in, or why
    /// none is, and the connection to close.
    pub fn handle_guest_login(&mut self, login_data: LoginData, actor_id: ActorId) -> (outcome: (
        Result<ActorId, HandleLoginError>,
        Option<Snowflake>,
    ))
        requires
            old(self).wf(),
        ensures
            final(self).wf(),
            guest_login_done(*old(self), *final(self), login_data, actor_id, outcome),
            final(self).admins@ == old(self).admins@,
            final(self).ws_to_admin_map@ == old(self).ws_to_admin_map@,
            final(self).session_id_to_admin_map@ == old(self).session_id_to_admin_map@,
            final(self).provider_id_to_admin_map@ == old(self).provider_id_to_admin_map@,
            final(self).guests_timing_out@ == old(self).guests_timing_out@,
    {
        if !check_admin_login(&login_data) {
            return (Err(HandleLoginError::NotAuthorized(actor_id)), None);
        }
        let provider = login_data.provider_user_id.clone();
        match find_session(&self.provider_id_to_guest_map, &provider) {
            Some(prev) => {
                let actor = match self.guests.remove(&actor_id) {
                    Some(a) => a,
                    None => {
                        proof {
                            assert(self.guests@ =~= old(self).guests@.remove(actor_id));
                        }
                        return (Err(HandleLoginError::CouldNotFind(actor_id)), None);
                    },
                };
                let ghost without_actor = self.guests@;
                let mut previous = match self.guests.remove(&prev) {
                    Some(p) => p,
                    None => {
                        proof {
                            assert(!without_actor.contains_key(prev));
                            assert(self.guests@ =~= old(self).guests@.remove(actor_id));
                        }
                        return (Err(HandleLoginError::CouldNotFind(actor_id)), None);
                    },
                };
                proof {
                    assert(without_actor.contains_key(prev));
                    assert(prev != actor_id);
                    assert(previous == old(self).guests@[prev]);
                    assert(actor == old(self).guests@[actor_id]);
                }
                let close = previous.ws_connection_id;
                match close {
                    Some(c) => {
                        self.ws_to_guest_map.remove(&c);
                        clear_session(&mut self.session_id_to_guest_map, &previous.session_id);
                    },
                    None => {},
                }
                let ghost closed = self.session_id_to_guest_map@;
                let ghost ws_left = self.ws_to_guest_map@;
                proof {
                    assert(ws_left == without_connection(old(self).ws_to_guest_map@, close));
                }
                proof {
                    assert forall|t: Seq<char>| #[trigger] session_of(closed, t) == session_after_close(
                        old(self).session_id_to_guest_map@,
                        close,
                        previous.session_id@,
                        t,
                    ) by {}
                }
                match actor.ws_connection_id {
                    Some(nc) => {
                        previous.ws_connection_id = Some(nc);
                        previous.login_data = Some(login_data);
                        previous.session_id = actor.session_id;
                        let ghost moved = previous;
                        set_session(&mut self.session_id_to_guest_map, previous.session_id.clone(), prev);
                        self.ws_to_guest_map.insert(nc, prev);
                        self.guests.insert(prev, previous);
                        proof {
                            let p = old(self).guests@[prev];
                            let a = old(self).guests@[actor_id];
                            assert(moved == Guest {
                                ws_connection_id: Some(nc),
                                login_data: Some(login_data),
                                session_id: a.session_id,
                                ..p
                            });
                            assert(self.guests@ =~= old(self).guests@.remove(actor_id).insert(prev, moved));
                            assert(self.ws_to_guest_map@ =~= ws_left.insert(nc, prev));
                        }
                        (Ok(prev), close)
                    },
                    None => {
                        self.guests.insert(prev, previous);
                        proof {
                            assert(self.guests@ =~= old(self).guests@.remove(actor_id));
                        }
                        (Err(HandleLoginError::CouldNotFind(actor_id)), close)
                    },
                }
            },
            None => {
                match self.guests.remove(&actor_id) {
                    Some(actor) => {
                        let mut actor = actor;
                        let id = actor.id;
                        set_session(&mut self.provider_id_to_guest_map, provider, id);
                        actor.login_data = Some(login_data);
                        self.guests.insert(actor_id, actor);
                        proof {
                            assert(self.guests@ =~= old(self).guests@.insert(
                                actor_id,
                                Guest { login_data: Some(login_data), ..old(self).guests@[actor_id] },
                            ));
                        }
                        (Ok(actor_id), None)
                    },
                    None => {
                        proof {
                            assert(self.guests@ =~= old(self).guests@);
                        }
                        (Err(HandleLoginError::CouldNotFind(actor_id)), None)
                    },
                }
            },
        }
    }
}

/// The admin side of the sessions after `handle_admin_login`.
pub open spec fn admin_login_done(
    before: ActorSessions,
    after: ActorSessions,
    login: LoginData,
    actor_id: ActorId,
    outcome: (Result<ActorId, HandleLoginError>, Option<Snowflake>),
) -> bool {
    let g = before.admins@;
    if !login_allowed(login) {
        &&& outcome == (Err::<ActorId, HandleLoginError>(HandleLoginError::NotAuthorized(actor_id)), None::<Snowflake>)
        &&& after.admins@ == g
        &&& after.ws_to_admin_map@ == before.ws_to_admin_map@
        &&& after.session_id_to_admin_map@ == before.session_id_to_admin_map@
        &&& after.provider_id_to_admin_map@ == before.provider_id_to_admin_map@
    } else {
        match session_of(before.provider_id_to_admin_map@, login.provider_user_id@) {
            Some(prev) => {
                &&& after.provider_id_to_admin_map@ == before.provider_id_to_admin_map@
                &&& if g.contains_key(actor_id) && prev != actor_id && g.contains_key(prev) {
                    let p = g[prev];
                    let a = g[actor_id];
                    let ws_left = without_connection(before.ws_to_admin_map@, p.ws_connection_id);
                    &&& outcome.1 == p.ws_connection_id
                    &&& match a.ws_connection_id {
                        Some(nc) => {
                            &&& outcome.0 == Ok::<ActorId, HandleLoginError>(prev)
                            &&& after.admins@ == g.remove(actor_id).insert(
                                prev,
                                Admin {
                                    ws_connection_id: Some(nc),
                                    login_data: Some(login),
                                    is_logged_in: true,
                                    session_id: a.session_id,
                                    ..p
                                },
                            )
                            &&& after.ws_to_admin_map@ == ws_left.insert(nc, prev)
                            &&& forall|t: Seq<char>| #[trigger]
                                session_of(after.session_id_to_admin_map@, t) == if t == a.session_id@ {
                                    Some(prev)
                                } else {
                                    session_after_close(
                                        before.session_id_to_admin_map@,
                                        p.ws_connection_id,
                                        p.session_id@,
                                        t,
                                    )
                                }
                        },
                        None => {
                            &&& outcome.0 == Err::<ActorId, HandleLoginError>(HandleLoginError::CouldNotFind(actor_id))
                            &&& after.admins@ == g.remove(actor_id)
                            &&& after.ws_to_admin_map@ == ws_left
                            &&& forall|t: Seq<char>| #[trigger]
                                session_of(after.session_id_to_admin_map@, t) == session_after_close(
                                    before.session_id_to_admin_map@,
                                    p.ws_connection_id,
                                    p.session_id@,
                                    t,
                                )
                        },
                    }
                } else {
                    &&& outcome == (Err::<ActorId, HandleLoginError>(HandleLoginError::CouldNotFind(actor_id)), None::<Snowflake>)
                    &&& after.admins@ == g.remove(actor_id)
                    &&& after.ws_to_admin_map@ == before.ws_to_admin_map@
                    &&& after.session_id_to_admin_map@ == before.session_id_to_admin_map@
                }
            },
            None => {
                &&& after.ws_to_admin_map@ == before.ws_to_admin_map@
                &&& after.session_id_to_admin_map@ == before.session_id_to_admin_map@
                &&& outcome.1 is None
                &&& if g.contains_key(actor_id) {
                    &&& outcome.0 == Ok::<ActorId, HandleLoginError>(actor_id)
                    &&& after.admins@ == g.insert(actor_id, Admin { login_data: Some(login), is_logged_in: true, ..g[actor_id] })
                    &&& forall|t: Seq<char>| #[trigger]
                        session_of(after.provider_id_to_admin_map@, t) == if t == login.provider_user_id@ {
                            Some(actor_id)
                        } else {
                            session_of(before.provider_id_to_admin_map@, t)
                        }
                } else {
                    &&& outcome.0 == Err::<ActorId, HandleLoginError>(HandleLoginError::CouldNotFind(actor_id))
                    &&& after.admins@ == g
                    &&& after.provider_id_to_admin_map@ == before.provider_id_to_admin_map@
                }
            },
        }
    }
}

impl ActorSessions {
    /// Logs the admin `actor_id` in as `handle_guest_login` does a guest;
    /// the admin that ends up with the login is also marked logged in.
    pub fn handle_admin_login(&mut self, login_data: LoginData, actor_id: ActorId) -> (outcome: (
        Result<ActorId, HandleLoginError>,
        Option<Snowflake>,
    ))
        requires
            old(self).wf(),
        ensures
            final(self).wf(),
            admin_login_done(*old(self), *final(self), login_data, actor_id, outcome),
            final(self).guests@ == old(self).guests@,
            final(self).ws_to_guest_map@ == old(self).ws_to_guest_map@,
            final(self).session_id_to_guest_map@ == old(self).session_id_to_guest_map@,
            final(self).provider_id_to_guest_map@ == old(self).provider_id_to_guest_map@,
            final(self).guests_timing_out@ == old(self).guests_timing_out@,
    {
        if !check_admin_login(&login_data) {
            return (Err(HandleLoginError::NotAuthorized(actor_id)), None);
        }
        let provider = login_data.provider_user_id.clone();
        match find_session(&self.provider_id_to_admin_map, &provider) {
            Some(prev) => {
                let actor = match self.admins.remove(&actor_id) {
                    Some(a) => a,
                    None => {
                        proof {
                            assert(self.admins@ =~= old(self).admins@.remove(actor_id));
                        }
                        return (Err(HandleLoginError::CouldNotFind(actor_id)), None);
                    },
                };
                let ghost without_actor = self.admins@;
                let mut previous = match self.admins.remove(&prev) {
                    Some(p) => p,
                    None => {
                        proof {
                            assert(!without_actor.contains_key(prev));
                            assert(self.admins@ =~= old(self).admins@.remove(actor_id));
                        }
                        return (Err(HandleLoginError::CouldNotFind(actor_id)), None);
                    },
                };
                proof {
                    assert(without_actor.contains_key(prev));
                    assert(prev != actor_id);
                    assert(previous == old(self).admins@[prev]);
                    assert(actor == old(self).admins@[actor_id]);
                }
                let close = previous.ws_connection_id;
                match close {
                    Some(c) => {
                        self.ws_to_admin_map.remove(&c);
                        clear_session(&mut self.session_id_to_admin_map, &previous.session_id);
                    },
                    None => {},
                }
                let ghost closed = self.session_id_to_admin_map@;
                let ghost ws_left = self.ws_to_admin_map@;
                proof {
                    assert(ws_left == without_connection(old(self).ws_to_admin_map@, close));
                }
                proof {
                    assert forall|t: Seq<char>| #[trigger] session_of(closed, t) == session_after_close(
                        old(self).session_id_to_admin_map@,
                        close,
                        previous.session_id@,
                        t,
                    ) by {}
                }
                match actor.ws_connection_id {
                    Some(nc) => {
                        previous.ws_connection_id = Some(nc);
                        previous.login_data = Some(login_data);
                        previous.is_logged_in = true;
                        previous.session_id = actor.session_id;
                        let ghost moved = previous;
                        set_session(&mut self.session_id_to_admin_map, previous.session_id.clone(), prev);
                        self.ws_to_admin_map.insert(nc, prev);
                        self.admins.insert(prev, previous);
                        proof {
                            let p = old(self).admins@[prev];
                            let a = old(self).admins@[actor_id];
                            assert(moved == Admin {
                                ws_connection_id: Some(nc),
                                login_data: Some(login_data),
                                is_logged_in: true,
                                session_id: a.session_id,
                                ..p
                            });
                            assert(self.admins@ =~= old(self).admins@.remove(actor_id).insert(prev, moved));
                            assert(self.ws_to_admin_map@ =~= ws_left.insert(nc, prev));
                        }
                        (Ok(prev), close)
                    },
                    None => {
                        self.admins.insert(prev, previous);
                        proof {
                            assert(self.admins@ =~= old(self).admins@.remove(actor_id));
                        }
                        (Err(HandleLoginError::CouldNotFind(actor_id)), close)
                    },
                }
            },
            None => {
                match self.admins.remove(&actor_id) {
                    Some(actor) => {
                        let mut actor = actor;
                        let id = actor.id;
                        set_session(&mut self.provider_id_to_admin_map, provider, id);
                        actor.login_data = Some(login_data);
                        actor.is_logged_in = true;
                        self.admins.insert(actor_id, actor);
                        proof {
                            assert(self.admins@ =~= old(self).admins@.insert(
                                actor_id,
                                Admin { login_data: Some(login_data), is_logged_in: true, ..old(self).admins@[actor_id] },
                            ));
                        }
                        (Ok(actor_id), None)
                    },
                    None => {
                        proof {
                            assert(self.admins@ =~= old(self).admins@);
                        }
                        (Err(HandleLoginError::CouldNotFind(actor_id)), None)
                    },
                }
            },
        }
    }
}

impl ActorSessions {
    /// The module instance that a guest back on a connection was in, and the
    /// actor it is told has come back: only a resumed guest that is known
    /// and has both a module and an instance has one.
    pub open spec fn reconnect_target(&self, reply: ConnectionReply) -> Option<(Seq<char>, Seq<char>, ActorId)> {
        match reply {
            ConnectionReply::ConnectionReady { actor, admin, resumed, .. } => {
                if !admin && resumed && self.guests@.contains_key(actor) {
                    let g = self.guests@[actor];
                    match (g.current_module, g.current_instance_id) {
                        (Some(m), Some(i)) => Some((m@, i@, actor)),
                        _ => None,
                    }
                } else {
                    None
                }
            },
            ConnectionReply::AlreadyConnected => None,
        }
    }

    /// What the module of a resumed guest is sent once the guest is back:
    /// its module, its instance and `Reconnected` with the guest's id. Any
    /// other reply sends nothing.
    pub fn reconnect_event(&self, reply: &ConnectionReply) -> (event: Option<
        (ModuleName, GameInstanceId, SystemToModuleEvent),
    >)
        ensures
            match self.reconnect_target(*reply) {
                Some((m, i, a)) => event matches Some((em, ei, SystemToModuleEvent::Reconnected(ea))) && em@ == m
                    && ei@ == i && ea == a,
                None => event is None,
            },
    {
        match reply {
            ConnectionReply::ConnectionReady { actor, admin, resumed, .. } => {
                if !*admin && *resumed {
                    match self.guests.get(actor) {
                        Some(guest) => match (&guest.current_module, &guest.current_instance_id) {
                            (Some(m), Some(i)) => Some((m.clone(), i.clone(), SystemToModuleEvent::Reconnected(*actor))),
                            _ => None,
                        },
                        None => None,
                    }
                } else {
                    None
                }
            },
            ConnectionReply::AlreadyConnected => None,
        }
    }

    /// Each guest and admin is stored under its id, and no session occurs
    /// twice.
    pub open spec fn wf(&self) -> bool {
        &&& forall|k: Snowflake| #[trigger] self.guests@.contains_key(k) ==> self.guests@[k].id == k
        &&& forall|k: Snowflake| #[trigger] self.admins@.contains_key(k) ==> self.admins@[k].id == k
        &&& unique_sessions(self.session_id_to_guest_map@)
        &&& unique_sessions(self.session_id_to_admin_map@)
        &&& unique_sessions(self.provider_id_to_guest_map@)
        &&& unique_sessions(self.provider_id_to_admin_map@)
    }

    /// Takes in a new connection with its ticket. An admin ticket finds the
    /// admin of its session, moves it to the new connection and names its
    /// earlier connection for closing, or makes a new admin with the ids
    /// `new_ids`. Any other ticket finds the guest of its session: one that
    /// is connected elsewhere gets `AlreadyConnected` and nothing changes;
    /// one that is not moves to the new connection and its time to come
    /// back stops. Without such a guest, a new guest with the ids `new_ids`
    /// is made. The new ids are fresh, as the id generator hands them out.
    pub fn accept_connection(&mut self, connection: Snowflake, ticket: Ticket, new_ids: (ActorId, SessionId)) -> (reply:
        ConnectionReply)
        requires
            old(self).wf(),
            !old(self).guests@.contains_key(new_ids.0),
            !old(self).admins@.contains_key(new_ids.0),
        ensures
            final(self).wf(),
            final(self).provider_id_to_guest_map@ == old(self).provider_id_to_guest_map@,
            final(self).provider_id_to_admin_map@ == old(self).provider_id_to_admin_map@,
            if ticket.admin_login == Some(true) {
                let aid = session_actor(old(self).session_id_to_admin_map@, ticket);
                &&& final(self).guests@ == old(self).guests@
                &&& final(self).guests_timing_out@ == old(self).guests_timing_out@
                &&& final(self).ws_to_guest_map@ == old(self).ws_to_guest_map@
                &&& final(self).session_id_to_guest_map@ == old(self).session_id_to_guest_map@
                &&& if old(self).admins@.contains_key(aid) {
                    let a = old(self).admins@[aid];
                    &&& final(self).admins@ == old(self).admins@.insert(
                        aid,
                        Admin { ws_connection_id: Some(connection), ..a },
                    )
                    &&& final(self).ws_to_admin_map@ == old(self).ws_to_admin_map@.insert(connection, aid)
                    &&& final(self).session_id_to_admin_map@ == old(self).session_id_to_admin_map@
                    &&& reply == ConnectionReply::ConnectionReady {
                        actor: aid,
                        admin: true,
                        session_id: a.session_id,
                        needs_login: a.login_data is None,
                        resumed: true,
                        replaced: a.ws_connection_id,
                    }
                } else {
                    &&& final(self).admins@ == old(self).admins@.insert(
                        new_ids.0,
                        Admin {
                            id: new_ids.0,
                            session_id: new_ids.1,
                            login_data: None,
                            is_logged_in: false,
                            ws_connection_id: Some(connection),
                        },
                    )
                    &&& final(self).ws_to_admin_map@ == old(self).ws_to_admin_map@.insert(connection, new_ids.0)
                    &&& forall|t: Seq<char>| #[trigger]
                        session_of(final(self).session_id_to_admin_map@, t) == if t == new_ids.1@ {
                            Some(new_ids.0)
                        } else {
                            session_of(old(self).session_id_to_admin_map@, t)
                        }
                    &&& reply == ConnectionReply::ConnectionReady {
                        actor: new_ids.0,
                        admin: true,
                        session_id: new_ids.1,
                        needs_login: true,
                        resumed: false,
                        replaced: None,
                    }
                }
            } else {
                let gid = session_actor(old(self).session_id_to_guest_map@, ticket);
                &&& final(self).admins@ == old(self).admins@
                &&& final(self).ws_to_admin_map@ == old(self).ws_to_admin_map@
                &&& final(self).session_id_to_admin_map@ == old(self).session_id_to_admin_map@
                &&& if old(self).guests@.contains_key(gid) {
                    let g = old(self).guests@[gid];
                    if g.ws_connection_id is Some {
                        &&& final(self).guests@ == old(self).guests@
                        &&& final(self).guests_timing_out@ == old(self).guests_timing_out@
                        &&& final(self).ws_to_guest_map@ == old(self).ws_to_guest_map@
                        &&& final(self).session_id_to_guest_map@ == old(self).session_id_to_guest_map@
                        &&& reply == ConnectionReply::AlreadyConnected
                    } else {
                        &&& final(self).guests@ == old(self).guests@.insert(
                            gid,
                            Guest { ws_connection_id: Some(connection), ..g },
                        )
                        &&& final(self).ws_to_guest_map@ == old(self).ws_to_guest_map@.insert(connection, gid)
                        &&& final(self).guests_timing_out@ == old(self).guests_timing_out@.remove(gid)
                        &&& final(self).session_id_to_guest_map@ == old(self).session_id_to_guest_map@
                        &&& reply == ConnectionReply::ConnectionReady {
                            actor: gid,
                            admin: false,
                            session_id: g.session_id,
                            needs_login: g.login_data is None,
                            resumed: true,
                            replaced: None,
                        }
                    }
                } else {
                    &&& final(self).guests@ == old(self).guests@.insert(
                        new_ids.0,
                        Guest {
                            id: new_ids.0,
                            session_id: new_ids.1,
                            current_module: None,
                            current_instance_id: None,
                            pending_module_exit: None,
                            login_data: None,
                            ws_connection_id: Some(connection),
                        },
                    )
                    &&& final(self).ws_to_guest_map@ == old(self).ws_to_guest_map@.insert(connection, new_ids.0)
                    &&& final(self).guests_timing_out@ == old(self).guests_timing_out@
                    &&& forall|t: Seq<char>| #[trigger]
                        session_of(final(self).session_id_to_guest_map@, t) == if t == new_ids.1@ {
                            Some(new_ids.0)
                        } else {
                            session_of(old(self).session_id_to_guest_map@, t)
                        }
                    &&& reply == ConnectionReply::ConnectionReady {
                        actor: new_ids.0,
                        admin: false,
                        session_id: new_ids.1,
                        needs_login: true,
                        resumed: false,
                        replaced: None,
                    }
                }
            },
    {
        let session = match &ticket.session_id {
            Some(s) => s.clone(),
            None => String::new(),
        };
        proof {
            assert(session@ == ticket_session(ticket));
        }
        if ticket.admin_login == Some(true) {
            let aid = match find_session(&self.session_id_to_admin_map, &session) {
                Some(id) => id,
                None => 0,
            };
            match self.admins.remove(&aid) {
                Some(mut admin) => {
                    let replaced = admin.ws_connection_id;
                    let reply_session = admin.session_id.clone();
                    let needs_login = admin.login_data.is_none();
                    admin.ws_connection_id = Some(connection);
                    self.ws_to_admin_map.insert(connection, aid);
                    self.admins.insert(aid, admin);
                    proof {
                        assert(self.admins@ =~= old(self).admins@.insert(
                            aid,
                            Admin { ws_connection_id: Some(connection), ..old(self).admins@[aid] },
                        ));
                    }
                    ConnectionReply::ConnectionReady {
                        actor: aid,
                        admin: true,
                        session_id: reply_session,
                        needs_login,
                        resumed: true,
                        replaced,
                    }
                },
                None => {
                    let (id, session_id) = new_ids;
                    self.admins.insert(
                        id,
                        Admin {
                            id,
                            session_id: session_id.clone(),
                            login_data: None,
                            is_logged_in: false,
                            ws_connection_id: Some(connection),
                        },
                    );
                    self.ws_to_admin_map.insert(connection, id);
                    set_session(&mut self.session_id_to_admin_map, session_id.clone(), id);
                    ConnectionReply::ConnectionReady {
                        actor: id,
                        admin: true,
                        session_id,
                        needs_login: true,
                        resumed: false,
                        replaced: None,
                    }
                },
            }
        } else {
            let gid = match find_session(&self.session_id_to_guest_map, &session) {
                Some(id) => id,
                None => 0,
            };
            let connected = match self.guests.get(&gid) {
                Some(guest) => Some(guest.ws_connection_id.is_some()),
                None => None,
            };
            match connected {
                Some(true) => ConnectionReply::AlreadyConnected,
                Some(false) => {
                    let mut guest = self.guests.remove(&gid).unwrap();
                    let reply_session = guest.session_id.clone();
                    let needs_login = guest.login_data.is_none();
                    guest.ws_connection_id = Some(connection);
                    self.guests_timing_out.remove(&gid);
                    self.ws_to_guest_map.insert(connection, gid);
                    self.guests.insert(gid, guest);
                    proof {
                        assert(self.guests@ =~= old(self).guests@.insert(
                            gid,
                            Guest { ws_connection_id: Some(connection), ..old(self).guests@[gid] },
                        ));
                    }
                    ConnectionReply::ConnectionReady {
                        actor: gid,
                        admin: false,
                        session_id: reply_session,
                        needs_login,
                        resumed: true,
                        replaced: None,
                    }
                },
                None => {
                    let (id, session_id) = new_ids;
                    self.guests.insert(
                        id,
                        Guest {
                            id,
                            session_id: session_id.clone(),
                            current_module: None,
                            current_instance_id: None,
                            pending_module_exit: None,
                            login_data: None,
                            ws_connection_id: Some(connection),
                        },
                    );
                    self.ws_to_guest_map.insert(connection, id);
                    set_session(&mut self.session_id_to_guest_map, session_id.clone(), id);
                    ConnectionReply::ConnectionReady {
                        actor: id,
                        admin: false,
                        session_id,
                        needs_login: true,
                        resumed: false,
                        replaced: None,
                    }
                },
            }
        }
    }
}

} // verus!
