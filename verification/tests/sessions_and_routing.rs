use std::collections::{HashMap, HashSet};

use shiku_home::guest::{LoginData, LoginProvider};
use shiku_home::module_events::{GuestStateChange, HandleLoginError, SystemToModuleEvent, ModuleToSystemEvent, ProcessModuleEventError, ToastAlertLevel};
use shiku_home::instances::GuestCommunication;
use shiku_home::module_routing::{
    entity_update_sends, route_system_event, script_update_saves, SystemEventRoute, SystemNotice,
};
use shiku_home::sessions::{ActorSessions, ConnectionReply, Ticket};

fn empty_sessions() -> ActorSessions {
    ActorSessions {
        guests: HashMap::new(),
        admins: HashMap::new(),
        ws_to_guest_map: HashMap::new(),
        ws_to_admin_map: HashMap::new(),
        session_id_to_guest_map: Vec::new(),
        session_id_to_admin_map: Vec::new(),
        guests_timing_out: HashSet::new(),
        provider_id_to_guest_map: Vec::new(),
        provider_id_to_admin_map: Vec::new(),
    }
}

fn ready(reply: &ConnectionReply) -> (i64, bool, String, bool, bool, Option<i64>) {
    match reply {
        ConnectionReply::ConnectionReady { actor, admin, session_id, needs_login, resumed, replaced } => {
            (*actor, *admin, session_id.clone(), *needs_login, *resumed, *replaced)
        }
        ConnectionReply::AlreadyConnected => panic!("expected a ready connection"),
    }
}

#[test]
fn new_guest_gets_new_ids_and_session() {
    let mut sessions = empty_sessions();
    let reply = sessions.accept_connection(
        11,
        Ticket { session_id: None, admin_login: None },
        (100, "s-100".to_string()),
    );
    assert_eq!(ready(&reply), (100, false, "s-100".to_string(), true, false, None));
    assert_eq!(sessions.guests[&100].ws_connection_id, Some(11));
    assert_eq!(sessions.ws_to_guest_map[&11], 100);
    assert_eq!(sessions.session_id_to_guest_map, vec![("s-100".to_string(), 100)]);
}

#[test]
fn connected_guest_session_is_refused_and_nothing_changes() {
    let mut sessions = empty_sessions();
    sessions.accept_connection(11, Ticket { session_id: None, admin_login: None }, (100, "s".to_string()));
    let reply = sessions.accept_connection(
        12,
        Ticket { session_id: Some("s".to_string()), admin_login: Some(false) },
        (200, "t".to_string()),
    );
    assert!(matches!(reply, ConnectionReply::AlreadyConnected));
    assert_eq!(sessions.guests.len(), 1);
    assert!(!sessions.ws_to_guest_map.contains_key(&12));
}

#[test]
fn disconnected_guest_resumes_its_session() {
    let mut sessions = empty_sessions();
    sessions.accept_connection(11, Ticket { session_id: None, admin_login: None }, (100, "s".to_string()));
    sessions.guests.get_mut(&100).unwrap().ws_connection_id = None;
    sessions.guests_timing_out.insert(100);
    let reply = sessions.accept_connection(
        12,
        Ticket { session_id: Some("s".to_string()), admin_login: None },
        (200, "t".to_string()),
    );
    assert_eq!(ready(&reply), (100, false, "s".to_string(), true, true, None));
    assert_eq!(sessions.guests[&100].ws_connection_id, Some(12));
    assert_eq!(sessions.guests.len(), 1);
    assert!(sessions.guests_timing_out.is_empty());
}

#[test]
fn admin_moves_to_new_connection_and_old_one_is_named() {
    let mut sessions = empty_sessions();
    let admin = Ticket { session_id: None, admin_login: Some(true) };
    let reply = sessions.accept_connection(11, admin, (7, "a".to_string()));
    assert_eq!(ready(&reply), (7, true, "a".to_string(), true, false, None));
    let reply = sessions.accept_connection(
        12,
        Ticket { session_id: Some("a".to_string()), admin_login: Some(true) },
        (8, "b".to_string()),
    );
    assert_eq!(ready(&reply), (7, true, "a".to_string(), true, true, Some(11)));
    assert_eq!(sessions.admins[&7].ws_connection_id, Some(12));
    assert!(sessions.guests.is_empty());
}

#[test]
fn entity_updates_go_to_ready_guests_only() {
    let guests = vec![
        (1, GuestCommunication { resources_loaded: true, connected: true }),
        (2, GuestCommunication { resources_loaded: false, connected: true }),
        (3, GuestCommunication { resources_loaded: true, connected: false }),
        (4, GuestCommunication { resources_loaded: true, connected: true }),
    ];
    let sends = entity_update_sends(&guests, [true, false, false, true, true]);
    assert_eq!(sends, vec![(1, 0), (1, 3), (1, 4), (4, 0), (4, 3), (4, 4)]);
    assert!(entity_update_sends(&guests, [false; 5]).is_empty());
}

#[test]
fn system_events_reach_the_right_actors() {
    let guests = vec![1, 2];
    let admins = vec![9];
    match route_system_event(&guests, &admins, ModuleToSystemEvent::GlobalMessage("hi".to_string())) {
        Ok(SystemEventRoute::Send(sends)) => {
            assert_eq!(sends.len(), 2);
            assert_eq!(sends[0].0, 1);
            assert_eq!(sends[1].0, 2);
            assert!(matches!(&sends[1].1, SystemNotice::GlobalMessage(t) if t == "hi"));
        }
        _ => panic!("expected sends"),
    }
    match route_system_event(
        &guests,
        &admins,
        ModuleToSystemEvent::GameInstanceCreated("m".to_string(), "i".to_string()),
    ) {
        Ok(SystemEventRoute::Send(sends)) => {
            assert_eq!(sends.len(), 1);
            assert_eq!(sends[0].0, 9);
            assert!(matches!(&sends[0].1, SystemNotice::InstanceOpened(m, i) if m == "m" && i == "i"));
        }
        _ => panic!("expected sends"),
    }
    assert!(matches!(
        route_system_event(&guests, &admins, ModuleToSystemEvent::ToastMessage(5, ToastAlertLevel::Info, "x".to_string())),
        Err(ProcessModuleEventError::GuestNotFound)
    ));
    assert!(matches!(
        route_system_event(
            &guests,
            &admins,
            ModuleToSystemEvent::GuestStateChange(2, GuestStateChange::ExitModule("exit".to_string()))
        ),
        Ok(SystemEventRoute::ChangeGuest(2, GuestStateChange::ExitModule(_)))
    ));
}

#[test]
fn a_script_is_saved_only_when_every_module_recompiled_it() {
    assert!(script_update_saves(&vec![]));
    assert!(script_update_saves(&vec![true, true]));
    assert!(!script_update_saves(&vec![true, false, true]));
}

#[test]
fn resumed_guest_in_an_instance_is_announced_to_its_module() {
    let mut sessions = empty_sessions();
    sessions.accept_connection(11, Ticket { session_id: None, admin_login: None }, (100, "s".to_string()));
    {
        let guest = sessions.guests.get_mut(&100).unwrap();
        guest.ws_connection_id = None;
        guest.current_module = Some("forest".to_string());
        guest.current_instance_id = Some("42".to_string());
    }
    let reply = sessions.accept_connection(
        12,
        Ticket { session_id: Some("s".to_string()), admin_login: None },
        (200, "t".to_string()),
    );
    match sessions.reconnect_event(&reply) {
        Some((module, instance, SystemToModuleEvent::Reconnected(actor))) => {
            assert_eq!(module, "forest".to_string());
            assert_eq!(instance, "42".to_string());
            assert_eq!(actor, 100);
        }
        _ => panic!("expected a reconnect event"),
    }
}

#[test]
fn new_guest_or_guest_outside_an_instance_announces_nothing() {
    let mut sessions = empty_sessions();
    let reply = sessions.accept_connection(11, Ticket { session_id: None, admin_login: None }, (100, "s".to_string()));
    assert!(sessions.reconnect_event(&reply).is_none());
    {
        let guest = sessions.guests.get_mut(&100).unwrap();
        guest.ws_connection_id = None;
        guest.current_module = Some("forest".to_string());
    }
    let reply = sessions.accept_connection(
        12,
        Ticket { session_id: Some("s".to_string()), admin_login: None },
        (200, "t".to_string()),
    );
    assert!(sessions.reconnect_event(&reply).is_none());
    assert!(sessions.reconnect_event(&ConnectionReply::AlreadyConnected).is_none());
}

fn login(provider_user_id: &str) -> LoginData {
    LoginData {
        provider_user_id: provider_user_id.to_string(),
        display_name: "shiku".to_string(),
        views: None,
        provider: LoginProvider::Twitch,
    }
}

#[test]
fn only_the_allowed_account_may_log_in() {
    let mut sessions = empty_sessions();
    sessions.accept_connection(11, Ticket { session_id: None, admin_login: None }, (100, "s".to_string()));
    let outcome = sessions.handle_guest_login(login("123"), 100);
    assert_eq!(outcome, (Err(HandleLoginError::NotAuthorized(100)), None));
    assert!(sessions.guests[&100].login_data.is_none());
    assert!(sessions.provider_id_to_guest_map.is_empty());
}

#[test]
fn first_login_ties_the_account_to_the_guest() {
    let mut sessions = empty_sessions();
    sessions.accept_connection(11, Ticket { session_id: None, admin_login: None }, (100, "s".to_string()));
    let outcome = sessions.handle_guest_login(login("52657886"), 100);
    assert_eq!(outcome, (Ok(100), None));
    assert_eq!(sessions.guests[&100].login_data.as_ref().unwrap().display_name, "shiku");
    assert_eq!(sessions.provider_id_to_guest_map, vec![("52657886".to_string(), 100)]);
    assert_eq!(sessions.handle_guest_login(login("52657886"), 7), (Err(HandleLoginError::CouldNotFind(7)), None));
}

#[test]
fn second_login_takes_over_the_first_guest() {
    let mut sessions = empty_sessions();
    sessions.accept_connection(11, Ticket { session_id: None, admin_login: None }, (100, "s1".to_string()));
    sessions.handle_guest_login(login("52657886"), 100);
    sessions.accept_connection(12, Ticket { session_id: None, admin_login: None }, (200, "s2".to_string()));
    let outcome = sessions.handle_guest_login(login("52657886"), 200);
    assert_eq!(outcome, (Ok(100), Some(11)));
    assert!(!sessions.guests.contains_key(&200));
    assert_eq!(sessions.guests[&100].ws_connection_id, Some(12));
    assert_eq!(sessions.guests[&100].session_id, "s2");
    assert_eq!(sessions.ws_to_guest_map.get(&12), Some(&100));
    assert!(!sessions.ws_to_guest_map.contains_key(&11));
    assert_eq!(sessions.session_id_to_guest_map, vec![("s2".to_string(), 100)]);
}

#[test]
fn admin_login_marks_the_admin_logged_in() {
    let mut sessions = empty_sessions();
    let admin = Ticket { session_id: None, admin_login: Some(true) };
    sessions.accept_connection(11, admin, (7, "a".to_string()));
    sessions.admins.get_mut(&7).unwrap().is_logged_in = false;
    assert_eq!(sessions.handle_admin_login(login("52657886"), 7), (Ok(7), None));
    assert!(sessions.admins[&7].is_logged_in);
    assert_eq!(sessions.provider_id_to_admin_map, vec![("52657886".to_string(), 7)]);
    assert!(sessions.provider_id_to_guest_map.is_empty());
}
