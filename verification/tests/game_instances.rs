use shiku_home::blueprint::Module;
use shiku_home::guest::{Admin, Guest};
use shiku_home::instances::{CreateWorldError, GameInstanceManager};
use shiku_home::module_events::{
    AdminEnterSuccessState, AdminLeftSuccessState, DestroyWorldError, EnterFailedState, EnterSuccessState, GuestInput,
    LeaveFailedState, LeaveSuccessState, ModuleToSystemEvent, SystemToModuleEvent,
};

fn module(max_guests: usize, close_after_full: bool) -> Module {
    let mut module = Module::new("Forest".to_string(), "m1".to_string());
    module.max_guests = max_guests;
    module.close_after_full = close_after_full;
    module
}

fn guest(id: i64) -> Guest {
    Guest {
        id,
        session_id: String::new(),
        current_module: None,
        current_instance_id: None,
        pending_module_exit: None,
        login_data: None,
        ws_connection_id: None,
    }
}

fn admin(id: i64) -> Admin {
    Admin { id, session_id: String::new(), login_data: None, is_logged_in: true, ws_connection_id: None }
}

fn created_ids(manager: &GameInstanceManager) -> Vec<String> {
    manager
        .outbox
        .iter()
        .filter_map(|event| match event {
            ModuleToSystemEvent::GameInstanceCreated(_, id) => Some(id.clone()),
            _ => None,
        })
        .collect()
}

#[test]
fn first_guest_opens_an_instance() {
    let mut manager = GameInstanceManager::new(module(2, false));
    let (id, state) = manager.try_enter(&guest(1), &"start".to_string()).unwrap();
    assert_eq!(state, EnterSuccessState::Entered);
    assert_eq!(manager.game_instances.len(), 1);
    assert_eq!(manager.game_instances[0].id, id);
    assert_eq!(created_ids(&manager), vec![id.clone()]);
    assert!(id.parse::<i64>().is_ok());
    assert_eq!(id.parse::<i64>().unwrap().to_string(), id);
    assert_eq!(manager.guest_to_game_instance_map.get(&1), Some(&id));
    assert!(manager.connected_actor_ids.contains(&1));
    let record = &manager.game_instances[0].guests[&1];
    assert!(record.guest_com.connected);
    assert!(!record.guest_com.resources_loaded);
}

#[test]
fn entering_twice_is_refused() {
    let mut manager = GameInstanceManager::new(module(2, false));
    manager.try_enter(&guest(1), &"start".to_string()).unwrap();
    assert_eq!(
        manager.try_enter(&guest(1), &"start".to_string()).err(),
        Some(EnterFailedState::AlreadyEntered)
    );
    assert_eq!(manager.game_instances.len(), 1);
}

#[test]
fn full_instances_make_room_elsewhere() {
    let mut manager = GameInstanceManager::new(module(1, false));
    let (first, _) = manager.try_enter(&guest(1), &"start".to_string()).unwrap();
    let (second, _) = manager.try_enter(&guest(2), &"start".to_string()).unwrap();
    assert_ne!(first, second);
    assert_eq!(manager.game_instances.len(), 2);
    assert_eq!(created_ids(&manager).len(), 2);
}

#[test]
fn instances_close_when_full() {
    let mut manager = GameInstanceManager::new(module(1, true));
    manager.try_enter(&guest(1), &"start".to_string()).unwrap();
    assert!(manager.game_instances[0].closed);
    let mut open = GameInstanceManager::new(module(1, false));
    open.try_enter(&guest(1), &"start".to_string()).unwrap();
    assert!(!open.game_instances[0].closed);
}

#[test]
fn guests_share_an_instance_with_room() {
    let mut manager = GameInstanceManager::new(module(3, false));
    let (first, _) = manager.try_enter(&guest(1), &"start".to_string()).unwrap();
    let (second, _) = manager.try_enter(&guest(2), &"start".to_string()).unwrap();
    assert_eq!(first, second);
    assert_eq!(manager.game_instances[0].guests.len(), 2);
}

#[test]
fn enter_then_leave() {
    let mut manager = GameInstanceManager::new(module(2, false));
    let (id, _) = manager.try_enter(&guest(1), &"start".to_string()).unwrap();
    assert_eq!(manager.try_leave(&guest(1)), Ok((id, LeaveSuccessState::Left)));
    assert!(manager.guest_to_game_instance_map.is_empty());
    assert!(!manager.connected_actor_ids.contains(&1));
    assert_eq!(manager.try_leave(&guest(1)), Err(LeaveFailedState::NotInModule));
}

#[test]
fn leaving_a_closed_instance_fails_but_unmaps() {
    let mut manager = GameInstanceManager::new(module(2, false));
    let (id, _) = manager.try_enter(&guest(1), &"start".to_string()).unwrap();
    manager.close_game_instances(vec![id.clone()]);
    assert!(manager.game_instances.is_empty());
    assert_eq!(
        manager.outbox.last().map(|e| matches!(e, ModuleToSystemEvent::GameInstanceClosed(m, i) if m == "m1" && *i == id)),
        Some(true)
    );
    assert_eq!(manager.try_leave(&guest(1)), Err(LeaveFailedState::NotInModule));
    assert!(manager.guest_to_game_instance_map.is_empty());
    assert!(manager.connected_actor_ids.contains(&1));
}

#[test]
fn closing_keeps_other_instances_in_order() {
    let mut manager = GameInstanceManager::new(module(1, false));
    let (a, _) = manager.try_enter(&guest(1), &"start".to_string()).unwrap();
    let (b, _) = manager.try_enter(&guest(2), &"start".to_string()).unwrap();
    let (c, _) = manager.try_enter(&guest(3), &"start".to_string()).unwrap();
    let before = manager.outbox.len();
    manager.close_game_instances(vec![b.clone(), "nothing".to_string()]);
    let ids: Vec<String> = manager.game_instances.iter().map(|g| g.id.clone()).collect();
    assert_eq!(ids, vec![a, c]);
    assert_eq!(manager.outbox.len(), before + 2);
}

#[test]
fn admin_enters_and_leaves_instance() {
    let mut manager = GameInstanceManager::new(module(2, false));
    let id = manager.create_new_game_instance();
    assert_eq!(
        manager.let_admin_into_instance(&admin(7), id.clone(), "w".to_string()),
        Ok(AdminEnterSuccessState::EnteredInstanceAndWorld)
    );
    assert_eq!(
        manager.let_admin_into_instance(&admin(7), id.clone(), "w2".to_string()),
        Ok(AdminEnterSuccessState::EnteredWorld)
    );
    assert_eq!(manager.active_admins[&7], vec![id.clone()]);
    assert!(manager.game_instances[0].admins.contains_key(&7));
    assert!(!manager.game_instances[0].admins[&7].connected);
    assert!(manager.connected_actor_ids.contains(&7));
    assert_eq!(
        manager.let_admin_leave_instance(&admin(7), id.clone(), "w".to_string()),
        Ok(AdminLeftSuccessState::LeftWorldAndInstance)
    );
    assert!(manager.active_admins[&7].is_empty());
    assert!(manager.game_instances[0].admins.is_empty());
    assert!(!manager.connected_actor_ids.contains(&7));
}

#[test]
fn admin_leaving_unknown_instance_is_refused() {
    let mut manager = GameInstanceManager::new(module(2, false));
    assert_eq!(
        manager.let_admin_leave_instance(&admin(7), "x".to_string(), "w".to_string()),
        Err(LeaveFailedState::NotInModule)
    );
    assert!(manager.active_admins[&7].is_empty());
}

#[test]
fn admin_in_missing_instance_only_recorded() {
    let mut manager = GameInstanceManager::new(module(2, false));
    assert_eq!(
        manager.let_admin_into_instance(&admin(7), "gone".to_string(), "w".to_string()),
        Ok(AdminEnterSuccessState::EnteredInstanceAndWorld)
    );
    assert_eq!(
        manager.let_admin_leave_instance(&admin(7), "gone".to_string(), "w".to_string()),
        Ok(AdminLeftSuccessState::LeftWorld)
    );
}

#[test]
fn disconnect_and_reconnect() {
    let mut manager = GameInstanceManager::new(module(2, false));
    let (id, _) = manager.try_enter(&guest(1), &"start".to_string()).unwrap();
    manager.apply_system_event(&id, SystemToModuleEvent::Disconnected(1));
    assert!(!manager.game_instances[0].guests[&1].guest_com.connected);
    assert!(!manager.connected_actor_ids.contains(&1));
    assert!(manager.get_active_actor_ids().is_empty());
    manager.apply_system_event(&id, SystemToModuleEvent::Reconnected(1));
    assert!(manager.game_instances[0].guests[&1].guest_com.connected);
    assert!(manager.connected_actor_ids.contains(&1));
    assert_eq!(manager.get_active_actor_ids(), vec![1]);
    manager.apply_system_event(&"elsewhere".to_string(), SystemToModuleEvent::Disconnected(1));
    assert!(manager.connected_actor_ids.contains(&1));
}

#[test]
fn active_actors_are_connected_guests_and_admins() {
    let mut manager = GameInstanceManager::new(module(3, false));
    let (id, _) = manager.try_enter(&guest(1), &"start".to_string()).unwrap();
    manager.try_enter(&guest(2), &"start".to_string()).unwrap();
    manager.apply_system_event(&id, SystemToModuleEvent::Disconnected(2));
    manager.let_admin_into_instance(&admin(9), id.clone(), "w".to_string()).unwrap();
    let mut active = manager.get_active_actor_ids();
    active.sort();
    assert_eq!(active, vec![1, 9]);
}

#[test]
fn worlds_are_created_once_per_instance() {
    let mut manager = GameInstanceManager::new(module(2, false));
    let a = manager.create_new_game_instance();
    let b = manager.create_new_game_instance();
    let results = manager.create_world(&"w1".to_string(), vec![Ok(()), Err(CreateWorldError::PhysicsPoisenError)]);
    assert_eq!(results.len(), 2);
    assert_eq!(results[0].0, a);
    assert!(matches!(&results[0].1, Ok(id) if id == "w1"));
    assert_eq!(results[1].0, b);
    assert!(matches!(results[1].1, Err(CreateWorldError::PhysicsPoisenError)));
    assert_eq!(manager.game_instances[0].worlds.len(), 1);
    assert!(manager.game_instances[1].worlds.is_empty());
    let again = manager.create_world(&"w1".to_string(), vec![Ok(()), Ok(())]);
    assert!(matches!(again[0].1, Err(CreateWorldError::DidAlreadyExist)));
    assert!(matches!(&again[1].1, Ok(id) if id == "w1"));
}

#[test]
fn worlds_with_admins_are_not_destroyed() {
    let mut manager = GameInstanceManager::new(module(2, false));
    let id = manager.create_new_game_instance();
    manager.create_world(&"w1".to_string(), vec![Ok(())]);
    manager.let_admin_into_instance(&admin(4), id.clone(), "w1".to_string()).unwrap();
    assert!(manager.game_instances[0].worlds[0].admins.contains(&4));
    let results = manager.destroy_world(&"w1".to_string());
    assert_eq!(results[0].1, Err(DestroyWorldError::StillHasInhabitants));
    manager.let_admin_leave_instance(&admin(4), id.clone(), "w1".to_string()).unwrap();
    assert!(manager.game_instances[0].worlds[0].admins.is_empty());
    let results = manager.destroy_world(&"w1".to_string());
    assert_eq!(results[0].1, Ok("w1".to_string()));
    assert!(manager.game_instances[0].worlds.is_empty());
    let results = manager.destroy_world(&"w1".to_string());
    assert_eq!(results[0].1, Err(DestroyWorldError::DidNotExist));
}

#[test]
fn an_instance_is_named_by_the_decimal_text_of_its_number() {
    let mut manager = GameInstanceManager::new(module(2, false));
    let id = manager.create_game_instance_with_number(-9_000_000_000_001);
    assert_eq!(id, "-9000000000001");
    assert_eq!(manager.game_instances.len(), 1);
    let again = manager.create_game_instance_with_number(-9_000_000_000_001);
    assert_eq!(again, id);
    assert_eq!(manager.game_instances.len(), 1);
    assert_eq!(manager.outbox.len(), 2);
    assert_eq!(manager.create_game_instance_with_number(0), "0");
    assert_eq!(manager.create_game_instance_with_number(i64::MIN), i64::MIN.to_string());
}

#[test]
fn new_instances_get_distinct_ids() {
    let mut manager = GameInstanceManager::new(module(2, false));
    let mut ids: Vec<String> = (0..50).map(|_| manager.create_new_game_instance()).collect();
    assert_eq!(manager.game_instances.len(), 50);
    ids.sort();
    ids.dedup();
    assert_eq!(ids.len(), 50);
}

#[test]
fn guest_input_starts_released_and_reads_by_key_name() {
    let mut input = GuestInput::new();
    assert!(!input.is_key_down("right"));
    input.right = true;
    input.action_2 = true;
    input.jump = true;
    assert!(input.is_key_down("right"));
    assert!(input.is_key_down("action_2"));
    assert!(!input.is_key_down("left"));
    assert!(!input.is_key_down("jump"));
    assert!(!input.is_key_down("righ"));
    assert!(!input.is_key_down(""));
}

#[test]
fn guest_input_is_stored_for_a_guest_of_the_instance_only() {
    let mut manager = GameInstanceManager::new(module(2, false));
    manager.try_enter(&guest(1), &"start".to_string()).unwrap();
    assert_eq!(manager.game_instances[0].guests[&1].guest_input, GuestInput::new());
    let mut input = GuestInput::new();
    input.up = true;
    manager.game_instances[0].set_guest_input(1, input);
    manager.game_instances[0].set_guest_input(9, input);
    assert!(manager.game_instances[0].guests[&1].guest_input.is_key_down("up"));
    assert!(manager.game_instances[0].guests[&1].guest_com.connected);
    assert_eq!(manager.game_instances[0].guests.len(), 1);
}
