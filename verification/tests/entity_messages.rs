use shiku_home::entity_communication::{Entity, EntityCommunicationSystem};

fn subscribers(system: &EntityCommunicationSystem<i64>, entity: u32) -> Vec<u32> {
    let mut v: Vec<u32> = system
        .entity_to_subscribers_map
        .get(&entity)
        .map(|s| s.iter().copied().collect())
        .unwrap_or_default();
    v.sort();
    v
}

fn subscriptions(system: &EntityCommunicationSystem<i64>, subscriber: u32) -> Vec<u32> {
    let mut v: Vec<u32> = system
        .subscriber_to_entities_map
        .get(&subscriber)
        .map(|s| s.iter().copied().collect())
        .unwrap_or_default();
    v.sort();
    v
}

#[test]
fn subscriptions_are_kept_both_ways() {
    let mut system: EntityCommunicationSystem<i64> = EntityCommunicationSystem::new();
    system.subscribe(Entity(1), Entity(2));
    system.subscribe(Entity(1), Entity(3));
    system.subscribe(Entity(4), Entity(2));
    assert_eq!(subscribers(&system, 1), vec![2, 3]);
    assert_eq!(subscriptions(&system, 2), vec![1, 4]);
    system.unsubscribe(Entity(1), Entity(2));
    assert_eq!(subscribers(&system, 1), vec![3]);
    assert_eq!(subscriptions(&system, 2), vec![4]);
}

#[test]
fn unsubscribing_what_was_never_subscribed_adds_nothing() {
    let mut system: EntityCommunicationSystem<i64> = EntityCommunicationSystem::new();
    system.unsubscribe(Entity(1), Entity(2));
    assert!(system.entity_to_subscribers_map.is_empty());
    assert!(system.subscriber_to_entities_map.is_empty());
}

#[test]
fn removing_an_entity_drops_its_subscribers_only() {
    let mut system: EntityCommunicationSystem<i64> = EntityCommunicationSystem::new();
    system.subscribe(Entity(1), Entity(2));
    system.subscribe(Entity(1), Entity(3));
    system.subscribe(Entity(5), Entity(1));
    system.remove_entity(Entity(1));
    assert!(!system.entity_to_subscribers_map.contains_key(&1));
    assert!(subscriptions(&system, 2).is_empty());
    assert!(subscriptions(&system, 3).is_empty());
    assert_eq!(subscribers(&system, 5), vec![1]);
    assert_eq!(subscriptions(&system, 1), vec![5]);
}

#[test]
fn a_published_value_is_read_back_and_queued() {
    let mut system: EntityCommunicationSystem<i64> = EntityCommunicationSystem::new();
    assert_eq!(system.get_last_cached_value(Entity(1), "hp"), None);
    system.publish(Entity(1), String::from("hp"), 10);
    system.publish(Entity(1), String::from("mp"), 3);
    system.publish(Entity(1), String::from("hp"), 7);
    assert_eq!(system.get_last_cached_value(Entity(1), "hp"), Some(7));
    assert_eq!(system.get_last_cached_value(Entity(1), "mp"), Some(3));
    assert_eq!(system.get_last_cached_value(Entity(2), "hp"), None);
    assert_eq!(system.event_queue.len(), 3);
    assert_eq!(system.event_queue[2], (Entity(1), String::from("hp"), 7));
    assert_eq!(system.last_value_cache[&1].len(), 2);
}
