use shiku_home::lazy_set::LazyHashmapSet;
use shiku_home::managed_map::ManagedMap;
use shiku_home::util::{get_imports, safe_unwrap, safe_unwrap_ref};

#[test]
fn safe_unwrap_gives_value_or_error() {
    assert_eq!(safe_unwrap(Some(3), "missing"), Ok(3));
    assert_eq!(safe_unwrap(None::<i32>, "missing"), Err("missing"));
    let value = Some(String::from("x"));
    assert_eq!(safe_unwrap_ref(&value, 1), Ok(&String::from("x")));
    assert_eq!(safe_unwrap_ref(&None::<String>, 1), Err(1));
}

#[test]
fn generated_imports_header() {
    let imports = get_imports();
    assert!(imports.starts_with("#![allow(dead_code)]"));
    assert!(imports.contains("use snowflake::SnowflakeIdBucket;"));
    assert!(imports.ends_with("use std::iter::{Filter, Map};"));
}

#[test]
fn lazy_set_ignores_unknown_keys() {
    let mut sets: LazyHashmapSet<u32, u32> = LazyHashmapSet::new();
    sets.insert_entry(1, 10);
    assert_eq!(sets.len(&1), 0);
    assert!(!sets.remove_entry(1, &10));
    sets.init(1);
    sets.insert_entry(1, 10);
    sets.insert_entry(1, 11);
    sets.insert_entry(1, 10);
    assert_eq!(sets.len(&1), 2);
}

#[test]
fn lazy_set_insert_then_remove_entry() {
    let mut sets: LazyHashmapSet<u32, u32> = LazyHashmapSet::new();
    sets.init(4);
    sets.insert_entry(4, 7);
    assert!(sets.remove_entry(4, &7));
    assert_eq!(sets.len(&4), 0);
    assert!(!sets.remove_entry(4, &7));
}

#[test]
fn lazy_set_init_clears_and_remove_forgets() {
    let mut sets: LazyHashmapSet<u32, u32> = LazyHashmapSet::new();
    sets.init(2);
    sets.insert_entry(2, 5);
    sets.init(2);
    assert_eq!(sets.len(&2), 0);
    sets.insert_entry(2, 5);
    let removed = sets.remove(&2);
    assert_eq!(removed.map(|s| s.len()), Some(1));
    assert!(sets.remove(&2).is_none());
    sets.insert_entry(2, 6);
    assert_eq!(sets.len(&2), 0);
}

#[test]
fn lazy_set_filter_keeps_matching_values() {
    let mut sets: LazyHashmapSet<u32, u32> = LazyHashmapSet::new();
    sets.init(1);
    for v in 0..6 {
        sets.insert_entry(1, v);
    }
    sets.filter(1, |v: &u32| *v % 2 == 0);
    assert_eq!(sets.len(&1), 3);
    assert!(sets.remove_entry(1, &4));
    assert!(!sets.remove_entry(1, &3));
    sets.filter(9, |_v: &u32| false);
    assert_eq!(sets.len(&9), 0);
}

#[test]
fn managed_map_deletes_marked_entries() {
    let mut map: ManagedMap<u32, &str> = ManagedMap::new();
    map.insert(1, "one");
    map.insert(2, "two");
    map.insert(3, "three");
    map.data.get_mut(&2).unwrap().mark_for_deletion();
    let removed = map.delete();
    assert_eq!(removed, vec!["two"]);
    assert_eq!(map.data.len(), 2);
    assert!(map.data.contains_key(&1));
    assert!(!map.data.contains_key(&2));
    assert_eq!(map.data[&3].data, "three");
    assert!(map.delete().is_empty());
}

#[test]
fn managed_map_insert_replaces_and_unmarks() {
    let mut map: ManagedMap<u32, i32> = ManagedMap::new();
    map.insert(5, 1);
    map.data.get_mut(&5).unwrap().mark_for_deletion();
    map.insert(5, 2);
    assert!(map.delete().is_empty());
    assert_eq!(map.data[&5].data, 2);
}

#[test]
fn managed_map_marking_one_entry_through_entries_mut_deletes_only_it() {
    let mut map: ManagedMap<u32, &str> = ManagedMap::new();
    map.insert(1, "one");
    map.insert(2, "two");
    map.entries_mut().get_mut(&2).unwrap().mark_for_deletion();
    let removed = map.delete();
    assert_eq!(removed, vec!["two"]);
    assert!(map.data.contains_key(&1));
    assert!(!map.data.contains_key(&2));
    assert_eq!(map.data[&1].data, "one");
    assert!(map.delete().is_empty());
}
