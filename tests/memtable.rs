use lsm_store::memtable::MemTable;
use lsm_store::types::Entry;
use std::sync::Arc;

#[test]
fn new_memtable() {
    let memtable: MemTable<String, String> = MemTable::new();
    assert_eq!(memtable.len(), 0);
    assert_eq!(memtable.entry_count(), 0);
    assert!(memtable.iter().is_empty());
}

#[test]
fn put_get() {
    let mut memtable: MemTable<String, String> = MemTable::new();

    let key = "key".to_string();
    let arc_value = Arc::new("value".to_string());
    memtable.put(key.clone(), arc_value.clone());
    assert_eq!(memtable.len(), 1);
    assert_eq!(memtable.get(&key), Some(Arc::new("value".to_string())));
}

#[test]
fn put_overwrite() {
    let mut memtable: MemTable<String, String> = MemTable::new();

    let key = "key".to_string();
    let arc_value1 = Arc::new("value1".to_string());
    let arc_value2 = Arc::new("value2".to_string());
    memtable.put(key.clone(), arc_value1.clone());
    assert_eq!(memtable.len(), 1);
    assert_eq!(memtable.get(&key), Some(Arc::new("value1".to_string())));

    memtable.put(key.clone(), arc_value2.clone());
    assert_eq!(memtable.len(), 1);
    assert_eq!(memtable.get(&key), Some(Arc::new("value2".to_string())));
}

#[test]
fn delete_value() {
    let mut memtable: MemTable<String, String> = MemTable::new();

    let key = "key".to_string();
    let arc_value = Arc::new("value".to_string());
    memtable.put(key.clone(), arc_value.clone());
    assert_eq!(memtable.len(), 1);
    assert_eq!(memtable.get(&key), Some(Arc::new("value".to_string())));

    memtable.delete(key.clone());
    assert_eq!(memtable.len(), 0);
    assert!(memtable.get(&key).is_none());
    // the key is still held, as a tombstone
    assert_eq!(memtable.entry_count(), 1);
}

#[test]
fn clear_all() {
    let mut memtable: MemTable<String, String> = MemTable::new();

    let key1 = "key1".to_string();
    let arc_value1 = Arc::new("value1".to_string());
    memtable.put(key1.clone(), arc_value1.clone());

    let key2 = "key2".to_string();
    let arc_value2 = Arc::new("value2".to_string());
    memtable.put(key2.clone(), arc_value2.clone());

    memtable.clear();
    assert_eq!(memtable.len(), 0);
    assert!(memtable.get(&key1).is_none());
    assert!(memtable.get(&key2).is_none());
    assert_eq!(memtable.entry_count(), 0);
    assert!(memtable.iter().is_empty());
}

#[test]
fn iter() {
    let mut memtable: MemTable<String, String> = MemTable::new();

    let key1 = "key1".to_string();
    let arc_value1 = Arc::new("value1".to_string());
    memtable.put(key1.clone(), arc_value1.clone());

    let key2 = "key2".to_string();
    let arc_value2 = Arc::new("value2".to_string());
    memtable.put(key2.clone(), arc_value2.clone());

    let items = memtable.iter();
    assert!(items.len() >= 1, "Iterator should have at least 1 item");
    let (k, entry) = items[0];
    assert_eq!(k, &key1);
    assert!(!entry.is_tombstone);
    let v1 = entry.value.as_ref().unwrap();
    assert_eq!(v1.as_str(), "value1");

    assert!(items.len() >= 2, "Iterator should have at least 2 items");
    let (k, entry) = items[1];
    assert_eq!(k, &key2);
    assert!(!entry.is_tombstone);
    let v2 = entry.value.as_ref().unwrap();
    assert_eq!(v2.as_str(), "value2");
    assert_eq!(items.len(), 2);
}

#[test]
fn iter_tombstone() {
    let mut memtable: MemTable<String, String> = MemTable::new();

    let key1 = "key1".to_string();
    let arc_value1 = Arc::new("value1".to_string());
    memtable.put(key1.clone(), arc_value1.clone());

    let key2 = "key2".to_string();
    let arc_value2 = Arc::new("value2".to_string());
    memtable.put(key2.clone(), arc_value2.clone());

    memtable.delete(key1.clone());

    let items = memtable.iter();

    // deleted keys are still listed, since a flush must write their tombstones
    assert!(items.len() >= 2, "Iterator should have at least 2 item");
    let (k, entry) = items[0];
    assert_eq!(k, &key1);
    assert!(entry.is_tombstone);
    assert!(entry.value.is_none());

    let (k, entry) = items[1];
    assert_eq!(k, &key2);
    assert!(!entry.is_tombstone);
    assert_eq!(entry.value.as_ref().unwrap(), &arc_value2);

    assert_eq!(items.len(), 2);
}

#[test]
fn iter_orders_keys_by_bytes() {
    let mut memtable: MemTable<String, String> = MemTable::new();
    for k in ["pear", "apple", "fig", "apples", "Zed"] {
        memtable.put(k.to_string(), Arc::new(k.to_uppercase()));
    }
    let keys: Vec<&String> = memtable.iter().into_iter().map(|(k, _)| k).collect();
    assert_eq!(keys, vec!["Zed", "apple", "apples", "fig", "pear"]);
}

#[test]
fn delete_unknown_key_leaves_tombstone() {
    let mut memtable: MemTable<String, String> = MemTable::new();
    let prior = memtable.delete("ghost".to_string());
    assert!(prior.is_none());
    assert_eq!(memtable.len(), 0);
    assert_eq!(memtable.entry_count(), 1);
    let items = memtable.iter();
    assert!(items[0].1.is_tombstone);
}

#[test]
fn put_returns_prior_entry_and_resurrects_tombstone() {
    let mut memtable: MemTable<String, String> = MemTable::new();
    assert!(memtable.put("k".to_string(), Arc::new("1".to_string())).is_none());
    let prior = memtable.delete("k".to_string()).unwrap();
    assert!(!prior.is_tombstone);
    assert_eq!(prior.value.unwrap().as_str(), "1");
    let prior = memtable.put("k".to_string(), Arc::new("2".to_string())).unwrap();
    assert!(prior.is_tombstone);
    assert_eq!(memtable.get(&"k".to_string()), Some(Arc::new("2".to_string())));
    assert_eq!(memtable.len(), 1);
}

#[test]
fn entry_constructors_and_clone() {
    let live = Entry::live(Arc::new(7u32));
    assert!(!live.is_tombstone);
    let copy = live.clone();
    assert_eq!(copy, live);
    assert!(Arc::ptr_eq(copy.value.as_ref().unwrap(), live.value.as_ref().unwrap()));
    let gone: Entry<u32> = Entry::tombstone();
    assert!(gone.is_tombstone && gone.value.is_none());
    assert_ne!(gone, live);
    assert_eq!(live.into_value(), Some(Arc::new(7u32)));
    assert_eq!(gone.into_value(), None);
}
