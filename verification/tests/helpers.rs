use std::collections::{HashMap, HashSet};
use std::sync::Arc;

use flatzinc_serde::helpers::ArcKey;

#[test]
fn arc_key() {
    let key = Arc::new(42);
    let arc_key = ArcKey::new(Arc::clone(&key));
    assert_eq!(*arc_key, 42);
    assert_eq!(*arc_key.key(), key);
}

#[test]
fn arc_key_uses_pointer_equality() {
    let key = Arc::new(String::from("value"));
    let same_ptr = ArcKey::new(Arc::clone(&key));
    let also_same_ptr = ArcKey::new(Arc::clone(&key));
    let different_ptr = ArcKey::new(Arc::new(String::from("value")));

    assert_eq!(same_ptr, also_same_ptr);
    assert_ne!(same_ptr, different_ptr);
}

#[test]
fn arc_key_works_in_hash_map() {
    let key = Arc::new(String::from("entry"));
    let same_ptr = ArcKey::new(Arc::clone(&key));
    let different_ptr = ArcKey::new(Arc::new(String::from("entry")));
    let mut map = HashMap::new();

    let _ = map.insert(same_ptr.clone(), 1);
    let _ = map.insert(ArcKey::new(Arc::clone(&key)), 2);
    let _ = map.insert(different_ptr.clone(), 3);

    assert_eq!(map.len(), 2);
    assert_eq!(map.get(&same_ptr), Some(&2));
    assert_eq!(map.get(&ArcKey::new(key)), Some(&2));
    assert_eq!(map.get(&different_ptr), Some(&3));
}

#[test]
fn arc_key_works_in_hash_set() {
    let key = Arc::new(7_u32);
    let same_ptr = ArcKey::new(Arc::clone(&key));
    let different_ptr = ArcKey::new(Arc::new(7_u32));

    let mut set = HashSet::new();
    let _ = set.insert(same_ptr.clone());
    let _ = set.insert(ArcKey::new(key));
    let _ = set.insert(different_ptr.clone());

    assert_eq!(set.len(), 2);
    assert!(set.contains(&same_ptr));
    assert!(set.contains(&different_ptr));
}

#[test]
fn arc_key_same_key_and_into_arc() {
    let key = Arc::new(String::from("v"));
    let a = ArcKey::new(Arc::clone(&key));
    let b = ArcKey::new(Arc::clone(&key));
    let c = ArcKey::new(Arc::new(String::from("v")));
    assert!(a.same_key(&b));
    assert!(!a.same_key(&c));
    assert_eq!(a.get(), "v");
    let back: Arc<String> = a.into();
    assert!(Arc::ptr_eq(&back, &key));
}
