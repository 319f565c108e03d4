use hammer::store::{LruSet, Store};

#[test]
fn lru_set_insert_replaces_the_set() {
    let mut s = LruSet::with_capacity(2);

    assert!(s.insert(1, 10));
    assert!(!s.insert(1, 10));
    assert!(s.insert(1, 11));
    let kept = s.get(&1).unwrap();
    assert_eq!(kept.len(), 1);
    assert!(kept.contains(&11));
}

#[test]
fn lru_set_forgets_least_recently_used() {
    let mut s = LruSet::with_capacity(2);

    s.insert(1, 10);
    s.insert(2, 20);
    assert!(s.get(&1).is_some());
    s.insert(3, 30);

    assert!(s.get(&2).is_none());
    assert!(s.get(&1).is_some());
    assert!(s.get(&3).is_some());
}

#[test]
fn lru_set_without_capacity_keeps_nothing() {
    let mut s = LruSet::with_capacity(0);

    assert!(s.insert(1, 10));
    assert!(s.get(&1).is_none());
}

#[test]
fn lru_set_remove_changes_nothing() {
    let mut s = LruSet::with_capacity(1);

    s.insert(1, 10);
    assert!(s.remove(1, 10));
    assert!(s.get(&1).unwrap().contains(&10));
}
