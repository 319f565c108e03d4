use std::collections::HashMap;

use hammer::index::Indexable;

fn indexable<I: Indexable<String, String>>(_i: I) -> bool {
    return true;
}

#[test]
fn is_indexable() {
    let index: HashMap<String, String> = HashMap::new();
    assert!(indexable(index));
}

#[test]
fn returns_none() {
    let key = "foo".to_string();
    let index: HashMap<String, String> = HashMap::new();

    assert_eq!(index.find(&key), None);
}

#[test]
fn assigns_values() {
    let key = "key".to_string();
    let value = "value".to_string();
    let mut index: HashMap<String, String> = HashMap::new();

    index.insert(key.clone(), value.clone());

    assert!(index.find(&key) == Some(&value));
}

#[test]
fn removes_values() {
    let key = "key".to_string();
    let value = "value".to_string();
    let mut index: HashMap<String, String> = HashMap::new();

    index.insert(key.clone(), value.clone());
    index.remove(&key);

    assert!(index.find(&key) == None);
}

#[test]
fn index_insert_and_remove_answer_whether_the_key_was_kept() {
    let mut index: HashMap<u64, u64> = HashMap::new();
    assert!(Indexable::insert(&mut index, 1, 10));
    assert!(!Indexable::insert(&mut index, 1, 11));
    assert_eq!(Indexable::find(&index, &1), Some(&11));
    assert!(Indexable::remove(&mut index, &1));
    assert!(!Indexable::remove(&mut index, &1));
    assert_eq!(Indexable::find(&index, &1), None);
}
