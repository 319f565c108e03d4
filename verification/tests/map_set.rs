use hammer::map_set::{InMemoryHash, MapSet};
use rand::{thread_rng, Rng};

#[test]
fn in_memory_hash_inserted_exists() {
    let mut rng = thread_rng();
    for _ in 0..500 {
        let k: u64 = rng.gen();
        let v: u64 = rng.gen();
        let mut db = InMemoryHash::new();
        db.insert(k.clone(), v.clone());

        match db.get(&k) {
            Some(results) => assert!(results.contains(&v)),
            None => panic!("inserted key not found"),
        }
    }
}

#[test]
fn in_memory_hash_not_inserted_no_exists() {
    let mut rng = thread_rng();
    for _ in 0..500 {
        let k: u64 = rng.gen();
        let v1: u64 = rng.gen();
        let v2: u64 = rng.gen();
        if v1 == v2 {
            continue;
        }

        let mut db = InMemoryHash::new();
        db.insert(k.clone(), v1.clone());

        match db.get(&k) {
            Some(results) => assert!(!results.contains(&v2)),
            None => panic!("inserted key not found"),
        }
    }
}

#[test]
fn in_memory_hash_key_not_inserted_no_exists() {
    let mut rng = thread_rng();
    for _ in 0..500 {
        let k1: u64 = rng.gen();
        let k2: u64 = rng.gen();
        let v: u64 = rng.gen();
        if k1 == k2 {
            continue;
        }

        let mut db = InMemoryHash::new();
        db.insert(k1.clone(), v.clone());

        assert!(db.get(&k2).is_none());
    }
}

#[test]
fn in_memory_hash_deleted_no_exists() {
    let mut rng = thread_rng();
    for _ in 0..500 {
        let k: u64 = rng.gen();
        let v1: u64 = rng.gen();
        let v2: u64 = rng.gen();
        if v1 == v2 {
            continue;
        }

        let mut db = InMemoryHash::new();
        db.insert(k.clone(), v1.clone());
        db.insert(k.clone(), v2.clone());
        db.remove(&k, &v1);

        match db.get(&k) {
            Some(results) => assert!(!results.contains(&v1)),
            None => panic!("key with a remaining value not found"),
        }
    }
}

#[test]
fn in_memory_hash_not_deleted_exists() {
    let mut rng = thread_rng();
    for _ in 0..500 {
        let k: u64 = rng.gen();
        let v1: u64 = rng.gen();
        let v2: u64 = rng.gen();
        if v1 == v2 {
            continue;
        }

        let mut db = InMemoryHash::new();
        db.insert(k.clone(), v1.clone());
        db.insert(k.clone(), v2.clone());
        db.remove(&k, &v1);

        match db.get(&k) {
            Some(results) => assert!(results.contains(&v2)),
            None => panic!("key with a remaining value not found"),
        }
    }
}

#[test]
fn in_memory_hash_key_deleted_no_exists() {
    let mut rng = thread_rng();
    for _ in 0..500 {
        let k1: u64 = rng.gen();
        let k2: u64 = rng.gen();
        let v1: u64 = rng.gen();
        let v2: u64 = rng.gen();
        if k1 == k2 {
            continue;
        }

        let mut db = InMemoryHash::new();
        db.insert(k1.clone(), v1.clone());
        db.insert(k2.clone(), v2.clone());
        db.remove(&k1, &v1);

        assert!(db.get(&k1).is_none());
    }
}

#[test]
fn in_memory_hash_insert_and_remove_report_changes() {
    let mut db = InMemoryHash::new();

    assert!(db.insert(1, 2));
    assert!(!db.insert(1, 2));
    assert!(db.remove(&1, &2));
    assert!(!db.remove(&1, &2));
    assert!(db.get(&1).is_none());
}

#[test]
fn in_memory_hash_default_is_empty() {
    let mut s: InMemoryHash<u64, u64> = Default::default();
    assert_eq!(s.get(&1), None);
    assert!(s.insert(1, 2));
}
