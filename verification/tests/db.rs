use std::collections::HashSet;
use std::iter::repeat;

use rand::seq::index::sample;
use rand::{thread_rng, Rng};

use hammer::db::{TypeMapVecU8, DB};
use hammer::window::Window;

#[test]
fn db_test_ddb_partition_evenly() {
    let a: DB<TypeMapVecU8> = DB::new(32, 5);

    assert_eq!(a.dimensions, 32);
    assert_eq!(a.tolerance, 5);
    assert_eq!(a.partition_count, 4);
    assert_eq!(
        a.partitions,
        vec![
            Window { start_dimension: 0, dimensions: 8 },
            Window { start_dimension: 8, dimensions: 8 },
            Window { start_dimension: 16, dimensions: 8 },
            Window { start_dimension: 24, dimensions: 8 }
        ]
    );
}

#[test]
fn db_test_ddb_partition_unevenly() {
    let a: DB<TypeMapVecU8> = DB::new(32, 7);

    assert_eq!(a.dimensions, 32);
    assert_eq!(a.tolerance, 7);
    assert_eq!(a.partition_count, 5);
    assert_eq!(
        a.partitions,
        vec![
            Window { start_dimension: 0, dimensions: 7 },
            Window { start_dimension: 7, dimensions: 7 },
            Window { start_dimension: 14, dimensions: 6 },
            Window { start_dimension: 20, dimensions: 6 },
            Window { start_dimension: 26, dimensions: 6 },
        ]
    );
}

#[test]
fn db_test_ddb_partition_too_many() {
    let a: DB<TypeMapVecU8> = DB::new(4, 8);

    assert_eq!(a.dimensions, 4);
    assert_eq!(a.tolerance, 8);
    assert_eq!(a.partition_count, 3);
    assert_eq!(
        a.partitions,
        vec![
            Window { start_dimension: 0, dimensions: 2 },
            Window { start_dimension: 2, dimensions: 1 },
            Window { start_dimension: 3, dimensions: 1 },
        ]
    );
}

#[test]
fn db_test_ddb_partition_zero() {
    let a: DB<TypeMapVecU8> = DB::new(32, 0);

    assert_eq!(a.dimensions, 32);
    assert_eq!(a.tolerance, 0);
    assert_eq!(a.partition_count, 1);
    assert_eq!(a.partitions, vec![Window { start_dimension: 0, dimensions: 32 },]);
}

#[test]
fn db_test_ddb_partition_with_no_bytes() {
    let a: DB<TypeMapVecU8> = DB::new(0, 0);

    assert_eq!(a.dimensions, 0);
    assert_eq!(a.tolerance, 0);
    assert_eq!(a.partition_count, 1);
    assert_eq!(a.partitions, vec![Window { start_dimension: 0, dimensions: 0 },]);
}

#[test]
fn db_find_missing_key() {
    let p: DB<TypeMapVecU8> = DB::new(8, 2);
    let a = vec![0, 0, 0, 0, 0, 0, 0, 0];
    let keys = p.get(&a);

    assert_eq!(None, keys);
}

#[test]
fn db_insert_first_key() {
    let mut p: DB<TypeMapVecU8> = DB::new(8, 2);
    let a = vec![0, 0, 0, 0, 0, 0, 0, 0];

    assert!(p.insert(a.clone()));
}

#[test]
fn db_insert_second_key() {
    let mut p: DB<TypeMapVecU8> = DB::new(8, 2);
    let a = vec![0, 0, 0, 0, 0, 0, 0, 0];

    p.insert(a.clone());

    assert!(!p.insert(a.clone()));
}

#[test]
fn db_find_inserted_key() {
    let mut p: DB<TypeMapVecU8> = DB::new(8, 2);
    let a = vec![0, 0, 0, 0, 0, 0, 0, 0];
    let mut b = HashSet::new();
    b.insert(a.clone());

    assert!(p.insert(a.clone()));

    let keys = p.get(&a);

    assert_eq!(Some(b), keys);
}

#[test]
fn db_find_permutations_of_inserted_key() {
    let mut p: DB<TypeMapVecU8> = DB::new(8, 2);
    let a = vec![0, 0, 0, 0, 0, 0, 0, 0];
    let b = vec![0, 0, 0, 0, 0, 0, 0, 1];
    let mut c = HashSet::new();
    c.insert(a.clone());

    p.insert(a.clone());

    let keys = p.get(&b);

    assert_eq!(Some(c), keys);
}

#[test]
fn db_find_permutations_of_multiple_similar_keys() {
    let mut p: DB<TypeMapVecU8> = DB::new(8, 4);
    let a = vec![0, 0, 0, 0, 0, 0, 0, 0];
    let b = vec![1, 0, 0, 0, 0, 0, 0, 0];
    let c = vec![1, 0, 0, 0, 0, 0, 0, 1];
    let d = vec![1, 1, 0, 0, 0, 0, 0, 1];
    let e = vec![1, 1, 0, 0, 0, 0, 1, 1];
    let mut f = HashSet::new();
    f.insert(b.clone());
    f.insert(c.clone());
    f.insert(d.clone());
    f.insert(e.clone());

    p.insert(b.clone());
    p.insert(c.clone());
    p.insert(d.clone());
    p.insert(e.clone());

    let keys = p.get(&a);

    assert_eq!(Some(f), keys);
}

#[test]
fn db_find_permutation_of_inserted_key() {
    let mut rng1 = thread_rng();
    let mut rng2 = thread_rng();
    let dimensions = 8;
    let max_hd = 3;

    for _ in 0..1000 {
        let i: usize = rng1.gen();
        let start_dimensions = sample(&mut rng2, dimensions, i % max_hd).into_vec();
        let mut p: DB<TypeMapVecU8> = DB::new(dimensions, max_hd);
        let a = repeat(1).take(dimensions).collect::<Vec<u8>>();

        let mut b = a.clone();
        for start_dimension in start_dimensions.iter() {
            b[*start_dimension] = 0;
        }

        let mut c = HashSet::new();
        c.insert(a.clone());

        assert!(p.insert(a.clone()));

        let keys = p.get(&b);

        assert_eq!(Some(c), keys);
    }
}

#[test]
fn db_dont_find_permutation_of_inserted_key() {
    let mut rng1 = thread_rng();
    let mut rng2 = thread_rng();
    let dimensions = 8;
    let max_hd = 3;

    let mut done = 0;
    while done < 1000 {
        // Select a random number of elements in the range [0,dimensions]
        let i: usize = rng1.gen();
        let start_dimensions = sample(&mut rng2, dimensions, i % dimensions).into_vec();
        // Keep selections with more than the max tolerance
        if start_dimensions.len() <= max_hd {
            continue;
        }
        done += 1;

        let mut p: DB<TypeMapVecU8> = DB::new(dimensions, max_hd);
        let a = repeat(1).take(dimensions).collect::<Vec<u8>>();

        let mut b = a.clone();
        for start_dimension in start_dimensions.iter() {
            b[*start_dimension] = 0;
        }

        assert!(p.insert(a.clone()));

        let keys = p.get(&b);

        assert_eq!(None, keys);
    }
}

#[test]
fn db_remove_inserted_key() {
    let mut p: DB<TypeMapVecU8> = DB::new(8, 2);
    let a = vec![0, 0, 0, 0, 0, 0, 0, 0];

    p.insert(a.clone());

    assert!(p.remove(&a));

    let keys = p.get(&a);

    assert_eq!(None, keys);
}

#[test]
fn db_remove_missing_key() {
    let mut p: DB<TypeMapVecU8> = DB::new(8, 2);
    let a = vec![0, 0, 0, 0, 0, 0, 0, 0];

    assert!(!p.remove(&a));
}

fn encode_u64(x: u64) -> Vec<u8> {
    bincode::serialize(&x).unwrap()
}

/// Reading a value back after other values were inserted and one removed.
#[test]
fn db_idempotent_read() {
    let mut rng = thread_rng();
    for _ in 0..200 {
        let a: u64 = rng.gen();
        let b: u64 = rng.gen();
        let c: u64 = rng.gen();
        if a == c {
            continue;
        }
        let avec = encode_u64(a);
        let bvec = encode_u64(b);
        let cvec = encode_u64(c);

        let mut p: DB<TypeMapVecU8> = DB::new(8, 4);
        p.insert(avec.clone());
        p.insert(bvec.clone());
        p.insert(cvec.clone());
        p.remove(&cvec);

        match p.get(&avec) {
            Some(results) => assert!(results.contains(&avec)),
            None => panic!("inserted value not found"),
        }
    }
}

/// Removing a value after other values were inserted and one removed.
#[test]
fn db_idempotent_delete() {
    let mut rng = thread_rng();
    for _ in 0..200 {
        let a: u64 = rng.gen();
        let b: u64 = rng.gen();
        let c: u64 = rng.gen();
        if a == c {
            continue;
        }
        let avec = encode_u64(a);
        let bvec = encode_u64(b);
        let cvec = encode_u64(c);

        let mut p: DB<TypeMapVecU8> = DB::new(8, 4);
        p.insert(avec.clone());
        p.insert(bvec.clone());
        p.insert(cvec.clone());
        p.remove(&cvec);

        assert!(p.remove(&avec));
    }
}

#[test]
fn db_checked_insert_and_remove() {
    let mut p: DB<TypeMapVecU8> = DB::new(8, 2);
    let a = vec![0, 1, 2, 3, 4, 5, 6, 7];

    assert_eq!(p.insert_checked(a.clone()), Some(true));
    assert_eq!(p.insert_checked(a.clone()), Some(false));
    assert_eq!(p.remove_checked(&a), Some(true));
    assert_eq!(p.remove_checked(&a), Some(false));
}

#[test]
fn db_zero_dimensions_index_nothing() {
    let mut p: DB<TypeMapVecU8> = DB::new(0, 0);
    let a: Vec<u8> = vec![];

    assert!(!p.insert(a.clone()));
    assert_eq!(p.get(&a), None);
    assert!(!p.remove(&a));
}

#[test]
fn db_query_outside_tolerance_not_found() {
    let mut p: DB<TypeMapVecU8> = DB::new(12, 2);
    let a = vec![0; 12];
    let b = vec![1, 1, 1, 0, 0, 0, 0, 0, 0, 0, 0, 0];

    p.insert(a.clone());

    assert_eq!(p.get(&b), None);
    let mut expected = HashSet::new();
    expected.insert(a.clone());
    assert_eq!(p.get(&vec![1, 1, 0, 0, 0, 0, 0, 0, 0, 0, 0, 0]), Some(expected));
}

#[test]
fn databases_compare_by_shape() {
    let a: DB<TypeMapVecU8> = DB::new(32, 5);
    let mut b: DB<TypeMapVecU8> = DB::new(32, 5);
    let c: DB<TypeMapVecU8> = DB::new(32, 7);
    assert!(a == b);
    assert!(a != c);
    // contents are not compared
    b.insert(vec![0u8; 32]);
    assert!(a == b);
}

#[test]
fn db_with_stores_takes_default_stores() {
    let stores = vec![Default::default(), Default::default(), Default::default(), Default::default()];
    let mut a: DB<TypeMapVecU8> = DB::with_stores(32, 5, Default::default(), stores);
    let v = vec![1u8; 32];
    assert!(a.insert(v.clone()));
    let mut expected = HashSet::new();
    expected.insert(v.clone());
    assert_eq!(a.get(&v), Some(expected));
}

#[test]
fn db_exact_match_in_narrow_partition_counts() {
    // two partitions of two dimensions: the value matches the query exactly
    // in the first and differs in both dimensions of the second
    let mut p: DB<TypeMapVecU8> = DB::new(4, 2);
    let v = vec![0u8, 0, 1, 1];
    p.insert(v.clone());
    let mut expected = HashSet::new();
    expected.insert(v.clone());
    assert_eq!(p.get(&vec![0u8, 0, 0, 0]), Some(expected));
}

#[test]
fn db_single_dimension_odd_tolerance_misses_itself() {
    // one dimension, tolerance one: only one partition holds a dimension,
    // which an odd tolerance does not accept on its own
    let mut p: DB<TypeMapVecU8> = DB::new(1, 1);
    p.insert(vec![0u8]);
    assert_eq!(p.get(&vec![0u8]), None);
}

#[test]
fn db_add_values_answers_each_insert() {
    let mut p: DB<TypeMapVecU8> = DB::new(8, 2);
    let r = p.add_values(vec![vec![0u8; 8], vec![0u8; 8], vec![1u8; 8]]);
    assert_eq!(r, Ok(vec![Some(true), Some(false), Some(true)]));
}

#[test]
fn db_add_values_stops_at_wrong_length_keeping_earlier() {
    let mut p: DB<TypeMapVecU8> = DB::new(8, 2);
    let r = p.add_values(vec![vec![0u8; 8], vec![1u8; 8], vec![2u8; 7], vec![3u8; 8]]);
    assert_eq!(r, Err(2));
    let mut expected = HashSet::new();
    expected.insert(vec![1u8; 8]);
    assert_eq!(p.get(&vec![1u8; 8]), Some(expected));
    assert_eq!(p.get(&vec![3u8; 8]), None);
}

#[test]
fn db_getters_answer_the_fields() {
    let a: DB<TypeMapVecU8> = DB::new(32, 7);
    assert_eq!(a.dimensions(), a.dimensions);
    assert_eq!(a.tolerance(), 7);
    assert_eq!(a.partition_count(), 5);
    assert_eq!(a.partitions(), &a.partitions);
    assert_eq!(a.partitions()[2], Window { start_dimension: 14, dimensions: 6 });
}
