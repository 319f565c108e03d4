use hammer::find_result::FindResult;
use hammer::hamming::Hamming;
use std::hash::{Hash, Hasher};

use hammer::hashing::{hash_element, Hashed};
use hammer::id_map::{Echo, IDMap, ToID};
use hammer::window::Windowable;

/// SipHash-2-4 with zero keys of `bytes`, element by element.
#[allow(deprecated)]
fn sip_of(bytes: &[u8]) -> u64 {
    let mut s = std::hash::SipHasher::new();
    for e in bytes.iter() {
        e.hash(&mut s);
    }
    s.finish()
}

/// The FNV-1a hash of `value` hashed with `Hash`.
fn fnv_of<T: Hash>(value: &T) -> u64 {
    let mut s = fnv::FnvHasher::default();
    value.hash(&mut s);
    s.finish()
}

#[test]
fn hashed_values_compare_by_hash() {
    let a = Hashed::new(vec![1u8, 2, 3]);
    let b = Hashed::new(vec![1u8, 2, 3]);
    let c = Hashed::new(vec![1u8, 2, 4]);

    assert!(a == b);
    assert!(a != c);
    assert_eq!(a.hash_value(), sip_of(&[1u8, 2, 3]));
    assert_eq!(*a, vec![1u8, 2, 3]);
}

#[test]
fn hashed_values_delegate_to_the_value() {
    let a = Hashed::new(vec![1u8, 2, 3, 4]);
    let c = Hashed::new(vec![1u8, 0, 3, 0]);

    assert_eq!(a.hamming(&c), 2);
    assert_eq!(a.hamming_indices(&c), vec![1, 3]);
    assert_eq!(a.window(1, 2), vec![2u8, 3]);
}

#[test]
fn word_arrays_are_identified_by_their_fnv_hash() {
    assert_eq!([1u64, 2].to_id(), fnv_of(&[1u64, 2]));
    assert_eq!([0u64, 0].to_id(), fnv_of(&[0u64, 0]));
    assert_eq!([1u64, 2, 3, 4].to_id(), fnv_of(&[1u64, 2, 3, 4]));
}

#[test]
fn element_hash_depends_on_position() {
    assert!(hash_element(7, 1) != hash_element(7, 2));
    assert_eq!(hash_element(7, 1), hash_element(7, 1));
}

#[test]
fn vectors_are_identified_by_their_hash() {
    let a = vec![1u8, 2, 3];

    assert_eq!(a.clone().to_id(), sip_of(&a));
    assert_eq!(5u64.to_id(), 5u64);
    assert!([1u64, 2].to_id() != [2u64, 1].to_id());
}

#[test]
fn echo_returns_the_identifier() {
    let mut e: Echo<u64> = Echo::new();

    e.insert(3, 4);
    assert_eq!(e.get(9), 9);
}

#[test]
fn find_results_compare_by_kind_and_value() {
    assert!(FindResult::ZeroVariant(1) == FindResult::ZeroVariant(1));
    assert!(FindResult::ZeroVariant(1) != FindResult::OneVariant(1));
    assert_eq!(*FindResult::OneVariant(3).value(), 3);
}

#[test]
fn hashed_clone_keeps_hash_and_value() {
    let a = Hashed::new(vec![1u8, 2, 3]);
    let b = a.clone();
    assert_eq!(a.hash_value(), b.hash_value());
    assert_eq!(*b, vec![1u8, 2, 3]);
    assert!(a == b);
}
