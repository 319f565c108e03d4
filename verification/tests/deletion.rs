use hammer::deletion::DeletionVariant;

#[test]
fn deletion_iter_test_deletion_variants_u8() {
        let a = 0b00000000u8;
        let expected = vec![
            (0b00000001u8, 1u8),
            (0b00000010u8, 2u8),
            (0b00000100u8, 3u8),
            (0b00001000u8, 4u8),
        ];

        assert_eq!(a.deletion_variants(4), expected);
    }

#[test]
fn deletion_iter_test_deletion_variants_usize() {
        let a = 0b00000000usize;
        let expected = vec![
            (0b00000001usize, 1u8),
            (0b00000010usize, 2u8),
            (0b00000100usize, 3u8),
            (0b00001000usize, 4u8),
        ];

        assert_eq!(a.deletion_variants(4), expected);
    }
use hammer::deletion::XORIter;
use rand::{thread_rng, Rng};
use std::collections::HashSet;

#[test]
fn deletion_iter_variants_compact_u64() {
    let mut rng = thread_rng();
    for _ in 0..200 {
        let a: u64 = rng.gen();
        let variants = a.deletion_variants(64);

        for (i, variant) in variants.iter().enumerate() {
            assert!(!variants[..i].iter().any(|v| v == variant));
        }
    }
}

#[test]
fn deletion_iter_hamming_1_variants_u64() {
    let mut rng = thread_rng();
    for _ in 0..200 {
        let a: u64 = rng.gen();
        let index: usize = rng.gen();
        let flip = 1u64 << index % 64;
        let b = a ^ flip;

        let a_variants: HashSet<(u64, u8)> = a.deletion_variants(64).into_iter().collect();
        let b_variants: HashSet<(u64, u8)> = b.deletion_variants(64).into_iter().collect();

        assert!(a_variants.intersection(&b_variants).count() > 0);
    }
}

#[test]
fn variants_compact_vec_u8() {
    let mut rng = thread_rng();
    for _ in 0..200 {
        let len: usize = rng.gen_range(1..32);
        let a: Vec<u8> = (0..len).map(|_| rng.gen::<u8>()).collect();

        let variants = a.deletion_variants(a.len());

        for (i, variant) in variants.iter().enumerate() {
            assert!(!variants[..i].iter().any(|v| v == variant));
        }
    }
}

#[test]
fn hamming_1_variants_vec_u8() {
    let mut rng = thread_rng();
    for _ in 0..200 {
        let len: usize = rng.gen_range(1..32);
        let a: Vec<u8> = (0..len).map(|_| rng.gen::<u8>()).collect();
        let index: usize = rng.gen();

        let mut b = a.clone();
        let offset = index % b.len();
        b[offset] = b[offset] ^ 1u8;

        let a_variants: HashSet<u64> = a.deletion_variants(a.len()).into_iter().collect();
        let b_variants: HashSet<u64> = b.deletion_variants(b.len()).into_iter().collect();

        assert!(a_variants.intersection(&b_variants).count() > 0);
    }
}

#[test]
fn xor_iter_stops_after_dimensions() {
    let mut iter = XORIter::new(vec![1u8, 2, 3], 2);

    assert!(iter.next().is_some());
    assert!(iter.next().is_some());
    assert_eq!(iter.next(), None);
    assert_eq!(iter.next(), None);
}

#[test]
fn xor_variants_differ_from_each_other_by_the_deleted_element() {
    let a = vec![5u8, 6, 7];
    let b = vec![5u8, 9, 7];
    let va = a.deletion_variants(3);
    let vb = b.deletion_variants(3);

    // only the variant of the differing (second) dimension is shared
    assert_eq!(va[1], vb[1]);
    assert!(va[0] != vb[0]);
    assert!(va[2] != vb[2]);
}
