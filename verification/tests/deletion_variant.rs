use hammer::deletion_variant::DeletionVariant;

#[test]
fn deletion_variant_test_deletion_variants_u8() {
        let a = 0b00000000u8;
        let expected = vec![
            (0b00000001u8, 1u8),
            (0b00000010u8, 2u8),
            (0b00000100u8, 3u8),
            (0b00001000u8, 4u8),
        ];

        assert_eq!((a, 0u8).deletion_variants(4), expected);
    }

#[test]
fn deletion_variant_test_deletion_variants_usize() {
        let a = 0b00000000usize;
        let expected = vec![
            (0b00000001usize, 1u8),
            (0b00000010usize, 2u8),
            (0b00000100usize, 3u8),
            (0b00001000usize, 4u8),
        ];

        assert_eq!((a, 0u8).deletion_variants(4), expected);
    }
use hammer::deletion_variant::{vec_deletion_variants, XORDeletionVariantIter};
use rand::{thread_rng, Rng};
use std::collections::HashSet;

#[test]
fn deletion_variant_variants_compact_u64() {
    let mut rng = thread_rng();
    for _ in 0..200 {
        let a: u64 = rng.gen();
        let variants = (a, 0u8).deletion_variants(64);

        for (i, variant) in variants.iter().enumerate() {
            assert!(!variants[..i].iter().any(|v| v == variant));
        }
    }
}

#[test]
fn deletion_variant_hamming_1_variants_u64() {
    let mut rng = thread_rng();
    for _ in 0..200 {
        let a: u64 = rng.gen();
        let index: usize = rng.gen();
        let flip = 1u64 << index % 64;
        let b = a ^ flip;

        let a_variants: HashSet<(u64, u8)> = (a, 0u8).deletion_variants(64).into_iter().collect();
        let b_variants: HashSet<(u64, u8)> = (b, 0u8).deletion_variants(64).into_iter().collect();

        assert!(a_variants.intersection(&b_variants).count() > 0);
    }
}

#[test]
fn xor_deletion_variant_iter_shares_differing_dimension() {
    let mut ia = XORDeletionVariantIter::new(vec![1u8, 2, 3], 3);
    let mut ib = XORDeletionVariantIter::new(vec![1u8, 2, 4], 3);
    let a: Vec<u64> = vec![ia.next().unwrap(), ia.next().unwrap(), ia.next().unwrap()];
    let b: Vec<u64> = vec![ib.next().unwrap(), ib.next().unwrap(), ib.next().unwrap()];

    assert_eq!(ia.next(), None);
    assert_eq!(a[2], b[2]);
    assert!(a[0] != b[0]);
    assert!(a[1] != b[1]);
}

#[test]
fn vec_deletion_variants_run_the_iterator() {
    let mut it = XORDeletionVariantIter::new(vec![1u8, 2, 3], 3);
    let expected: Vec<u64> = vec![it.next().unwrap(), it.next().unwrap(), it.next().unwrap()];
    assert_eq!(vec_deletion_variants(vec![1u8, 2, 3], 3), expected);
    let b = vec_deletion_variants(vec![1u8, 2, 4], 3);
    assert_eq!(b[2], expected[2]);
    assert_eq!(vec_deletion_variants(vec![1u8, 2, 3], 2).len(), 2);
}
