use hammer::bit_matrix::{AsBitMatrix, BitMatrix, BitTranspose};
use hammer::value::{DeletionVariant, Hamming, SubstitutionVariant, Window};
use rand::{thread_rng, Rng};

#[test]
fn ops_bitxor_equally_sized_vectors() {
        let a = BitMatrix::new(vec![vec![0b11111111u8, 0b00000000u8, 0b11111111u8, 0b00000000u8]]);
        let b = BitMatrix::new(vec![vec![0b11111111u8, 0b11111111u8, 0b00000000u8, 0b00000000u8]]);
        let c = BitMatrix::new(vec![vec![0b00000000u8, 0b11111111u8, 0b11111111u8, 0b00000000u8]]);

        assert_eq!(a ^ b, c);
    }

#[test]
fn ops_bitxor_left_vector_longer() {
        let a = BitMatrix::new(vec![vec![0b11111111u8, 0b00000000u8, 0b11111111u8, 0b00000000u8, 0b11111111u8, 0b00000000u8]]);
        let b = BitMatrix::new(vec![vec![0b11111111u8, 0b11111111u8, 0b00000000u8, 0b00000000u8]]);
        let c = BitMatrix::new(vec![vec![0b00000000u8, 0b11111111u8, 0b11111111u8, 0b00000000u8, 0b11111111u8, 0b00000000u8]]);

        assert_eq!(a ^ b, c);
    }

#[test]
fn ops_bitxor_right_vector_longer() {
        let a = BitMatrix::new(vec![vec![0b11111111u8, 0b00000000u8, 0b11111111u8, 0b00000000u8]]);
        let b = BitMatrix::new(vec![vec![0b11111111u8, 0b11111111u8, 0b00000000u8, 0b00000000u8, 0b11111111u8, 0b00000000u8]]);
        let c = BitMatrix::new(vec![vec![0b00000000u8, 0b11111111u8, 0b11111111u8, 0b00000000u8]]);

        assert_eq!(a ^ b, c);
    }

#[test]
fn ops_bitand_equally_sized_vectors() {
        let a = BitMatrix::new(vec![vec![0b11111111u8, 0b00000000u8, 0b11111111u8, 0b00000000u8]]);
        let b = BitMatrix::new(vec![vec![0b11111111u8, 0b11111111u8, 0b00000000u8, 0b00000000u8]]);
        let c = BitMatrix::new(vec![vec![0b11111111u8, 0b00000000u8, 0b00000000u8, 0b00000000u8]]);

        assert_eq!(a & b, c);
    }

#[test]
fn ops_bitand_left_vector_longer() {
        let a = BitMatrix::new(vec![vec![0b11111111u8, 0b00000000u8, 0b11111111u8, 0b00000000u8, 0b11111111u8, 0b00000000u8]]);
        let b = BitMatrix::new(vec![vec![0b11111111u8, 0b11111111u8, 0b00000000u8, 0b00000000u8]]);
        let c = BitMatrix::new(vec![vec![0b11111111u8, 0b00000000u8, 0b00000000u8, 0b00000000u8]]);

        assert_eq!(a & b, c);
    }

#[test]
fn ops_bitand_right_vector_longer() {
        let a = BitMatrix::new(vec![vec![0b11111111u8, 0b00000000u8, 0b11111111u8, 0b00000000u8]]);
        let b = BitMatrix::new(vec![vec![0b11111111u8, 0b11111111u8, 0b00000000u8, 0b00000000u8, 0b11111111u8, 0b00000000u8]]);
        let c = BitMatrix::new(vec![vec![0b11111111u8, 0b00000000u8, 0b00000000u8, 0b00000000u8]]);

        assert_eq!(a & b, c);
    }

#[test]
fn ops_shl_zero() {
        let a = BitMatrix::new(vec![vec![0b00000000u8, 0b11111111u8]]);
        let b = BitMatrix::new(vec![vec![0b00000000u8, 0b11111111u8]]);

        assert_eq!(a << 0, b);
    }

#[test]
fn ops_shl_less_than_vector_length() {
        let a = BitMatrix::new(vec![vec![0b00000000u8, 0b00000000u8, 0b11111111u8, 0b00000000u8]]);
        let b = BitMatrix::new(vec![vec![0b00001111u8, 0b11110000u8, 0b00000000u8]]);

        assert_eq!(a << 12, b);
    }

#[test]
fn ops_shl_vector_length() {
        let a = BitMatrix::new(vec![vec![0b00000000u8]]);
        let b = BitMatrix::new(vec![vec![]]);

        assert_eq!(a << 8, b);
    }

#[test]
fn ops_shl_more_than_vector_length() {
        let a = BitMatrix::new(vec![vec![0b00000000u8]]);
        let b = BitMatrix::new(vec![vec![]]);

        assert_eq!(a << 12, b);
    }

#[test]
fn ops_shr_zero() {
        let a = BitMatrix::new(vec![vec![0b00000000u8, 0b11111111u8]]);
        let b = BitMatrix::new(vec![vec![0b00000000u8, 0b11111111u8]]);

        assert_eq!(a >> 0, b);
    }

#[test]
fn ops_shr_less_than_vector_length() {
        let a = BitMatrix::new(vec![vec![0b00000000u8, 0b11111111u8, 0b00000000u8, 0b00000000u8]]);
        let b = BitMatrix::new(vec![vec![0b00000000u8, 0b00001111u8, 0b11110000u8]]);

        assert_eq!(a >> 12, b);
    }

#[test]
fn ops_shr_vector_length() {
        let a = BitMatrix::new(vec![vec![0b00000000u8]]);
        let b = BitMatrix::new(vec![vec![]]);

        assert_eq!(a >> 8, b);
    }

#[test]
fn ops_shr_more_than_vector_length() {
        let a = BitMatrix::new(vec![vec![0b00000000u8]]);
        let b = BitMatrix::new(vec![vec![]]);

        assert_eq!(a >> 12, b);
    }

#[test]
fn bit_matrix_bitxor_equally_sized_vectors() {
        let a = BitMatrix::new(vec![vec![0b11111111u8, 0b00000000u8, 0b11111111u8, 0b00000000u8]]);
        let b = BitMatrix::new(vec![vec![0b11111111u8, 0b11111111u8, 0b00000000u8, 0b00000000u8]]);
        let c = BitMatrix::new(vec![vec![0b00000000u8, 0b11111111u8, 0b11111111u8, 0b00000000u8]]);

        assert_eq!(a ^ b, c);
    }

#[test]
fn bit_matrix_bitxor_left_vector_longer() {
        let a = BitMatrix::new(vec![vec![0b11111111u8, 0b00000000u8, 0b11111111u8, 0b00000000u8, 0b11111111u8, 0b00000000u8]]);
        let b = BitMatrix::new(vec![vec![0b11111111u8, 0b11111111u8, 0b00000000u8, 0b00000000u8]]);
        let c = BitMatrix::new(vec![vec![0b00000000u8, 0b11111111u8, 0b11111111u8, 0b00000000u8, 0b11111111u8, 0b00000000u8]]);

        assert_eq!(a ^ b, c);
    }

#[test]
fn bit_matrix_bitxor_right_vector_longer() {
        let a = BitMatrix::new(vec![vec![0b11111111u8, 0b00000000u8, 0b11111111u8, 0b00000000u8]]);
        let b = BitMatrix::new(vec![vec![0b11111111u8, 0b11111111u8, 0b00000000u8, 0b00000000u8, 0b11111111u8, 0b00000000u8]]);
        let c = BitMatrix::new(vec![vec![0b00000000u8, 0b11111111u8, 0b11111111u8, 0b00000000u8]]);

        assert_eq!(a ^ b, c);
    }

#[test]
fn bit_matrix_bitand_equally_sized_vectors() {
        let a = BitMatrix::new(vec![vec![0b11111111u8, 0b00000000u8, 0b11111111u8, 0b00000000u8]]);
        let b = BitMatrix::new(vec![vec![0b11111111u8, 0b11111111u8, 0b00000000u8, 0b00000000u8]]);
        let c = BitMatrix::new(vec![vec![0b11111111u8, 0b00000000u8, 0b00000000u8, 0b00000000u8]]);

        assert_eq!(a & b, c);
    }

#[test]
fn bit_matrix_bitand_left_vector_longer() {
        let a = BitMatrix::new(vec![vec![0b11111111u8, 0b00000000u8, 0b11111111u8, 0b00000000u8, 0b11111111u8, 0b00000000u8]]);
        let b = BitMatrix::new(vec![vec![0b11111111u8, 0b11111111u8, 0b00000000u8, 0b00000000u8]]);
        let c = BitMatrix::new(vec![vec![0b11111111u8, 0b00000000u8, 0b00000000u8, 0b00000000u8]]);

        assert_eq!(a & b, c);
    }

#[test]
fn bit_matrix_bitand_right_vector_longer() {
        let a = BitMatrix::new(vec![vec![0b11111111u8, 0b00000000u8, 0b11111111u8, 0b00000000u8]]);
        let b = BitMatrix::new(vec![vec![0b11111111u8, 0b11111111u8, 0b00000000u8, 0b00000000u8, 0b11111111u8, 0b00000000u8]]);
        let c = BitMatrix::new(vec![vec![0b11111111u8, 0b00000000u8, 0b00000000u8, 0b00000000u8]]);

        assert_eq!(a & b, c);
    }

#[test]
fn bit_matrix_shl_zero() {
        let a = BitMatrix::new(vec![vec![0b00000000u8, 0b11111111u8]]);
        let b = BitMatrix::new(vec![vec![0b00000000u8, 0b11111111u8]]);

        assert_eq!(a << 0, b);
    }

#[test]
fn bit_matrix_shl_less_than_vector_length() {
        let a = BitMatrix::new(vec![vec![0b00000000u8, 0b00000000u8, 0b11111111u8, 0b00000000u8]]);
        let b = BitMatrix::new(vec![vec![0b00001111u8, 0b11110000u8, 0b00000000u8]]);

        assert_eq!(a << 12, b);
    }

#[test]
fn bit_matrix_shl_vector_length() {
        let a = BitMatrix::new(vec![vec![0b00000000u8]]);
        let b = BitMatrix::new(vec![vec![]]);

        assert_eq!(a << 8, b);
    }

#[test]
fn bit_matrix_shl_more_than_vector_length() {
        let a = BitMatrix::new(vec![vec![0b00000000u8]]);
        let b = BitMatrix::new(vec![vec![]]);

        assert_eq!(a << 12, b);
    }

#[test]
fn bit_matrix_shr_zero() {
        let a = BitMatrix::new(vec![vec![0b00000000u8, 0b11111111u8]]);
        let b = BitMatrix::new(vec![vec![0b00000000u8, 0b11111111u8]]);

        assert_eq!(a >> 0, b);
    }

#[test]
fn bit_matrix_shr_less_than_vector_length() {
        let a = BitMatrix::new(vec![vec![0b00000000u8, 0b11111111u8, 0b00000000u8, 0b00000000u8]]);
        let b = BitMatrix::new(vec![vec![0b00000000u8, 0b00001111u8, 0b11110000u8]]);

        assert_eq!(a >> 12, b);
    }

#[test]
fn bit_matrix_shr_vector_length() {
        let a = BitMatrix::new(vec![vec![0b00000000u8]]);
        let b = BitMatrix::new(vec![vec![]]);

        assert_eq!(a >> 8, b);
    }

#[test]
fn bit_matrix_shr_more_than_vector_length() {
        let a = BitMatrix::new(vec![vec![0b00000000u8]]);
        let b = BitMatrix::new(vec![vec![]]);

        assert_eq!(a >> 12, b);
    }

#[test]
fn bit_matrix_substitution_variants() {
        let a = BitMatrix::new(vec![vec![0b00000000u8, 0b00000000u8]]);
        let expected = vec![
            BitMatrix::new(vec![vec![0b00000000u8, 0b00000001u8]]),
            BitMatrix::new(vec![vec![0b00000000u8, 0b00000010u8]]),
            BitMatrix::new(vec![vec![0b00000000u8, 0b00000100u8]]),
            BitMatrix::new(vec![vec![0b00000000u8, 0b00001000u8]]),
            BitMatrix::new(vec![vec![0b00000000u8, 0b00010000u8]]),
            BitMatrix::new(vec![vec![0b00000000u8, 0b00100000u8]]),
            BitMatrix::new(vec![vec![0b00000000u8, 0b01000000u8]]),
            BitMatrix::new(vec![vec![0b00000000u8, 0b10000000u8]]),
            BitMatrix::new(vec![vec![0b00000001u8, 0b00000000u8]]),
            BitMatrix::new(vec![vec![0b00000010u8, 0b00000000u8]]),
        ];

        assert_eq!(a.substitution_variants(10), expected);
    }

#[test]
fn bit_matrix_deletion_variants() {
        let a = BitMatrix::new(vec![vec![0b00000000u8, 0b00000000u8]]);
        let expected = vec![
            (BitMatrix::new(vec![vec![0b00000000u8, 0b00000001u8]]), 0usize),
            (BitMatrix::new(vec![vec![0b00000000u8, 0b00000010u8]]), 1usize),
            (BitMatrix::new(vec![vec![0b00000000u8, 0b00000100u8]]), 2usize),
            (BitMatrix::new(vec![vec![0b00000000u8, 0b00001000u8]]), 3usize),
            (BitMatrix::new(vec![vec![0b00000000u8, 0b00010000u8]]), 4usize),
            (BitMatrix::new(vec![vec![0b00000000u8, 0b00100000u8]]), 5usize),
            (BitMatrix::new(vec![vec![0b00000000u8, 0b01000000u8]]), 6usize),
            (BitMatrix::new(vec![vec![0b00000000u8, 0b10000000u8]]), 7usize),
            (BitMatrix::new(vec![vec![0b00000001u8, 0b00000000u8]]), 8usize),
            (BitMatrix::new(vec![vec![0b00000010u8, 0b00000000u8]]), 9usize),
        ];

        assert_eq!(a.deletion_variants(10), expected);
    }

#[test]
fn bit_matrix_deletion_hamming_equal_usize_u8() {
        let a = (BitMatrix::new(vec![vec![0b11111111u8]]), 0usize);
        let b = (BitMatrix::new(vec![vec![0b11111111u8]]), 0usize);

        let c = (BitMatrix::new(vec![vec![0b00000001u8]]), 0usize);
        let d = (BitMatrix::new(vec![vec![0b00000001u8]]), 0usize);

        assert_eq!(a.hamming(&b), 0);
        assert_eq!(c.hamming(&d), 0);
    }

#[test]
fn bit_matrix_deletion_hamming_binary_unequal_usize_u8() {
        let a = (BitMatrix::new(vec![vec![0b11111111u8]]), 0usize);
        let b = (BitMatrix::new(vec![vec![0b01111111u8]]), 0usize);

        let c = (BitMatrix::new(vec![vec![0b10000001u8]]), 0usize);
        let d = (BitMatrix::new(vec![vec![0b00000001u8]]), 0usize);

        assert_eq!(a.hamming(&b), 1);
        assert_eq!(c.hamming(&d), 1);
    }

#[test]
fn bit_matrix_deletion_hamming_deleted_unequal_usize_u8() {
        let a = (BitMatrix::new(vec![vec![0b11111111u8]]), 0usize);
        let b = (BitMatrix::new(vec![vec![0b11111111u8]]), 1usize);

        let c = (BitMatrix::new(vec![vec![0b00000001u8]]), 0usize);
        let d = (BitMatrix::new(vec![vec![0b00000010u8]]), 1usize);

        assert_eq!(a.hamming(&b), 2);
        assert_eq!(c.hamming(&d), 2);
    }

#[test]
fn bit_matrix_deletion_hamming_binary_and_deleted_unequal_usize_u8() {
        let a = (BitMatrix::new(vec![vec![0b11111111u8]]), 0usize);
        let b = (BitMatrix::new(vec![vec![0b01111111u8]]), 1usize);

        let c = (BitMatrix::new(vec![vec![0b10000001u8]]), 0usize);
        let d = (BitMatrix::new(vec![vec![0b00000010u8]]), 1usize);

        assert_eq!(a.hamming(&b), 3);
        assert_eq!(c.hamming(&d), 3);
    }

#[test]
fn window_min_start_and_finish() {
        let a = BitMatrix::new(vec![vec![0b10000001u8]]);
        let b = BitMatrix::new(vec![vec![0b00000001u8]]);

        assert_eq!(a.window(0,1), b);
    }

#[test]
fn window_max_start() {
        let a = BitMatrix::new(vec![vec![0b10000001u8]]);
        let b = BitMatrix::new(vec![vec![0b00000001u8]]);

        assert_eq!(a.window(7,1), b);
    }

#[test]
fn window_min_start_and_max_finish() {
        let a = BitMatrix::new(vec![vec![0b10000001u8]]);
        let b = BitMatrix::new(vec![vec![0b10000001u8]]);

        assert_eq!(a.window(0,8), b);
    }

#[test]
fn window_n_start_and_max_finish() {
        let a = BitMatrix::new(vec![vec![0b11000011u8]]);
        let b = BitMatrix::new(vec![vec![0b01100001u8]]);

        assert_eq!(a.window(1,7), b);
    }

#[test]
fn window_min_start_and_n_finish() {
        let a = BitMatrix::new(vec![vec![0b11000011u8]]);
        let b = BitMatrix::new(vec![vec![0b01000011u8]]);

        assert_eq!(a.window(0,7), b);
    }

#[test]
fn window_n_start_and_n_finish() {
        let a = BitMatrix::new(vec![vec![0b11111000u8]]);
        let b = BitMatrix::new(vec![vec![0b00000011u8]]);

        assert_eq!(a.window(3,2), b);
    }

#[test]
fn permutation() {
        let a = BitMatrix::new(vec![vec![0b00000000u8]]);
        let expected = vec![
            BitMatrix::new(vec![vec![0b00000001u8]]),
            BitMatrix::new(vec![vec![0b00000010u8]]),
            BitMatrix::new(vec![vec![0b00000100u8]]),
            BitMatrix::new(vec![vec![0b00001000u8]]),
        ];

        assert_eq!(a.substitution_variants(4), expected);
    }

#[test]
fn hamming_zero() {
        let a = BitMatrix::new(vec![vec![0b00000000u8]]);
        let b = BitMatrix::new(vec![vec![0b00000000u8]]);

        assert_eq!(a.hamming(&b), 0);
    }

#[test]
fn hamming_one() {
        let a = BitMatrix::new(vec![vec![0b00000000u8]]);
        let b = BitMatrix::new(vec![vec![0b10000000u8]]);
        let c = BitMatrix::new(vec![vec![0b00000001u8]]);
        let d = BitMatrix::new(vec![vec![0b00010000u8]]);

        assert_eq!(a.hamming(&b), 1);
        assert_eq!(a.hamming(&c), 1);
        assert_eq!(a.hamming(&d), 1);
    }

#[test]
fn hamming_max() {
        let a = BitMatrix::new(vec![vec![0b00000000u8]]);
        let b = BitMatrix::new(vec![vec![0b11111111u8]]);

        assert_eq!(a.hamming(&b), 8);
    }

#[test]
fn value_substitution_variants() {
        let a = BitMatrix::new(vec![vec![0b00000000u8, 0b00000000u8]]);
        let expected = vec![
            BitMatrix::new(vec![vec![0b00000000u8, 0b00000001u8]]),
            BitMatrix::new(vec![vec![0b00000000u8, 0b00000010u8]]),
            BitMatrix::new(vec![vec![0b00000000u8, 0b00000100u8]]),
            BitMatrix::new(vec![vec![0b00000000u8, 0b00001000u8]]),
            BitMatrix::new(vec![vec![0b00000000u8, 0b00010000u8]]),
            BitMatrix::new(vec![vec![0b00000000u8, 0b00100000u8]]),
            BitMatrix::new(vec![vec![0b00000000u8, 0b01000000u8]]),
            BitMatrix::new(vec![vec![0b00000000u8, 0b10000000u8]]),
            BitMatrix::new(vec![vec![0b00000001u8, 0b00000000u8]]),
            BitMatrix::new(vec![vec![0b00000010u8, 0b00000000u8]]),
        ];

        assert_eq!(a.substitution_variants(10), expected);
    }

#[test]
fn value_deletion_variants() {
        let a = BitMatrix::new(vec![vec![0b00000000u8, 0b00000000u8]]);
        let expected = vec![
            (BitMatrix::new(vec![vec![0b00000000u8, 0b00000001u8]]), 0usize),
            (BitMatrix::new(vec![vec![0b00000000u8, 0b00000010u8]]), 1usize),
            (BitMatrix::new(vec![vec![0b00000000u8, 0b00000100u8]]), 2usize),
            (BitMatrix::new(vec![vec![0b00000000u8, 0b00001000u8]]), 3usize),
            (BitMatrix::new(vec![vec![0b00000000u8, 0b00010000u8]]), 4usize),
            (BitMatrix::new(vec![vec![0b00000000u8, 0b00100000u8]]), 5usize),
            (BitMatrix::new(vec![vec![0b00000000u8, 0b01000000u8]]), 6usize),
            (BitMatrix::new(vec![vec![0b00000000u8, 0b10000000u8]]), 7usize),
            (BitMatrix::new(vec![vec![0b00000001u8, 0b00000000u8]]), 8usize),
            (BitMatrix::new(vec![vec![0b00000010u8, 0b00000000u8]]), 9usize),
        ];

        assert_eq!(a.deletion_variants(10), expected);
    }

#[test]
fn value_deletion_hamming_equal_usize_u8() {
        let a = (BitMatrix::new(vec![vec![0b11111111u8]]), 0usize);
        let b = (BitMatrix::new(vec![vec![0b11111111u8]]), 0usize);

        let c = (BitMatrix::new(vec![vec![0b00000001u8]]), 0usize);
        let d = (BitMatrix::new(vec![vec![0b00000001u8]]), 0usize);

        assert_eq!(a.hamming(&b), 0);
        assert_eq!(c.hamming(&d), 0);
    }

#[test]
fn value_deletion_hamming_binary_unequal_usize_u8() {
        let a = (BitMatrix::new(vec![vec![0b11111111u8]]), 0usize);
        let b = (BitMatrix::new(vec![vec![0b01111111u8]]), 0usize);

        let c = (BitMatrix::new(vec![vec![0b10000001u8]]), 0usize);
        let d = (BitMatrix::new(vec![vec![0b00000001u8]]), 0usize);

        assert_eq!(a.hamming(&b), 1);
        assert_eq!(c.hamming(&d), 1);
    }

#[test]
fn value_deletion_hamming_deleted_unequal_usize_u8() {
        let a = (BitMatrix::new(vec![vec![0b11111111u8]]), 0usize);
        let b = (BitMatrix::new(vec![vec![0b11111111u8]]), 1usize);

        let c = (BitMatrix::new(vec![vec![0b00000001u8]]), 0usize);
        let d = (BitMatrix::new(vec![vec![0b00000010u8]]), 1usize);

        assert_eq!(a.hamming(&b), 2);
        assert_eq!(c.hamming(&d), 2);
    }

#[test]
fn value_deletion_hamming_binary_and_deleted_unequal_usize_u8() {
        let a = (BitMatrix::new(vec![vec![0b11111111u8]]), 0usize);
        let b = (BitMatrix::new(vec![vec![0b01111111u8]]), 1usize);

        let c = (BitMatrix::new(vec![vec![0b10000001u8]]), 0usize);
        let d = (BitMatrix::new(vec![vec![0b00000010u8]]), 1usize);

        assert_eq!(a.hamming(&b), 3);
        assert_eq!(c.hamming(&d), 3);
    }
#[test]
fn transpose_identity() {
    let mut rng = thread_rng();
    for _ in 0..1000 {
        let v: Vec<u8> = (0..8).map(|_| rng.gen::<u8>()).collect();

        assert!(v == v.clone().bit_transpose().bit_transpose());
    }
}

#[test]
fn bit_transpose_example() {
    let a = vec![
        0b11111111u8,
        0b00000000u8,
        0b00000000u8,
        0b00000000u8,
        0b00000000u8,
        0b11000000u8,
        0b11000000u8,
        0b11000000u8,
    ];

    let b = vec![
        0b10000111u8,
        0b10000111u8,
        0b10000000u8,
        0b10000000u8,
        0b10000000u8,
        0b10000000u8,
        0b10000000u8,
        0b10000000u8,
    ];

    assert_eq!(a.bit_transpose(), b);
}

#[test]
fn as_bitmatrix_identity_u64() {
    let mut rng = thread_rng();
    for _ in 0..1000 {
        let a: u64 = rng.gen();
        let b: u64 = if rng.gen::<bool>() { a } else { rng.gen() };
        let a_as_bm = a.as_bit_matrix();
        let b_as_bm = b.as_bit_matrix();

        if a == b {
            assert!(a_as_bm == b_as_bm);
        } else {
            assert!(a_as_bm != b_as_bm);
        }
    }
}

#[test]
fn as_bitmatrix_translation_u64() {
    let mut rng = thread_rng();
    for _ in 0..1000 {
        let a: u64 = rng.gen();
        let as_bm = a.as_bit_matrix();
        let back: u64 = AsBitMatrix::from_bit_matrix(as_bm);

        assert!(a == back);
    }
}

#[test]
fn as_bitmatrix_little_endian_bytes() {
    let a = 0x0102030405060708u64.as_bit_matrix();

    assert_eq!(a, BitMatrix::new(vec![vec![8, 7, 6, 5, 4, 3, 2, 1]]));
}

#[test]
fn boolean_algebra_and() {
    let mut rng = thread_rng();
    for _ in 0..1000 {
        let a: u64 = rng.gen();
        let b: u64 = rng.gen();
        let a_as_bm = a.as_bit_matrix();
        let b_as_bm = b.as_bit_matrix();

        let left = a_as_bm.clone() & b_as_bm.clone();
        let right = !((!a_as_bm.clone()) | (!b_as_bm.clone()));

        assert!(left == right);
    }
}

#[test]
fn boolean_algebra_or() {
    let mut rng = thread_rng();
    for _ in 0..1000 {
        let a: u64 = rng.gen();
        let b: u64 = rng.gen();
        let a_as_bm = a.as_bit_matrix();
        let b_as_bm = b.as_bit_matrix();

        let left = a_as_bm.clone() | b_as_bm.clone();
        let right = !((!a_as_bm.clone()) & (!b_as_bm.clone()));

        assert!(left == right);
    }
}

#[test]
fn xor_algebra() {
    let mut rng = thread_rng();
    for _ in 0..1000 {
        let a: u64 = rng.gen();
        let b: u64 = rng.gen();
        let a_as_bm = a.as_bit_matrix();
        let b_as_bm = b.as_bit_matrix();

        let left = a_as_bm.clone() ^ b_as_bm.clone();
        let right = (a_as_bm.clone() | b_as_bm.clone()) & !(a_as_bm.clone() & b_as_bm.clone());

        assert!(left == right);
    }
}

#[test]
#[should_panic]
fn shl_associative() {
    let a = 0xFFu64;
    let shift = 4usize;

    assert!((a.as_bit_matrix() << shift) == (a << shift).as_bit_matrix());
}

#[test]
#[should_panic]
fn shr_associative() {
    let a = 0xFFu64;
    let shift = 4usize;

    assert!((a.as_bit_matrix() >> shift) == (a >> shift).as_bit_matrix());
}

#[test]
fn hamming_triangle_inequality() {
    let mut rng = thread_rng();
    for _ in 0..1000 {
        let a: u64 = rng.gen();
        let b: u64 = rng.gen();
        let c: u64 = rng.gen();
        let a_bm = a.as_bit_matrix();
        let b_bm = b.as_bit_matrix();
        let c_bm = c.as_bit_matrix();

        assert!(a_bm.clone().hamming(&c_bm) <= (a_bm.clone().hamming(&b_bm) + b_bm.clone().hamming(&c_bm)));
    }
}

#[test]
fn matrix_hamming_counts_columns() {
    // a column that differs in both rows counts once
    let a = BitMatrix::new(vec![vec![0b00000001u8], vec![0b00000001u8]]);
    let b = BitMatrix::new(vec![vec![0b00000000u8], vec![0b00000010u8]]);

    assert_eq!(a.hamming(&b), 2);
    assert!(a.hamming_lte(&b, 2));
    assert!(!a.hamming_lte(&b, 1));
}

#[test]
fn deleted_hamming_lte_compares_with_bound() {
    let a = (BitMatrix::new(vec![vec![0b11111111u8]]), 0usize);
    let b = (BitMatrix::new(vec![vec![0b01111111u8]]), 1usize);

    assert_eq!(a.hamming(&b), 3);
    assert!(a.hamming_lte(&b, 3));
    assert!(!a.hamming_lte(&b, 2));
}

#[test]
fn transpose_swaps_rows_and_columns() {
    let a = BitMatrix::new(vec![vec![1, 2, 3], vec![4, 5, 6]]);

    assert_eq!(a.transpose(), BitMatrix::new(vec![vec![1, 4], vec![2, 5], vec![3, 6]]));
    assert_eq!(a.rows(), 2);
    assert_eq!(a.columns(), 24);
}

#[test]
fn mask_and_permute_flip_one_dimension() {
    let a = BitMatrix::new(vec![vec![0, 0], vec![0, 0]]);

    assert_eq!(a.mask(9), BitMatrix::new(vec![vec![2, 0], vec![2, 0]]));
    assert_eq!(
        a.permute(0),
        vec![
            BitMatrix::new(vec![vec![0, 1], vec![0, 0]]),
            BitMatrix::new(vec![vec![0, 0], vec![0, 1]]),
        ]
    );
}

#[test]
fn bitor_truncates_to_shorter() {
    let a = BitMatrix::new(vec![vec![0b1010u8, 0b1u8]]);
    let b = BitMatrix::new(vec![vec![0b0101u8]]);

    assert_eq!(a | b, BitMatrix::new(vec![vec![0b1111u8]]));
}

#[test]
fn whole_byte_shifts_drop_whole_bytes() {
    let a = BitMatrix::new(vec![vec![1u8, 2u8]]);
    assert_eq!(a.clone() << 8, BitMatrix::new(vec![vec![2u8]]));
    assert_eq!(a.clone() >> 8, BitMatrix::new(vec![vec![1u8]]));
    assert_eq!(a.clone() << 16, BitMatrix::new(vec![vec![]]));
    let b = BitMatrix::new(vec![vec![0u8, 0u8, 0b11111111u8, 0u8]]);
    assert_eq!(b.clone() << 16, BitMatrix::new(vec![vec![0b11111111u8, 0u8]]));
    assert_eq!(b >> 16, BitMatrix::new(vec![vec![0u8, 0u8]]));
}
