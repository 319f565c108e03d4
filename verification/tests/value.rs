use hammer::value::{DeletionVariant, Hamming, SubstitutionVariant, Window};

#[test]
fn test_window_max_start_vec_u8() {
        let a = vec![1u8, 0u8, 0u8, 0u8, 0u8, 0u8, 0u8, 1u8];
        let b = vec![1u8];

        assert_eq!(a.window(7,1), b);
    }

#[test]
fn test_window_min_start_and_max_finish_vec_u8() {
        let a = vec![1u8, 0u8, 0u8, 0u8, 0u8, 0u8, 0u8, 1u8];
        let b = vec![1u8, 0u8, 0u8, 0u8, 0u8, 0u8, 0u8, 1u8];

        assert_eq!(a.window(0,8), b);
    }

#[test]
fn test_window_n_start_and_max_finish_vec_u8() {
        let a = vec![1u8, 0u8, 0u8, 0u8, 0u8, 0u8, 0u8, 1u8];
        let b = vec![0u8, 0u8, 0u8, 0u8, 0u8, 0u8, 1u8];

        assert_eq!(a.window(1,7), b);
    }

#[test]
fn test_window_min_start_and_n_finish_vec_u8() {
        let a = vec![0u8, 0u8, 0u8, 0u8, 0u8, 0u8, 0u8, 1u8];
        let b = vec![0u8, 0u8, 0u8, 0u8, 0u8, 0u8, 0u8];

        assert_eq!(a.window(0,7), b);
    }

#[test]
fn test_window_n_start_and_n_finish_vec_u8() {
        let a = vec![0u8, 0u8, 0u8, 1u8, 1u8, 0u8, 0u8, 0u8];
        let b = vec![1u8, 1u8];

        assert_eq!(a.window(3,2), b);
    }

#[test]
fn test_deletion_variants_vec_u8() {
        let a = vec![0u8, 0u8, 0u8, 0u8, 0u8, 0u8, 0u8, 0u8];
        let expected = vec![
            (vec![255u8, 0u8, 0u8, 0u8, 0u8, 0u8, 0u8, 0u8], 0u32),
            (vec![0u8, 255u8, 0u8, 0u8, 0u8, 0u8, 0u8, 0u8], 1u32),
            (vec![0u8, 0u8, 255u8, 0u8, 0u8, 0u8, 0u8, 0u8], 2u32),
            (vec![0u8, 0u8, 0u8, 255u8, 0u8, 0u8, 0u8, 0u8], 3u32),
        ];

        assert_eq!(a.deletion_variants(4), expected);
    }

#[test]
fn value_test_hamming_zero_vec_u8() {
        let a = vec![0u8, 0u8, 0u8, 0u8, 0u8, 0u8, 0u8, 0u8];
        let b = vec![0u8, 0u8, 0u8, 0u8, 0u8, 0u8, 0u8, 0u8];

        assert_eq!(a.hamming(&b), 0);
    }

#[test]
fn value_test_hamming_one_vec_u8() {
        let a = vec![0u8, 0u8, 0u8, 0u8, 0u8, 0u8, 0u8, 0u8];
        let b = vec![1u8, 0u8, 0u8, 0u8, 0u8, 0u8, 0u8, 0u8];
        let c = vec![0u8, 0u8, 0u8, 0u8, 0u8, 0u8, 0u8, 1u8];
        let d = vec![0u8, 0u8, 0u8, 1u8, 0u8, 0u8, 0u8, 0u8];

        assert_eq!(a.hamming(&b), 1);
        assert_eq!(a.hamming(&c), 1);
        assert_eq!(a.hamming(&d), 1);
    }

#[test]
fn value_test_hamming_max_vec_u8() {
        let a = vec![0u8, 0u8, 0u8, 0u8, 0u8, 0u8, 0u8, 0u8];
        let b = vec![1u8, 1u8, 1u8, 1u8, 1u8, 1u8, 1u8, 1u8];

        assert_eq!(a.hamming(&b), 8);
    }

#[test]
fn test_window_max_start_u8() {
        let a = 0b10000001u8;
        let b = 0b00000001u8;

        assert_eq!(a.window(7,1), b);
    }

#[test]
fn test_window_min_start_and_max_finish_u8() {
        let a = 0b10000001u8;
        let b = 0b10000001u8;

        assert_eq!(a.window(0,8), b);
    }

#[test]
fn test_window_n_start_and_max_finish_u8() {
        let a = 0b11000011u8;
        let b = 0b01100001u8;

        assert_eq!(a.window(1,7), b);
    }

#[test]
fn test_window_min_start_and_n_finish_u8() {
        let a = 0b11000011u8;
        let b = 0b01000011u8;

        assert_eq!(a.window(0,7), b);
    }

#[test]
fn test_window_n_start_and_n_finish_u8() {
        let a = 0b11111000u8;
        let b = 0b00000011u8;

        assert_eq!(a.window(3,2), b);
    }

#[test]
fn value_test_substitution_variants_u8() {
        let a = 0b00000000u8;
        let expected = vec![
            0b00000001u8,
            0b00000010u8,
            0b00000100u8,
            0b00001000u8,
        ];

        assert_eq!(a.substitution_variants(4), expected);
    }

#[test]
fn value_test_deletion_variants_u8() {
        let a = 0b00000000u8;
        let expected = vec![
            (0b00000001u8, 0u8),
            (0b00000010u8, 1u8),
            (0b00000100u8, 2u8),
            (0b00001000u8, 3u8),
        ];

        assert_eq!(a.deletion_variants(4), expected);
    }

#[test]
fn value_test_hamming_zero_u8() {
        let a = 0b00000000u8;
        let b = 0b00000000u8;

        assert_eq!(a.hamming(&b), 0);
    }

#[test]
fn value_test_hamming_one_u8() {
        let a = 0b00000000u8;
        let b = 0b10000000u8;
        let c = 0b00000001u8;
        let d = 0b00010000u8;

        assert_eq!(a.hamming(&b), 1);
        assert_eq!(a.hamming(&c), 1);
        assert_eq!(a.hamming(&d), 1);
    }

#[test]
fn value_test_hamming_max_u8() {
        let a = 0b00000000u8;
        let b = 0b11111111u8;

        assert_eq!(a.hamming(&b), 8);
    }

#[test]
fn test_window_min_start_and_finish_usize() {
        let a = 0b10000001usize;
        let b = 0b00000001usize;

        assert_eq!(a.window(0,1), b);
    }

#[test]
fn test_window_max_start_usize() {
        let a = 0b10000001usize;
        let b = 0b00000001usize;

        assert_eq!(a.window(7,1), b);
    }

#[test]
fn test_window_min_start_and_max_finish_usize() {
        let a = 0b10000001usize;
        let b = 0b10000001usize;

        assert_eq!(a.window(0,8), b);
    }

#[test]
fn test_window_n_start_and_max_finish_usize() {
        let a = 0b11000011usize;
        let b = 0b01100001usize;

        assert_eq!(a.window(1,7), b);
    }

#[test]
fn test_window_min_start_and_n_finish_usize() {
        let a = 0b11000011usize;
        let b = 0b01000011usize;

        assert_eq!(a.window(0,7), b);
    }

#[test]
fn test_window_n_start_and_n_finish_usize() {
        let a = 0b11111000usize;
        let b = 0b00000011usize;

        assert_eq!(a.window(3,2), b);
    }

#[test]
fn test_substitution_variants_usize() {
        let a = 0b00000000usize;
        let expected = vec![
            0b00000001usize,
            0b00000010usize,
            0b00000100usize,
            0b00001000usize,
        ];

        assert_eq!(a.substitution_variants(4), expected);
    }

#[test]
fn value_test_deletion_variants_usize() {
        let a = 0b00000000usize;
        let expected = vec![
            (0b00000001usize, 0u32),
            (0b00000010usize, 1u32),
            (0b00000100usize, 2u32),
            (0b00001000usize, 3u32),
        ];

        assert_eq!(a.deletion_variants(4), expected);
    }

#[test]
fn test_hamming_zero_usize() {
        let a = 0b00000000usize;
        let b = 0b00000000usize;

        assert_eq!(a.hamming(&b), 0);
    }

#[test]
fn test_hamming_one_usize() {
        let a = 0b00000000usize;
        let b = 0b10000000usize;
        let c = 0b00000001usize;
        let d = 0b00010000usize;

        assert_eq!(a.hamming(&b), 1);
        assert_eq!(a.hamming(&c), 1);
        assert_eq!(a.hamming(&d), 1);
    }

#[test]
fn test_hamming_max_usize() {
        let a = 0b00000000usize;
        let b = 0b11111111usize;

        assert_eq!(a.hamming(&b), 8);
    }
use hammer::value::Value;

#[test]
fn hamming_indices_u8_from_most_significant_bit() {
    let a = 0b00000000u8;
    let b = 0b10000001u8;

    assert_eq!(a.hamming_indices(&b), vec![0, 7]);
}

#[test]
fn hamming_indices_usize_by_little_endian_bytes() {
    let a = 0usize;
    let b = 0x0101usize;

    assert_eq!(a.hamming_indices(&b), vec![7, 15]);
}

#[test]
fn hamming_indices_vec_u8() {
    let a = vec![1u8, 2, 3, 4];
    let b = vec![1u8, 0, 3, 0, 9];

    assert_eq!(a.hamming_indices(&b), vec![1, 3]);
    assert!(a.hamming_lte(&b, 2));
    assert!(!a.hamming_lte(&b, 1));
}

#[test]
fn window_usize_full_width() {
    let a = usize::MAX;

    assert_eq!(a.window(0, usize::BITS as usize), usize::MAX);
    assert_eq!(a.window(0, 0), 0);
}
