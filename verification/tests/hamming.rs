use hammer::hamming::Hamming;

#[test]
fn hamming_test_hamming_zero_vec_u8() {
        let a = vec![0u8, 0u8, 0u8, 0u8, 0u8, 0u8, 0u8, 0u8];
        let b = vec![0u8, 0u8, 0u8, 0u8, 0u8, 0u8, 0u8, 0u8];

        assert_eq!(a.hamming(&b), 0);
    }

#[test]
fn hamming_test_hamming_one_vec_u8() {
        let a = vec![0u8, 0u8, 0u8, 0u8, 0u8, 0u8, 0u8, 0u8];
        let b = vec![1u8, 0u8, 0u8, 0u8, 0u8, 0u8, 0u8, 0u8];
        let c = vec![0u8, 0u8, 0u8, 0u8, 0u8, 0u8, 0u8, 1u8];
        let d = vec![0u8, 0u8, 0u8, 1u8, 0u8, 0u8, 0u8, 0u8];

        assert_eq!(a.hamming(&b), 1);
        assert_eq!(a.hamming(&c), 1);
        assert_eq!(a.hamming(&d), 1);
    }

#[test]
fn hamming_test_hamming_max_vec_u8() {
        let a = vec![0u8, 0u8, 0u8, 0u8, 0u8, 0u8, 0u8, 0u8];
        let b = vec![1u8, 1u8, 1u8, 1u8, 1u8, 1u8, 1u8, 1u8];

        assert_eq!(a.hamming(&b), 8);
    }

#[test]
fn hamming_test_hamming_zero_u8() {
        let a = 0b00000000u8;
        let b = 0b00000000u8;

        assert_eq!(a.hamming(&b), 0);
    }

#[test]
fn hamming_test_hamming_one_u8() {
        let a = 0b00000000u8;
        let b = 0b10000000u8;
        let c = 0b00000001u8;
        let d = 0b00010000u8;

        assert_eq!(a.hamming(&b), 1);
        assert_eq!(a.hamming(&c), 1);
        assert_eq!(a.hamming(&d), 1);
    }

#[test]
fn hamming_test_hamming_max_u8() {
        let a = 0b00000000u8;
        let b = 0b11111111u8;

        assert_eq!(a.hamming(&b), 8);
    }

#[test]
fn test_hamming_zero_u64() {
        let a = 0b00000000u64;
        let b = 0b00000000u64;

        assert_eq!(a.hamming(&b), 0);
    }

#[test]
fn test_hamming_one_u64() {
        let a = 0b00000000u64;
        let b = 0b10000000u64;
        let c = 0b00000001u64;
        let d = 0b00010000u64;

        assert_eq!(a.hamming(&b), 1);
        assert_eq!(a.hamming(&c), 1);
        assert_eq!(a.hamming(&d), 1);
    }

#[test]
fn test_hamming_max_u64() {
        let a = 0b00000000u64;
        let b = 0b11111111u64;

        assert_eq!(a.hamming(&b), 8);
    }

#[test]
fn hamming_indices_cover_every_bit() {
    assert_eq!(0u64.hamming_indices(&(1u64 << 10)), vec![10]);
    assert_eq!(0u64.hamming_indices(&(1u64 << 63 | 1)), vec![0, 63]);
    assert_eq!(0u16.hamming_indices(&0x8001u16), vec![0, 15]);
    assert_eq!(0u32.hamming_indices(&(1u32 << 20)), vec![20]);
    assert_eq!(0u64.hamming(&(1u64 << 10)), 0u64.hamming_indices(&(1u64 << 10)).len());
}

#[test]
fn hamming_indices_of_words_count_64_per_word() {
    let a = [0u64, 0];
    let b = [1u64 << 3, 1u64 << 5];
    assert_eq!(a.hamming_indices(&b), vec![3, 69]);
    let c = [0u64, 0, 0, 1];
    assert_eq!([0u64; 4].hamming_indices(&c), vec![192]);
}
