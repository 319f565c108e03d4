use hammer::substitution::SubstitutionVariant;

#[test]
fn binary_iter_test_substitution_variants_u8() {
        let a = 0b00000000u8;
        let expected = vec![
            0b00000001u8,
            0b00000010u8,
            0b00000100u8,
            0b00001000u8,
        ];

        assert_eq!(a.substitution_variants(4), expected);
    }

#[test]
fn binary_iter_test_substitution_variants_u64() {
        let a = 0b00000000u64;
        let expected = vec![
            0b00000001u64,
            0b00000010u64,
            0b00000100u64,
            0b00001000u64,
        ];

        assert_eq!(a.substitution_variants(4), expected);
    }

#[test]
fn test_substitution_variants_u64x2() {
        let a = [0b00000000u64, 0b00000000u64];
        let expected = vec![
            [0b00000001u64, 0b00000000u64],
            [0b00000010u64, 0b00000000u64],
            [0b00000100u64, 0b00000000u64],
                [0b00001000u64, 0b00000000u64],
        ];

        assert_eq!(a.substitution_variants(4), expected);
    }
