use hammer::deleted_value::DeletedValue;

#[test]
fn test_hamming_zero() {
        let a = DeletedValue {
            value: 0b10000001u8,
            deleted_dimension: 0,
        };
        let b = DeletedValue {
            value: 0b10000001u8,
            deleted_dimension: 0,
        };

        assert_eq!(a.hamming(&b), 0);
    }

#[test]
fn test_hamming_one() {
        let a = DeletedValue {
            value: 0b10000001u8,
            deleted_dimension: 0,
        };
        let b = DeletedValue {
            value: 0b00000001u8,
            deleted_dimension: 0,
        };

        assert_eq!(a.hamming(&b), 1);
    }

#[test]
fn test_hamming_shared_deletion() {
        let a = DeletedValue {
            value: 0b10000001u8,
            deleted_dimension: 0,
        };
        let b = DeletedValue {
            value: 0b10000000u8,
            deleted_dimension: 0,
        };

        assert_eq!(a.hamming(&b), 0);
    }

#[test]
fn test_hamming_different_deletion() {
        let a = DeletedValue {
            value: 0b10000001u8,
            deleted_dimension: 0,
        };
        let b = DeletedValue {
            value: 0b10000000u8,
            deleted_dimension: 1,
        };

        assert_eq!(a.hamming(&b), 2);
    }

#[test]
fn permutations_delete_each_dimension() {
    let a = DeletedValue { value: 0b101u8, deleted_dimension: 7 };
    let p = a.permutations(3);

    assert_eq!(p.len(), 3);
    for (i, v) in p.iter().enumerate() {
        assert_eq!(v.value, 0b101u8);
        assert_eq!(v.deleted_dimension, i);
    }
}

#[test]
fn window_keeps_deleted_dimension() {
    let a = DeletedValue { value: 0b11110000u8, deleted_dimension: 2 };
    let w = a.window(4, 4);

    assert_eq!(w.value, 0b1111u8);
    assert_eq!(w.deleted_dimension, 2);
}
