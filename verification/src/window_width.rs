//! The width of the windows that index values of a given width.

use vstd::prelude::*;
use crate::db::ratio_ceil;

verus! {

/// The widest partition, in bits, when `dimensions` dimensions are split
/// into `(tolerance + 3) / 2` partitions.
pub open spec fn partition_bits_for(dimensions: nat, tolerance: nat) -> nat {
    let partitions = (tolerance + 3) / 2;
    ((dimensions + partitions - 1) / partitions as int) as nat
}

/// The narrowest window width among 8, 16, 32, 64, 128 and 256 bits that
/// holds `partition_bits` bits and is no wider than the values,
/// `value_bits`; none when there is no such width.
pub open spec fn window_bits_for(partition_bits: nat, value_bits: nat) -> Option<nat> {
    if partition_bits <= 8 && 8 <= value_bits {
        Some(8)
    } else if partition_bits <= 16 && 16 <= value_bits {
        Some(16)
    } else if partition_bits <= 32 && 32 <= value_bits {
        Some(32)
    } else if partition_bits <= 64 && 64 <= value_bits {
        Some(64)
    } else if partition_bits <= 128 && 128 <= value_bits {
        Some(128)
    } else if partition_bits <= 256 && 256 <= value_bits {
        Some(256)
    } else {
        None
    }
}

/// The widths a window can have: 8, 16, 32, 64, 128 and 256 bits.
pub open spec fn is_window_width(w: nat) -> bool {
    w == 8 || w == 16 || w == 32 || w == 64 || w == 128 || w == 256
}

/// The chosen width is a window width that holds a partition of
/// `partition_bits` bits and is no wider than the values, and no narrower
/// window width does both; there is none exactly when no window width does.
pub proof fn lemma_window_bits_narrowest(partition_bits: nat, value_bits: nat)
    ensures
        match window_bits_for(partition_bits, value_bits) {
            Some(w) => {
                &&& is_window_width(w)
                &&& partition_bits <= w <= value_bits
                &&& forall|v: nat| #[trigger] is_window_width(v) && partition_bits <= v <= value_bits ==> w <= v
            },
            None => forall|v: nat| #[trigger] is_window_width(v) ==> !(partition_bits <= v <= value_bits),
        },
{
}

/// The width of the windows that index values of `value_bits` bits (8, 16,
/// 32, 64, 128 or 256) over `dimensions` dimensions with tolerance
/// `tolerance`: the narrowest of 8, 16, 32, 64, 128 and 256 bits that holds
/// a partition and is no wider than the values. A tolerance too low for the
/// values, where no width does, is unsupported.
pub fn window_bits(dimensions: usize, tolerance: usize, value_bits: usize) -> (r: usize)
    requires
        tolerance + 3 <= usize::MAX,
        dimensions + (tolerance + 3) / 2 <= usize::MAX,
        window_bits_for(partition_bits_for(dimensions as nat, tolerance as nat), value_bits as nat) is Some,
    ensures
        window_bits_for(partition_bits_for(dimensions as nat, tolerance as nat), value_bits as nat) == Some(r as nat),
{
    let partitions = (tolerance + 3) / 2;
    let b = ratio_ceil(dimensions, partitions);
    if b <= 8 && 8 <= value_bits {
        8
    } else if b <= 16 && 16 <= value_bits {
        16
    } else if b <= 32 && 32 <= value_bits {
        32
    } else if b <= 64 && 64 <= value_bits {
        64
    } else if b <= 128 && 128 <= value_bits {
        128
    } else {
        256
    }
}

} // verus!
