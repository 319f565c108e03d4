use hammer::window_width::window_bits;

#[test]
fn window_width_is_the_narrowest_that_holds_a_partition() {
    // 64 dimensions, tolerance 4: three partitions of at most 22 bits
    assert_eq!(window_bits(64, 4, 64), 32);
    // tolerance 0: one partition of all the dimensions
    assert_eq!(window_bits(64, 0, 64), 64);
    assert_eq!(window_bits(32, 0, 32), 32);
    assert_eq!(window_bits(256, 0, 256), 256);
    assert_eq!(window_bits(128, 1, 256), 64);
    assert_eq!(window_bits(8, 0, 8), 8);
    assert_eq!(window_bits(16, 1, 8), 8);
    // many partitions: eight bits suffice
    assert_eq!(window_bits(64, 20, 64), 8);
}
