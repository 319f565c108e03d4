use hammer::window::{Windowable, EVEN_U16, EVEN_U8, ODD_U16, ODD_U8, ONES_U16, ONES_U8};

#[test]
fn quick_u16_u8() {
    for x in 0..16usize {
        for y in 0..8usize {
            let start_dimension = x % 16;
            let dimensions = y % 8;
            if start_dimension + dimensions > 16 || start_dimension == 16 || dimensions == 0 || dimensions > 8 {
                continue;
            }

            let start = EVEN_U16;
            let actual: u8 = start.window(start_dimension, dimensions);
            let fill = if start_dimension % 2 == 0 { EVEN_U8 } else { ODD_U8 };
            let expected = match dimensions / 8 {
                0 => fill & (ONES_U8 ^ (ONES_U8 << dimensions)),
                1 => fill,
                _ => panic!("wtf"),
            };
            assert_eq!(actual, expected);
        }
    }
}

#[test]
fn quick_u16x4_u8() {
    for start_dimension in 0..70usize {
        for dimensions in 0..12usize {
            if start_dimension + dimensions > 64 || start_dimension == 64 || dimensions == 0 || dimensions > 8 {
                continue;
            }

            let start = [EVEN_U16, EVEN_U16, EVEN_U16, EVEN_U16];
            let actual: u8 = start.window(start_dimension, dimensions);
            let fill = if start_dimension % 2 == 0 { EVEN_U8 } else { ODD_U8 };
            let expected = match dimensions / 8 {
                0 => fill & (ONES_U8 ^ (ONES_U8 << dimensions)),
                1 => fill,
                _ => panic!("wtf"),
            };
            assert_eq!(actual, expected);
        }
    }
}

#[test]
fn quick_u16x4_u16x2() {
    for x in 0..64usize {
        for y in 0..32usize {
            let start_dimension = x % 64;
            let dimensions = 1 + (y % 32);
            if start_dimension + dimensions > 64 {
                continue;
            }

            let start = [EVEN_U16, EVEN_U16, EVEN_U16, EVEN_U16];
            let actual: [u16; 2] = start.window(start_dimension, dimensions);
            let fill = if start_dimension % 2 == 0 { EVEN_U16 } else { ODD_U16 };
            let expected: [u16; 2] = match (dimensions / 16, dimensions % 16) {
                (2, 0) => [fill, fill],
                (1, 0) => [fill, 0],
                (1, d) => [fill, fill & (ONES_U16 ^ (ONES_U16 << d))],
                (0, 0) => panic!("wtf"),
                (0, d) => [fill & (ONES_U16 ^ (ONES_U16 << d)), 0],
                _ => panic!("wtf"),
            };
            assert_eq!(actual, expected);
        }
    }
}

#[test]
fn window_uint_fields() {
    let x: u64 = 0xf0f0_1234_5678_9abc;
    let w: u64 = x.window(0, 64);
    assert_eq!(w, x);
    let w: u8 = x.window(4, 8);
    assert_eq!(w, 0xab);
    let w: u16 = x.window(60, 4);
    assert_eq!(w, 0xf);
    let w: u32 = x.window(16, 32);
    assert_eq!(w, 0x1234_5678);
    let w: u8 = 0b1011_0110u8.window(1, 3);
    assert_eq!(w, 0b011);
    let w: u8 = 0xbeefu16.window(8, 8);
    assert_eq!(w, 0xbe);
}

#[test]
fn window_words_last_word_is_least_significant() {
    let v: [u64; 2] = [0x1111_2222_3333_4444, 0xaaaa_bbbb_cccc_dddd];
    let w: u16 = v.window(0, 16);
    assert_eq!(w, 0xdddd);
    let w: u16 = v.window(64, 16);
    assert_eq!(w, 0x4444);
    // a window across the word boundary joins the top of the last word with
    // the bottom of the one before it
    let w: u32 = v.window(48, 32);
    assert_eq!(w, 0x4444_aaaa);
    let w: u64 = v.window(64, 64);
    assert_eq!(w, 0x1111_2222_3333_4444);
    // past the first word there is nothing left
    let w: u8 = v.window(124, 4);
    assert_eq!(w, 0x1);
    let w: u8 = v.window(3, 0);
    assert_eq!(w, 0);
    let v4: [u64; 4] = [1, 2, 3, 4];
    let w: u64 = v4.window(192, 64);
    assert_eq!(w, 1);
    let v3: [u64; 3] = [7, 0, 0];
    let w: u8 = v3.window(128, 8);
    assert_eq!(w, 7);
}

#[test]
fn window_words_to_words_first_word_is_least_significant() {
    let v: [u64; 2] = [0x1111_2222_3333_4444, 0xaaaa_bbbb_cccc_dddd];
    let w: [u64; 2] = v.window(0, 128);
    assert_eq!(w, v);
    let w: [u64; 2] = v.window(16, 64);
    assert_eq!(w, [0xdddd_1111_2222_3333, 0]);
    let w: [u64; 2] = v.window(64, 64);
    assert_eq!(w, [0xaaaa_bbbb_cccc_dddd, 0]);
    let w: [u64; 2] = v.window(68, 60);
    assert_eq!(w, [0x0aaa_abbb_bccc_cddd, 0]);
    let w: [u64; 2] = v.window(0, 72);
    assert_eq!(w, [0x1111_2222_3333_4444, 0xdd]);
    let v4: [u64; 4] = [1, 2, 3, 4];
    let w: [u64; 4] = v4.window(64, 192);
    assert_eq!(w, [2, 3, 4, 0]);
    let w: [u64; 2] = v4.window(128, 128);
    assert_eq!(w, [3, 4]);
    let w16: [u16; 2] = [0x1234u16, 0x5678, 0x9abc, 0xdef0].window(8, 24);
    assert_eq!(w16, [0x7812, 0x0056]);
}
