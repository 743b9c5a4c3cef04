use huffman::base64::{
    get_first_chunk, get_fourth_chunk, get_second_chunk, get_table_index, get_table_value,
    get_third_chunk,
};

#[test]
fn table_value_covers_the_alphabet() {
    assert_eq!(get_table_value(0), Some('A'));
    assert_eq!(get_table_value(25), Some('Z'));
    assert_eq!(get_table_value(26), Some('a'));
    assert_eq!(get_table_value(51), Some('z'));
    assert_eq!(get_table_value(52), Some('0'));
    assert_eq!(get_table_value(61), Some('9'));
    assert_eq!(get_table_value(62), Some('+'));
    assert_eq!(get_table_value(63), Some('/'));
    assert_eq!(get_table_value(64), None);
    assert_eq!(get_table_value(255), None);
}

#[test]
fn table_index_inverts_table_value() {
    for i in 0..64u8 {
        let c = get_table_value(i).unwrap();
        assert_eq!(get_table_index(c), Some(i));
    }
    assert_eq!(get_table_index('='), None);
    assert_eq!(get_table_index(' '), None);
    assert_eq!(get_table_index('-'), None);
}

#[test]
fn chunks_of_res() {
    // "res" = 0x72 0x65 0x73 splits into 011100 100110 010101 110011.
    let (b1, b2, b3) = (0x72u8, 0x65u8, 0x73u8);
    assert_eq!(get_first_chunk(b1), 0b011100);
    assert_eq!(get_second_chunk(b1, b2), 0b100110);
    assert_eq!(get_third_chunk(b2, b3), 0b010101);
    assert_eq!(get_fourth_chunk(b3), 0b110011);
}

#[test]
fn chunks_stay_below_sixty_four() {
    for &b in &[0x00u8, 0x01, 0x3f, 0x40, 0x7f, 0x80, 0xfe, 0xff] {
        assert!(get_first_chunk(b) < 64);
        assert!(get_second_chunk(b, 0xff) < 64);
        assert!(get_third_chunk(b, 0xff) < 64);
        assert!(get_fourth_chunk(b) < 64);
    }
}

#[test]
fn chunks_of_all_ones() {
    assert_eq!(get_first_chunk(0xff), 63);
    assert_eq!(get_second_chunk(0xff, 0xff), 63);
    assert_eq!(get_third_chunk(0xff, 0xff), 63);
    assert_eq!(get_fourth_chunk(0xff), 63);
}

#[test]
fn chunks_reassemble_the_bytes() {
    for &(b1, b2, b3) in &[
        (0x00u8, 0x00u8, 0x00u8),
        (0x12, 0x34, 0x56),
        (0xab, 0xcd, 0xef),
        (0xff, 0x00, 0xff),
    ] {
        let (c1, c2, c3, c4) = (
            get_first_chunk(b1),
            get_second_chunk(b1, b2),
            get_third_chunk(b2, b3),
            get_fourth_chunk(b3),
        );
        assert_eq!(c1 << 2 | c2 >> 4, b1);
        assert_eq!((c2 & 0xf) << 4 | c3 >> 2, b2);
        assert_eq!((c3 & 0x3) << 6 | c4, b3);
    }
}
