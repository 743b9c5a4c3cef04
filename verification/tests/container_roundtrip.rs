use huffman::codec::HuffError;
use huffman::container::{decode_container, encode_container};

fn roundtrip(input: &[u8]) {
    let container = encode_container(input);
    assert_eq!(decode_container(&container), Ok(input.to_vec()));
}

#[test]
fn empty_input_yields_the_empty_container() {
    let container = encode_container(b"");
    assert_eq!(container, vec![0u8; 16]);
    assert_eq!(decode_container(&container), Ok(Vec::new()));
}

#[test]
fn roundtrip_aaab() {
    roundtrip(b"aaab");
}

#[test]
fn aaab_container_layout() {
    let container = encode_container(b"aaab");
    // 16 header bytes, 3 tree bytes, 1 body byte.
    assert_eq!(container.len(), 20);
    let mut expected_header = vec![0u8; 16];
    expected_header[0] = 4; // original length, little endian
    expected_header[8] = 3; // tree length, little endian
    assert_eq!(&container[..16], expected_header.as_slice());
    assert_eq!(&container[16..19], &[0x58u8, 0xACu8, 0x20u8]);
    assert_eq!(container[19], 0b1110_0000u8);
}

#[test]
fn roundtrip_single_repeated_byte() {
    let input = vec![0x41u8; 1000];
    let container = encode_container(&input);
    // One bit per symbol: 125 body bytes after a 2-byte tree.
    assert_eq!(container.len(), 16 + 2 + 125);
    assert_eq!(decode_container(&container), Ok(input));
}

#[test]
fn roundtrip_all_byte_values() {
    let mut input = Vec::new();
    for round in 0..3u32 {
        for b in 0..=255u8 {
            if (b as u32) % (round + 1) == 0 {
                input.push(b);
            }
        }
    }
    roundtrip(&input);
}

#[test]
fn roundtrip_text() {
    roundtrip(b"it was the best of times, it was the worst of times");
}

#[test]
fn roundtrip_two_bytes() {
    roundtrip(b"ab");
    roundtrip(b"ba");
    roundtrip(b"a");
}

#[test]
fn short_container_is_truncated() {
    assert_eq!(
        decode_container(&[0u8; 10]),
        Err(HuffError::TruncatedBody)
    );
}

#[test]
fn trailing_bytes_after_empty_container_are_rejected() {
    let mut container = encode_container(b"");
    container.push(0);
    assert_eq!(
        decode_container(&container),
        Err(HuffError::EmptyAlphabet)
    );
}

#[test]
fn missing_tree_with_symbols_owed_is_rejected() {
    let mut container = vec![0u8; 16];
    container[0] = 5; // five symbols owed, no tree section
    assert_eq!(
        decode_container(&container),
        Err(HuffError::EmptyAlphabet)
    );
}

#[test]
fn tree_section_larger_than_container_is_malformed() {
    let mut container = vec![0u8; 17];
    container[0] = 1;
    container[8] = 200;
    assert_eq!(
        decode_container(&container),
        Err(HuffError::MalformedTree)
    );
}

#[test]
fn garbled_tree_section_is_malformed() {
    let mut container = vec![0u8; 17];
    container[0] = 1;
    container[8] = 1;
    container[16] = 0x00; // an internal node with no subtrees following
    assert_eq!(
        decode_container(&container),
        Err(HuffError::MalformedTree)
    );
}

#[test]
fn truncated_body_is_reported() {
    let mut container = encode_container(b"aaab");
    container.truncate(container.len() - 1);
    assert_eq!(
        decode_container(&container),
        Err(HuffError::TruncatedBody)
    );
}

#[test]
fn corrupt_length_field_is_reported() {
    let mut container = encode_container(b"aaab");
    container[0] = 200; // claim more symbols than the body holds
    assert_eq!(
        decode_container(&container),
        Err(HuffError::TruncatedBody)
    );
}
