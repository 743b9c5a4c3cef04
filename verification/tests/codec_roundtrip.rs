use huffman::codec::{
    decode, deserialize_tree, encode, serialize_tree, HuffError,
};
use huffman::tree::{build_frequency_map, build_huffman_tree, generate_codes, Node};

fn tree_for(input: &[u8]) -> Node {
    build_huffman_tree(&build_frequency_map(input)).unwrap()
}

fn zero_freqs(t: &Node) -> Node {
    match t {
        Node::Leaf { symbol, .. } => Node::Leaf {
            symbol: *symbol,
            frequency: 0,
        },
        Node::Internal { left, right, .. } => Node::Internal {
            frequency: 0,
            left: Box::new(zero_freqs(left)),
            right: Box::new(zero_freqs(right)),
        },
    }
}

#[test]
fn encode_aaab_gives_expected_bits() {
    // The tree for "aaab" codes b as 0 and a as 1, so "aaab" becomes the
    // bits 1110 padded to 1110_0000.
    let tree = tree_for(b"aaab");
    let codes = generate_codes(&tree);
    assert_eq!(codes[b'a' as usize], Some(vec![true]));
    assert_eq!(codes[b'b' as usize], Some(vec![false]));
    assert_eq!(encode(b"aaab", &codes), vec![0b1110_0000u8]);
}

#[test]
fn decode_aaab_from_expected_bits() {
    let tree = tree_for(b"aaab");
    assert_eq!(decode(&[0b1110_0000u8], &tree, 4), Ok(b"aaab".to_vec()));
}

#[test]
fn decode_stops_at_the_declared_length() {
    // The padding bits after the four real codes must be ignored.
    let tree = tree_for(b"aaab");
    assert_eq!(decode(&[0b1110_1111u8], &tree, 4), Ok(b"aaab".to_vec()));
}

#[test]
fn decode_reports_a_truncated_body() {
    let tree = tree_for(b"aaab");
    assert_eq!(
        decode(&[], &tree, 4),
        Err(HuffError::TruncatedBody)
    );
    assert_eq!(
        decode(&[0b1110_0000u8], &tree, 20),
        Err(HuffError::TruncatedBody)
    );
}

#[test]
fn stream_roundtrip_many_symbols() {
    let input = b"abracadabra alakazam";
    let tree = tree_for(input);
    let codes = generate_codes(&tree);
    let encoded = encode(input, &codes);
    assert_eq!(
        decode(&encoded, &tree, input.len() as u64),
        Ok(input.to_vec())
    );
}

#[test]
fn serialize_two_leaf_tree_gives_expected_bytes() {
    // Pre-order: 0 (internal), 1 + 'b' bits, 1 + 'a' bits = 19 bits.
    let tree = tree_for(b"aaab");
    assert_eq!(serialize_tree(&tree), vec![0x58u8, 0xACu8, 0x20u8]);
}

#[test]
fn deserialize_two_leaf_tree() {
    let (tree, used) = deserialize_tree(&[0x58u8, 0xACu8, 0x20u8]).unwrap();
    assert_eq!(used, 3);
    assert_eq!(tree, zero_freqs(&tree_for(b"aaab")));
}

#[test]
fn tree_serialization_roundtrip() {
    let original = tree_for(b"the quick brown fox jumps over the lazy dog");
    let bytes = serialize_tree(&original);
    let (rebuilt, used) = deserialize_tree(&bytes).unwrap();
    assert_eq!(used, bytes.len());
    assert_eq!(rebuilt, zero_freqs(&original));
}

#[test]
fn single_leaf_serialization_roundtrip() {
    let original = tree_for(&[0x41u8; 1000]);
    let bytes = serialize_tree(&original);
    // One flag bit plus eight symbol bits need two bytes.
    assert_eq!(bytes.len(), 2);
    let (rebuilt, used) = deserialize_tree(&bytes).unwrap();
    assert_eq!(used, 2);
    assert_eq!(rebuilt, Node::Leaf { symbol: 0x41, frequency: 0 });
}

#[test]
fn deserialize_reports_malformed_trees() {
    assert_eq!(deserialize_tree(&[]), Err(HuffError::MalformedTree));
    // An internal node whose subtrees never materialize.
    assert_eq!(deserialize_tree(&[0x00u8]), Err(HuffError::MalformedTree));
    // A leaf flag with too few symbol bits.
    assert_eq!(deserialize_tree(&[0x80u8]), Err(HuffError::MalformedTree));
}
