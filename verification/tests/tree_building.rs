use huffman::tree::{
    build_frequency_map, build_huffman_tree, generate_codes, Node,
};

fn leaf(symbol: u8, frequency: u64) -> Node {
    Node::Leaf { symbol, frequency }
}

fn internal(frequency: u64, left: Node, right: Node) -> Node {
    Node::Internal {
        frequency,
        left: Box::new(left),
        right: Box::new(right),
    }
}

fn count_leaves(t: &Node) -> usize {
    match t {
        Node::Leaf { .. } => 1,
        Node::Internal { left, right, .. } => count_leaves(left) + count_leaves(right),
    }
}

fn count_internals(t: &Node) -> usize {
    match t {
        Node::Leaf { .. } => 0,
        Node::Internal { left, right, .. } => 1 + count_internals(left) + count_internals(right),
    }
}

fn check_freq_sums(t: &Node) {
    if let Node::Internal {
        frequency,
        left,
        right,
    } = t
    {
        assert_eq!(*frequency, left.frequency() + right.frequency());
        check_freq_sums(left);
        check_freq_sums(right);
    }
}

#[test]
fn frequency_map_counts_bytes() {
    let freq = build_frequency_map(b"aaab");
    assert_eq!(freq.len(), 256);
    assert_eq!(freq[b'a' as usize], 3);
    assert_eq!(freq[b'b' as usize], 1);
    assert_eq!(freq[b'c' as usize], 0);
    let total: u64 = freq.iter().sum();
    assert_eq!(total, 4);
}

#[test]
fn frequency_map_of_empty_input_is_empty() {
    let freq = build_frequency_map(b"");
    assert!(freq.iter().all(|&c| c == 0));
}

#[test]
fn empty_table_builds_no_tree() {
    let freq = build_frequency_map(b"");
    assert_eq!(build_huffman_tree(&freq), None);
}

#[test]
fn two_symbol_tree_shape() {
    // "aaab": b (count 1) is drawn first, so it becomes the left child.
    let freq = build_frequency_map(b"aaab");
    let tree = build_huffman_tree(&freq).unwrap();
    assert_eq!(tree, internal(4, leaf(b'b', 1), leaf(b'a', 3)));
}

#[test]
fn single_symbol_tree_is_one_leaf() {
    let input = vec![0x41u8; 1000];
    let freq = build_frequency_map(&input);
    let tree = build_huffman_tree(&freq).unwrap();
    assert_eq!(tree, leaf(0x41, 1000));
}

#[test]
fn tree_shape_invariants_hold() {
    // Five distinct symbols: a, b, r, c, d.
    let input = b"abracadabra";
    let freq = build_frequency_map(input);
    let tree = build_huffman_tree(&freq).unwrap();
    assert_eq!(count_leaves(&tree), 5);
    assert_eq!(count_internals(&tree), 4);
    check_freq_sums(&tree);
    assert_eq!(tree.frequency(), input.len() as u64);
}

#[test]
fn single_symbol_gets_a_one_bit_code() {
    let input = vec![0x41u8; 1000];
    let freq = build_frequency_map(&input);
    let tree = build_huffman_tree(&freq).unwrap();
    let codes = generate_codes(&tree);
    assert_eq!(codes[0x41], Some(vec![false]));
    assert_eq!(codes[0x42], None);
}

#[test]
fn codes_are_prefix_free() {
    let input = b"the quick brown fox jumps over the lazy dog";
    let freq = build_frequency_map(input);
    let tree = build_huffman_tree(&freq).unwrap();
    let codes = generate_codes(&tree);
    let present: Vec<Vec<bool>> = codes.iter().flatten().cloned().collect();
    assert!(present.len() > 2);
    for (i, a) in present.iter().enumerate() {
        for (j, b) in present.iter().enumerate() {
            if i != j {
                assert!(
                    !(a.len() <= b.len() && &b[..a.len()] == a.as_slice()),
                    "code {:?} is a prefix of {:?}",
                    a,
                    b
                );
            }
        }
    }
}

#[test]
fn codes_exist_exactly_for_occurring_symbols() {
    let input = b"mississippi";
    let freq = build_frequency_map(input);
    let tree = build_huffman_tree(&freq).unwrap();
    let codes = generate_codes(&tree);
    for b in 0..256usize {
        assert_eq!(
            codes[b].is_some(),
            input.contains(&(b as u8)),
            "symbol {}",
            b
        );
    }
}
