use skithy::huffman::{create_byte_vec_from, HuffmanNode};

#[test]
fn from_buffer_assigns_expected_codes() {
    // frequencies {A:3, B:2, C:1}: ordered leaves [C:1, B:2, A:3],
    // first merge (C,B):3, second merge (A,(C,B)):6
    let tree = HuffmanNode::from_buffer(b"AAABBC".to_vec());
    assert_eq!(tree.find_encoding(b'A').unwrap(), vec![false]);
    assert_eq!(tree.find_encoding(b'C').unwrap(), vec![true, false]);
    assert_eq!(tree.find_encoding(b'B').unwrap(), vec![true, true]);
    assert!(tree.find_encoding(b'Z').is_none());
}

#[test]
fn from_buffer_conserves_frequency() {
    // the root's frequency is the whole input length
    let tree = HuffmanNode::from_buffer(b"AAABBC".to_vec());
    assert_eq!(tree.frequency, 6);
    let empty = HuffmanNode::from_buffer(Vec::new());
    assert_eq!(empty.frequency, 0);
}

#[test]
fn assigned_codes_are_prefix_free() {
    let tree = HuffmanNode::from_buffer(b"AAABBC".to_vec());
    let codes = [
        tree.find_encoding(b'A').unwrap(),
        tree.find_encoding(b'B').unwrap(),
        tree.find_encoding(b'C').unwrap(),
    ];
    for i in 0..codes.len() {
        for j in 0..codes.len() {
            if i != j {
                assert!(!codes[j].starts_with(&codes[i]));
            }
        }
    }
}

#[test]
fn single_symbol_gets_a_one_bit_code() {
    // a lone leaf is wrapped so its code is 0, never the empty code
    let tree = HuffmanNode::from_buffer(vec![0x41; 10]);
    assert!(tree.value.is_none());
    assert_eq!(tree.find_encoding(0x41).unwrap(), vec![false]);
}

#[test]
fn empty_buffer_builds_a_valueless_root() {
    let tree = HuffmanNode::from_buffer(Vec::new());
    assert!(tree.value.is_none());
    assert!(tree.left.is_none());
    assert!(tree.right.is_none());
}

#[test]
fn new_builds_a_node_with_an_empty_code() {
    let node = HuffmanNode::new(Some(10), 5, None, None);
    assert_eq!(node.value, Some(10));
    assert_eq!(node.frequency, 5);
    assert!(node.binary.is_empty());
    assert!(node.left.is_none() && node.right.is_none());
}

#[test]
fn from_sums_the_children_frequencies() {
    let left = HuffmanNode::new(Some(1), 4, None, None);
    let right = HuffmanNode::new(Some(2), 7, None, None);
    let parent = HuffmanNode::from(None, Some(Box::new(left)), Some(Box::new(right)));
    assert_eq!(parent.frequency, 11);
    assert!(parent.value.is_none());
}

#[test]
fn assign_binary_labels_every_node() {
    let left = HuffmanNode::new(Some(1), 1, None, None);
    let right = HuffmanNode::new(Some(2), 1, None, None);
    let mut root = HuffmanNode::from(None, Some(Box::new(left)), Some(Box::new(right)));
    root.assign_binary(Vec::new());
    assert_eq!(root.binary, Vec::<bool>::new());
    assert_eq!(root.left.as_ref().unwrap().binary, vec![false]);
    assert_eq!(root.right.as_ref().unwrap().binary, vec![true]);
}

#[test]
fn serialization_writes_one_record_per_node() {
    let tree = HuffmanNode::from_buffer(b"AAABBC".to_vec());
    let nodes = tree.preorder_nodes();
    assert_eq!(nodes.len(), 5);
    let bytes = create_byte_vec_from(nodes).unwrap();
    assert_eq!(
        bytes,
        vec![15, 0x00, 0, 0, 0xFF, b'A', 1, 0x00, 0, 1, 0xFF, b'C', 2, 0xFF, b'B', 2]
    );
}

#[test]
fn serialization_rejects_oversized_node_lists() {
    // 86 nodes would need 258 record bytes: over the one-byte bound
    let mut nodes: Vec<HuffmanNode> = Vec::new();
    for i in 0..86u8 {
        nodes.push(HuffmanNode::new(Some(i), 1, None, None));
    }
    assert!(create_byte_vec_from(nodes).is_err());
}

#[test]
fn clone_copies_the_whole_tree() {
    let tree = HuffmanNode::from_buffer(b"AAABBC".to_vec());
    let copy = tree.clone();
    assert_eq!(copy.value, tree.value);
    assert_eq!(copy.frequency, tree.frequency);
    assert_eq!(copy.find_encoding(b'B'), tree.find_encoding(b'B'));
}
