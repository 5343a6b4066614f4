use skithy::decompression::parse_tree_data;
use skithy::decompression::{decompress, FormatError};

#[test]
fn should_parse_tree_data() {
    let tree_data = [0x00, 0, 1, 0xFF, b'A', 1, 0xFF, b'B', 1];
    let resulting_tree = parse_tree_data(&tree_data).unwrap();

    println!("Resulting tree: {:?}", resulting_tree);

    assert!(resulting_tree.value.is_none());
    match (resulting_tree.left, resulting_tree.right) {
        (Some(left_node), Some(right_node)) => {
            assert!(left_node.value.is_some_and(|x| x == b'A'));
            assert!(right_node.value.is_some_and(|x| x == b'B'));
            assert!(left_node.binary == vec![false]);
            assert!(right_node.binary == vec![true]);
        }
        (None, None) => panic!("Left and Right nodes were None"),
        (None, Some(_)) => panic!("The Left node was None"),
        (Some(_), None) => panic!("The Right node was None"),
    }
}

#[test]
fn should_parse_three_tier_trees() {
    let tree_data = [
        0x00, 0, 0, 0x00, 0, 1, 0xFF, b'A', 2, 0xFF, b'B', 2, 0x00, 0, 1, 0xFF, b'C', 2, 0xFF,
        b'D', 2,
    ];
    let root_node = parse_tree_data(&tree_data).unwrap();
    println!("Tree: {:?}", root_node);
    match (root_node.left, root_node.right) {
        (Some(second_tier_left), Some(second_tier_right)) => {
            assert_eq!(second_tier_left.value, None);
            assert_eq!(second_tier_right.value, None);
            assert_eq!(second_tier_right.binary, vec![true]);
            assert_eq!(second_tier_left.binary, vec![false]);
            match (second_tier_left.left, second_tier_left.right) {
                (Some(third_tier_left_left), Some(third_tier_left_right)) => {
                    assert!(third_tier_left_left.value.is_some_and(|x| x == b'A'));
                    assert!(third_tier_left_right.value.is_some_and(|x| x == b'B'));
                    assert!(third_tier_left_left.binary == vec![false, false]);
                    assert!(third_tier_left_right.binary == vec![false, true]);
                }
                (None, None) => panic!("Left and Right nodes were None"),
                (None, Some(_)) => panic!("The Left node was None"),
                (Some(_), None) => panic!("The Right node was None"),
            }
            match (second_tier_right.left, second_tier_right.right) {
                (Some(third_tier_right_left), Some(third_tier_right_right)) => {
                    assert!(third_tier_right_left.value.is_some_and(|x| x == b'C'));
                    assert!(third_tier_right_right.value.is_some_and(|x| x == b'D'));
                    assert!(third_tier_right_left.binary == vec![true, false]);
                    assert!(third_tier_right_right.binary == vec![true, true]);
                }
                (None, None) => panic!("Left and Right nodes were None"),
                (None, Some(_)) => panic!("The Left node was None"),
                (Some(_), None) => panic!("The Right node was None"),
            }
        }
        (None, None) => panic!("Left and Right nodes were None"),
        (None, Some(_)) => panic!("The Left node was None"),
        (Some(_), None) => panic!("The Right node was None"),
    }
}

#[test]
fn should_parse_four_tier_trees() {
    let tree_data = [
        0x00, 0, 0, 0x00, 0, 1, 0xFF, b'A', 2, 0xFF, b'B', 2, 0x00, 0, 1, 0xFF, b'C', 2, 0xFF,
        b'D', 2,
    ];
    let root_node = parse_tree_data(&tree_data).unwrap();
    println!("Tree: {:?}", root_node);
    match (root_node.left, root_node.right) {
        (Some(second_tier_left), Some(second_tier_right)) => {
            assert_eq!(second_tier_left.value, None);
            assert_eq!(second_tier_right.value, None);
            assert_eq!(second_tier_right.binary, vec![true]);
            assert_eq!(second_tier_left.binary, vec![false]);
            match (second_tier_left.left, second_tier_left.right) {
                (Some(third_tier_left_left), Some(third_tier_left_right)) => {
                    assert!(third_tier_left_left.value.is_some_and(|x| x == b'A'));
                    assert!(third_tier_left_right.value.is_some_and(|x| x == b'B'));
                    assert!(third_tier_left_left.binary == vec![false, false]);
                    assert!(third_tier_left_right.binary == vec![false, true]);
                }
                (None, None) => panic!("Left and Right nodes were None"),
                (None, Some(_)) => panic!("The Left node was None"),
                (Some(_), None) => panic!("The Right node was None"),
            }
            match (second_tier_right.left, second_tier_right.right) {
                (Some(third_tier_right_left), Some(third_tier_right_right)) => {
                    assert!(third_tier_right_left.value.is_some_and(|x| x == b'C'));
                    assert!(third_tier_right_right.value.is_some_and(|x| x == b'D'));
                    assert!(third_tier_right_left.binary == vec![true, false]);
                    assert!(third_tier_right_right.binary == vec![true, true]);
                }
                (None, None) => panic!("Left and Right nodes were None"),
                (None, Some(_)) => panic!("The Left node was None"),
                (Some(_), None) => panic!("The Right node was None"),
            }
        }
        (None, None) => panic!("Left and Right nodes were None"),
        (None, Some(_)) => panic!("The Left node was None"),
        (Some(_), None) => panic!("The Right node was None"),
    }
}

#[test]
fn parse_rejects_partial_records() {
    // five bytes are not a whole number of three-byte records
    let tree_data = [0x00, 0, 1, 0xFF, b'A'];
    assert_eq!(
        parse_tree_data(&tree_data).unwrap_err(),
        FormatError::InvalidTreeSection
    );
}

#[test]
fn parse_rejects_empty_section() {
    let tree_data: [u8; 0] = [];
    assert_eq!(
        parse_tree_data(&tree_data).unwrap_err(),
        FormatError::InvalidTreeSection
    );
}

#[test]
fn parse_rejects_trailing_records() {
    // a lone leaf is a whole tree; a second record after it is left over
    let tree_data = [0xFF, b'A', 0, 0xFF, b'B', 0];
    assert_eq!(
        parse_tree_data(&tree_data).unwrap_err(),
        FormatError::InvalidTreeSection
    );
}

#[test]
fn decompress_rejects_empty_buffer() {
    let buffer: Vec<u8> = vec![];
    assert_eq!(decompress(&buffer).unwrap_err(), FormatError::Truncated);
}

#[test]
fn decompress_rejects_missing_count() {
    // tree section of one record, but no eight-byte symbol count after it
    let buffer: Vec<u8> = vec![3, 0x00, 0, 0];
    assert_eq!(decompress(&buffer).unwrap_err(), FormatError::Truncated);
}

#[test]
fn decompress_rejects_bad_tree_length() {
    // a tree length that is not a multiple of three
    let mut buffer: Vec<u8> = vec![2, 0x00, 0];
    buffer.extend_from_slice(&[0, 0, 0, 0, 0, 0, 0, 0]);
    assert_eq!(
        decompress(&buffer).unwrap_err(),
        FormatError::InvalidTreeSection
    );
}

#[test]
fn decompress_rejects_truncated_payload() {
    // single-symbol tree, two symbols promised, but an empty payload
    let mut buffer: Vec<u8> = vec![6, 0x00, 0, 0, 0xFF, b'A', 1];
    buffer.extend_from_slice(&[0, 0, 0, 0, 0, 0, 0, 2]);
    assert_eq!(decompress(&buffer).unwrap_err(), FormatError::Truncated);
}

#[test]
fn decompress_rejects_invalid_path() {
    // the single-symbol tree has no right child, but the first bit is 1
    let mut buffer: Vec<u8> = vec![6, 0x00, 0, 0, 0xFF, b'A', 1];
    buffer.extend_from_slice(&[0, 0, 0, 0, 0, 0, 0, 1]);
    buffer.push(0b0000_0001);
    assert_eq!(
        decompress(&buffer).unwrap_err(),
        FormatError::InvalidPayload
    );
}
