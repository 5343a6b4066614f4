use skithy::compression::compress;
use skithy::decompression::decompress;

#[test]
fn round_trip_mixed_text() {
    let input: Vec<u8> = b"AAABBC".to_vec();
    let compressed = compress(&input).unwrap();
    assert_eq!(decompress(&compressed).unwrap(), input);
}

#[test]
fn round_trip_empty_buffer() {
    let input: Vec<u8> = vec![];
    let compressed = compress(&input).unwrap();
    assert_eq!(decompress(&compressed).unwrap(), input);
}

#[test]
fn round_trip_single_repeated_byte() {
    let input: Vec<u8> = vec![0x41; 10];
    let compressed = compress(&input).unwrap();
    let restored = decompress(&compressed).unwrap();
    assert_eq!(restored.len(), 10);
    assert_eq!(restored, input);
}

#[test]
fn round_trip_one_byte() {
    let input: Vec<u8> = vec![7];
    let compressed = compress(&input).unwrap();
    assert_eq!(decompress(&compressed).unwrap(), input);
}

#[test]
fn round_trip_two_distinct_bytes() {
    let input: Vec<u8> = vec![0, 255, 0, 255, 255];
    let compressed = compress(&input).unwrap();
    assert_eq!(decompress(&compressed).unwrap(), input);
}

#[test]
fn round_trip_largest_alphabet() {
    // 43 distinct symbols give 85 tree nodes: 255 tree bytes, the limit
    let mut input: Vec<u8> = Vec::new();
    for v in 0..43u8 {
        for _ in 0..(v as usize + 1) {
            input.push(v);
        }
    }
    let compressed = compress(&input).unwrap();
    assert_eq!(compressed[0], 255);
    assert_eq!(decompress(&compressed).unwrap(), input);
}

#[test]
fn compress_rejects_oversized_alphabet() {
    // 44 distinct symbols need 87 tree nodes: over the one-byte bound
    let input: Vec<u8> = (0..44u8).collect();
    assert!(compress(&input).is_err());
}

#[test]
fn compress_is_deterministic() {
    let input: Vec<u8> = b"the quick brown fox jumps over the lazy dog".to_vec();
    let first = compress(&input).unwrap();
    let second = compress(&input).unwrap();
    assert_eq!(first, second);
}

#[test]
fn mixed_text_wire_format() {
    // "AAABBC": ordered leaves [C:1, B:2, A:3]; merging C and B, then A
    // with that node, gives codes A=0, C=10, B=11.  The bit stream is
    // 0 0 0 11 11 10, packed LSB-first into 0xF8, 0x00.
    let input: Vec<u8> = b"AAABBC".to_vec();
    let compressed = compress(&input).unwrap();
    // five nodes: fifteen tree bytes
    assert_eq!(compressed[0], 15);
    // preorder records: root, leaf A, internal, leaf C, leaf B
    assert_eq!(
        &compressed[1..16],
        &[
            0x00, 0, 0, 0xFF, b'A', 1, 0x00, 0, 1, 0xFF, b'C', 2, 0xFF, b'B', 2
        ]
    );
    // eight-byte big-endian symbol count
    assert_eq!(&compressed[16..24], &[0, 0, 0, 0, 0, 0, 0, 6]);
    // bit-packed payload
    assert_eq!(&compressed[24..], &[0xF8, 0x00]);
}

#[test]
fn empty_input_wire_format() {
    // empty input: a single valueless record, count zero, no payload
    let input: Vec<u8> = vec![];
    let compressed = compress(&input).unwrap();
    assert_eq!(compressed, vec![3, 0x00, 0, 0, 0, 0, 0, 0, 0, 0, 0, 0]);
    assert_eq!(decompress(&compressed).unwrap(), input);
}

#[test]
fn single_symbol_wire_format() {
    // ten repetitions of one byte: a wrapped leaf with the one-bit code 0,
    // so the payload is two bytes of zero bits, never empty
    let input: Vec<u8> = vec![0x41; 10];
    let compressed = compress(&input).unwrap();
    assert_eq!(compressed[0], 6);
    assert_eq!(&compressed[1..7], &[0x00, 0, 0, 0xFF, 0x41, 1]);
    assert_eq!(&compressed[7..15], &[0, 0, 0, 0, 0, 0, 0, 10]);
    assert_eq!(&compressed[15..], &[0x00, 0x00]);
}
