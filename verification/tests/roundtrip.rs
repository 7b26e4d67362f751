use huff::codec::{compress, expand};
use huff::HuffError;

fn assert_roundtrip(source: Vec<u8>) {
    let compressed = compress(&source).unwrap();
    let expanded = expand(&compressed).unwrap();
    assert_eq!(expanded, source);
}

#[test]
fn roundtrip_empty() {
    assert_roundtrip(Vec::new());
}

#[test]
fn roundtrip_single_byte() {
    assert_roundtrip(vec![0x41]);
}

#[test]
fn roundtrip_repeated_byte() {
    assert_roundtrip(vec![7u8; 1000]);
}

#[test]
fn roundtrip_zero_byte_source() {
    assert_roundtrip(vec![0u8; 50]);
}

#[test]
fn roundtrip_all_byte_values() {
    let mut source = Vec::new();
    for round in 0..3u32 {
        for b in 0..=255u8 {
            for _ in 0..=(b as u32 % (round + 1)) {
                source.push(b);
            }
        }
    }
    assert_roundtrip(source);
}

#[test]
fn roundtrip_text() {
    assert_roundtrip(b"the quick brown fox jumps over the lazy dog".to_vec());
}

#[test]
fn roundtrip_skewed_distribution() {
    let mut source = vec![b'a'; 100_000];
    source.push(b'b');
    source.push(b'c');
    assert_roundtrip(source);
}

#[test]
fn empty_source_compresses_to_lone_terminator() {
    let compressed = compress(&Vec::new()).unwrap();
    assert_eq!(compressed, vec![0u8]);
    let expanded = expand(&compressed).unwrap();
    assert_eq!(expanded, Vec::<u8>::new());
}

#[test]
fn concrete_scenario_file_layout() {
    // three 'A', one 'B': A gets a one-bit code, B and the end-of-stream
    // mark two-bit codes; the payload packs 1 1 1 00 01 into one byte.
    let source = vec![0x41, 0x41, 0x41, 0x42];
    let compressed = compress(&source).unwrap();
    assert_eq!(compressed, vec![0x41, 0x42, 3, 1, 0, 0xE2]);
    let expanded = expand(&compressed).unwrap();
    assert_eq!(expanded, source);
}

#[test]
fn expand_empty_input_fails() {
    assert_eq!(expand(&Vec::new()), Err(HuffError::UnexpectedEndOfStream));
}

#[test]
fn expand_truncated_header_fails() {
    // A run header announcing counts that never arrive.
    assert_eq!(expand(&vec![0x41]), Err(HuffError::UnexpectedEndOfStream));
    assert_eq!(expand(&vec![0x41, 0x42, 3]), Err(HuffError::UnexpectedEndOfStream));
}

#[test]
fn expand_truncated_payload_fails() {
    let source = vec![0x41, 0x41, 0x41, 0x42];
    let compressed = compress(&source).unwrap();
    // keep the header (five bytes) but drop the payload byte
    let truncated = compressed[..5].to_vec();
    assert_eq!(expand(&truncated), Err(HuffError::UnexpectedEndOfStream));
}
