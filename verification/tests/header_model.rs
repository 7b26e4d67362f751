use huff::header::{output_counts, input_counts};
use huff::model::{count_bytes, scale_counts};
use huff::tree::{make_nodes, build_tree, convert_tree_to_code, Code, END_OF_STREAM};
use huff::HuffError;

fn table_with(entries: &[(usize, u32)]) -> Vec<u32> {
    let mut t = vec![0u32; 256];
    for &(i, v) in entries {
        t[i] = v;
    }
    t.push(1);
    t
}

fn header_roundtrip(t: &Vec<u32>) {
    let header = output_counts(t);
    let (decoded, consumed) = input_counts(&header, 0).unwrap();
    assert_eq!(consumed, header.len());
    assert_eq!(&decoded, t);
}

#[test]
fn header_empty_table() {
    let t = table_with(&[]);
    let header = output_counts(&t);
    assert_eq!(header, vec![0u8]);
    header_roundtrip(&t);
}

#[test]
fn header_single_run() {
    let t = table_with(&[(65, 3), (66, 1)]);
    assert_eq!(output_counts(&t), vec![65, 66, 3, 1, 0]);
    header_roundtrip(&t);
}

#[test]
fn header_bridges_gap_of_three_zeros() {
    let t = table_with(&[(10, 5), (14, 7)]);
    assert_eq!(output_counts(&t), vec![10, 14, 5, 0, 0, 0, 7, 0]);
    header_roundtrip(&t);
}

#[test]
fn header_splits_on_gap_of_four_zeros() {
    let t = table_with(&[(10, 5), (15, 7)]);
    assert_eq!(output_counts(&t), vec![10, 10, 5, 15, 15, 7, 0]);
    header_roundtrip(&t);
}

#[test]
fn header_run_starting_at_slot_zero() {
    let t = table_with(&[(0, 9), (2, 4)]);
    assert_eq!(output_counts(&t), vec![0, 2, 9, 0, 4, 0]);
    header_roundtrip(&t);
}

#[test]
fn header_run_ending_at_last_slot() {
    let t = table_with(&[(254, 1), (255, 2)]);
    assert_eq!(output_counts(&t), vec![254, 255, 1, 2, 0]);
    header_roundtrip(&t);
}

#[test]
fn header_many_runs() {
    let t = table_with(&[(3, 1), (40, 200), (41, 255), (100, 17), (250, 9)]);
    header_roundtrip(&t);
}

#[test]
fn header_decode_rejects_missing_terminator() {
    assert_eq!(input_counts(&vec![10u8, 10, 5], 0), Err(HuffError::UnexpectedEndOfStream));
}

#[test]
fn count_bytes_tallies_each_value() {
    let counts = count_bytes(&vec![1, 1, 2, 255, 1]);
    assert_eq!(counts[1], 3);
    assert_eq!(counts[2], 1);
    assert_eq!(counts[255], 1);
    assert_eq!(counts[0], 0);
}

#[test]
fn scale_counts_small_counts_kept() {
    let mut counts = vec![0u64; 256];
    counts[0x41] = 3;
    counts[0x42] = 1;
    let scaled = scale_counts(&counts);
    assert_eq!(scaled[0x41], 3);
    assert_eq!(scaled[0x42], 1);
    assert_eq!(scaled[256], 1);
}

#[test]
fn scale_counts_rare_byte_survives_dominant_byte() {
    // one byte's tally exceeds 255 times any other: the rare ones still
    // scale to exactly one instead of vanishing
    let mut counts = vec![0u64; 256];
    counts[0] = 1_000_000;
    counts[7] = 1;
    counts[9] = 200;
    let scaled = scale_counts(&counts);
    assert!(scaled[0] >= 1 && scaled[0] <= 255);
    assert_eq!(scaled[7], 1);
    assert_eq!(scaled[9], 1);
    assert_eq!(scaled[256], 1);
}

#[test]
fn degenerate_alphabet_tree_shape() {
    // a single repeated byte: the root's children are that byte's leaf and
    // the end-of-stream leaf
    let counts = count_bytes(&vec![7u8; 42]);
    let scaled = scale_counts(&counts);
    let mut nodes = make_nodes(&scaled);
    let root = build_tree(&mut nodes);
    let c0 = nodes[root].child_0;
    let c1 = nodes[root].child_1;
    assert!(c0 <= END_OF_STREAM && c1 <= END_OF_STREAM);
    assert!((c0 == 7 && c1 == END_OF_STREAM) || (c0 == END_OF_STREAM && c1 == 7));
}

#[test]
fn concrete_scenario_codes() {
    // three 'A', one 'B': B and the end-of-stream mark tie at one, the
    // lower index wins, and A ends up with the single one-bit code
    let counts = count_bytes(&vec![0x41, 0x41, 0x41, 0x42]);
    let scaled = scale_counts(&counts);
    assert_eq!(scaled[0x41], 3);
    assert_eq!(scaled[0x42], 1);
    assert_eq!(scaled[256], 1);
    let mut nodes = make_nodes(&scaled);
    let root = build_tree(&mut nodes);
    let first_merge = nodes[root].child_0;
    assert_eq!(nodes[first_merge].child_0, 0x42);
    assert_eq!(nodes[first_merge].child_1, END_OF_STREAM);
    assert_eq!(nodes[root].child_1, 0x41);
    let mut codes = vec![Code { code: 0, code_bits: 0 }; 257];
    convert_tree_to_code(&nodes, &mut codes, 0, 0, root);
    assert_eq!(codes[0x41].code_bits, 1);
    assert_eq!(codes[0x41].code, 1);
    assert_eq!(codes[0x42].code_bits, 2);
    assert_eq!(codes[0x42].code, 0);
    assert_eq!(codes[END_OF_STREAM].code_bits, 2);
    assert_eq!(codes[END_OF_STREAM].code, 1);
}

#[test]
fn generated_codes_are_prefix_free() {
    let source = b"abracadabra, a magic word with skewed letter counts".to_vec();
    let counts = count_bytes(&source);
    let scaled = scale_counts(&counts);
    let mut nodes = make_nodes(&scaled);
    let root = build_tree(&mut nodes);
    let mut codes = vec![Code { code: 0, code_bits: 0 }; 257];
    convert_tree_to_code(&nodes, &mut codes, 0, 0, root);
    let coded: Vec<(u32, u32)> = codes
        .iter()
        .filter(|c| c.code_bits > 0)
        .map(|c| (c.code, c.code_bits))
        .collect();
    assert!(coded.len() >= 2);
    for (i, &(ca, ba)) in coded.iter().enumerate() {
        for (j, &(cb, bb)) in coded.iter().enumerate() {
            if i != j && ba <= bb {
                assert_ne!(cb >> (bb - ba), ca, "one code is a prefix of another");
            }
        }
    }
}
