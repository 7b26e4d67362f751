use huff::bitio::{BitWriter, BitReader};
use huff::HuffError;

#[test]
fn writer_packs_most_significant_bit_first() {
    let mut w = BitWriter::new();
    for bit in [true, false, true, true, false, false, true, false] {
        w.output_bit(bit);
    }
    assert_eq!(w.close_output(), vec![0b1011_0010]);
}

#[test]
fn writer_pads_final_partial_byte_with_zeros() {
    let mut w = BitWriter::new();
    w.output_bit(true);
    w.output_bit(true);
    w.output_bit(true);
    assert_eq!(w.close_output(), vec![0b1110_0000]);
}

#[test]
fn writer_output_bits_writes_low_bits_of_value() {
    let mut w = BitWriter::new();
    w.output_bits(0b101, 3);
    w.output_bits(0, 0);
    w.output_bits(0b11001, 5);
    assert_eq!(w.close_output(), vec![0b1011_1001]);
}

#[test]
fn writer_from_bytes_keeps_prefix() {
    let w = BitWriter::from_bytes(vec![0xAB]);
    assert_eq!(w.close_output(), vec![0xAB]);
}

#[test]
fn reader_returns_bits_in_writing_order() {
    let mut r = BitReader::new_at(vec![0b1011_0010], 0);
    let expected = [true, false, true, true, false, false, true, false];
    for bit in expected {
        assert_eq!(r.input_bit(), Ok(bit));
    }
    assert_eq!(r.input_bit(), Err(HuffError::UnexpectedEndOfStream));
}

#[test]
fn reader_starts_at_byte_offset() {
    let mut r = BitReader::new_at(vec![0xFF, 0b0100_0000], 1);
    assert_eq!(r.input_bit(), Ok(false));
    assert_eq!(r.input_bit(), Ok(true));
}

#[test]
fn reader_input_bits_accumulates_value() {
    let mut r = BitReader::new_at(vec![0b1011_1001, 0b0100_0000], 0);
    assert_eq!(r.input_bits(3), Ok(0b101));
    assert_eq!(r.input_bits(0), Ok(0));
    assert_eq!(r.input_bits(5), Ok(0b11001));
    assert_eq!(r.input_bits(2), Ok(0b01));
    assert_eq!(r.input_bits(32), Err(HuffError::UnexpectedEndOfStream));
}

#[test]
fn bit_channel_roundtrip() {
    let mut w = BitWriter::new();
    w.output_bits(0xDEAD, 16);
    w.output_bits(0b1, 1);
    w.output_bits(0x3F, 6);
    let bytes = w.close_output();
    let mut r = BitReader::new_at(bytes, 0);
    assert_eq!(r.input_bits(16), Ok(0xDEAD));
    assert_eq!(r.input_bits(1), Ok(1));
    assert_eq!(r.input_bits(6), Ok(0x3F));
}
