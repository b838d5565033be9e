use hamming_codec::hamming::{BLOCK_BITS, DATA_BYTES, DATA_BYTES_VALID};
use hamming_codec::packet::{CorrectionOutcome, HammingPacket};
use hamming_codec::CodecError;

fn sample_payload(len: usize) -> Vec<u8> {
    (0..len).map(|i| (i * 37 + 11) as u8).collect()
}

fn flip_bit(p: &mut HammingPacket, pos: usize) {
    let bit = p.get_bit_at_pos(pos).unwrap();
    p.set_bit_at_pos(pos, !bit).unwrap();
}

#[test]
fn capacity_is_derived_from_block_size() {
    assert_eq!(DATA_BYTES, 4096);
    assert_eq!(BLOCK_BITS, 32768);
    assert_eq!(DATA_BYTES_VALID, 4089);
}

#[test]
fn round_trip_small_payload() {
    let payload = b"hello, hamming".to_vec();
    let mut p = HammingPacket::from_bytes(3, 1, &payload).unwrap();
    assert_eq!(p.get_index(), 3);
    assert_eq!(p.get_size(), payload.len() as i16);
    assert!(p.is_final());
    assert_eq!(p.to_real_bytes(), Ok(payload));
}

#[test]
fn round_trip_empty_and_full_payload() {
    let mut empty = HammingPacket::from_bytes(0, 0, &Vec::new()).unwrap();
    assert_eq!(empty.get_size(), 0);
    assert_eq!(empty.to_real_bytes(), Ok(Vec::new()));
    let full = sample_payload(DATA_BYTES_VALID);
    let mut p = HammingPacket::from(-5, 1, &full).unwrap();
    assert_eq!(p.get_index(), -5);
    assert_eq!(p.to_real_bytes(), Ok(full));
}

#[test]
fn encoded_block_layout() {
    let p = HammingPacket::from_bytes(1, 0, &vec![0xFF]).unwrap();
    let raw = p.to_raw_bytes();
    assert_eq!(raw.len(), DATA_BYTES);
    // parity over the whole block is even and the syndrome is zero
    let ones: u32 = raw.iter().map(|b| b.count_ones()).sum();
    assert_eq!(ones % 2, 0);
    assert_eq!(p.calc_err_pos(), 0);
    // the first content bits sit at positions 3, 5, 6, 7: index 1 starts with zeros
    assert_eq!(p.get_bit_at_pos(3), Ok(false));
    // index = 1 sets content bit 15, which lands at position 21
    assert_eq!(p.get_bit_at_pos(20), Ok(false));
    assert_eq!(p.get_bit_at_pos(21), Ok(true));
}

#[test]
fn no_op_correction_on_fresh_block() {
    let mut p = HammingPacket::from_bytes(7, 0, &sample_payload(100)).unwrap();
    let before = p.to_raw_bytes();
    assert_eq!(p.self_correct(), CorrectionOutcome::NoErrorFound);
    assert_eq!(p.to_raw_bytes(), before);
}

#[test]
fn single_bit_correction_everywhere_sampled() {
    let payload = sample_payload(500);
    let pristine = HammingPacket::from_bytes(2, 1, &payload).unwrap();
    for pos in [1usize, 2, 3, 4, 100, 1024, 16384, 20000, BLOCK_BITS - 1] {
        let mut p = HammingPacket::from_packed_bytes(&pristine.to_raw_bytes().to_vec()).unwrap();
        flip_bit(&mut p, pos);
        assert_eq!(p.self_correct(), CorrectionOutcome::Corrected(pos));
        assert_eq!(p.to_raw_bytes(), pristine.to_raw_bytes());
    }
}

#[test]
fn single_bit_correction_restores_payload() {
    let payload = sample_payload(64);
    let mut p = HammingPacket::from_bytes(0, 1, &payload).unwrap();
    flip_bit(&mut p, 77);
    assert_eq!(p.to_real_bytes(), Ok(payload));
}

#[test]
fn flipped_global_parity_bit_is_not_reported() {
    let mut p = HammingPacket::from_bytes(0, 1, &sample_payload(10)).unwrap();
    flip_bit(&mut p, 0);
    assert_eq!(p.self_correct(), CorrectionOutcome::NoErrorFound);
}

#[test]
fn double_bit_detection() {
    let payload = sample_payload(300);
    let mut p = HammingPacket::from_bytes(4, 0, &payload).unwrap();
    flip_bit(&mut p, 9);
    flip_bit(&mut p, 4000);
    let before = p.to_raw_bytes();
    assert_eq!(p.self_correct(), CorrectionOutcome::UncorrectableDoubleError);
    assert_eq!(p.to_raw_bytes(), before);
    assert_eq!(p.to_real_bytes(), Err(CodecError::UncorrectableError));
}

#[test]
fn double_bit_detection_with_parity_bit() {
    let mut p = HammingPacket::from_bytes(4, 0, &sample_payload(3)).unwrap();
    flip_bit(&mut p, 0);
    flip_bit(&mut p, 12345);
    assert_eq!(p.self_correct(), CorrectionOutcome::UncorrectableDoubleError);
}

#[test]
fn rejects_invalid_frag_flag() {
    assert!(matches!(
        HammingPacket::from_bytes(0, 2, &vec![1, 2, 3]),
        Err(CodecError::InvalidFragFlag)
    ));
}

#[test]
fn rejects_oversized_payload() {
    let payload = sample_payload(DATA_BYTES_VALID + 1);
    assert!(matches!(
        HammingPacket::from_bytes(0, 0, &payload),
        Err(CodecError::PayloadTooLarge)
    ));
    assert!(matches!(
        HammingPacket::from_bytes(0, 2, &payload),
        Err(CodecError::PayloadTooLarge)
    ));
}

#[test]
fn parse_reads_header_and_keeps_block() {
    let p = HammingPacket::from_bytes(-300, 1, &sample_payload(42)).unwrap();
    let raw = p.to_raw_bytes().to_vec();
    let q = HammingPacket::from_packed_bytes(&raw).unwrap();
    assert_eq!(q.get_index(), -300);
    assert_eq!(q.get_size(), 42);
    assert_eq!(q.get_frag_flag(), 1);
    assert_eq!(q.to_raw_bytes().to_vec(), raw);
}

#[test]
fn parse_rejects_wrong_block_size() {
    assert!(matches!(
        HammingPacket::from_packed_bytes(&vec![0u8; DATA_BYTES - 1]),
        Err(CodecError::InvalidBlockSize)
    ));
    assert!(matches!(
        HammingPacket::from_packed_bytes(&vec![0u8; DATA_BYTES + 1]),
        Err(CodecError::InvalidBlockSize)
    ));
}

#[test]
fn size_out_of_range_is_rejected() {
    // all bits set: zero syndrome, even parity, size field reads -1
    let mut p = HammingPacket::from_packed_bytes(&vec![0xFFu8; DATA_BYTES]).unwrap();
    assert_eq!(p.get_size(), -1);
    assert_eq!(p.to_real_bytes(), Err(CodecError::SizeOutOfRange));
}

#[test]
fn bit_positions_outside_block() {
    let mut p = HammingPacket::from_bytes(0, 0, &Vec::new()).unwrap();
    assert_eq!(p.get_bit_at_pos(BLOCK_BITS), Err(CodecError::PositionOutOfRange));
    assert_eq!(p.set_bit_at_pos(BLOCK_BITS, true), Err(CodecError::PositionOutOfRange));
    assert_eq!(p.set_bit_at_pos(BLOCK_BITS - 1, true), Ok(()));
    assert_eq!(p.get_bit_at_pos(BLOCK_BITS - 1), Ok(true));
}

#[test]
fn info_describes_header() {
    let p = HammingPacket::from_bytes(-12, 1, &sample_payload(305)).unwrap();
    assert_eq!(p.info(), "Packet index: -12, size: 305, fragflag: 1. ");
    let q = HammingPacket::from_bytes(0, 0, &Vec::new()).unwrap();
    assert_eq!(q.info(), "Packet index: 0, size: 0, fragflag: 0. ");
}
