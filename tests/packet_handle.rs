use hamming_codec::hamming::DATA_BYTES_VALID;
use hamming_codec::packet::HammingPacket;
use hamming_codec::packet_handle::{
    handle_existed_pak, handle_multi_packet, handle_single_packet, join, restore_single_packet,
};
use hamming_codec::CodecError;

fn sample_payload(len: usize) -> Vec<u8> {
    (0..len).map(|i| (i * 13 + 5) as u8).collect()
}

fn check_fragments(packets: &[HammingPacket]) {
    let finals: Vec<usize> = (0..packets.len()).filter(|&i| packets[i].is_final()).collect();
    assert_eq!(finals, vec![packets.len() - 1]);
    for (i, p) in packets.iter().enumerate() {
        assert_eq!(p.get_index() as usize, i);
    }
}

#[test]
fn split_join_round_trip() {
    let payload = sample_payload(2 * DATA_BYTES_VALID + 17);
    let packets = handle_multi_packet(&payload);
    assert_eq!(packets.len(), 3);
    check_fragments(&packets);
    assert_eq!(packets[2].get_size(), 17);
    assert_eq!(join(&packets), Ok(payload));
}

#[test]
fn split_empty_payload() {
    let packets = handle_multi_packet(&Vec::new());
    assert_eq!(packets.len(), 1);
    assert_eq!(packets[0].get_size(), 0);
    assert!(packets[0].is_final());
    assert_eq!(join(&packets), Ok(Vec::new()));
}

#[test]
fn split_exact_capacity() {
    let payload = sample_payload(DATA_BYTES_VALID);
    let packets = handle_multi_packet(&payload);
    assert_eq!(packets.len(), 1);
    check_fragments(&packets);
    assert_eq!(join(&packets), Ok(payload));
}

#[test]
fn split_one_past_capacity() {
    let payload = sample_payload(DATA_BYTES_VALID + 1);
    let packets = handle_multi_packet(&payload);
    assert_eq!(packets.len(), 2);
    check_fragments(&packets);
    assert_eq!(packets[1].get_size(), 1);
    assert_eq!(join(&packets), Ok(payload));
}

#[test]
fn join_reports_gap() {
    let payload = sample_payload(DATA_BYTES_VALID * 2 + 1);
    let mut packets = handle_multi_packet(&payload);
    packets.remove(1);
    assert_eq!(join(&packets), Err(CodecError::MissingFragment));
}

#[test]
fn join_reports_missing_final() {
    let payload = sample_payload(DATA_BYTES_VALID + 1);
    let mut packets = handle_multi_packet(&payload);
    packets.pop();
    assert_eq!(join(&packets), Err(CodecError::MissingFragment));
    assert_eq!(join(&Vec::new()), Err(CodecError::MissingFragment));
}

#[test]
fn join_reports_uncorrectable_packet() {
    let payload = sample_payload(10);
    let packets = handle_multi_packet(&payload);
    let mut raw = packets[0].to_raw_bytes().to_vec();
    raw[100] ^= 0b0000_0011;
    let damaged = vec![handle_existed_pak(&raw)];
    assert_eq!(join(&damaged), Err(CodecError::UncorrectableError));
}

#[test]
fn single_packet_round_trip() {
    let payload = sample_payload(123);
    let mut p = handle_single_packet(&payload);
    assert_eq!(p.get_index(), 0);
    assert!(p.is_final());
    assert_eq!(restore_single_packet(&mut p), payload);
}

#[test]
fn existing_block_with_one_error_restores() {
    let payload = sample_payload(33);
    let p = handle_single_packet(&payload);
    let mut raw = p.to_raw_bytes().to_vec();
    raw[2000] ^= 0b0001_0000;
    let mut q = handle_existed_pak(&raw);
    assert_eq!(restore_single_packet(&mut q), payload);
    assert_eq!(q.to_raw_bytes(), p.to_raw_bytes());
}
