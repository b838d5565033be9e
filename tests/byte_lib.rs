use hamming_codec::byte_lib::{
    bits2byte, byte2bits, bytes2int, bytes2short, connect, int2bytes, short2bytes,
};
use hamming_codec::CodecError;

#[test]
fn test_byte2bits() {
    assert_eq!(
        byte2bits(7),
        vec![false, false, false, false, false, true, true, true]
    );
}

#[test]
fn test_bits2byte() {
    assert_eq!(
        bits2byte(&vec![false, false, false, false, true, true, true, true]),
        Ok(15)
    )
}

#[test]
fn test_int2bytes() {
    assert_eq!(int2bytes(1000), vec![0, 0, 3, 232])
}

#[test]
fn test_bytes2int() {
    assert_eq!(bytes2int(&vec![0, 0, 3, 233]), Ok(1001))
}

#[test]
fn test_short2bytes() {
    assert_eq!(short2bytes(300), vec![1, 44])
}

#[test]
fn test_bytes2short() {
    assert_eq!(bytes2short(&vec![1, 45]), Ok(301))
}

#[test]
fn bits_round_trip_every_byte() {
    for b in 0..=255u8 {
        assert_eq!(bits2byte(&byte2bits(b)), Ok(b));
    }
    assert_eq!(byte2bits(0x80), vec![true, false, false, false, false, false, false, false]);
}

#[test]
fn bits2byte_wrong_length() {
    assert_eq!(bits2byte(&vec![true; 7]), Err(CodecError::LengthError));
    assert_eq!(bits2byte(&vec![true; 9]), Err(CodecError::LengthError));
}

#[test]
fn negative_integers_two_complement() {
    assert_eq!(int2bytes(-1), vec![255, 255, 255, 255]);
    assert_eq!(bytes2int(&vec![255, 255, 255, 254]), Ok(-2));
    assert_eq!(short2bytes(-2), vec![255, 254]);
    assert_eq!(bytes2short(&vec![128, 0]), Ok(i16::MIN));
    assert_eq!(bytes2int(&int2bytes(i32::MIN)), Ok(i32::MIN));
}

#[test]
fn integer_bytes_wrong_length() {
    assert_eq!(bytes2int(&vec![1, 2, 3]), Err(CodecError::LengthError));
    assert_eq!(bytes2short(&vec![1, 2, 3]), Err(CodecError::LengthError));
}

#[test]
fn big_endian_order_is_monotonic() {
    assert!(short2bytes(255) < short2bytes(256));
    assert!(int2bytes(65535) < int2bytes(65536));
}

#[test]
fn connect_appends() {
    let mut a = vec![1u8, 2];
    connect(&mut a, &vec![3, 4, 5]);
    assert_eq!(a, vec![1, 2, 3, 4, 5]);
}
