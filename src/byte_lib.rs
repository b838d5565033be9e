//! Conversions between bytes and bits, and between fixed-width integers and
//! big-endian byte sequences.
use vstd::prelude::*;

use crate::CodecError;
use vstd::arithmetic::div_mod::lemma_fundamental_div_mod_converse;

verus! {

/// Bit `k` (0 = most significant) of `b`.
pub open spec fn bit_of(b: u8, k: int) -> bool {
    (b >> ((7 - k) as u8)) & 1u8 == 1u8
}

/// The eight bits of `b`, most significant first.
pub open spec fn byte_bits(b: u8) -> Seq<bool> {
    Seq::new(8, |k: int| bit_of(b, k))
}

/// The byte whose eight bits, most significant first, are `bits`.
pub open spec fn byte_of(bits: Seq<bool>) -> u8 {
    choose|b: u8| byte_bits(b) == bits
}

/// The bits of a byte sequence, each byte most significant bit first.
pub open spec fn bits_of(s: Seq<u8>) -> Seq<bool> {
    Seq::new(8 * s.len(), |i: int| bit_of(s[i / 8], i % 8))
}

/// The bytes whose bits are `bits` (whose length is a multiple of 8).
pub open spec fn bytes_of(bits: Seq<bool>) -> Seq<u8> {
    Seq::new(bits.len() / 8, |i: int| byte_of(bits.subrange(8 * i, 8 * i + 8)))
}

/// Big-endian bytes of a 32-bit value.
pub open spec fn be32(v: u32) -> Seq<u8> {
    seq![(v >> 24u32) as u8, (v >> 16u32) as u8, (v >> 8u32) as u8, v as u8]
}

/// The 32-bit value of four big-endian bytes.
pub open spec fn from_be32(s: Seq<u8>) -> u32 {
    ((s[0] as u32) << 24u32) | ((s[1] as u32) << 16u32) | ((s[2] as u32) << 8u32) | (s[3] as u32)
}

/// Big-endian bytes of a 16-bit value.
pub open spec fn be16(v: u16) -> Seq<u8> {
    seq![(v >> 8u16) as u8, v as u8]
}

/// The 16-bit value of two big-endian bytes.
pub open spec fn from_be16(hi: u8, lo: u8) -> u16 {
    ((hi as u16) << 8u16) | (lo as u16)
}

/// A byte is determined by its eight bits.
proof fn lemma_bits_determine_byte(a: u8, b: u8)
    requires
        byte_bits(a) == byte_bits(b),
    ensures
        a == b,
{
    assert(byte_bits(a)[0] == bit_of(a, 0) && byte_bits(b)[0] == bit_of(b, 0));
    assert(byte_bits(a)[1] == bit_of(a, 1) && byte_bits(b)[1] == bit_of(b, 1));
    assert(byte_bits(a)[2] == bit_of(a, 2) && byte_bits(b)[2] == bit_of(b, 2));
    assert(byte_bits(a)[3] == bit_of(a, 3) && byte_bits(b)[3] == bit_of(b, 3));
    assert(byte_bits(a)[4] == bit_of(a, 4) && byte_bits(b)[4] == bit_of(b, 4));
    assert(byte_bits(a)[5] == bit_of(a, 5) && byte_bits(b)[5] == bit_of(b, 5));
    assert(byte_bits(a)[6] == bit_of(a, 6) && byte_bits(b)[6] == bit_of(b, 6));
    assert(byte_bits(a)[7] == bit_of(a, 7) && byte_bits(b)[7] == bit_of(b, 7));
    assert(a == b) by (bit_vector)
        requires
            (a >> 7u8) & 1u8 == 1u8 <==> (b >> 7u8) & 1u8 == 1u8,
            (a >> 6u8) & 1u8 == 1u8 <==> (b >> 6u8) & 1u8 == 1u8,
            (a >> 5u8) & 1u8 == 1u8 <==> (b >> 5u8) & 1u8 == 1u8,
            (a >> 4u8) & 1u8 == 1u8 <==> (b >> 4u8) & 1u8 == 1u8,
            (a >> 3u8) & 1u8 == 1u8 <==> (b >> 3u8) & 1u8 == 1u8,
            (a >> 2u8) & 1u8 == 1u8 <==> (b >> 2u8) & 1u8 == 1u8,
            (a >> 1u8) & 1u8 == 1u8 <==> (b >> 1u8) & 1u8 == 1u8,
            (a >> 0u8) & 1u8 == 1u8 <==> (b >> 0u8) & 1u8 == 1u8,
    ;
}

/// `byte_of` inverts `byte_bits`.
pub proof fn lemma_byte_of_bits(b: u8)
    ensures
        byte_of(byte_bits(b)) == b,
{
    let c = byte_of(byte_bits(b));
    assert(byte_bits(c) == byte_bits(b));
    lemma_bits_determine_byte(c, b);
}

/// Splits a byte into its eight bits, most significant first.
pub fn byte2bits(byte: u8) -> (bits: Vec<bool>)
    ensures
        bits@ == byte_bits(byte),
{
    let mut bits: Vec<bool> = Vec::new();
    for pos in 0..8u8
        invariant
            bits@ == byte_bits(byte).subrange(0, pos as int),
    {
        let bit = ((byte >> (7 - pos)) & 0x1) != 0;
        assert(bit == bit_of(byte, pos as int)) by {
            let sh: u8 = (7 - pos) as u8;
            assert(((byte >> sh) & 1u8 != 0u8) == ((byte >> sh) & 1u8 == 1u8)) by (bit_vector);
        }
        bits.push(bit);
        assert(bits@ =~= byte_bits(byte).subrange(0, pos + 1));
    }
    assert(bits@ =~= byte_bits(byte));
    bits
}

/// Setting mask bit `p` sets exactly bit `p`; the zero byte has no bit set.
proof fn lemma_set_bit(r: u8, p: u8, k: u8)
    requires
        p < 8,
        k < 8,
    ensures
        bit_of(r | (0x80u8 >> p), k as int) == (bit_of(r, k as int) || k == p),
        !bit_of(0u8, k as int),
{
    let sh: u8 = (7 - k) as u8;
    assert(((r | (0x80u8 >> p)) >> sh) & 1u8 == 1u8 <==> (((r >> sh) & 1u8 == 1u8) || k == p))
        by (bit_vector)
        requires
            p < 8u8,
            k < 8u8,
            sh == 7u8 - k,
    ;
    assert((0u8 >> sh) & 1u8 != 1u8) by (bit_vector);
}

/// Packs the eight bits `bits[start..start + 8]`, most significant first.
pub(crate) fn pack_byte(bits: &Vec<bool>, start: usize) -> (byte: u8)
    requires
        start + 8 <= bits@.len(),
    ensures
        byte_bits(byte) == bits@.subrange(start as int, start + 8),
{
    let mut byte: u8 = 0;
    let len = bits.len();
    proof {
        assert forall|k: int| 0 <= k < 8 implies !#[trigger] bit_of(byte, k) by {
            lemma_set_bit(0, 0, k as u8);
        }
    }
    for pos in 0..8u8
        invariant
            start + 8 <= bits@.len(),
            len == bits@.len(),
            forall|k: int| 0 <= k < 8 ==> #[trigger] bit_of(byte, k) == (k < pos && bits@[start + k]),
    {
        if bits[start + pos as usize] {
            let next = byte | (0x80u8 >> pos);
            proof {
                assert forall|k: int| 0 <= k < 8 implies #[trigger] bit_of(next, k) == (k < pos + 1
                    && bits@[start + k]) by {
                    lemma_set_bit(byte, pos, k as u8);
                }
            }
            byte = next;
        }
    }
    assert(byte_bits(byte) =~= bits@.subrange(start as int, start + 8));
    byte
}

/// Joins eight bits, most significant first, into a byte.
pub fn bits2byte(bits: &Vec<bool>) -> (r: Result<u8, CodecError>)
    ensures
        bits@.len() == 8 ==> (r matches Ok(b) && byte_bits(b) == bits@),
        bits@.len() != 8 ==> r == Err::<u8, CodecError>(CodecError::LengthError),
{
    if bits.len() != 8 {
        Err(CodecError::LengthError)
    } else {
        let b = pack_byte(bits, 0);
        assert(bits@.subrange(0, 8) =~= bits@);
        Ok(b)
    }
}

/// Big-endian bytes of a 32-bit signed integer (two's complement).
pub fn int2bytes(value: i32) -> (bytes: Vec<u8>)
    ensures
        bytes@ == be32(value as u32),
{
    let v = value as u32;
    let mut bytes: Vec<u8> = Vec::new();
    bytes.push((v >> 24) as u8);
    bytes.push((v >> 16) as u8);
    bytes.push((v >> 8) as u8);
    bytes.push(v as u8);
    assert(bytes@ =~= be32(value as u32));
    bytes
}

/// The signed 32-bit integer whose big-endian bytes are `bytes`.
pub fn bytes2int(bytes: &Vec<u8>) -> (r: Result<i32, CodecError>)
    ensures
        bytes@.len() == 4 ==> r == Ok::<i32, CodecError>(from_be32(bytes@) as i32),
        bytes@.len() != 4 ==> r == Err::<i32, CodecError>(CodecError::LengthError),
{
    if bytes.len() != 4 {
        return Err(CodecError::LengthError);
    }
    let mut value: u32 = 0;
    for i in 0..4usize
        invariant
            bytes@.len() == 4,
            i == 0 ==> value == 0,
            i == 1 ==> value == bytes@[0] as u32,
            i == 2 ==> value == ((bytes@[0] as u32) << 8u32) | (bytes@[1] as u32),
            i == 3 ==> value == ((bytes@[0] as u32) << 16u32) | ((bytes@[1] as u32) << 8u32) | (
            bytes@[2] as u32),
            i == 4 ==> value == from_be32(bytes@),
    {
        let b = bytes[i];
        let prev = value;
        value = (value << 8) | (b as u32);
        proof {
            let b0 = bytes@[0] as u32;
            let b1 = bytes@[1] as u32;
            let b2 = bytes@[2] as u32;
            let bb = b as u32;
            if i == 1 {
                assert((b0 << 8u32) | bb == (b0 << 8u32) | bb);
            } else if i == 2 {
                assert((((b0 << 8u32) | b1) << 8u32) | bb == (b0 << 16u32) | (b1 << 8u32) | bb)
                    by (bit_vector);
            } else if i == 3 {
                assert((((b0 << 16u32) | (b1 << 8u32) | b2) << 8u32) | bb == (b0 << 24u32) | (b1
                    << 16u32) | (b2 << 8u32) | bb) by (bit_vector);
            } else {
                assert((0u32 << 8u32) | bb == bb) by (bit_vector);
            }
        }
    }
    Ok(value as i32)
}

/// Big-endian bytes of a 16-bit signed integer (two's complement).
pub fn short2bytes(value: i16) -> (bytes: Vec<u8>)
    ensures
        bytes@ == be16(value as u16),
{
    let v = value as u16;
    let mut bytes: Vec<u8> = Vec::new();
    bytes.push((v >> 8) as u8);
    bytes.push(v as u8);
    assert(bytes@ =~= be16(value as u16));
    bytes
}

/// The signed 16-bit integer whose big-endian bytes are `bytes`.
pub fn bytes2short(bytes: &Vec<u8>) -> (r: Result<i16, CodecError>)
    ensures
        bytes@.len() == 2 ==> r == Ok::<i16, CodecError>(
            from_be16(bytes@[0], bytes@[1]) as i16,
        ),
        bytes@.len() != 2 ==> r == Err::<i16, CodecError>(CodecError::LengthError),
{
    if bytes.len() != 2 {
        Err(CodecError::LengthError)
    } else {
        let value: u16 = ((bytes[0] as u16) << 8) | (bytes[1] as u16);
        Ok(value as i16)
    }
}

/// Appends every byte of `appendence` to `container`.
pub fn connect(container: &mut Vec<u8>, appendence: &Vec<u8>)
    ensures
        final(container)@ == old(container)@ + appendence@,
{
    let ghost start = container@;
    for i in 0..appendence.len()
        invariant
            container@ == start + appendence@.subrange(0, i as int),
    {
        container.push(appendence[i]);
        assert(container@ =~= start + appendence@.subrange(0, i + 1));
    }
    assert(appendence@.subrange(0, appendence@.len() as int) =~= appendence@);
}

/// Decoding the big-endian bytes of a 16-bit value gives the value back.
pub proof fn lemma_be16_round_trip(v: u16)
    ensures
        from_be16(be16(v)[0], be16(v)[1]) == v,
{
    assert((((v >> 8u16) as u8) as u16) << 8u16 | ((v as u8) as u16) == v) by (bit_vector);
}

/// Decoding the big-endian bytes of a 32-bit value gives the value back.
pub proof fn lemma_be32_round_trip(v: u32)
    ensures
        from_be32(be32(v)) == v,
{
    assert((((v >> 24u32) as u8) as u32) << 24u32 | (((v >> 16u32) as u8) as u32) << 16u32 | (((v
        >> 8u32) as u8) as u32) << 8u32 | ((v as u8) as u32) == v) by (bit_vector);
}

/// Position `i` of a bit sequence lies in byte `q` at offset `i - 8 q`.
pub proof fn lemma_bit_index(i: int, q: int)
    requires
        8 * q <= i < 8 * q + 8,
    ensures
        i / 8 == q,
        i % 8 == i - 8 * q,
{
    lemma_fundamental_div_mod_converse(i, 8, q, i - 8 * q);
}

/// A byte sequence whose bytes carry consecutive groups of eight bits has
/// those bits as its bits.
pub proof fn lemma_bits_of_groups(s: Seq<u8>, bits: Seq<bool>)
    requires
        bits.len() == 8 * s.len(),
        forall|j: int|
            0 <= j < s.len() ==> byte_bits(#[trigger] s[j]) == bits.subrange(8 * j, 8 * j + 8),
    ensures
        bits_of(s) == bits,
{
    assert forall|t: int| 0 <= t < bits.len() implies #[trigger] bits_of(s)[t] == bits[t] by {
        let q = t / 8;
        vstd::arithmetic::div_mod::lemma_fundamental_div_mod(t, 8);
        lemma_bit_index(t, q);
        assert(byte_bits(s[q])[t - 8 * q] == bits.subrange(8 * q, 8 * q + 8)[t - 8 * q]);
    }
    assert(bits_of(s) =~= bits);
}

/// Each group of eight bits of `bits_of(s)` is the bits of one byte.
pub proof fn lemma_bits_of_group(s: Seq<u8>, j: int)
    requires
        0 <= j < s.len(),
    ensures
        bits_of(s).subrange(8 * j, 8 * j + 8) == byte_bits(s[j]),
{
    assert forall|k: int| 0 <= k < 8 implies #[trigger] bits_of(s).subrange(8 * j, 8 * j + 8)[k]
        == byte_bits(s[j])[k] by {
        lemma_bit_index(8 * j + k, j);
    }
    assert(bits_of(s).subrange(8 * j, 8 * j + 8) =~= byte_bits(s[j]));
}

/// Appending a byte appends its bits.
pub proof fn lemma_bits_of_push(s: Seq<u8>, b: u8)
    ensures
        bits_of(s.push(b)) == bits_of(s) + byte_bits(b),
{
    let t = s.push(b);
    let bits = bits_of(s) + byte_bits(b);
    assert forall|j: int| 0 <= j < t.len() implies byte_bits(#[trigger] t[j]) == bits.subrange(
        8 * j,
        8 * j + 8,
    ) by {
        if j < s.len() {
            lemma_bits_of_group(s, j);
            assert(bits.subrange(8 * j, 8 * j + 8) =~= bits_of(s).subrange(8 * j, 8 * j + 8));
        } else {
            assert(bits.subrange(8 * j, 8 * j + 8) =~= byte_bits(b));
        }
    }
    lemma_bits_of_groups(t, bits);
}

/// Reading the bits of a byte sequence back as bytes gives the sequence.
pub proof fn lemma_bytes_of_bits(s: Seq<u8>)
    ensures
        bytes_of(bits_of(s)) == s,
{
    assert forall|j: int| 0 <= j < s.len() implies #[trigger] bytes_of(bits_of(s))[j] == s[j] by {
        lemma_bits_of_group(s, j);
        lemma_byte_of_bits(s[j]);
    }
    assert(bytes_of(bits_of(s)) =~= s);
}

/// Byte sequences with the same bits are equal.
pub proof fn lemma_bits_of_injective(a: Seq<u8>, b: Seq<u8>)
    requires
        bits_of(a) == bits_of(b),
    ensures
        a == b,
{
    lemma_bytes_of_bits(a);
    lemma_bytes_of_bits(b);
}

/// The bits of `bytes`, each byte most significant bit first.
pub(crate) fn expand_bits(bytes: &[u8]) -> (bits: Vec<bool>)
    requires
        8 * bytes@.len() <= usize::MAX,
    ensures
        bits@ == bits_of(bytes@),
{
    let mut bits: Vec<bool> = Vec::new();
    for i in 0..bytes.len()
        invariant
            bits@ == bits_of(bytes@.subrange(0, i as int)),
    {
        let mut group = byte2bits(bytes[i]);
        bits.append(&mut group);
        proof {
            assert(bytes@.subrange(0, i + 1) =~= bytes@.subrange(0, i as int).push(bytes@[i as int]));
            lemma_bits_of_push(bytes@.subrange(0, i as int), bytes@[i as int]);
        }
    }
    assert(bytes@.subrange(0, bytes@.len() as int) =~= bytes@);
    bits
}

} // verus!
