//! The Hamming packet: a protected block with a cached copy of its header
//! fields, and the encode, parse, correct and decode operations on it.
//!
//! A packet offers no internal synchronisation: correction takes `&mut self`,
//! so no other holder can observe a half-corrected block.
use vstd::prelude::*;

use crate::byte_lib::{
    be16, bit_of, bits_of, byte2bits, byte_bits, bytes2short, bytes_of, from_be16, pack_byte,
    expand_bits, lemma_bit_index, lemma_bits_of_groups, lemma_byte_of_bits, short2bytes, connect,
    lemma_bytes_of_bits, lemma_be16_round_trip, lemma_bits_of_injective,
};
use crate::hamming::{
    content_of, flip, group_pos, is_codeword, is_parity_pos, lemma_clear_low_bits,
    lemma_flip, lemma_group_pos, lemma_group_pos_first, lemma_placeholders, lemma_strip_len,
    lemma_strip_placeholders, lemma_strip_update, lemma_syndrome_bound, lemma_xor, odd_parity, odd_upto,
    strip_groups, syndrome, syndrome_upto, with_placeholders, BLOCK_BITS, CONTENT_BITS, DATA_BYTES,
    DATA_BYTES_VALID, HEADER_BYTES, PARITY_GROUPS,
};
use crate::text::{append_decimal, append_signed_decimal, decimal, signed_decimal};
use crate::CodecError;
use vstd::string::StringExecFns;

verus! {

/// What a correction pass found.
#[derive(Debug, Clone, Copy, PartialEq, Eq, Structural)]
pub enum CorrectionOutcome {
    /// The syndrome is zero; the block was left as it was.
    NoErrorFound,
    /// A single-bit error at this position was found and repaired.
    Corrected(usize),
    /// Two (or an even number of) errors were found; the block was left as it was.
    UncorrectableDoubleError,
}

/// What a correction pass finds on `bits`.
pub open spec fn correction(bits: Seq<bool>) -> CorrectionOutcome {
    if syndrome(bits) == 0 {
        CorrectionOutcome::NoErrorFound
    } else if odd_parity(bits) {
        CorrectionOutcome::Corrected(syndrome(bits) as usize)
    } else {
        CorrectionOutcome::UncorrectableDoubleError
    }
}

/// `bits` after a correction pass.
pub open spec fn corrected(bits: Seq<bool>) -> Seq<bool> {
    match correction(bits) {
        CorrectionOutcome::Corrected(p) => flip(bits, p as int),
        _ => bits,
    }
}

/// Zero bytes that fill the content after a payload of `len` bytes.
pub open spec fn padding(len: int) -> Seq<u8> {
    Seq::new((DATA_BYTES_VALID - len) as nat, |i: int| 0u8)
}

/// The systematic content of a block, as bytes: index, size, fragment flag,
/// payload and zero padding up to the content capacity.
pub open spec fn framed(index: i16, flag: u8, payload: Seq<u8>) -> Seq<u8> {
    be16(index as u16) + be16(payload.len() as u16) + seq![flag] + payload + padding(
        payload.len() as int,
    )
}

/// `block` is the encoding of `payload` under the given header fields: a
/// valid codeword whose content is the framed payload.
pub open spec fn encodes(block: Seq<u8>, index: i16, flag: u8, payload: Seq<u8>) -> bool {
    &&& block.len() == DATA_BYTES
    &&& is_codeword(bits_of(block))
    &&& content_of(bits_of(block)) == bits_of(framed(index, flag, payload))
}

/// The content bytes of a codeword.
pub open spec fn content_bytes(bits: Seq<bool>) -> Seq<u8> {
    bytes_of(content_of(bits))
}

/// The index field held in the content of a codeword.
pub open spec fn decoded_index(bits: Seq<bool>) -> i16 {
    from_be16(content_bytes(bits)[0], content_bytes(bits)[1]) as i16
}

/// The size field held in the content of a codeword.
pub open spec fn decoded_size(bits: Seq<bool>) -> i16 {
    from_be16(content_bytes(bits)[2], content_bytes(bits)[3]) as i16
}

/// The fragment flag held in the content of a codeword.
pub open spec fn decoded_flag(bits: Seq<bool>) -> u8 {
    content_bytes(bits)[4]
}

/// The payload recovered from a block with bits `bits`, after correction.
pub open spec fn payload_of(bits: Seq<bool>) -> Result<Seq<u8>, CodecError> {
    if correction(bits) == CorrectionOutcome::UncorrectableDoubleError {
        Err(CodecError::UncorrectableError)
    } else {
        let c = corrected(bits);
        let size = decoded_size(c);
        if size < 0 || size > DATA_BYTES_VALID {
            Err(CodecError::SizeOutOfRange)
        } else {
            Ok(content_bytes(c).subrange(HEADER_BYTES as int, HEADER_BYTES + size))
        }
    }
}

/// The view of a byte vector result.
pub open spec fn bytes_result(r: Result<Vec<u8>, CodecError>) -> Result<Seq<u8>, CodecError> {
    match r {
        Ok(v) => Ok(v@),
        Err(e) => Err(e),
    }
}

/// The syndrome of a bit sequence.
fn syndrome_of(bits: &Vec<bool>) -> (s: u32)
    requires
        bits@.len() <= BLOCK_BITS,
    ensures
        s == syndrome(bits@),
        s < BLOCK_BITS,
{
    let mut s: u32 = 0;
    for i in 0..bits.len()
        invariant
            bits@.len() <= BLOCK_BITS,
            s == syndrome_upto(bits@, i as nat),
    {
        if bits[i] {
            s = s ^ i as u32;
        }
        proof {
            lemma_xor(syndrome_upto(bits@, i as nat), 0, 0);
        }
    }
    proof {
        lemma_syndrome_bound(bits@, bits@.len());
    }
    s
}

/// Whether an odd number of bits are set.
fn odd_count_of(bits: &Vec<bool>) -> (odd: bool)
    ensures
        odd == odd_parity(bits@),
{
    let mut odd = false;
    for i in 0..bits.len()
        invariant
            odd == odd_upto(bits@, i as nat),
    {
        odd = odd != bits[i];
    }
    odd
}

/// Removes the group parity bits, highest position first, and then the
/// global parity bit, leaving the content bits.
fn strip_parity(bits: &mut Vec<bool>)
    requires
        old(bits)@.len() == BLOCK_BITS,
    ensures
        final(bits)@ == content_of(old(bits)@),
        final(bits)@.len() == CONTENT_BITS,
{
    let ghost whole = bits@;
    let mut k: u32 = PARITY_GROUPS as u32;
    while k > 0
        invariant
            k <= PARITY_GROUPS,
            bits@.len() == BLOCK_BITS - (PARITY_GROUPS - k),
            strip_groups(bits@, k as nat) == content_of(whole),
        decreases k,
    {
        proof {
            lemma_group_pos_first(k - 1);
        }
        bits.remove((1u32 << (k - 1)) as usize);
        k = k - 1;
    }
    proof {
        lemma_strip_len(whole, PARITY_GROUPS as nat);
    }
    bits.remove(0);
}

/// Byte `i` of the content bits.
fn content_byte(content: &Vec<bool>, i: usize) -> (b: u8)
    requires
        content@.len() == CONTENT_BITS,
        i < CONTENT_BITS / 8,
    ensures
        b == bytes_of(content@)[i as int],
{
    let b = pack_byte(content, 8 * i);
    proof {
        lemma_byte_of_bits(b);
    }
    b
}

/// The index, size and fragment flag held at the front of the content bits.
fn read_header(content: &Vec<bool>) -> (r: (i16, i16, u8))
    requires
        content@.len() == CONTENT_BITS,
    ensures
        r.0 == from_be16(bytes_of(content@)[0], bytes_of(content@)[1]) as i16,
        r.1 == from_be16(bytes_of(content@)[2], bytes_of(content@)[3]) as i16,
        r.2 == bytes_of(content@)[4],
{
    let index_bytes = vec![content_byte(content, 0), content_byte(content, 1)];
    let size_bytes = vec![content_byte(content, 2), content_byte(content, 3)];
    let flag = content_byte(content, 4);
    let index = match bytes2short(&index_bytes) {
        Ok(v) => v,
        Err(_) => 0,
    };
    let size = match bytes2short(&size_bytes) {
        Ok(v) => v,
        Err(_) => 0,
    };
    (index, size, flag)
}

/// A protected block together with its decoded header fields.
pub struct HammingPacket {
    index: i16,
    size: i16,
    frag_flag: u8,
    data_bytes: [u8; DATA_BYTES],
}

impl HammingPacket {
    /// The protected block.
    pub closed spec fn block(&self) -> Seq<u8> {
        self.data_bytes@
    }

    /// The cached sequence index.
    pub closed spec fn header_index(&self) -> i16 {
        self.index
    }

    /// The cached payload size.
    pub closed spec fn header_size(&self) -> i16 {
        self.size
    }

    /// The cached fragment flag.
    pub closed spec fn header_flag(&self) -> u8 {
        self.frag_flag
    }

    /// The bits of the protected block.
    pub open spec fn bits(&self) -> Seq<bool> {
        bits_of(self.block())
    }

    /// The bit at `pos` of the block.
    pub fn get_bit_at_pos(&self, pos: usize) -> (r: Result<bool, CodecError>)
        ensures
            pos < BLOCK_BITS ==> r == Ok::<bool, CodecError>(self.bits()[pos as int]),
            pos >= BLOCK_BITS ==> r == Err::<bool, CodecError>(CodecError::PositionOutOfRange),
    {
        if pos >= BLOCK_BITS {
            Err(CodecError::PositionOutOfRange)
        } else {
            let index = pos / 8;
            let target_bits = byte2bits(self.data_bytes[index]);
            Ok(target_bits[pos % 8])
        }
    }

    /// Sets the bit at `pos` of the block to `bit`.
    pub fn set_bit_at_pos(&mut self, pos: usize, bit: bool) -> (r: Result<(), CodecError>)
        ensures
            pos < BLOCK_BITS ==> r is Ok && final(self).bits() == old(self).bits().update(
                pos as int,
                bit,
            ),
            pos >= BLOCK_BITS ==> r == Err::<(), CodecError>(CodecError::PositionOutOfRange)
                && final(self).bits() == old(self).bits(),
            final(self).header_index() == old(self).header_index(),
            final(self).header_size() == old(self).header_size(),
            final(self).header_flag() == old(self).header_flag(),
    {
        if pos >= BLOCK_BITS {
            Err(CodecError::PositionOutOfRange)
        } else {
            let index: usize = pos / 8;
            let target_byte = self.data_bytes[index];
            let mut target_bits = byte2bits(target_byte);
            target_bits.set(pos % 8, bit);
            let byte = pack_byte(&target_bits, 0);
            let ghost before = self.data_bytes@;
            self.data_bytes[index] = byte;
            proof {
                assert(target_bits@.subrange(0, 8) =~= target_bits@);
                let goal = bits_of(before).update(pos as int, bit);
                assert forall|t: int| 0 <= t < BLOCK_BITS implies #[trigger] bits_of(
                    self.data_bytes@,
                )[t] == goal[t] by {
                    vstd::arithmetic::div_mod::lemma_fundamental_div_mod(t, 8);
                    vstd::arithmetic::div_mod::lemma_fundamental_div_mod(pos as int, 8);
                    lemma_bit_index(t, t / 8);
                    lemma_bit_index(pos as int, index as int);
                    if t / 8 == index as int {
                        assert(bit_of(byte, t % 8) == byte_bits(byte)[t % 8]);
                        assert(bit_of(target_byte, t % 8) == byte_bits(target_byte)[t % 8]);
                    }
                }
                assert(bits_of(self.data_bytes@) =~= goal);
            }
            Ok(())
        }
    }

    /// The syndrome of the block: the XOR of the positions of its set bits.
    pub fn calc_err_pos(&self) -> (pos: usize)
        ensures
            pos == syndrome(self.bits()),
            pos < BLOCK_BITS,
    {
        let mut pos: u32 = 0;
        for i in 0..BLOCK_BITS
            invariant
                pos == syndrome_upto(self.bits(), i as nat),
        {
            if let Ok(bit) = self.get_bit_at_pos(i) {
                if bit {
                    pos = pos ^ i as u32;
                }
            }
            proof {
                lemma_xor(syndrome_upto(self.bits(), i as nat), 0, 0);
            }
        }
        proof {
            lemma_syndrome_bound(self.bits(), BLOCK_BITS as nat);
        }
        pos as usize
    }

    /// Runs one SECDED correction pass over the block: a single-bit error is
    /// repaired, a double error is reported and left alone.
    pub fn self_correct(&mut self) -> (r: CorrectionOutcome)
        ensures
            r == correction(old(self).bits()),
            final(self).bits() == corrected(old(self).bits()),
            final(self).header_index() == old(self).header_index(),
            final(self).header_size() == old(self).header_size(),
            final(self).header_flag() == old(self).header_flag(),
    {
        let pos = self.calc_err_pos();
        if pos == 0 {
            CorrectionOutcome::NoErrorFound
        } else if !odd_count_of(&expand_bits(self.data_bytes.as_slice())) {
            CorrectionOutcome::UncorrectableDoubleError
        } else {
            if let Ok(bit) = self.get_bit_at_pos(pos) {
                let _ = self.set_bit_at_pos(pos, !bit);
            }
            CorrectionOutcome::Corrected(pos)
        }
    }

    /// Recovers the payload: runs a correction pass, then reads the size
    /// field from the content and returns that many bytes after the header.
    pub fn to_real_bytes(&mut self) -> (r: Result<Vec<u8>, CodecError>)
        ensures
            bytes_result(r) == payload_of(old(self).bits()),
            final(self).bits() == corrected(old(self).bits()),
            final(self).header_index() == old(self).header_index(),
            final(self).header_size() == old(self).header_size(),
            final(self).header_flag() == old(self).header_flag(),
    {
        match self.self_correct() {
            CorrectionOutcome::UncorrectableDoubleError => Err(CodecError::UncorrectableError),
            _ => {
                let mut bits = expand_bits(self.data_bytes.as_slice());
                strip_parity(&mut bits);
                let (_, size, _) = read_header(&bits);
                if size < 0 || size as usize > DATA_BYTES_VALID {
                    return Err(CodecError::SizeOutOfRange);
                }
                let ghost cb = bytes_of(bits@);
                let end = HEADER_BYTES + size as usize;
                let mut real_bytes: Vec<u8> = Vec::new();
                for i in HEADER_BYTES..end
                    invariant
                        bits@.len() == CONTENT_BITS,
                        cb == bytes_of(bits@),
                        end <= CONTENT_BITS / 8,
                        real_bytes@ == cb.subrange(HEADER_BYTES as int, i as int),
                {
                    real_bytes.push(content_byte(&bits, i));
                    assert(real_bytes@ =~= cb.subrange(HEADER_BYTES as int, i + 1));
                }
                Ok(real_bytes)
            },
        }
    }

    /// Reads a packet from an encoded block without correcting it: the
    /// header fields are taken from the block's content as it stands.
    pub fn from_packed_bytes(data: &Vec<u8>) -> (r: Result<HammingPacket, CodecError>)
        ensures
            data@.len() != DATA_BYTES ==> r == Err::<HammingPacket, CodecError>(
                CodecError::InvalidBlockSize,
            ),
            data@.len() == DATA_BYTES ==> (r matches Ok(p) && p.block() == data@
                && p.header_index() == decoded_index(bits_of(data@)) && p.header_size()
                == decoded_size(bits_of(data@)) && p.header_flag() == decoded_flag(
                bits_of(data@),
            )),
    {
        if data.len() != DATA_BYTES {
            return Err(CodecError::InvalidBlockSize);
        }
        let mut bits = expand_bits(data.as_slice());
        strip_parity(&mut bits);
        let (index, size, frag_flag) = read_header(&bits);
        let mut data_bytes = [0u8; DATA_BYTES];
        for i in 0..DATA_BYTES
            invariant
                data@.len() == DATA_BYTES,
                forall|j: int| 0 <= j < i ==> data_bytes@[j] == data@[j],
        {
            data_bytes[i] = data[i];
        }
        assert(data_bytes@ =~= data@);
        Ok(HammingPacket { index, size, frag_flag, data_bytes })
    }

    /// A one-line description of the header fields.
    pub fn info(&self) -> (r: String)
        ensures
            r@ == "Packet index: "@ + signed_decimal(self.header_index() as int) + ", size: "@
                + signed_decimal(self.header_size() as int) + ", fragflag: "@ + decimal(
                self.header_flag() as nat,
            ) + ". "@,
    {
        let mut text = String::from_str("Packet index: ");
        append_signed_decimal(&mut text, self.index as i32);
        text.append(", size: ");
        append_signed_decimal(&mut text, self.size as i32);
        text.append(", fragflag: ");
        append_decimal(&mut text, self.frag_flag as u32);
        text.append(". ");
        text
    }

    /// A copy of this packet.
    pub(crate) fn duplicate(&self) -> (r: HammingPacket)
        ensures
            r == *self,
    {
        HammingPacket {
            index: self.index,
            size: self.size,
            frag_flag: self.frag_flag,
            data_bytes: self.data_bytes,
        }
    }

    /// The protected block.
    pub fn to_raw_bytes(&self) -> (r: [u8; DATA_BYTES])
        ensures
            r@ == self.block(),
    {
        self.data_bytes
    }

    /// Whether this packet carries the final fragment.
    pub fn is_final(&self) -> (r: bool)
        ensures
            r == (self.header_flag() == 1),
    {
        self.frag_flag == 1
    }

    /// The sequence index.
    pub fn get_index(&self) -> (r: i16)
        ensures
            r == self.header_index(),
    {
        self.index
    }

    /// The number of payload bytes.
    pub fn get_size(&self) -> (r: i16)
        ensures
            r == self.header_size(),
    {
        self.size
    }

    /// The fragment flag.
    pub fn get_frag_flag(&self) -> (r: u8)
        ensures
            r == self.header_flag(),
    {
        self.frag_flag
    }

    /// Encodes `data` under the given index and fragment flag: frames the
    /// header and payload, places the parity bits and computes them.
    pub fn from(index: i16, fragflag: u8, data: &[u8]) -> (r: Result<HammingPacket, CodecError>)
        ensures
            data@.len() > DATA_BYTES_VALID ==> r == Err::<HammingPacket, CodecError>(
                CodecError::PayloadTooLarge,
            ),
            data@.len() <= DATA_BYTES_VALID && fragflag > 1 ==> r == Err::<
                HammingPacket,
                CodecError,
            >(CodecError::InvalidFragFlag),
            data@.len() <= DATA_BYTES_VALID && fragflag <= 1 ==> (r matches Ok(p) && encodes(
                p.block(),
                index,
                fragflag,
                data@,
            ) && p.header_index() == index && p.header_size() == data@.len()
                && p.header_flag() == fragflag),
    {
        if data.len() > DATA_BYTES_VALID {
            return Err(CodecError::PayloadTooLarge);
        }
        if fragflag != 0 && fragflag != 1 {
            return Err(CodecError::InvalidFragFlag);
        }
        let size = data.len() as i16;
        // systematic content: header, payload, zero padding
        let mut frame = short2bytes(index);
        connect(&mut frame, &short2bytes(size));
        frame.push(fragflag);
        let ghost header = frame@;
        for i in 0..data.len()
            invariant
                frame@ == header + data@.subrange(0, i as int),
        {
            frame.push(data[i]);
            assert(frame@ =~= header + data@.subrange(0, i + 1));
        }
        assert(data@.subrange(0, data@.len() as int) =~= data@);
        let ghost filled = frame@;
        while frame.len() < CONTENT_BITS / 8
            invariant
                filled.len() <= frame@.len() <= CONTENT_BITS / 8,
                frame@ == filled + Seq::new((frame@.len() - filled.len()) as nat, |i: int| 0u8),
            decreases CONTENT_BITS / 8 - frame@.len(),
        {
            frame.push(0);
            assert(frame@ =~= filled + Seq::new((frame@.len() - filled.len()) as nat, |i: int| 0u8));
        }
        assert(frame@ =~= framed(index, fragflag, data@));
        let mut bits = expand_bits(frame.as_slice());
        let ghost content = bits@;
        // cleared placeholders at the parity positions
        bits.insert(0, false);
        let groups: u32 = PARITY_GROUPS as u32;
        for k in 0..groups
            invariant
                groups == PARITY_GROUPS,
                content.len() == CONTENT_BITS,
                bits@ == with_placeholders(content, k as nat),
        {
            proof {
                lemma_placeholders(content, k as nat);
                lemma_group_pos_first(k as int);
            }
            bits.insert((1u32 << k) as usize, false);
        }
        proof {
            lemma_placeholders(content, PARITY_GROUPS as nat);
            lemma_strip_placeholders(content, PARITY_GROUPS as nat);
        }
        // group parity: distribute the syndrome over the power-of-two positions
        let s = syndrome_of(&bits);
        proof {
            lemma_clear_low_bits(s, 0);
        }
        for k in 0..groups
            invariant
                groups == PARITY_GROUPS,
                s < BLOCK_BITS,
                bits@.len() == BLOCK_BITS,
                syndrome(bits@) == (s >> k) << k,
                content_of(bits@) == content,
                !bits@[0],
                forall|j: int| k <= j < PARITY_GROUPS ==> !bits@[#[trigger] group_pos(j)],
        {
            proof {
                lemma_clear_low_bits(s, k);
                lemma_group_pos_first(k as int);
            }
            if (s >> k) & 1 == 1 {
                let g = (1u32 << k) as usize;
                proof {
                    assert(g == group_pos(k as int));
                    assert(is_parity_pos(g as int, PARITY_GROUPS as int));
                    lemma_flip(bits@, g as int, BLOCK_BITS as nat);
                    lemma_strip_update(bits@, PARITY_GROUPS as nat, g as int, true);
                    assert(bits@.update(g as int, true) == flip(bits@, g as int));
                }
                let ghost before = bits@;
                bits.set(g, true);
                assert forall|j: int| k + 1 <= j < PARITY_GROUPS implies !bits@[#[trigger] group_pos(j)] by {
                    lemma_group_pos(k as int, j);
                    assert(!before[group_pos(j)]);
                }
            }
        }
        proof {
            lemma_clear_low_bits(s, 0);
        }
        // global parity: make the number of set bits even
        if odd_count_of(&bits) {
            proof {
                lemma_flip(bits@, 0, BLOCK_BITS as nat);
                lemma_xor(syndrome(bits@), 0, 0);
                lemma_strip_update(bits@, PARITY_GROUPS as nat, 0, true);
                assert(bits@.update(0, true) == flip(bits@, 0));
            }
            bits.set(0, true);
        }
        let mut data_bytes = [0u8; DATA_BYTES];
        for i in 0..DATA_BYTES
            invariant
                bits@.len() == BLOCK_BITS,
                forall|j: int|
                    0 <= j < i ==> byte_bits(#[trigger] data_bytes@[j]) == bits@.subrange(
                        8 * j,
                        8 * j + 8,
                    ),
        {
            data_bytes[i] = pack_byte(&bits, 8 * i);
        }
        proof {
            lemma_bits_of_groups(data_bytes@, bits@);
        }
        Ok(HammingPacket { index, size, frag_flag: fragflag, data_bytes })
    }

    /// Encodes `data` under the given index and fragment flag.
    pub fn from_bytes(index: i16, fragflag: u8, data: &Vec<u8>) -> (r: Result<
        HammingPacket,
        CodecError,
    >)
        ensures
            data@.len() > DATA_BYTES_VALID ==> r == Err::<HammingPacket, CodecError>(
                CodecError::PayloadTooLarge,
            ),
            data@.len() <= DATA_BYTES_VALID && fragflag > 1 ==> r == Err::<
                HammingPacket,
                CodecError,
            >(CodecError::InvalidFragFlag),
            data@.len() <= DATA_BYTES_VALID && fragflag <= 1 ==> (r matches Ok(p) && encodes(
                p.block(),
                index,
                fragflag,
                data@,
            ) && p.header_index() == index && p.header_size() == data@.len()
                && p.header_flag() == fragflag),
    {
        HammingPacket::from(index, fragflag, data.as_slice())
    }
}

/// The content bytes of an encoding are the framed payload.
proof fn lemma_encoded_content(block: Seq<u8>, index: i16, flag: u8, payload: Seq<u8>)
    requires
        payload.len() <= DATA_BYTES_VALID,
        encodes(block, index, flag, payload),
    ensures
        content_bytes(bits_of(block)) == framed(index, flag, payload),
        decoded_index(bits_of(block)) == index,
        decoded_size(bits_of(block)) == payload.len(),
        decoded_flag(bits_of(block)) == flag,
{
    let f = framed(index, flag, payload);
    lemma_bytes_of_bits(f);
    lemma_be16_round_trip(index as u16);
    lemma_be16_round_trip(payload.len() as u16);
    assert(f[0] == be16(index as u16)[0] && f[1] == be16(index as u16)[1]);
    assert(f[2] == be16(payload.len() as u16)[0] && f[3] == be16(payload.len() as u16)[1]);
    assert(f[4] == flag);
    let i = index;
    assert((i as u16) as i16 == i) by (bit_vector);
    assert(((payload.len() as u16) as i16) as int == payload.len());
}

/// Round trip: decoding an encoded block gives back the payload.
pub proof fn lemma_round_trip(block: Seq<u8>, index: i16, flag: u8, payload: Seq<u8>)
    requires
        payload.len() <= DATA_BYTES_VALID,
        encodes(block, index, flag, payload),
    ensures
        payload_of(bits_of(block)) == Ok::<Seq<u8>, CodecError>(payload),
{
    lemma_encoded_content(block, index, flag, payload);
    let f = framed(index, flag, payload);
    assert(f.subrange(HEADER_BYTES as int, HEADER_BYTES + payload.len()) =~= payload);
}

/// A correction pass over a freshly encoded block finds no error and leaves
/// the block as it is.
pub proof fn lemma_no_op_correction(block: Seq<u8>, index: i16, flag: u8, payload: Seq<u8>)
    requires
        encodes(block, index, flag, payload),
    ensures
        correction(bits_of(block)) == CorrectionOutcome::NoErrorFound,
        corrected(bits_of(block)) == bits_of(block),
        forall|after: Seq<u8>| #[trigger] bits_of(after) == corrected(bits_of(block)) ==> after
            == block,
{
    assert forall|after: Seq<u8>| #[trigger] bits_of(after) == corrected(bits_of(block)) implies after
        == block by {
        lemma_bits_of_injective(after, block);
    }
}

/// Inverting any one bit of an encoded block other than the global parity bit
/// is found at its position and repaired. (Inverting the global parity bit
/// leaves the syndrome zero, so the pass reports no error.)
pub proof fn lemma_single_bit_correction(
    block: Seq<u8>,
    index: i16,
    flag: u8,
    payload: Seq<u8>,
    p: int,
)
    requires
        encodes(block, index, flag, payload),
        0 < p < BLOCK_BITS,
    ensures
        correction(flip(bits_of(block), p)) == CorrectionOutcome::Corrected(p as usize),
        corrected(flip(bits_of(block), p)) == bits_of(block),
        forall|repaired: Seq<u8>|
            #[trigger] bits_of(repaired) == corrected(flip(bits_of(block), p)) ==> repaired
                == block,
{
    let bits = bits_of(block);
    lemma_flip(bits, p, BLOCK_BITS as nat);
    lemma_xor(0, 0, 0);
    let pp = p as u32;
    assert(0u32 ^ pp == pp) by (bit_vector);
    assert(flip(flip(bits, p), p) =~= bits);
    assert forall|repaired: Seq<u8>| #[trigger] bits_of(repaired) == corrected(
        flip(bits_of(block), p),
    ) implies repaired == block by {
        lemma_bits_of_injective(repaired, block);
    }
}

/// Inverting any two distinct bits of an encoded block is detected as an
/// uncorrectable error.
pub proof fn lemma_double_bit_detection(
    block: Seq<u8>,
    index: i16,
    flag: u8,
    payload: Seq<u8>,
    p: int,
    q: int,
)
    requires
        encodes(block, index, flag, payload),
        0 <= p < BLOCK_BITS,
        0 <= q < BLOCK_BITS,
        p != q,
    ensures
        correction(flip(flip(bits_of(block), p), q))
            == CorrectionOutcome::UncorrectableDoubleError,
        payload_of(flip(flip(bits_of(block), p), q)) == Err::<Seq<u8>, CodecError>(
            CodecError::UncorrectableError,
        ),
{
    let bits = bits_of(block);
    lemma_flip(bits, p, BLOCK_BITS as nat);
    lemma_flip(flip(bits, p), q, BLOCK_BITS as nat);
    let pp = p as u32;
    let qq = q as u32;
    assert((0u32 ^ pp) ^ qq != 0u32) by (bit_vector)
        requires
            pp != qq,
    ;
}

} // verus!
