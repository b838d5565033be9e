//! Fragmentation of a payload into an ordered sequence of packets, and
//! reassembly of the payload from such a sequence.
use vstd::prelude::*;

use crate::byte_lib::bits_of;
use crate::hamming::{DATA_BYTES, DATA_BYTES_VALID};
use crate::packet::{
    corrected, decoded_flag, decoded_index, decoded_size, encodes, lemma_round_trip, payload_of,
    bytes_result, HammingPacket,
};
use crate::CodecError;

verus! {

/// Number of packets that carry a payload of `len` bytes: one per
/// `DATA_BYTES_VALID` bytes, rounded up, and at least one.
pub open spec fn chunk_count(len: nat) -> nat {
    if len == 0 {
        1
    } else {
        ((len + DATA_BYTES_VALID - 1) / (DATA_BYTES_VALID as int)) as nat
    }
}

/// The bytes of `payload` that packet `i` carries.
pub open spec fn chunk(payload: Seq<u8>, i: int) -> Seq<u8> {
    let start = i * DATA_BYTES_VALID;
    let end = if start + DATA_BYTES_VALID <= payload.len() {
        start + DATA_BYTES_VALID
    } else {
        payload.len() as int
    };
    payload.subrange(start, end)
}

/// The fragment flag of packet `i` out of `n`: 1 on the last, 0 elsewhere.
pub open spec fn flag_at(i: int, n: int) -> u8 {
    if i == n - 1 {
        1
    } else {
        0
    }
}

/// `packets` is the fragmentation of `payload`: one packet per chunk, in
/// order, each the encoding of its chunk under its position as index and a
/// flag that marks the last packet.
pub open spec fn is_split_of(packets: Seq<HammingPacket>, payload: Seq<u8>) -> bool {
    &&& packets.len() == chunk_count(payload.len())
    &&& forall|i: int|
        0 <= i < packets.len() ==> {
            let p = #[trigger] packets[i];
            &&& p.header_index() == i
            &&& p.header_flag() == flag_at(i, packets.len() as int)
            &&& p.header_size() == chunk(payload, i).len()
            &&& encodes(p.block(), i as i16, flag_at(i, packets.len() as int), chunk(payload, i))
        }
}

/// `r` with `prefix` put in front of its payload.
pub open spec fn prepend(prefix: Seq<u8>, r: Result<Seq<u8>, CodecError>) -> Result<
    Seq<u8>,
    CodecError,
> {
    match r {
        Ok(rest) => Ok(prefix + rest),
        Err(e) => Err(e),
    }
}

/// Reassembly from packet `k` on: each packet must carry its position as
/// index; payloads are concatenated up to and including the first packet
/// flagged final.
pub open spec fn join_from(packets: Seq<HammingPacket>, k: nat) -> Result<Seq<u8>, CodecError>
    decreases packets.len() - k,
{
    if k >= packets.len() {
        Err(CodecError::MissingFragment)
    } else if packets[k as int].header_index() != k {
        Err(CodecError::MissingFragment)
    } else {
        match payload_of(packets[k as int].bits()) {
            Err(e) => Err(e),
            Ok(d) => if packets[k as int].header_flag() == 1 {
                Ok(d)
            } else {
                prepend(d, join_from(packets, k + 1))
            },
        }
    }
}

/// Encodes `data` as a single, final packet with index 0.
pub fn handle_single_packet(data: &Vec<u8>) -> (r: HammingPacket)
    requires
        data@.len() <= DATA_BYTES_VALID,
    ensures
        encodes(r.block(), 0, 1, data@),
        r.header_index() == 0,
        r.header_size() == data@.len(),
        r.header_flag() == 1,
{
    match HammingPacket::from_bytes(0, 1, data) {
        Ok(pak) => pak,
        Err(_) => vstd::pervasive::unreached(),
    }
}

/// Recovers the payload of a packet whose block decodes.
pub fn restore_single_packet(packet: &mut HammingPacket) -> (r: Vec<u8>)
    requires
        payload_of(old(packet).bits()) is Ok,
    ensures
        payload_of(old(packet).bits()) == Ok::<Seq<u8>, CodecError>(r@),
        final(packet).bits() == corrected(old(packet).bits()),
{
    match packet.to_real_bytes() {
        Ok(val) => val,
        Err(_) => vstd::pervasive::unreached(),
    }
}

/// Reads a packet from an encoded block of the right length.
pub fn handle_existed_pak(data: &Vec<u8>) -> (r: HammingPacket)
    requires
        data@.len() == DATA_BYTES,
    ensures
        r.block() == data@,
        r.header_index() == decoded_index(bits_of(data@)),
        r.header_size() == decoded_size(bits_of(data@)),
        r.header_flag() == decoded_flag(bits_of(data@)),
{
    match HammingPacket::from_packed_bytes(data) {
        Ok(val) => val,
        Err(_) => vstd::pervasive::unreached(),
    }
}

/// The chunks cover the payload: all but the last are full, and at most
/// 32768 of them are needed for a payload within the index range.
proof fn lemma_chunk_count(len: nat)
    ensures
        len > 0 ==> (chunk_count(len) - 1) * DATA_BYTES_VALID < len <= chunk_count(len)
            * DATA_BYTES_VALID,
        chunk_count(len) >= 1,
        len <= 32768 * DATA_BYTES_VALID ==> chunk_count(len) <= 32768,
{
    assert(DATA_BYTES_VALID == 4089);
    if len > 0 {
        vstd::arithmetic::div_mod::lemma_fundamental_div_mod(
            len + DATA_BYTES_VALID - 1,
            DATA_BYTES_VALID as int,
        );
    }
}

/// Splits `data` into packets of at most `DATA_BYTES_VALID` payload bytes,
/// indexed from 0 in order, the last one flagged final.
pub fn handle_multi_packet(data: &Vec<u8>) -> (r: Vec<HammingPacket>)
    requires
        data@.len() <= 32768 * DATA_BYTES_VALID,
    ensures
        is_split_of(r@, data@),
{
    proof {
        lemma_chunk_count(data@.len());
    }
    let len = data.len();
    assert(DATA_BYTES_VALID == 4089);
    let count: usize = if len == 0 {
        1
    } else {
        (len + DATA_BYTES_VALID - 1) / DATA_BYTES_VALID
    };
    let mut packets: Vec<HammingPacket> = Vec::new();
    for i in 0..count
        invariant
            DATA_BYTES_VALID == 4089,
            len == data@.len(),
            len <= 32768 * DATA_BYTES_VALID,
            count == chunk_count(len as nat),
            count <= 32768,
            packets@.len() == i,
            forall|j: int|
                0 <= j < i ==> {
                    let p = #[trigger] packets@[j];
                    &&& p.header_index() == j
                    &&& p.header_flag() == flag_at(j, count as int)
                    &&& p.header_size() == chunk(data@, j).len()
                    &&& encodes(p.block(), j as i16, flag_at(j, count as int), chunk(data@, j))
                },
    {
        let start = i * DATA_BYTES_VALID;
        let end = if start + DATA_BYTES_VALID <= len {
            start + DATA_BYTES_VALID
        } else {
            len
        };
        let mut packet_bytes: Vec<u8> = Vec::new();
        for j in start..end
            invariant
                start <= end <= len,
                len == data@.len(),
                packet_bytes@ == data@.subrange(start as int, j as int),
        {
            packet_bytes.push(data[j]);
            assert(packet_bytes@ =~= data@.subrange(start as int, j + 1));
        }
        let fragflag: u8 = if i == count - 1 {
            1
        } else {
            0
        };
        if let Ok(pak) = HammingPacket::from_bytes(i as i16, fragflag, &packet_bytes) {
            packets.push(pak);
        }
        assert(packets@[i as int] == packets@.last());
    }
    packets
}

/// Reassembles a payload from packets sorted by index: decodes each in turn
/// and concatenates the payloads up to the packet flagged final.
pub fn join(packets: &Vec<HammingPacket>) -> (r: Result<Vec<u8>, CodecError>)
    ensures
        bytes_result(r) == join_from(packets@, 0),
{
    let mut payload: Vec<u8> = Vec::new();
    let mut k: usize = 0;
    while k < packets.len()
        invariant
            k <= packets@.len(),
            join_from(packets@, 0) == prepend(payload@, join_from(packets@, k as nat)),
        decreases packets@.len() - k,
    {
        let mut pak = packets[k].duplicate();
        let idx = pak.get_index();
        if idx < 0 || idx as usize != k {
            return Err(CodecError::MissingFragment);
        }
        match pak.to_real_bytes() {
            Err(e) => {
                return Err(e);
            },
            Ok(mut d) => {
                let last = pak.is_final();
                let ghost before = payload@;
                let ghost piece = d@;
                payload.append(&mut d);
                if last {
                    return Ok(payload);
                }
                proof {
                    match join_from(packets@, (k + 1) as nat) {
                        Ok(x) => {
                            assert(before + (piece + x) =~= (before + piece) + x);
                        },
                        Err(_) => {},
                    }
                }
            },
        }
        k += 1;
    }
    Err(CodecError::MissingFragment)
}

/// Reassembly from packet `k` of a fragmentation gives the payload from
/// chunk `k` on.
proof fn lemma_join_suffix(packets: Seq<HammingPacket>, payload: Seq<u8>, k: nat)
    requires
        is_split_of(packets, payload),
        k < packets.len(),
    ensures
        join_from(packets, k) == Ok::<Seq<u8>, CodecError>(
            payload.subrange(k * DATA_BYTES_VALID, payload.len() as int),
        ),
    decreases packets.len() - k,
{
    assert(DATA_BYTES_VALID == 4089);
    lemma_chunk_count(payload.len());
    let n = packets.len();
    let p = packets[k as int];
    let c = chunk(payload, k as int);
    let flag = flag_at(k as int, n as int);
    lemma_round_trip(p.block(), k as i16, flag, c);
    if k == n - 1 {
        assert(c =~= payload.subrange(k * DATA_BYTES_VALID, payload.len() as int));
    } else {
        lemma_join_suffix(packets, payload, k + 1);
        assert(c + payload.subrange((k + 1) * DATA_BYTES_VALID, payload.len() as int)
            =~= payload.subrange(k * DATA_BYTES_VALID, payload.len() as int));
    }
}

/// Reassembling the fragmentation of a payload gives back the payload, and
/// exactly one packet, the highest-indexed, is flagged final.
pub proof fn lemma_split_join(packets: Seq<HammingPacket>, payload: Seq<u8>)
    requires
        is_split_of(packets, payload),
    ensures
        join_from(packets, 0) == Ok::<Seq<u8>, CodecError>(payload),
        forall|i: int|
            0 <= i < packets.len() ==> (#[trigger] packets[i].header_flag() == 1 <==> i
                == packets.len() - 1),
{
    lemma_chunk_count(payload.len());
    lemma_join_suffix(packets, payload, 0);
    assert(payload.subrange(0, payload.len() as int) =~= payload);
}

} // verus!
