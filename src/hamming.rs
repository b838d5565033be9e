//! Layout of an extended Hamming codeword: the global parity bit at position
//! 0, group parity bits at the power-of-two positions, content bits in the
//! remaining positions in order. Also the syndrome (the XOR of the positions
//! of all set bits) and the overall parity, with the facts the codec rests on.
use vstd::prelude::*;

verus! {

/// Length in bytes of a protected block.
pub const DATA_BYTES: usize = 4096;

/// Length in bits of a protected block.
pub const BLOCK_BITS: usize = 8 * DATA_BYTES;

/// Number of group parity bits, at positions 1, 2, 4, ... below `BLOCK_BITS`.
pub const PARITY_GROUPS: usize = 15;

/// Group parity bits plus the global parity bit.
pub const PARITY_BITS: usize = PARITY_GROUPS + 1;

/// Number of content bits in a block.
pub const CONTENT_BITS: usize = BLOCK_BITS - PARITY_BITS;

/// Header bytes at the front of the content: index (2), size (2), flag (1).
pub const HEADER_BYTES: usize = 5;

/// Payload bytes that one block can carry.
pub const DATA_BYTES_VALID: usize = CONTENT_BITS / 8 - HEADER_BYTES;

/// Position of the parity bit of group `k`: `2^k`.
pub open spec fn group_pos(k: int) -> int {
    (1u32 << (k as u32)) as int
}

/// `p` is the global parity position or the position of one of the first `k` groups.
pub open spec fn is_parity_pos(p: int, k: int) -> bool {
    p == 0 || exists|j: int| 0 <= j < k && p == #[trigger] group_pos(j)
}

/// `content` with a cleared placeholder inserted at position 0 and then at
/// the positions of the first `k` groups, in ascending order.
pub open spec fn with_placeholders(content: Seq<bool>, k: nat) -> Seq<bool>
    decreases k,
{
    if k == 0 {
        content.insert(0, false)
    } else {
        with_placeholders(content, (k - 1) as nat).insert(group_pos(k - 1), false)
    }
}

/// `bits` with the parity bits of the first `k` groups removed, in
/// descending order, and then the global parity bit.
pub open spec fn strip_groups(bits: Seq<bool>, k: nat) -> Seq<bool>
    decreases k,
{
    if k == 0 {
        bits.remove(0)
    } else {
        strip_groups(bits.remove(group_pos(k - 1)), (k - 1) as nat)
    }
}

/// The content bits of a codeword.
pub open spec fn content_of(bits: Seq<bool>) -> Seq<bool> {
    strip_groups(bits, PARITY_GROUPS as nat)
}

/// XOR of the positions below `n` whose bit is set.
pub open spec fn syndrome_upto(bits: Seq<bool>, n: nat) -> u32
    decreases n,
{
    if n == 0 {
        0
    } else {
        syndrome_upto(bits, (n - 1) as nat) ^ (if bits[n - 1] {
            (n - 1) as u32
        } else {
            0u32
        })
    }
}

/// XOR of the positions of all set bits.
pub open spec fn syndrome(bits: Seq<bool>) -> u32 {
    syndrome_upto(bits, bits.len())
}

/// Whether an odd number of the bits below `n` are set.
pub open spec fn odd_upto(bits: Seq<bool>, n: nat) -> bool
    decreases n,
{
    if n == 0 {
        false
    } else {
        odd_upto(bits, (n - 1) as nat) != bits[n - 1]
    }
}

/// Whether an odd number of bits are set.
pub open spec fn odd_parity(bits: Seq<bool>) -> bool {
    odd_upto(bits, bits.len())
}

/// A valid codeword: zero syndrome and an even number of set bits.
pub open spec fn is_codeword(bits: Seq<bool>) -> bool {
    syndrome(bits) == 0 && !odd_parity(bits)
}

/// `bits` with the bit at `p` inverted.
pub open spec fn flip(bits: Seq<bool>, p: int) -> Seq<bool> {
    bits.update(p, !bits[p])
}

/// Group positions grow with the group and stay within the block.
pub proof fn lemma_group_pos(j: int, k: int)
    requires
        0 <= j < k < PARITY_GROUPS,
    ensures
        1 <= group_pos(j) < group_pos(k) <= 16384,
{
    let jj = j as u32;
    let kk = k as u32;
    assert(1u32 <= (1u32 << jj) && (1u32 << jj) < (1u32 << kk) && (1u32 << kk) <= 16384u32)
        by (bit_vector)
        requires
            jj < kk,
            kk < 15u32,
    ;
}

/// Every group position lies between 1 and 2^14.
pub proof fn lemma_group_pos_first(k: int)
    requires
        0 <= k < PARITY_GROUPS,
    ensures
        1 <= group_pos(k) <= 16384,
{
    if k > 0 {
        lemma_group_pos(0, k);
    } else {
        assert((1u32 << 0u32) == 1u32) by (bit_vector);
    }
}

/// XOR facts used on syndromes: order does not matter, 0 is neutral, a value
/// cancels itself, and positions stay positions.
pub proof fn lemma_xor(a: u32, b: u32, c: u32)
    ensures
        (a ^ b) ^ c == (a ^ c) ^ b,
        a ^ 0u32 == a,
        (a ^ b) ^ b == a,
        a < 32768u32 && b < 32768u32 ==> a ^ b < 32768u32,
{
    assert((a ^ b) ^ c == (a ^ c) ^ b) by (bit_vector);
    assert(a ^ 0u32 == a) by (bit_vector);
    assert((a ^ b) ^ b == a) by (bit_vector);
    assert(a < 32768u32 && b < 32768u32 ==> a ^ b < 32768u32) by (bit_vector);
}

/// Placeholder insertion lengthens the content by one bit per parity bit and
/// leaves every parity bit cleared.
pub proof fn lemma_placeholders(content: Seq<bool>, k: nat)
    requires
        k <= PARITY_GROUPS,
        content.len() >= 16384,
    ensures
        with_placeholders(content, k).len() == content.len() + k + 1,
        !with_placeholders(content, k)[0],
        forall|j: int| 0 <= j < k ==> !with_placeholders(content, k)[#[trigger] group_pos(j)],
    decreases k,
{
    if k > 0 {
        let prev = with_placeholders(content, (k - 1) as nat);
        let g = group_pos(k - 1);
        lemma_placeholders(content, (k - 1) as nat);
        lemma_group_pos_first(k - 1);
        let cur = prev.insert(g, false);
        assert(cur[0] == prev[0]);
        assert forall|j: int| 0 <= j < k implies !cur[#[trigger] group_pos(j)] by {
            if j < k - 1 {
                lemma_group_pos(j, k - 1);
                assert(cur[group_pos(j)] == prev[group_pos(j)]);
            }
        }
    }
}

/// Stripping the parity bits undoes placeholder insertion.
pub proof fn lemma_strip_placeholders(content: Seq<bool>, k: nat)
    requires
        k <= PARITY_GROUPS,
        content.len() >= 16384,
    ensures
        strip_groups(with_placeholders(content, k), k) == content,
    decreases k,
{
    if k == 0 {
        assert(content.insert(0, false).remove(0) =~= content);
    } else {
        let prev = with_placeholders(content, (k - 1) as nat);
        lemma_placeholders(content, (k - 1) as nat);
        lemma_group_pos_first(k - 1);
        assert(prev.insert(group_pos(k - 1), false).remove(group_pos(k - 1)) =~= prev);
        lemma_strip_placeholders(content, (k - 1) as nat);
    }
}

/// Stripping removes one bit per parity bit.
pub proof fn lemma_strip_len(bits: Seq<bool>, k: nat)
    requires
        k <= PARITY_GROUPS,
        bits.len() >= 16384 + k + 1,
    ensures
        strip_groups(bits, k).len() == bits.len() - k - 1,
    decreases k,
{
    if k > 0 {
        lemma_group_pos_first(k - 1);
        lemma_strip_len(bits.remove(group_pos(k - 1)), (k - 1) as nat);
    }
}

/// Changing a parity bit does not change the content.
pub proof fn lemma_strip_update(bits: Seq<bool>, k: nat, p: int, v: bool)
    requires
        k <= PARITY_GROUPS,
        bits.len() >= 16384 + k + 1,
        is_parity_pos(p, k as int),
    ensures
        strip_groups(bits.update(p, v), k) == strip_groups(bits, k),
    decreases k,
{
    if k == 0 {
        assert(bits.update(p, v).remove(0) =~= bits.remove(0));
    } else {
        let g = group_pos(k - 1);
        lemma_group_pos_first(k - 1);
        if p == g {
            assert(bits.update(p, v).remove(g) =~= bits.remove(g));
        } else {
            if p != 0 {
                let j = choose|j: int| 0 <= j < k && p == #[trigger] group_pos(j);
                lemma_group_pos(j, k - 1);
                assert(is_parity_pos(p, k - 1));
            }
            assert(p < g);
            assert(bits.update(p, v).remove(g) =~= bits.remove(g).update(p, v));
            lemma_strip_update(bits.remove(g), (k - 1) as nat, p, v);
        }
    }
}

/// Inverting one bit XORs its position into the syndrome and inverts the parity.
pub proof fn lemma_flip(bits: Seq<bool>, p: int, n: nat)
    requires
        0 <= p < bits.len(),
        n <= bits.len() <= BLOCK_BITS,
    ensures
        p < n ==> syndrome_upto(flip(bits, p), n) == syndrome_upto(bits, n) ^ (p as u32),
        p < n ==> odd_upto(flip(bits, p), n) == !odd_upto(bits, n),
        p >= n ==> syndrome_upto(flip(bits, p), n) == syndrome_upto(bits, n),
        p >= n ==> odd_upto(flip(bits, p), n) == odd_upto(bits, n),
    decreases n,
{
    if n > 0 {
        let f = flip(bits, p);
        let m = (n - 1) as nat;
        lemma_flip(bits, p, m);
        let s = syndrome_upto(bits, m);
        let t: u32 = if bits[m as int] {
            m as u32
        } else {
            0u32
        };
        lemma_xor(s, p as u32, t);
        lemma_xor(s, t, p as u32);
    }
}

/// The syndrome of a block is itself a position in the block.
pub proof fn lemma_syndrome_bound(bits: Seq<bool>, n: nat)
    requires
        n <= bits.len() <= BLOCK_BITS,
    ensures
        syndrome_upto(bits, n) < BLOCK_BITS,
    decreases n,
{
    if n > 0 {
        lemma_syndrome_bound(bits, (n - 1) as nat);
        let t: u32 = if bits[n - 1] {
            (n - 1) as u32
        } else {
            0u32
        };
        lemma_xor(syndrome_upto(bits, (n - 1) as nat), t, 0);
    }
}

/// One step of distributing a syndrome `s` over the group parity bits: after
/// groups below `k` are handled the syndrome is `s` with its low `k` bits cleared.
pub proof fn lemma_clear_low_bits(s: u32, k: u32)
    requires
        s < 32768,
        k < 15,
    ensures
        (s >> 0u32) << 0u32 == s,
        (s >> 15u32) << 15u32 == 0,
        (s >> k) & 1u32 == 1u32 ==> ((s >> k) << k) ^ (1u32 << k) == (s >> (k + 1) as u32) << (k
            + 1) as u32,
        (s >> k) & 1u32 != 1u32 ==> (s >> k) << k == (s >> (k + 1) as u32) << (k + 1) as u32,
{
    assert((s >> 0u32) << 0u32 == s) by (bit_vector);
    assert((s >> 15u32) << 15u32 == 0) by (bit_vector)
        requires
            s < 32768u32,
    ;
    let k1 = (k + 1) as u32;
    assert((s >> k) & 1u32 == 1u32 ==> ((s >> k) << k) ^ (1u32 << k) == (s >> k1) << k1)
        by (bit_vector)
        requires
            k < 15u32,
            k1 == k + 1u32,
    ;
    assert((s >> k) & 1u32 != 1u32 ==> (s >> k) << k == (s >> k1) << k1) by (bit_vector)
        requires
            k < 15u32,
            k1 == k + 1u32,
    ;
}

} // verus!
