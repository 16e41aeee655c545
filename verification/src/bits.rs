//! Bit-level vocabulary shared by the builder and the frame codec: the bits of
//! a byte (most significant first), packing of bit sequences into bytes, and
//! the facts about shifts and masks that the proofs rest on.
use vstd::prelude::*;

verus! {

/// Bit `k` of `byte`, counting from the most significant bit (`k == 0`).
pub open spec fn bit_at(byte: u8, k: u8) -> bool {
    (byte << k) & 0x80u8 == 0x80u8
}

/// The eight bits of a byte, most significant first.
pub open spec fn byte_bits(x: u8) -> Seq<bool> {
    Seq::new(8, |k: int| bit_at(x, k as u8))
}

/// The bits of a byte sequence, each byte most significant bit first.
pub open spec fn bytes_bits(s: Seq<u8>) -> Seq<bool> {
    Seq::new(8 * s.len(), |i: int| bit_at(s[i / 8], (i % 8) as u8))
}

/// The bits of `byte` at positions `p` to 7 (counted from the most
/// significant end) are all clear; always true when `p >= 8`.
pub open spec fn clear_from(byte: u8, p: u8) -> bool {
    p >= 8 || byte & (0xffu8 >> p) == 0
}

/// Eight bits, most significant first, as a byte.
pub open spec fn pack8(b0: bool, b1: bool, b2: bool, b3: bool, b4: bool, b5: bool, b6: bool, b7: bool) -> u8 {
    (if b0 { 0x80u8 } else { 0u8 }) | (if b1 { 0x40u8 } else { 0u8 }) | (if b2 { 0x20u8 } else { 0u8 })
        | (if b3 { 0x10u8 } else { 0u8 }) | (if b4 { 0x08u8 } else { 0u8 }) | (if b5 { 0x04u8 } else { 0u8 })
        | (if b6 { 0x02u8 } else { 0u8 }) | (if b7 { 0x01u8 } else { 0u8 })
}

/// Bit `i` of a bit sequence, reading positions past its end as zero.
pub open spec fn bit_or_zero(bits: Seq<bool>, i: int) -> bool {
    0 <= i < bits.len() && bits[i]
}

/// Byte `j` of the packing of `bits`: bits `8j .. 8j + 8`, missing bits zero.
pub open spec fn packed_byte(bits: Seq<bool>, j: int) -> u8 {
    pack8(
        bit_or_zero(bits, 8 * j),
        bit_or_zero(bits, 8 * j + 1),
        bit_or_zero(bits, 8 * j + 2),
        bit_or_zero(bits, 8 * j + 3),
        bit_or_zero(bits, 8 * j + 4),
        bit_or_zero(bits, 8 * j + 5),
        bit_or_zero(bits, 8 * j + 6),
        bit_or_zero(bits, 8 * j + 7),
    )
}

/// The packing of `bits` into `n` bytes, most significant bit first.
pub open spec fn pack_bits(bits: Seq<bool>, n: nat) -> Seq<u8> {
    Seq::new(n, |j: int| packed_byte(bits, j))
}

/// Packing eight bits and reading them back gives the same bits.
pub proof fn lemma_pack8_bits(b0: bool, b1: bool, b2: bool, b3: bool, b4: bool, b5: bool, b6: bool, b7: bool)
    ensures
        bit_at(pack8(b0, b1, b2, b3, b4, b5, b6, b7), 0) == b0,
        bit_at(pack8(b0, b1, b2, b3, b4, b5, b6, b7), 1) == b1,
        bit_at(pack8(b0, b1, b2, b3, b4, b5, b6, b7), 2) == b2,
        bit_at(pack8(b0, b1, b2, b3, b4, b5, b6, b7), 3) == b3,
        bit_at(pack8(b0, b1, b2, b3, b4, b5, b6, b7), 4) == b4,
        bit_at(pack8(b0, b1, b2, b3, b4, b5, b6, b7), 5) == b5,
        bit_at(pack8(b0, b1, b2, b3, b4, b5, b6, b7), 6) == b6,
        bit_at(pack8(b0, b1, b2, b3, b4, b5, b6, b7), 7) == b7,
{
    let x = pack8(b0, b1, b2, b3, b4, b5, b6, b7);
    assert(x == pack8(b0, b1, b2, b3, b4, b5, b6, b7) ==> (
        bit_at(x, 0) == b0 && bit_at(x, 1) == b1 && bit_at(x, 2) == b2 && bit_at(x, 3) == b3
        && bit_at(x, 4) == b4 && bit_at(x, 5) == b5 && bit_at(x, 6) == b6 && bit_at(x, 7) == b7
    )) by (bit_vector);
}

/// A byte is its eight bits, packed.
pub proof fn lemma_pack8_of_bits(x: u8)
    ensures
        x == pack8(bit_at(x, 0), bit_at(x, 1), bit_at(x, 2), bit_at(x, 3), bit_at(x, 4), bit_at(x, 5), bit_at(x, 6), bit_at(x, 7)),
{
    assert(x == pack8(bit_at(x, 0), bit_at(x, 1), bit_at(x, 2), bit_at(x, 3), bit_at(x, 4), bit_at(x, 5), bit_at(x, 6), bit_at(x, 7))) by (bit_vector);
}

/// Two bytes with the same eight bits are equal.
pub proof fn lemma_bits_determine_byte(a: u8, b: u8)
    requires
        forall|k: u8| k < 8 ==> #[trigger] bit_at(a, k) == bit_at(b, k),
    ensures
        a == b,
{
    assert(bit_at(a, 0) == bit_at(b, 0));
    assert(bit_at(a, 1) == bit_at(b, 1));
    assert(bit_at(a, 2) == bit_at(b, 2));
    assert(bit_at(a, 3) == bit_at(b, 3));
    assert(bit_at(a, 4) == bit_at(b, 4));
    assert(bit_at(a, 5) == bit_at(b, 5));
    assert(bit_at(a, 6) == bit_at(b, 6));
    assert(bit_at(a, 7) == bit_at(b, 7));
    assert((bit_at(a, 0) == bit_at(b, 0) && bit_at(a, 1) == bit_at(b, 1) && bit_at(a, 2) == bit_at(b, 2)
        && bit_at(a, 3) == bit_at(b, 3) && bit_at(a, 4) == bit_at(b, 4) && bit_at(a, 5) == bit_at(b, 5)
        && bit_at(a, 6) == bit_at(b, 6) && bit_at(a, 7) == bit_at(b, 7)) ==> a == b) by (bit_vector);
}

/// The zero byte has no bit set; clearing from position 0 means the byte is 0.
pub proof fn lemma_zero_byte(k: u8)
    requires
        k < 8,
    ensures
        !bit_at(0u8, k),
        clear_from(0u8, k),
{
    assert(k < 8 ==> !bit_at(0u8, k) && (0u8 & (0xffu8 >> k)) == 0) by (bit_vector);
}

/// A byte clear from `p` has no bit set at positions `p` and after.
pub proof fn lemma_clear_from_bit(b: u8, p: u8, k: u8)
    requires
        clear_from(b, p),
        p <= k < 8,
    ensures
        !bit_at(b, k),
{
    assert(p <= k && k < 8 && (b & (0xffu8 >> p)) == 0 ==> !bit_at(b, k)) by (bit_vector);
}

/// Setting bit `p` (with the mask `0x80 >> p`) changes bit `p` only, and a byte
/// clear from `p` is then clear from `p + 1`.
pub proof fn lemma_set_bit(b: u8, p: u8, k: u8)
    requires
        p < 8,
        k < 8,
    ensures
        bit_at(b | (0x80u8 >> p), k) == (k == p || bit_at(b, k)),
        clear_from(b, p) ==> clear_from(b | (0x80u8 >> p), (p + 1) as u8),
        clear_from(b, p) ==> clear_from(b, (p + 1) as u8),
{
    assert(p < 8 && k < 8 ==> (bit_at(b | (0x80u8 >> p), k) == (k == p || bit_at(b, k)))) by (bit_vector);
    assert(p < 8 && (b & (0xffu8 >> p)) == 0 ==> ((b | (0x80u8 >> p)) & (0xffu8 >> ((p + 1) as u8))) == 0) by (bit_vector);
    assert(p < 8 && (b & (0xffu8 >> p)) == 0 ==> (b & (0xffu8 >> ((p + 1) as u8))) == 0) by (bit_vector);
}

/// Appending the byte `x` at bit offset `p` of a byte clear from `p`: the old
/// bits before `p` stay, and the leading bits of `x` follow them.
pub proof fn lemma_merge_high(last: u8, x: u8, p: u8, k: u8)
    requires
        p < 8,
        k < 8,
        clear_from(last, p),
    ensures
        k < p ==> bit_at(last | (x >> p), k) == bit_at(last, k),
        p <= k ==> bit_at(last | (x >> p), k) == bit_at(x, (k - p) as u8),
{
    assert(p < 8 && k < 8 && (last & (0xffu8 >> p)) == 0 && k < p ==> bit_at(last | (x >> p), k) == bit_at(last, k)) by (bit_vector);
    assert(p < 8 && k < 8 && (last & (0xffu8 >> p)) == 0 && p <= k ==> bit_at(last | (x >> p), k) == bit_at(x, ((k - p) as u8))) by (bit_vector);
}

/// The trailing bits of `x` shifted to the top of a fresh byte, which is then
/// clear from `p`.
pub proof fn lemma_merge_low(x: u8, p: u8, k: u8)
    requires
        0 < p < 8,
        k < 8,
    ensures
        k < p ==> bit_at(x << ((8 - p) as u8), k) == bit_at(x, (k + 8 - p) as u8),
        p <= k ==> !bit_at(x << ((8 - p) as u8), k),
        clear_from(x << ((8 - p) as u8), p),
{
    assert(0 < p && p < 8 && k < 8 && k < p ==> bit_at(x << ((8 - p) as u8), k) == bit_at(x, ((k + 8 - p) as u8))) by (bit_vector);
    assert(0 < p && p < 8 && k < 8 && p <= k ==> !bit_at(x << ((8 - p) as u8), k)) by (bit_vector);
    assert(0 < p && p < 8 ==> ((x << ((8 - p) as u8)) & (0xffu8 >> p)) == 0) by (bit_vector);
}

} // verus!
