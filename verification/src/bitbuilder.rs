//! A growable sequence of bits, stored most significant bit first in bytes.
use vstd::prelude::*;
use crate::bits::{
    bit_at, bit_or_zero, byte_bits, clear_from, lemma_bits_determine_byte, lemma_clear_from_bit,
    lemma_merge_high, lemma_merge_low, lemma_pack8_bits, lemma_set_bit, lemma_zero_byte, pack_bits,
    packed_byte, bytes_bits, lemma_pack8_of_bits, pack8,
};
use crate::text::chars_of;

verus! {

/// The bits held by `bytes` when the last byte has `p` bits in use.
pub closed spec fn bits_in(bytes: Seq<u8>, p: u8) -> Seq<bool> {
    Seq::new((8 * bytes.len() - 8 + p) as nat, |i: int| bit_at(bytes[i / 8], (i % 8) as u8))
}

/// How many bytes a builder of `len` bits holds: a builder whose bit count is a
/// multiple of eight may carry one more, empty, byte at the end (`padded`).
pub open spec fn byte_count(len: nat, padded: bool) -> nat {
    if padded {
        len / 8 + 1
    } else {
        ((len + 7) / 8) as nat
    }
}

/// A sequence of bits that can be read back bit by bit or as packed bytes.
///
/// The bits live in `bytes`, most significant bit first; `bit_pos` is the
/// number of bits in use in the last byte (0 to 8).
#[derive(Debug, Clone)]
pub struct BitBuilder {
    bytes: Vec<u8>,
    bit_pos: u8,
}

impl View for BitBuilder {
    type V = Seq<bool>;

    closed spec fn view(&self) -> Seq<bool> {
        bits_in(self.bytes@, self.bit_pos)
    }
}

/// Index `8j + k` is bit `k` of byte `j`.
proof fn lemma_div_mod_8(j: int, k: int)
    requires
        0 <= k < 8,
    ensures
        (8 * j + k) / 8 == j,
        (8 * j + k) % 8 == k,
{
    vstd::arithmetic::div_mod::lemma_fundamental_div_mod_converse(8 * j + k, 8, j, k);
}

/// A bit index below `8n` names a byte below `n` and a bit below 8.
proof fn lemma_index_bounds(i: int, n: int)
    requires
        0 <= i < 8 * n,
    ensures
        0 <= i / 8 < n,
        0 <= i % 8 < 8,
        i == 8 * (i / 8) + i % 8,
{
    vstd::arithmetic::div_mod::lemma_fundamental_div_mod(i, 8);
}

/// Opening a fresh, empty last byte does not change the bits.
proof fn lemma_open_byte(bytes: Seq<u8>)
    requires
        bytes.len() >= 1,
    ensures
        bits_in(bytes.push(0u8), 0) =~= bits_in(bytes, 8),
        clear_from(bytes.push(0u8).last(), 0),
{
    lemma_zero_byte(0);
    assert forall|i: int| 0 <= i < bits_in(bytes, 8).len() implies bits_in(bytes.push(0u8), 0)[i] == bits_in(bytes, 8)[i] by {
        lemma_index_bounds(i, bytes.len() as int);
    }
}

/// Writing bit `p` of the last byte appends one bit.
proof fn lemma_set_last_bit(bytes: Seq<u8>, p: u8, bit: bool)
    requires
        bytes.len() >= 1,
        p < 8,
        clear_from(bytes.last(), p),
    ensures
        ({
            let last = bytes.last();
            let nb = bytes.update(bytes.len() - 1, if bit { last | (0x80u8 >> p) } else { last });
            &&& bits_in(nb, (p + 1) as u8) =~= bits_in(bytes, p).push(bit)
            &&& clear_from(nb.last(), (p + 1) as u8)
        }),
{
    let n = bytes.len() as int;
    let last = bytes.last();
    let nb = bytes.update(n - 1, if bit { last | (0x80u8 >> p) } else { last });
    lemma_set_bit(last, p, 0);
    let old_bits = bits_in(bytes, p);
    let new_bits = bits_in(nb, (p + 1) as u8);
    assert forall|i: int| 0 <= i < new_bits.len() implies new_bits[i] == old_bits.push(bit)[i] by {
        lemma_index_bounds(i, n);
        let j = i / 8;
        let k = (i % 8) as u8;
        lemma_set_bit(last, p, k);
        if j == n - 1 {
            if (k as int) < (p as int) {
                assert(i < old_bits.len());
            } else {
                assert(k == p);
                assert(i == old_bits.len());
                lemma_clear_from_bit(last, p, k);
            }
        }
    }
}

/// Appending the byte `x` when the last byte has `p` bits in use: the high
/// bits of `x` fill the last byte and the rest start a new one.
proof fn lemma_append_byte(bytes: Seq<u8>, p: u8, x: u8)
    requires
        bytes.len() >= 1,
        p < 8,
        clear_from(bytes.last(), p),
    ensures
        ({
            let nb = bytes.update(bytes.len() - 1, bytes.last() | (x >> p)).push(
                if p == 0 { 0u8 } else { x << ((8 - p) as u8) },
            );
            &&& bits_in(nb, p) =~= bits_in(bytes, p) + byte_bits(x)
            &&& clear_from(nb.last(), p)
        }),
{
    let n = bytes.len() as int;
    let last = bytes.last();
    let tail: u8 = if p == 0 { 0u8 } else { x << ((8 - p) as u8) };
    let nb = bytes.update(n - 1, last | (x >> p)).push(tail);
    let old_bits = bits_in(bytes, p);
    let new_bits = bits_in(nb, p);
    let want = old_bits + byte_bits(x);
    if p == 0 {
        lemma_zero_byte(0);
    } else {
        lemma_merge_low(x, p, 0);
    }
    assert forall|i: int| 0 <= i < new_bits.len() implies new_bits[i] == want[i] by {
        lemma_index_bounds(i, n + 1);
        let j = i / 8;
        let k = (i % 8) as u8;
        lemma_merge_high(last, x, p, k);
        if j < n - 1 {
        } else if j == n - 1 {
            if (k as int) < (p as int) {
                assert(i < old_bits.len());
            } else {
                assert(i >= old_bits.len());
                assert(want[i] == byte_bits(x)[i - old_bits.len()]);
            }
        } else {
            assert(i >= old_bits.len());
            assert(want[i] == byte_bits(x)[i - old_bits.len()]);
            if p == 0 {
                lemma_zero_byte(k);
            } else {
                lemma_merge_low(x, p, k);
            }
        }
    }
}


/// The 32 bits of `x`, most significant first.
pub open spec fn u32_bits(x: u32) -> Seq<bool> {
    Seq::new(32, |i: int| (x >> ((31 - i) as u32)) & 1u32 == 1u32)
}

/// The bits named by a string of '0' and '1' characters; other characters
/// are skipped.
pub open spec fn bit_string_bits(s: Seq<char>) -> Seq<bool>
    decreases s.len(),
{
    if s.len() == 0 {
        Seq::empty()
    } else {
        let rest = bit_string_bits(s.drop_last());
        if s.last() == '1' {
            rest.push(true)
        } else if s.last() == '0' {
            rest.push(false)
        } else {
            rest
        }
    }
}

/// Bits written as '1' and '0', with a space before every group of four
/// (so before bit 0, bit 4, bit 8, ...).
pub open spec fn render_bits(bits: Seq<bool>) -> Seq<char>
    decreases bits.len(),
{
    if bits.len() == 0 {
        Seq::empty()
    } else {
        let i = bits.len() - 1;
        render_bits(bits.drop_last()) + (if i % 4 == 0 { seq![' '] } else { Seq::<char>::empty() }) + seq![
            if bits.last() { '1' } else { '0' },
        ]
    }
}

/// Appending a byte to a byte sequence appends its eight bits.
pub proof fn lemma_bytes_bits_push(s: Seq<u8>, x: u8)
    ensures
        bytes_bits(s.push(x)) =~= bytes_bits(s) + byte_bits(x),
{
    let n = s.len() as int;
    assert forall|i: int| 0 <= i < 8 * (n + 1) implies bytes_bits(s.push(x))[i] == (bytes_bits(s) + byte_bits(x))[i] by {
        lemma_index_bounds(i, n + 1);
        if i >= 8 * n {
            lemma_div_mod_8(n, i - 8 * n);
        }
    }
}


/// Bit `k` of each of the four bytes of `push_u32` is the matching bit of the word.
proof fn lemma_u32_byte_bits(x: u32, k: u8)
    requires
        k < 8,
    ensures
        bit_at(((x >> 24) & 0xff) as u8, k) == ((x >> ((31 - k) as u32)) & 1u32 == 1u32),
        bit_at(((x >> 16) & 0xff) as u8, k) == ((x >> ((23 - k) as u32)) & 1u32 == 1u32),
        bit_at(((x >> 8) & 0xff) as u8, k) == ((x >> ((15 - k) as u32)) & 1u32 == 1u32),
        bit_at((x & 0xff) as u8, k) == ((x >> ((7 - k) as u32)) & 1u32 == 1u32),
{
    assert(k < 8 ==> bit_at(((x >> 24) & 0xff) as u8, k) == ((x >> ((31 - k) as u32)) & 1u32 == 1u32)) by (bit_vector);
    assert(k < 8 ==> bit_at(((x >> 16) & 0xff) as u8, k) == ((x >> ((23 - k) as u32)) & 1u32 == 1u32)) by (bit_vector);
    assert(k < 8 ==> bit_at(((x >> 8) & 0xff) as u8, k) == ((x >> ((15 - k) as u32)) & 1u32 == 1u32)) by (bit_vector);
    assert(k < 8 ==> bit_at((x & 0xff) as u8, k) == ((x >> ((7 - k) as u32)) & 1u32 == 1u32)) by (bit_vector);
}


/// The bits of the four bytes of `x`, most significant byte first, are the 32
/// bits of `x`.
proof fn lemma_u32_bytes_bits(x: u32)
    ensures
        byte_bits(((x >> 24) & 0xff) as u8) + byte_bits(((x >> 16) & 0xff) as u8) + byte_bits(((x >> 8) & 0xff) as u8)
            + byte_bits((x & 0xff) as u8) == u32_bits(x),
{
    let all = byte_bits(((x >> 24) & 0xff) as u8) + byte_bits(((x >> 16) & 0xff) as u8) + byte_bits(((x >> 8) & 0xff) as u8)
        + byte_bits((x & 0xff) as u8);
    assert forall|i: int| 0 <= i < 32 implies #[trigger] all[i] == u32_bits(x)[i] by {
        let k = (i % 8) as u8;
        lemma_u32_byte_bits(x, k);
    }
    assert(all =~= u32_bits(x));
}

/// The four bytes of `x`, most significant first (big endian).
pub open spec fn u32_be_bytes(x: u32) -> Seq<u8> {
    seq![((x >> 24) & 0xff) as u8, ((x >> 16) & 0xff) as u8, ((x >> 8) & 0xff) as u8, (x & 0xff) as u8]
}

/// The bits of the four big-endian bytes of `x` are the 32 bits of `x`, most
/// significant first: `push_u32` appends what `append_bytes` appends for
/// those bytes.
pub proof fn law_u32_be_bytes(x: u32)
    ensures
        bytes_bits(u32_be_bytes(x)) == u32_bits(x),
{
    let b = u32_be_bytes(x);
    lemma_u32_bytes_bits(x);
    assert(bytes_bits(Seq::<u8>::empty()) =~= Seq::<bool>::empty());
    lemma_bytes_bits_push(Seq::<u8>::empty(), b[0]);
    lemma_bytes_bits_push(seq![b[0]], b[1]);
    lemma_bytes_bits_push(seq![b[0], b[1]], b[2]);
    lemma_bytes_bits_push(seq![b[0], b[1], b[2]], b[3]);
    assert(Seq::<u8>::empty().push(b[0]) =~= seq![b[0]]);
    assert(seq![b[0]].push(b[1]) =~= seq![b[0], b[1]]);
    assert(seq![b[0], b[1]].push(b[2]) =~= seq![b[0], b[1], b[2]]);
    assert(seq![b[0], b[1], b[2]].push(b[3]) =~= b);
    assert(Seq::<bool>::empty() + byte_bits(b[0]) =~= byte_bits(b[0]));
}

/// Packing the bits of a byte sequence gives the bytes back, followed by zero
/// bytes when more bytes are asked for.
pub proof fn law_pack_bytes_bits(s: Seq<u8>)
    ensures
        pack_bits(bytes_bits(s), s.len()) == s,
        pack_bits(bytes_bits(s), s.len() + 1) == s.push(0u8),
{
    let bits = bytes_bits(s);
    let n = s.len() as int;
    assert(pack8(false, false, false, false, false, false, false, false) == 0u8) by (bit_vector);
    assert forall|j: int| 0 <= j <= n implies #[trigger] packed_byte(bits, j) == s.push(0u8)[j] by {
        if j < n {
            lemma_pack8_of_bits(s[j]);
            lemma_div_mod_8(j, 0);
            lemma_div_mod_8(j, 1);
            lemma_div_mod_8(j, 2);
            lemma_div_mod_8(j, 3);
            lemma_div_mod_8(j, 4);
            lemma_div_mod_8(j, 5);
            lemma_div_mod_8(j, 6);
            lemma_div_mod_8(j, 7);
        }
    }
    assert(pack_bits(bits, s.len()) =~= s);
    assert(pack_bits(bits, s.len() + 1) =~= s.push(0u8));
}

/// A packed byte of `a + b`, where `a` holds `8k` bits: before byte `k` it is
/// packed from `a`, from byte `k` on from `b`.
pub proof fn lemma_packed_byte_concat(a: Seq<bool>, b: Seq<bool>, k: int, j: int)
    requires
        a.len() == 8 * k,
        0 <= j,
    ensures
        j < k ==> packed_byte(a + b, j) == packed_byte(a, j),
        j >= k ==> packed_byte(a + b, j) == packed_byte(b, j - k),
{
    let v = a + b;
    if j < k {
        assert(bit_or_zero(v, 8 * j) == bit_or_zero(a, 8 * j));
        assert(bit_or_zero(v, 8 * j + 1) == bit_or_zero(a, 8 * j + 1));
        assert(bit_or_zero(v, 8 * j + 2) == bit_or_zero(a, 8 * j + 2));
        assert(bit_or_zero(v, 8 * j + 3) == bit_or_zero(a, 8 * j + 3));
        assert(bit_or_zero(v, 8 * j + 4) == bit_or_zero(a, 8 * j + 4));
        assert(bit_or_zero(v, 8 * j + 5) == bit_or_zero(a, 8 * j + 5));
        assert(bit_or_zero(v, 8 * j + 6) == bit_or_zero(a, 8 * j + 6));
        assert(bit_or_zero(v, 8 * j + 7) == bit_or_zero(a, 8 * j + 7));
    } else {
        assert(bit_or_zero(v, 8 * j) == bit_or_zero(b, 8 * (j - k)));
        assert(bit_or_zero(v, 8 * j + 1) == bit_or_zero(b, 8 * (j - k) + 1));
        assert(bit_or_zero(v, 8 * j + 2) == bit_or_zero(b, 8 * (j - k) + 2));
        assert(bit_or_zero(v, 8 * j + 3) == bit_or_zero(b, 8 * (j - k) + 3));
        assert(bit_or_zero(v, 8 * j + 4) == bit_or_zero(b, 8 * (j - k) + 4));
        assert(bit_or_zero(v, 8 * j + 5) == bit_or_zero(b, 8 * (j - k) + 5));
        assert(bit_or_zero(v, 8 * j + 6) == bit_or_zero(b, 8 * (j - k) + 6));
        assert(bit_or_zero(v, 8 * j + 7) == bit_or_zero(b, 8 * (j - k) + 7));
    }
}

/// Byte `k + j` of the packing of `bits + bytes_bits(bs)`, where `bits` holds
/// `8k` bits, is `bs[j]`.
proof fn lemma_readback_byte(bits: Seq<bool>, bs: Seq<u8>, k: int, j: int)
    requires
        bits.len() == 8 * k,
        0 <= j < bs.len(),
    ensures
        packed_byte(bits + bytes_bits(bs), k + j) == bs[j],
{
    lemma_packed_byte_concat(bits, bytes_bits(bs), k, k + j);
    law_pack_bytes_bits(bs);
    assert(pack_bits(bytes_bits(bs), bs.len())[j] == packed_byte(bytes_bits(bs), j));
}

/// Bytes appended at a byte boundary come back unchanged from the packing, and
/// the bytes before them are the packing of the earlier bits.
pub proof fn law_aligned_bytes_readback(bits: Seq<bool>, bs: Seq<u8>, n: nat)
    requires
        bits.len() % 8 == 0,
        bits.len() / 8 + bs.len() <= n,
    ensures
        pack_bits(bits + bytes_bits(bs), n).subrange((bits.len() / 8) as int, (bits.len() / 8 + bs.len()) as int) == bs,
        pack_bits(bits + bytes_bits(bs), n).take((bits.len() / 8) as int) == pack_bits(bits, bits.len() / 8),
{
    let k: int = (bits.len() / 8) as int;
    let p = pack_bits(bits + bytes_bits(bs), n);
    assert(bits.len() == 8 * k) by {
        vstd::arithmetic::div_mod::lemma_fundamental_div_mod(bits.len() as int, 8);
    }
    assert forall|j: int| 0 <= j < bs.len() implies #[trigger] p.subrange(k, k + bs.len())[j] == bs[j] by {
        lemma_readback_byte(bits, bs, k, j);
    }
    assert forall|j: int| 0 <= j < k implies #[trigger] p.take(k)[j] == pack_bits(bits, k as nat)[j] by {
        lemma_packed_byte_concat(bits, bytes_bits(bs), k, j);
    }
    assert(p.subrange(k, k + bs.len()) =~= bs);
    assert(p.take(k) =~= pack_bits(bits, k as nat));
}

/// The bits of a concatenation are the concatenated bits.
pub proof fn law_bytes_bits_concat(a: Seq<u8>, b: Seq<u8>)
    ensures
        bytes_bits(a + b) == bytes_bits(a) + bytes_bits(b),
    decreases b.len(),
{
    if b.len() == 0 {
        assert(a + b =~= a);
        assert(bytes_bits(b) =~= Seq::<bool>::empty());
        assert(bytes_bits(a) + bytes_bits(b) =~= bytes_bits(a));
    } else {
        law_bytes_bits_concat(a, b.drop_last());
        lemma_bytes_bits_push(a + b.drop_last(), b.last());
        lemma_bytes_bits_push(b.drop_last(), b.last());
        assert(a + b.drop_last() + seq![b.last()] =~= a + b);
        assert((a + b.drop_last()).push(b.last()) =~= a + b);
        assert(b.drop_last().push(b.last()) =~= b);
        assert(bytes_bits(a) + bytes_bits(b.drop_last()) + byte_bits(b.last()) =~= bytes_bits(a) + (bytes_bits(b.drop_last()) + byte_bits(b.last())));
    }
}

/// Reading back the text of `get_bitstring` with `from_bit_string` gives the
/// same bits: the separating spaces are skipped.
pub proof fn law_bitstring_roundtrip(bits: Seq<bool>)
    ensures
        bit_string_bits(render_bits(bits)) == bits,
    decreases bits.len(),
{
    if bits.len() > 0 {
        law_bitstring_roundtrip(bits.drop_last());
        let i = bits.len() - 1;
        let pre = render_bits(bits.drop_last());
        let sep: Seq<char> = if i % 4 == 0 { seq![' '] } else { Seq::<char>::empty() };
        let c = if bits.last() { '1' } else { '0' };
        assert(render_bits(bits) == pre + sep + seq![c]);
        assert((pre + sep + seq![c]).drop_last() =~= pre + sep);
        if i % 4 == 0 {
            assert((pre + sep).drop_last() =~= pre);
            assert(bit_string_bits(pre + sep) == bit_string_bits(pre));
        } else {
            assert(pre + sep =~= pre);
        }
        assert(bits.drop_last().push(bits.last()) =~= bits);
    }
}

impl BitBuilder {
    /// The builder's representation is consistent: at least one byte, at most
    /// eight bits in use in the last byte, the unused bits of the last byte
    /// clear, and the bit count fits in a `usize`.
    pub closed spec fn wf(&self) -> bool {
        &&& self.bytes@.len() >= 1
        &&& self.bit_pos <= 8
        &&& 8 * self.bytes@.len() <= usize::MAX
        &&& clear_from(self.bytes@.last(), self.bit_pos)
    }

    /// Whether the stored bytes end in an opened, still empty byte. This holds
    /// of a new builder and after `push_byte` at a byte boundary.
    pub closed spec fn padded(&self) -> bool {
        self.bit_pos == 0
    }

    /// The bytes that `as_bytes` hands out.
    pub open spec fn spec_bytes(&self) -> Seq<u8> {
        pack_bits(self@, byte_count(self@.len(), self.padded()))
    }

    /// The bit count and the byte count of a well-formed builder.
    proof fn lemma_wf_facts(&self)
        requires
            self.wf(),
        ensures
            self@.len() == 8 * self.bytes@.len() - 8 + self.bit_pos,
            self.padded() ==> self@.len() % 8 == 0,
            !self.padded() ==> self@.len() > 0,
            self.bytes@.len() == byte_count(self@.len(), self.padded()),
            8 * self.bytes@.len() <= self@.len() + 8,
    {
    }

    /// What a well-formed builder's padding says of its lengths: a padded
    /// builder holds a multiple of eight bits, an unpadded one at least one
    /// bit; `as_bytes` has at least one byte, enough bytes for every bit, and
    /// at most one byte that holds none of them.
    pub proof fn lemma_padding_facts(&self)
        requires
            self.wf(),
        ensures
            self.padded() ==> self@.len() % 8 == 0,
            !self.padded() ==> self@.len() > 0,
            self.spec_bytes().len() == byte_count(self@.len(), self.padded()),
            self.spec_bytes().len() >= 1,
            8 * (self.spec_bytes().len() - 1) <= self@.len() <= 8 * self.spec_bytes().len(),
    {
        self.lemma_wf_facts();
    }

    /// The stored bytes are the packing of the bits.
    proof fn lemma_bytes_packed(&self)
        requires
            self.wf(),
        ensures
            self.bytes@ =~= self.spec_bytes(),
    {
        self.lemma_wf_facts();
        let n = self.bytes@.len() as int;
        let bits = self@;
        assert forall|j: int| 0 <= j < n implies self.bytes@[j] == #[trigger] packed_byte(bits, j) by {
            let pb = packed_byte(bits, j);
            lemma_pack8_bits(
                bit_or_zero(bits, 8 * j),
                bit_or_zero(bits, 8 * j + 1),
                bit_or_zero(bits, 8 * j + 2),
                bit_or_zero(bits, 8 * j + 3),
                bit_or_zero(bits, 8 * j + 4),
                bit_or_zero(bits, 8 * j + 5),
                bit_or_zero(bits, 8 * j + 6),
                bit_or_zero(bits, 8 * j + 7),
            );
            assert forall|k: u8| k < 8 implies #[trigger] bit_at(self.bytes@[j], k) == bit_at(pb, k) by {
                lemma_div_mod_8(j, k as int);
                let i = 8 * j + k;
                if i < bits.len() {
                    assert(bits[i] == bit_at(self.bytes@[j], k));
                } else {
                    assert(j == n - 1);
                    lemma_clear_from_bit(self.bytes@[j], self.bit_pos, k);
                }
                assert(bit_at(pb, k) == bit_or_zero(bits, 8 * j + k));
            }
            lemma_bits_determine_byte(self.bytes@[j], pb);
        }
    }

    /// An empty builder.
    pub fn new() -> (r: Self)
        ensures
            r.wf(),
            r@ == Seq::<bool>::empty(),
            r.padded(),
    {
        proof {
            lemma_zero_byte(0);
        }
        let r = Self { bytes: vec![0], bit_pos: 0 };
        assert(r@ =~= Seq::<bool>::empty());
        r
    }

    /// The number of bits pushed so far.
    pub fn len(&self) -> (r: usize)
        requires
            self.wf(),
        ensures
            r == self@.len(),
    {
        self.bytes.len() * 8 - (8 - self.bit_pos as usize)
    }

    /// Bit `index`, or `None` past the end.
    pub fn get_bit(&self, index: usize) -> (r: Option<bool>)
        requires
            self.wf(),
        ensures
            r == (if index < self@.len() { Some(self@[index as int]) } else { None::<bool> }),
    {
        let byte_index = index / 8;
        if byte_index >= self.bytes.len() {
            return None;
        }
        if byte_index + 1 == self.bytes.len() && (index % 8) as u8 >= self.bit_pos {
            return None;
        }
        let byte = self.bytes[byte_index];
        let k = (index % 8) as u8;
        let bit = (byte >> (7 - k)) & 1;
        proof {
            assert(k < 8 ==> (((byte >> ((7 - k) as u8)) & 1u8) == 1u8) == bit_at(byte, k)) by (bit_vector);
        }
        Some(bit == 1)
    }


    /// Byte `index` of `as_bytes`, or `None` past the end.
    pub fn get_byte(&self, index: usize) -> (r: Option<u8>)
        requires
            self.wf(),
        ensures
            r == (if index < self.spec_bytes().len() { Some(self.spec_bytes()[index as int]) } else { None::<u8> }),
    {
        proof {
            self.lemma_bytes_packed();
        }
        let byte_index = index;
        if byte_index >= self.bytes.len() {
            return None;
        }
        let byte = self.bytes[byte_index];
        Some(byte)
    }

    /// The bits at the indices of `range`, or `None` when one of them is past
    /// the end.
    pub fn get_bits(&self, range: std::ops::Range<usize>) -> (r: Option<Vec<bool>>)
        requires
            self.wf(),
        ensures
            r is None <==> (range.start < range.end && range.end > self@.len()),
            r matches Some(v) ==> v@ == (if range.start < range.end {
                self@.subrange(range.start as int, range.end as int)
            } else {
                Seq::<bool>::empty()
            }),
    {
        let mut result: Vec<bool> = Vec::new();
        let mut i = range.start;
        while i < range.end
            invariant
                self.wf(),
                range.start <= i,
                range.start < range.end ==> i <= range.end,
                range.start >= range.end ==> i == range.start,
                i > range.start ==> i <= self@.len(),
                result@.len() == i - range.start,
                forall|t: int| 0 <= t < result@.len() ==> result@[t] == self@[range.start + t],
            decreases range.end - i,
        {
            if let Some(bit) = self.get_bit(i) {
                result.push(bit);
            } else {
                return None;
            }
            i = i + 1;
        }
        if range.start < range.end {
            assert(result@ =~= self@.subrange(range.start as int, range.end as int));
        } else {
            assert(result@ =~= Seq::<bool>::empty());
        }
        Some(result)
    }


    /// The bytes of `as_bytes` at the indices of `range`, or `None` when one of
    /// them is past the end.
    pub fn get_bytes(&self, range: std::ops::Range<usize>) -> (r: Option<Vec<u8>>)
        requires
            self.wf(),
        ensures
            r is None <==> (range.start < range.end && range.end > self.spec_bytes().len()),
            r matches Some(v) ==> v@ == (if range.start < range.end {
                self.spec_bytes().subrange(range.start as int, range.end as int)
            } else {
                Seq::<u8>::empty()
            }),
    {
        let mut result: Vec<u8> = Vec::new();
        let mut i = range.start;
        while i < range.end
            invariant
                self.wf(),
                range.start <= i,
                range.start < range.end ==> i <= range.end,
                range.start >= range.end ==> i == range.start,
                i > range.start ==> i <= self.spec_bytes().len(),
                result@.len() == i - range.start,
                forall|t: int| 0 <= t < result@.len() ==> result@[t] == self.spec_bytes()[range.start + t],
            decreases range.end - i,
        {
            if let Some(byte) = self.get_byte(i) {
                result.push(byte);
            } else {
                return None;
            }
            i = i + 1;
        }
        if range.start < range.end {
            assert(result@ =~= self.spec_bytes().subrange(range.start as int, range.end as int));
        } else {
            assert(result@ =~= Seq::<u8>::empty());
        }
        Some(result)
    }

    /// The bits at the given indices, in their order, or `None` when one of
    /// them is past the end.
    pub fn get_bits_at(&self, indices: &[usize]) -> (r: Option<Vec<bool>>)
        requires
            self.wf(),
        ensures
            r is None <==> exists|t: int| 0 <= t < indices@.len() && indices@[t] >= self@.len(),
            r matches Some(v) ==> v@ == Seq::new(indices@.len(), |t: int| self@[indices@[t] as int]),
    {
        let mut result: Vec<bool> = Vec::new();
        let mut t: usize = 0;
        while t < indices.len()
            invariant
                self.wf(),
                t <= indices@.len(),
                forall|u: int| 0 <= u < t ==> indices@[u] < self@.len(),
                result@ == Seq::new(t as nat, |u: int| self@[indices@[u] as int]),
            decreases indices@.len() - t,
        {
            match self.get_bit(indices[t]) {
                Some(bit) => result.push(bit),
                None => {
                    return None;
                },
            }
            t = t + 1;
            assert(result@ =~= Seq::new(t as nat, |u: int| self@[indices@[u] as int]));
        }
        Some(result)
    }

    /// The bytes of `as_bytes` at the given indices, in their order, or `None`
    /// when one of them is past the end.
    pub fn get_bytes_at(&self, indices: &[usize]) -> (r: Option<Vec<u8>>)
        requires
            self.wf(),
        ensures
            r is None <==> exists|t: int| 0 <= t < indices@.len() && indices@[t] >= self.spec_bytes().len(),
            r matches Some(v) ==> v@ == Seq::new(indices@.len(), |t: int| self.spec_bytes()[indices@[t] as int]),
    {
        let mut result: Vec<u8> = Vec::new();
        let mut t: usize = 0;
        while t < indices.len()
            invariant
                self.wf(),
                t <= indices@.len(),
                forall|u: int| 0 <= u < t ==> indices@[u] < self.spec_bytes().len(),
                result@ == Seq::new(t as nat, |u: int| self.spec_bytes()[indices@[u] as int]),
            decreases indices@.len() - t,
        {
            match self.get_byte(indices[t]) {
                Some(byte) => result.push(byte),
                None => {
                    return None;
                },
            }
            t = t + 1;
            assert(result@ =~= Seq::new(t as nat, |u: int| self.spec_bytes()[indices@[u] as int]));
        }
        Some(result)
    }

    /// A builder holding the bits named by the '0' and '1' characters of
    /// `input`, in order; other characters are skipped.
    pub fn from_bit_string(input: &str) -> (r: Self)
        requires
            input@.len() + 8 <= usize::MAX,
        ensures
            r.wf(),
            r@ == bit_string_bits(input@),
            r.padded() == (r@.len() == 0),
    {
        let chars = chars_of(input);
        let mut builder = Self::new();
        let mut i: usize = 0;
        while i < chars.len()
            invariant
                chars@ == input@,
                i <= chars@.len(),
                builder.wf(),
                builder@ == bit_string_bits(input@.take(i as int)),
                builder@.len() <= i,
                builder.padded() == (builder@.len() == 0),
                input@.len() + 8 <= usize::MAX,
            decreases chars@.len() - i,
        {
            let c = chars[i];
            assert(input@.take(i + 1).drop_last() =~= input@.take(i as int));
            if c == '1' {
                builder.push_bit(true);
            } else if c == '0' {
                builder.push_bit(false);
            }
            i = i + 1;
        }
        assert(input@.take(i as int) =~= input@);
        builder
    }

    /// Appends the bits of `bits`, in order.
    pub fn append_bits(&mut self, bits: &Vec<bool>)
        requires
            old(self).wf(),
            old(self)@.len() + bits@.len() + 8 <= usize::MAX,
        ensures
            final(self).wf(),
            final(self)@ == old(self)@ + bits@,
            final(self).padded() == (old(self).padded() && bits@.len() == 0),
    {
        let ghost start = self@;
        let ghost start_padded = self.padded();
        let mut i: usize = 0;
        while i < bits.len()
            invariant
                self.wf(),
                i <= bits@.len(),
                self@ == start + bits@.take(i as int),
                self.padded() == (start_padded && i == 0),
                start.len() + bits@.len() + 8 <= usize::MAX,
            decreases bits@.len() - i,
        {
            self.push_bit(bits[i]);
            assert(bits@.take(i + 1) =~= bits@.take(i as int).push(bits@[i as int]));
            i = i + 1;
        }
        assert(bits@.take(i as int) =~= bits@);
    }

    /// Appends the bits of each byte of `bytes`, in order.
    pub fn append_bytes(&mut self, bytes: &[u8])
        requires
            old(self).wf(),
            old(self)@.len() + 8 * bytes@.len() + 16 <= usize::MAX,
        ensures
            final(self).wf(),
            final(self)@ == old(self)@ + bytes_bits(bytes@),
            final(self).padded() == (if bytes@.len() == 0 { old(self).padded() } else { old(self)@.len() % 8 == 0 }),
    {
        let ghost start = self@;
        let ghost start_padded = self.padded();
        let mut i: usize = 0;
        assert(bytes_bits(bytes@.take(0)) =~= Seq::<bool>::empty());
        assert(start + Seq::<bool>::empty() =~= start);
        while i < bytes.len()
            invariant
                self.wf(),
                i <= bytes@.len(),
                self@ == start + bytes_bits(bytes@.take(i as int)),
                self.padded() == (if i == 0 { start_padded } else { start.len() % 8 == 0 }),
                start.len() + 8 * bytes@.len() + 16 <= usize::MAX,
            decreases bytes@.len() - i,
        {
            proof {
                lemma_bytes_bits_push(bytes@.take(i as int), bytes@[i as int]);
                assert(bytes@.take(i + 1) =~= bytes@.take(i as int).push(bytes@[i as int]));
            }
            self.push_byte(bytes[i]);
            i = i + 1;
        }
        assert(bytes@.take(i as int) =~= bytes@);
    }

    /// Appends the 32 bits of `input`, most significant first (big endian).
    pub fn push_u32(&mut self, input: u32)
        requires
            old(self).wf(),
            old(self)@.len() + 48 <= usize::MAX,
        ensures
            final(self).wf(),
            final(self)@ == old(self)@ + u32_bits(input),
            final(self)@ == old(self)@ + bytes_bits(u32_be_bytes(input)),
            final(self).padded() == (old(self)@.len() % 8 == 0),
    {
        let b1: u8 = ((input >> 24) & 0xff) as u8;
        let b2: u8 = ((input >> 16) & 0xff) as u8;
        let b3: u8 = ((input >> 8) & 0xff) as u8;
        let b4: u8 = (input & 0xff) as u8;
        let ghost start = self@;
        self.push_byte(b1);
        self.push_byte(b2);
        self.push_byte(b3);
        self.push_byte(b4);
        proof {
            lemma_u32_bytes_bits(input);
            law_u32_be_bytes(input);
            assert(self@ =~= start + u32_bits(input));
        }
    }

    /// The bits as text: '1' and '0', with a space before bits 0, 4, 8, ...
    pub fn get_bitstring(&self) -> (r: String)
        requires
            self.wf(),
        ensures
            r@ == render_bits(self@),
    {
        let mut result = String::new();
        let n = self.len();
        let mut i: usize = 0;
        while i < n
            invariant
                self.wf(),
                n == self@.len(),
                i <= n,
                result@ == render_bits(self@.take(i as int)),
            decreases n - i,
        {
            assert(self@.take(i + 1).drop_last() =~= self@.take(i as int));
            if let Some(b) = self.get_bit(i) {
                if i % 4 == 0 {
                    result.push(' ');
                }
                if b {
                    result.push('1');
                } else {
                    result.push('0');
                }
            }
            i = i + 1;
        }
        assert(self@.take(n as int) =~= self@);
        result
    }

    /// Appends one bit.
    pub fn push_bit(&mut self, bit: bool)
        requires
            old(self).wf(),
            old(self)@.len() + 8 <= usize::MAX,
        ensures
            final(self).wf(),
            final(self)@ == old(self)@.push(bit),
            !final(self).padded(),
    {
        proof {
            self.lemma_wf_facts();
        }
        if self.bit_pos >= 8 {
            proof {
                lemma_open_byte(self.bytes@);
            }
            self.bit_pos = 0;
            self.bytes.push(0);
        }
        let ghost before = self.bytes@;
        proof {
            lemma_set_last_bit(before, self.bit_pos, bit);
        }
        if bit {
            let last = self.bytes.len() - 1;
            let b = self.bytes[last];
            self.bytes.set(last, b | (0x80u8 >> self.bit_pos));
        }
        assert(self.bytes@ =~= before.update(before.len() - 1, if bit { before.last() | (0x80u8 >> self.bit_pos) } else { before.last() }));
        self.bit_pos = self.bit_pos + 1;
    }

    /// Appends the eight bits of `byte`, most significant first.
    pub fn push_byte(&mut self, byte: u8)
        requires
            old(self).wf(),
            old(self)@.len() + 16 <= usize::MAX,
        ensures
            final(self).wf(),
            final(self)@ == old(self)@ + byte_bits(byte),
            final(self).padded() == (old(self)@.len() % 8 == 0),
    {
        proof {
            self.lemma_wf_facts();
        }
        if self.bit_pos == 8 {
            proof {
                lemma_open_byte(self.bytes@);
            }
            self.bit_pos = 0;
            self.bytes.push(0);
        }
        let ghost before = self.bytes@;
        proof {
            lemma_append_byte(before, self.bit_pos, byte);
        }
        let last = self.bytes.len() - 1;
        let b = self.bytes[last];
        self.bytes.set(last, b | (byte >> self.bit_pos));
        if self.bit_pos == 0 {
            self.bytes.push(0);
        } else {
            self.bytes.push(byte << (8 - self.bit_pos));
        }
        assert(self.bytes@ =~= before.update(before.len() - 1, before.last() | (byte >> self.bit_pos)).push(
            if self.bit_pos == 0 { 0u8 } else { byte << ((8 - self.bit_pos) as u8) },
        ));
    }

    /// The packed bytes: bit `i` is bit `i % 8` (most significant first) of
    /// byte `i / 8`, unused bits are zero, and a padded builder ends in an
    /// extra zero byte.
    pub fn as_bytes(&self) -> (r: &[u8])
        requires
            self.wf(),
        ensures
            r@ == self.spec_bytes(),
    {
        proof {
            self.lemma_bytes_packed();
        }
        self.bytes.as_slice()
    }
}

} // verus!
