//! WebSocket frames: decoding a received frame and encoding a frame to send.
use vstd::prelude::*;
use vstd::utf8::encode_utf8;
use crate::bits::{bit_at, bytes_bits, pack8, pack_bits, packed_byte};
use vstd::arithmetic::power2::{lemma2_to64, lemma_pow2_strictly_increases, lemma_pow2_unfold, pow2};
use vstd::bits::{lemma_u32_pow2_no_overflow, lemma_u32_shl_is_mul};
use crate::bitbuilder::{byte_count, law_pack_bytes_bits, lemma_packed_byte_concat, BitBuilder};

verus! {

#[verifier::external_type_specification]
#[verifier::external_body]
pub struct ExIoError(std::io::Error);

/// The number written by `bits`, most significant bit first.
pub open spec fn bits_value(bits: Seq<bool>) -> nat
    decreases bits.len(),
{
    if bits.len() == 0 {
        0
    } else {
        2 * bits_value(bits.drop_last()) + if bits.last() { 1nat } else { 0nat }
    }
}

/// The low seven bits of `n`, most significant first.
pub open spec fn low7_bits(n: u32) -> Seq<bool> {
    Seq::new(7, |j: int| (n >> ((6 - j) as u32)) & 1u32 == 1u32)
}

/// Whether all of the bits of `mask` are set in `x`.
pub open spec fn has_bits(x: u32, mask: u32) -> bool {
    x & mask == mask
}

/// What a frame holds, as plain values.
pub struct MessageView {
    pub fin: bool,
    pub rsv1: bool,
    pub rsv2: bool,
    pub rsv3: bool,
    pub opcode: u32,
    pub mask: bool,
    pub payload_len: u32,
    pub mask_key: Seq<u8>,
    pub payload: Seq<char>,
}

/// The two header bytes that `to_bytes` writes: FIN, RSV1-3 and the low four
/// bits of the opcode; then MASK and the low seven bits of the payload length.
pub open spec fn frame_header(m: MessageView) -> Seq<u8> {
    let l = low7_bits(m.payload_len);
    seq![
        pack8(m.fin, m.rsv1, m.rsv2, m.rsv3, has_bits(m.opcode, 8), has_bits(m.opcode, 4), has_bits(m.opcode, 2), has_bits(m.opcode, 1)),
        pack8(m.mask, l[0], l[1], l[2], l[3], l[4], l[5], l[6]),
    ]
}

/// The bytes that `to_bytes` writes: the header, the UTF-8 bytes of the
/// payload, and a terminating zero byte after a non-empty payload.
pub open spec fn frame_bytes(m: MessageView) -> Seq<u8> {
    let p = encode_utf8(m.payload);
    frame_header(m) + p + if p.len() > 0 { seq![0u8] } else { Seq::<u8>::empty() }
}

/// The payload length field of a received frame: the low seven bits of its
/// second byte.
pub open spec fn received_len(s: Seq<u8>) -> nat {
    (s[1] & 0x7fu8) as nat
}

/// The message that `from_message` reads from the bytes `s`. The mask key is
/// bytes 2 to 5 (a missing byte 5 reads as zero) and is always applied.
pub open spec fn decoded_message(s: Seq<u8>) -> MessageView {
    let key = s.push(0u8).subrange(2, 6);
    MessageView {
        fin: s[0] & 0x80u8 == 0x80u8,
        rsv1: s[0] & 0x40u8 == 0x40u8,
        rsv2: s[0] & 0x20u8 == 0x20u8,
        rsv3: s[0] & 0x10u8 == 0x10u8,
        opcode: (s[0] & 0x0fu8) as u32,
        mask: s[1] & 0x80u8 == 0x80u8,
        payload_len: (s[1] & 0x7fu8) as u32,
        mask_key: key,
        payload: Seq::new(received_len(s), |i: int| (s[6 + i] ^ key[i % 4]) as char),
    }
}

/// The frames that `from_message` accepts: at least five bytes, a seven-bit
/// payload length below 126 (the extended lengths are not supported), and the
/// whole payload present after the six header bytes.
pub open spec fn decodable(s: Seq<u8>) -> bool {
    &&& s.len() >= 5
    &&& received_len(s) < 126
    &&& received_len(s) > 0 ==> 6 + received_len(s) <= s.len()
}

/// A WebSocket frame.
#[derive(Debug)]
pub struct SocketMessage {
    fin: bool,
    rsv1: bool,
    rsv2: bool,
    rsv3: bool,
    opcode: u32,
    mask: bool,
    payload_len: u32,
    mask_key: Vec<u8>,
    pub payload: String,
}

impl View for SocketMessage {
    type V = MessageView;

    closed spec fn view(&self) -> MessageView {
        MessageView {
            fin: self.fin,
            rsv1: self.rsv1,
            rsv2: self.rsv2,
            rsv3: self.rsv3,
            opcode: self.opcode,
            mask: self.mask,
            payload_len: self.payload_len,
            mask_key: self.mask_key@,
            payload: self.payload@,
        }
    }
}



/// The flags of the first byte and the four-bit opcode, read bit by bit.
proof fn lemma_first_byte(x: u8)
    ensures
        bit_at(x, 0) == (x & 0x80u8 == 0x80u8),
        bit_at(x, 1) == (x & 0x40u8 == 0x40u8),
        bit_at(x, 2) == (x & 0x20u8 == 0x20u8),
        bit_at(x, 3) == (x & 0x10u8 == 0x10u8),
        bits_value(seq![bit_at(x, 4), bit_at(x, 5), bit_at(x, 6), bit_at(x, 7)]) == (x & 0x0fu8) as nat,
        bits_value(seq![bit_at(x, 1), bit_at(x, 2), bit_at(x, 3), bit_at(x, 4), bit_at(x, 5), bit_at(x, 6), bit_at(x, 7)])
            == (x & 0x7fu8) as nat,
{
    assert(bit_at(x, 0) == (x & 0x80u8 == 0x80u8)) by (bit_vector);
    assert(bit_at(x, 1) == (x & 0x40u8 == 0x40u8)) by (bit_vector);
    assert(bit_at(x, 2) == (x & 0x20u8 == 0x20u8)) by (bit_vector);
    assert(bit_at(x, 3) == (x & 0x10u8 == 0x10u8)) by (bit_vector);
    assert((x & 0x0fu8) == (if bit_at(x, 4) { 8u8 } else { 0u8 }) + (if bit_at(x, 5) { 4u8 } else { 0u8 })
        + (if bit_at(x, 6) { 2u8 } else { 0u8 }) + (if bit_at(x, 7) { 1u8 } else { 0u8 })) by (bit_vector);
    assert((x & 0x7fu8) == (if bit_at(x, 1) { 64u8 } else { 0u8 }) + (if bit_at(x, 2) { 32u8 } else { 0u8 })
        + (if bit_at(x, 3) { 16u8 } else { 0u8 }) + (if bit_at(x, 4) { 8u8 } else { 0u8 })
        + (if bit_at(x, 5) { 4u8 } else { 0u8 }) + (if bit_at(x, 6) { 2u8 } else { 0u8 })
        + (if bit_at(x, 7) { 1u8 } else { 0u8 })) by (bit_vector);
    let s4 = seq![bit_at(x, 4), bit_at(x, 5), bit_at(x, 6), bit_at(x, 7)];
    reveal_with_fuel(bits_value, 8);
    assert(s4.drop_last() =~= seq![bit_at(x, 4), bit_at(x, 5), bit_at(x, 6)]);
    assert(s4.drop_last().drop_last() =~= seq![bit_at(x, 4), bit_at(x, 5)]);
    assert(s4.drop_last().drop_last().drop_last() =~= seq![bit_at(x, 4)]);
    assert(s4.drop_last().drop_last().drop_last().drop_last() =~= Seq::<bool>::empty());
    let s7 = seq![bit_at(x, 1), bit_at(x, 2), bit_at(x, 3), bit_at(x, 4), bit_at(x, 5), bit_at(x, 6), bit_at(x, 7)];
    assert(s7.take(6) =~= s7.drop_last());
    assert(s7.take(5) =~= s7.take(6).drop_last());
    assert(s7.take(4) =~= s7.take(5).drop_last());
    assert(s7.take(3) =~= s7.take(4).drop_last());
    assert(s7.take(2) =~= s7.take(3).drop_last());
    assert(s7.take(1) =~= s7.take(2).drop_last());
    assert(s7.take(0) =~= s7.take(1).drop_last());
}

/// A leading bit adds its place value.
proof fn lemma_bits_value_prepend(b: bool, t: Seq<bool>)
    ensures
        bits_value(seq![b] + t) == (if b { pow2(t.len()) } else { 0nat }) + bits_value(t),
    decreases t.len(),
{
    if t.len() == 0 {
        assert(seq![b] + t =~= seq![b]);
        assert(seq![b].drop_last() =~= Seq::<bool>::empty());
        lemma2_to64();
        assert(bits_value(seq![b]) == 2 * bits_value(Seq::<bool>::empty()) + if b { 1nat } else { 0nat });
    } else {
        lemma_bits_value_prepend(b, t.drop_last());
        let st = seq![b] + t;
        assert(st.drop_last() =~= seq![b] + t.drop_last());
        assert(st.last() == t.last());
        lemma_pow2_unfold(t.len());
        assert(bits_value(st) == 2 * bits_value(st.drop_last()) + if st.last() { 1nat } else { 0nat });
        assert(bits_value(t) == 2 * bits_value(t.drop_last()) + if t.last() { 1nat } else { 0nat });
    }
}

/// The value of `t` bits is below `2^t.len()`.
proof fn lemma_bits_value_bound(t: Seq<bool>)
    ensures
        bits_value(t) < pow2(t.len()),
    decreases t.len(),
{
    if t.len() == 0 {
        lemma2_to64();
    } else {
        lemma_bits_value_bound(t.drop_last());
        lemma_pow2_unfold(t.len());
    }
}

/// The number written by the bits, most significant first, when only the
/// last 32 bits can be set.
pub fn bit_vec_to_u32(bit_vec: &Vec<bool>) -> (r: u32)
    requires
        forall|j: int| 0 <= j < bit_vec@.len() - 32 ==> !bit_vec@[j],
    ensures
        r == bits_value(bit_vec@),
{
    let n = bit_vec.len();
    let mut res: u32 = 0;
    let mut i: usize = 0;
    assert(bit_vec@.subrange(n as int, n as int) =~= Seq::<bool>::empty());
    proof {
        lemma2_to64();
    }
    while i < n
        invariant
            n == bit_vec@.len(),
            i <= n,
            res == bits_value(bit_vec@.subrange(n - i, n as int)),
            i <= 32 ==> res < pow2(i as nat),
            res < pow2(32),
            forall|j: int| 0 <= j < bit_vec@.len() - 32 ==> !bit_vec@[j],
        decreases n - i,
    {
        let bit = bit_vec[n - 1 - i];
        let ghost tail = bit_vec@.subrange(n - i, n as int);
        proof {
            assert(bit_vec@.subrange(n - i - 1, n as int) =~= seq![bit] + tail);
            lemma_bits_value_prepend(bit, tail);
        }
        if bit {
            assert(i < 32);
            proof {
                lemma_pow2_strictly_increases(i as nat, 32);
                lemma_u32_pow2_no_overflow(i as nat);
                lemma_u32_shl_is_mul(1u32, i as u32);
                lemma_pow2_unfold((i + 1) as nat);
                lemma2_to64();
                assert(res + pow2(i as nat) < pow2((i + 1) as nat));
                if i + 1 < 32 {
                    lemma_pow2_strictly_increases((i + 1) as nat, 32);
                }
            }
            res = res + (1u32 << (i as u32));
        } else {
            proof {
                if i < 32 {
                    lemma_pow2_strictly_increases(i as nat, (i + 1) as nat);
                }
            }
        }
        i = i + 1;
    }
    assert(bit_vec@.subrange(0, n as int) =~= bit_vec@);
    res
}

/// Reading back the seven length bits gives the low seven bits of the length.
pub proof fn law_payload_len_bits_roundtrip(n: u32)
    ensures
        bits_value(low7_bits(n)) == (n & 0x7fu32) as nat,
{
    let l = low7_bits(n);
    reveal_with_fuel(bits_value, 8);
    assert(l.take(6) =~= l.drop_last());
    assert(l.take(5) =~= l.take(6).drop_last());
    assert(l.take(4) =~= l.take(5).drop_last());
    assert(l.take(3) =~= l.take(4).drop_last());
    assert(l.take(2) =~= l.take(3).drop_last());
    assert(l.take(1) =~= l.take(2).drop_last());
    assert(l.take(0) =~= l.take(1).drop_last());
    assert((n & 0x7fu32) == (if (n >> 6u32) & 1u32 == 1u32 { 64u32 } else { 0u32 })
        + (if (n >> 5u32) & 1u32 == 1u32 { 32u32 } else { 0u32 })
        + (if (n >> 4u32) & 1u32 == 1u32 { 16u32 } else { 0u32 })
        + (if (n >> 3u32) & 1u32 == 1u32 { 8u32 } else { 0u32 })
        + (if (n >> 2u32) & 1u32 == 1u32 { 4u32 } else { 0u32 })
        + (if (n >> 1u32) & 1u32 == 1u32 { 2u32 } else { 0u32 })
        + (if (n >> 0u32) & 1u32 == 1u32 { 1u32 } else { 0u32 })) by (bit_vector);
}

/// The low seven bits of `payload_len`, most significant first.
pub fn payload_len_to_bits(payload_len: u32) -> (r: Vec<bool>)
    ensures
        r@ == low7_bits(payload_len),
{
    let mut result: Vec<bool> = Vec::new();
    let mut j: u32 = 0;
    while j < 7
        invariant
            j <= 7,
            result@ == low7_bits(payload_len).take(j as int),
        decreases 7 - j,
    {
        let i = 6 - j;
        let p = 1u32 << i;
        let bit = payload_len & p == p;
        proof {
            assert(i < 7 ==> ((payload_len & (1u32 << i)) == (1u32 << i)) == ((payload_len >> i) & 1u32 == 1u32)) by (bit_vector);
        }
        result.push(bit);
        j = j + 1;
        assert(result@ =~= low7_bits(payload_len).take(j as int));
    }
    assert(low7_bits(payload_len).take(7) =~= low7_bits(payload_len));
    result
}


/// The payload length field that `new` and `set_payload` record: the UTF-8
/// byte length of the payload as a `u32` (truncated), plus one for the
/// terminating zero byte that `to_bytes` writes.
pub open spec fn byte_len_u32(p: Seq<char>) -> u32 {
    encode_utf8(p).len() as usize as u32
}

/// The message that `default` gives: a final text frame (opcode 1) with an
/// empty payload.
pub open spec fn default_message() -> MessageView {
    MessageView {
        fin: true,
        rsv1: false,
        rsv2: false,
        rsv3: false,
        opcode: 1,
        mask: false,
        payload_len: 0,
        mask_key: Seq::empty(),
        payload: Seq::empty(),
    }
}

/// The bytes packed from the header bits and the payload bits are the frame.
proof fn lemma_frame_packing(m: MessageView, hb: Seq<bool>, padded: bool)
    requires
        hb == seq![m.fin, m.rsv1, m.rsv2, m.rsv3, has_bits(m.opcode, 8), has_bits(m.opcode, 4), has_bits(m.opcode, 2),
            has_bits(m.opcode, 1), m.mask] + low7_bits(m.payload_len),
        padded == (encode_utf8(m.payload).len() > 0),
    ensures
        pack_bits(hb + bytes_bits(encode_utf8(m.payload)), byte_count(16 + 8 * encode_utf8(m.payload).len(), padded)) == frame_bytes(m),
{
    let p = encode_utf8(m.payload);
    let v = hb + bytes_bits(p);
    let n = byte_count(16 + 8 * p.len(), padded);
    let f = frame_bytes(m);
    let h = frame_header(m);
    law_pack_bytes_bits(p);
    assert((16 + 8 * p.len()) / 8 == p.len() + 2);
    assert((16 + 8 * p.len() + 7) / 8 == p.len() + 2);
    assert(n == f.len());
    assert(packed_byte(v, 0) == h[0]);
    assert(packed_byte(v, 1) == h[1]);
    assert forall|j: int| 0 <= j < n implies #[trigger] packed_byte(v, j) == f[j] by {
        if j >= 2 {
            lemma_packed_byte_concat(hb, bytes_bits(p), 2, j);
            assert(packed_byte(bytes_bits(p), j - 2) == pack_bits(bytes_bits(p), p.len() + 1)[j - 2]);
        }
    }
    assert(pack_bits(v, n) =~= f);
}

/// Decoding the two header bytes that `to_bytes` writes gives back the flags,
/// the low four bits of the opcode and the low seven bits of the payload
/// length.
pub proof fn law_frame_header_roundtrip(m: MessageView)
    ensures
        ({
            let d = decoded_message(frame_bytes(m));
            &&& d.fin == m.fin
            &&& d.rsv1 == m.rsv1
            &&& d.rsv2 == m.rsv2
            &&& d.rsv3 == m.rsv3
            &&& d.opcode == m.opcode & 0x0f
            &&& d.mask == m.mask
            &&& d.payload_len == m.payload_len & 0x7f
        }),
{
    let f = frame_bytes(m);
    let h = frame_header(m);
    assert(f[0] == h[0] && f[1] == h[1]);
    let fin = m.fin;
    let r1 = m.rsv1;
    let r2 = m.rsv2;
    let r3 = m.rsv3;
    let op = m.opcode;
    let mask = m.mask;
    let pl = m.payload_len;
    let b0 = pack8(fin, r1, r2, r3, has_bits(op, 8), has_bits(op, 4), has_bits(op, 2), has_bits(op, 1));
    let l = low7_bits(pl);
    let b1 = pack8(mask, l[0], l[1], l[2], l[3], l[4], l[5], l[6]);
    assert(b0 == pack8(fin, r1, r2, r3, has_bits(op, 8), has_bits(op, 4), has_bits(op, 2), has_bits(op, 1)) ==> (
        (b0 & 0x80u8 == 0x80u8) == fin && (b0 & 0x40u8 == 0x40u8) == r1 && (b0 & 0x20u8 == 0x20u8) == r2
        && (b0 & 0x10u8 == 0x10u8) == r3 && (b0 & 0x0fu8) as u32 == op & 0x0fu32)) by (bit_vector);
    assert(b1 == pack8(mask, (pl >> 6u32) & 1u32 == 1u32, (pl >> 5u32) & 1u32 == 1u32, (pl >> 4u32) & 1u32 == 1u32,
        (pl >> 3u32) & 1u32 == 1u32, (pl >> 2u32) & 1u32 == 1u32, (pl >> 1u32) & 1u32 == 1u32, (pl >> 0u32) & 1u32 == 1u32) ==> (
        (b1 & 0x80u8 == 0x80u8) == mask && (b1 & 0x7fu8) as u32 == pl & 0x7fu32)) by (bit_vector);
}

/// Replacing the payload as `set_payload` does changes only the length field
/// of the frame header: the first header byte stays, and the second keeps the
/// MASK bit and holds the low seven bits of the new length.
pub proof fn law_set_payload_frame_header(m: MessageView, p: Seq<char>)
    ensures
        ({
            let m2 = MessageView { payload_len: (byte_len_u32(p) + 1) as u32, payload: p, ..m };
            let d = decoded_message(frame_bytes(m2));
            &&& frame_header(m2)[0] == frame_header(m)[0]
            &&& d.mask == m.mask
            &&& d.payload_len == m2.payload_len & 0x7f
        }),
{
    let m2 = MessageView { payload_len: (byte_len_u32(p) + 1) as u32, payload: p, ..m };
    law_frame_header_roundtrip(m2);
}

/// Bytes after a complete frame (at least six bytes, the whole payload
/// present) are never read: decoding the frame with more bytes after it gives
/// the same message.
pub proof fn law_decode_ignores_trailing_bytes(s: Seq<u8>, extra: Seq<u8>)
    requires
        decodable(s),
        s.len() >= 6,
    ensures
        decodable(s + extra),
        decoded_message(s + extra) == decoded_message(s),
{
    let t = s + extra;
    assert(t[0] == s[0] && t[1] == s[1]);
    assert(t.push(0u8).subrange(2, 6) =~= s.push(0u8).subrange(2, 6));
    let key = s.push(0u8).subrange(2, 6);
    let n = received_len(s);
    assert forall|i: int| 0 <= i < n implies #[trigger] t[6 + i] == s[6 + i] by {}
    assert(Seq::new(received_len(t), |i: int| (t[6 + i] ^ key[i % 4]) as char)
        =~= Seq::new(received_len(s), |i: int| (s[6 + i] ^ key[i % 4]) as char));
}

/// The payload of a received frame: byte `6 + i` xor key byte `i % 4`, as the
/// character with that code, for `i < payload_len`.
fn unmask_payload(message: &[u8], mask_key: &Vec<u8>, payload_len: u32) -> (r: String)
    requires
        mask_key@.len() == 4,
        payload_len > 0 ==> 6 + payload_len <= message@.len(),
    ensures
        r@ == Seq::new(payload_len as nat, |i: int| (message@[6 + i] ^ mask_key@[i % 4]) as char),
{
    let ghost s = message@;
    let ghost key = mask_key@;
    let n = message.len();
    let mut payload = String::new();
    let base: usize = 6;
    let mut mask_i: usize = 0;
    let mut message_i: usize = 0;
    while message_i < payload_len as usize
        invariant
            s == message@,
            n == s.len(),
            key == mask_key@,
            key.len() == 4,
            base == 6,
            payload_len > 0 ==> 6 + payload_len <= s.len(),
            message_i <= payload_len,
            mask_i == message_i % 4,
            payload@ == Seq::new(message_i as nat, |i: int| (s[6 + i] ^ key[i % 4]) as char),
        decreases payload_len - message_i,
    {
        assert(base + message_i < s.len());
        let unmasked = message[base + message_i] ^ mask_key[mask_i];
        payload.push(unmasked as char);
        message_i = message_i + 1;
        mask_i = (mask_i + 1) % 4;
        assert(payload@ =~= Seq::new(message_i as nat, |i: int| (s[6 + i] ^ key[i % 4]) as char));
    }
    payload
}

impl SocketMessage {

    /// A final text frame carrying `payload`.
    pub fn new(payload: String) -> (r: Self)
        requires
            byte_len_u32(payload@) < u32::MAX,
        ensures
            r@ == (MessageView { payload_len: (byte_len_u32(payload@) + 1) as u32, payload: payload@, ..default_message() }),
    {
        let len = payload.as_str().len() as u32;
        let mut m = Self::default();
        m.payload_len = len + 1;
        m.payload = payload;
        m
    }

    /// Replaces the payload, recording its length as `new` does.
    pub fn set_payload(&mut self, payload: String)
        requires
            byte_len_u32(payload@) < u32::MAX,
        ensures
            final(self)@ == (MessageView { payload_len: (byte_len_u32(payload@) + 1) as u32, payload: payload@, ..old(self)@ }),
    {
        self.payload_len = payload.as_str().len() as u32 + 1;
        self.payload = payload;
    }


    /// A builder holding the sixteen header bits of the frame.
    fn header_builder(&self) -> (r: BitBuilder)
        ensures
            r.wf(),
            !r.padded(),
            r@ == seq![self@.fin, self@.rsv1, self@.rsv2, self@.rsv3, has_bits(self@.opcode, 8), has_bits(self@.opcode, 4),
                has_bits(self@.opcode, 2), has_bits(self@.opcode, 1), self@.mask] + low7_bits(self@.payload_len),
    {
        let mut bitbuilder = BitBuilder::new();
        bitbuilder.push_bit(self.fin);
        bitbuilder.push_bit(self.rsv1);
        bitbuilder.push_bit(self.rsv2);
        bitbuilder.push_bit(self.rsv3);
        assert(bitbuilder@ == seq![self.fin, self.rsv1, self.rsv2, self.rsv3]);

        bitbuilder.push_bit(self.opcode & 8 == 8);
        bitbuilder.push_bit(self.opcode & 4 == 4);
        bitbuilder.push_bit(self.opcode & 2 == 2);
        bitbuilder.push_bit(self.opcode & 1 == 1);
        assert(bitbuilder@.len() == 8);

        bitbuilder.push_bit(self.mask);
        assert(bitbuilder@ == seq![self@.fin, self@.rsv1, self@.rsv2, self@.rsv3, has_bits(self@.opcode, 8), has_bits(self@.opcode, 4),
                has_bits(self@.opcode, 2), has_bits(self@.opcode, 1), self@.mask]);

        bitbuilder.append_bits(&payload_len_to_bits(self.payload_len));
        bitbuilder
    }

    /// The frame as bytes: the two header bytes, the UTF-8 bytes of the
    /// payload, and a zero byte after a non-empty payload. No mask key is
    /// written, whatever the MASK bit says.
    pub fn to_bytes(&self) -> (r: Vec<u8>)
        requires
            8 * encode_utf8(self@.payload).len() + 48 <= usize::MAX,
        ensures
            r@ == frame_bytes(self@),
    {
        let mut bitbuilder = self.header_builder();
        let ghost header_bits = bitbuilder@;
        let payload_bytes = self.payload.as_str().as_bytes();
        bitbuilder.append_bytes(payload_bytes);
        proof {
            lemma_frame_packing(self@, header_bits, encode_utf8(self@.payload).len() > 0);
        }
        vstd::slice::slice_to_vec(bitbuilder.as_bytes())
    }


    /// The FIN flag.
    pub fn fin(&self) -> (r: bool)
        ensures
            r == self@.fin,
    {
        self.fin
    }

    /// The three reserved flags.
    pub fn rsv(&self) -> (r: (bool, bool, bool))
        ensures
            r == (self@.rsv1, self@.rsv2, self@.rsv3),
    {
        (self.rsv1, self.rsv2, self.rsv3)
    }

    /// The opcode.
    pub fn opcode(&self) -> (r: u32)
        ensures
            r == self@.opcode,
    {
        self.opcode
    }

    /// The MASK flag.
    pub fn mask(&self) -> (r: bool)
        ensures
            r == self@.mask,
    {
        self.mask
    }

    /// The payload length field.
    pub fn payload_len(&self) -> (r: u32)
        ensures
            r == self@.payload_len,
    {
        self.payload_len
    }

    /// The mask key of a received frame (empty for a frame made here).
    pub fn mask_key(&self) -> (r: &[u8])
        ensures
            r@ == self@.mask_key,
    {
        self.mask_key.as_slice()
    }

    /// Whether this frame asks to close the connection (opcode 8).
    pub fn is_close(&self) -> (r: bool)
        ensures
            r == (self@.opcode == 8),
    {
        self.opcode == 8
    }

    /// Whether `from_message` accepts the bytes (see `decodable`).
    pub fn is_decodable(message: &[u8]) -> (r: bool)
        ensures
            r == decodable(message@),
    {
        if message.len() < 5 {
            return false;
        }
        let len = (message[1] & 0x7f) as usize;
        if len >= 126 {
            return false;
        }
        len == 0 || 6 + len <= message.len()
    }

    /// Decodes a received frame. The payload bytes are unmasked with the mask
    /// key, whatever the MASK bit says, and each byte becomes the character
    /// with that code.
    pub fn from_message(message: &[u8]) -> (r: std::io::Result<Self>)
        requires
            decodable(message@),
            8 * message@.len() + 16 <= usize::MAX,
        ensures
            r matches Ok(m) && m@ == decoded_message(message@),
    {
        let ghost s = message@;
        let mut bitbuilder = BitBuilder::new();
        bitbuilder.append_bytes(message);
        proof {
            assert(Seq::<bool>::empty() + bytes_bits(s) =~= bytes_bits(s));
            lemma_first_byte(s[0]);
            lemma_first_byte(s[1]);
            assert(bitbuilder@.subrange(4, 8) =~= seq![bit_at(s[0], 4), bit_at(s[0], 5), bit_at(s[0], 6), bit_at(s[0], 7)]);
            assert(bitbuilder@.subrange(9, 16) =~= seq![bit_at(s[1], 1), bit_at(s[1], 2), bit_at(s[1], 3), bit_at(s[1], 4), bit_at(s[1], 5), bit_at(s[1], 6), bit_at(s[1], 7)]);
            law_pack_bytes_bits(s);
            assert(8 * s.len() / 8 == s.len());
            assert(byte_count(8 * s.len(), true) == s.len() + 1);
        }
        let fin = bitbuilder.get_bit(0).unwrap();
        let rsv1 = bitbuilder.get_bit(1).unwrap();
        let rsv2 = bitbuilder.get_bit(2).unwrap();
        let rsv3 = bitbuilder.get_bit(3).unwrap();
        let opcode = bit_vec_to_u32(&bitbuilder.get_bits(4..8).unwrap());
        let mask = bitbuilder.get_bit(8).unwrap();
        let payload_len = bit_vec_to_u32(&bitbuilder.get_bits(9..16).unwrap());
        let mask_key = bitbuilder.get_bytes(2..6).unwrap();
        let ghost key = s.push(0u8).subrange(2, 6);
        assert(mask_key@ == key);

        let payload = unmask_payload(message, &mask_key, payload_len);
        let m = Self { fin, rsv1, rsv2, rsv3, opcode, mask, payload_len, mask_key, payload };
        assert(m@ =~= decoded_message(s));
        Ok(m)
    }
}

impl Default for SocketMessage {
    fn default() -> (r: Self)
        ensures
            r@ == default_message(),
    {
        let r = Self {
            fin: true,
            rsv1: false,
            rsv2: false,
            rsv3: false,
            opcode: 1,
            mask: false,
            payload_len: 0,
            mask_key: Vec::new(),
            payload: String::new(),
        };
        assert(r@ =~= default_message());
        r
    }
}

} // verus!
