//! Wire protocol for tunnel packets.
//!
//! Frame layout (all fields little-endian):
//! ```text
//! [1 byte]  packet_type
//! [8 bytes] sequence number (u64)
//! [2 bytes] payload length
//! [N bytes] payload (encrypted)
//! [16 bytes] auth tag (Poly1305)
//! ```
use vstd::prelude::*;

verus! {

/// Data shard (FEC original data).
pub const PACKET_DATA: u8 = 0x01;
/// Parity shard (FEC recovery data).
pub const PACKET_PARITY: u8 = 0x02;
/// Probe ping.
pub const PACKET_PING: u8 = 0x03;
/// Probe pong.
pub const PACKET_PONG: u8 = 0x04;
/// Control (mesh routing updates).
pub const PACKET_CONTROL: u8 = 0x05;

/// type(1) + seq(8) + len(2)
pub const HEADER_SIZE: usize = 11;
pub const AUTH_TAG_SIZE: usize = 16;
/// Safe for MTU 1500.
pub const MAX_PAYLOAD: usize = 1400;
pub const MAX_PACKET: usize = HEADER_SIZE + MAX_PAYLOAD + AUTH_TAG_SIZE;

/// The eight little-endian bytes of `x`, least significant first.
pub open spec fn le_bytes_u64(x: u64) -> Seq<u8> {
    seq![
        (x & 0xff) as u8,
        ((x >> 8) & 0xff) as u8,
        ((x >> 16) & 0xff) as u8,
        ((x >> 24) & 0xff) as u8,
        ((x >> 32) & 0xff) as u8,
        ((x >> 40) & 0xff) as u8,
        ((x >> 48) & 0xff) as u8,
        ((x >> 56) & 0xff) as u8,
    ]
}

/// The two little-endian bytes of `x`, least significant first.
pub open spec fn le_bytes_u16(x: u16) -> Seq<u8> {
    seq![(x & 0xff) as u8, ((x >> 8) & 0xff) as u8]
}

/// The `u64` whose little-endian bytes are `b[0..8]`.
pub open spec fn u64_from_le(b: Seq<u8>) -> u64 {
    (b[0] as u64) | ((b[1] as u64) << 8) | ((b[2] as u64) << 16) | ((b[3] as u64) << 24)
        | ((b[4] as u64) << 32) | ((b[5] as u64) << 40) | ((b[6] as u64) << 48) | ((b[7] as u64)
        << 56)
}

/// The `u16` whose little-endian bytes are `b[0..2]`.
pub open spec fn u16_from_le(b: Seq<u8>) -> u16 {
    (b[0] as u16) | ((b[1] as u16) << 8)
}

/// The 11 header bytes that encode a frame header.
pub open spec fn header_bytes(packet_type: u8, seq: u64, payload_len: u16) -> Seq<u8> {
    seq![packet_type] + le_bytes_u64(seq) + le_bytes_u16(payload_len)
}

/// The header fields that the first 11 bytes of `b` hold.
pub open spec fn header_fields(b: Seq<u8>) -> (u8, u64, u16) {
    (b[0], u64_from_le(b.subrange(1, 9)), u16_from_le(b.subrange(9, 11)))
}

proof fn lemma_u64_le_roundtrip(x: u64)
    ensures
        u64_from_le(le_bytes_u64(x)) == x,
{
    let b = le_bytes_u64(x);
    assert(b[0] == (x & 0xff) as u8);
    assert(b[7] == ((x >> 56) & 0xff) as u8);
    assert(x == (((x & 0xff) as u8) as u64) | (((((x >> 8) & 0xff) as u8) as u64) << 8) | (((((x
        >> 16) & 0xff) as u8) as u64) << 16) | (((((x >> 24) & 0xff) as u8) as u64) << 24) | (((((x
        >> 32) & 0xff) as u8) as u64) << 32) | (((((x >> 40) & 0xff) as u8) as u64) << 40) | (((((x
        >> 48) & 0xff) as u8) as u64) << 48) | (((((x >> 56) & 0xff) as u8) as u64) << 56))
        by (bit_vector);
}

proof fn lemma_u16_le_roundtrip(x: u16)
    ensures
        u16_from_le(le_bytes_u16(x)) == x,
{
    assert(x == (((x & 0xff) as u8) as u16) | (((((x >> 8) & 0xff) as u8) as u16) << 8))
        by (bit_vector);
}

proof fn lemma_u64_bytes_roundtrip(b: Seq<u8>)
    requires
        b.len() == 8,
    ensures
        le_bytes_u64(u64_from_le(b)) == b,
{
    let (b0, b1, b2, b3, b4, b5, b6, b7) = (b[0], b[1], b[2], b[3], b[4], b[5], b[6], b[7]);
    let x = u64_from_le(b);
    assert(x == (b0 as u64) | ((b1 as u64) << 8) | ((b2 as u64) << 16) | ((b3 as u64) << 24) | ((
    b4 as u64) << 32) | ((b5 as u64) << 40) | ((b6 as u64) << 48) | ((b7 as u64) << 56));
    assert(x == (b0 as u64) | ((b1 as u64) << 8) | ((b2 as u64) << 16) | ((b3 as u64) << 24) | ((
    b4 as u64) << 32) | ((b5 as u64) << 40) | ((b6 as u64) << 48) | ((b7 as u64) << 56) ==> {
        &&& b0 == (x & 0xff) as u8
        &&& b1 == ((x >> 8) & 0xff) as u8
        &&& b2 == ((x >> 16) & 0xff) as u8
        &&& b3 == ((x >> 24) & 0xff) as u8
        &&& b4 == ((x >> 32) & 0xff) as u8
        &&& b5 == ((x >> 40) & 0xff) as u8
        &&& b6 == ((x >> 48) & 0xff) as u8
        &&& b7 == ((x >> 56) & 0xff) as u8
    }) by (bit_vector);
    assert(le_bytes_u64(x) =~= b);
}

proof fn lemma_u16_bytes_roundtrip(b: Seq<u8>)
    requires
        b.len() == 2,
    ensures
        le_bytes_u16(u16_from_le(b)) == b,
{
    let (b0, b1) = (b[0], b[1]);
    let x = u16_from_le(b);
    assert(x == (b0 as u16) | ((b1 as u16) << 8) ==> b0 == (x & 0xff) as u8 && b1 == ((x >> 8)
        & 0xff) as u8) by (bit_vector);
    assert(le_bytes_u16(x) =~= b);
}

/// Encode a frame header into the first 11 bytes of `buf`; the rest of `buf`
/// is left as it was. Returns the number of bytes written (always 11).
pub fn encode_header(buf: &mut [u8], packet_type: u8, seq: u64, payload_len: u16) -> (written: usize)
    requires
        old(buf)@.len() >= HEADER_SIZE,
    ensures
        written == HEADER_SIZE,
        final(buf)@.len() == old(buf)@.len(),
        final(buf)@.subrange(0, 11) == header_bytes(packet_type, seq, payload_len),
        final(buf)@.subrange(11, final(buf)@.len() as int) == old(buf)@.subrange(
            11,
            old(buf)@.len() as int,
        ),
{
    buf[0] = packet_type;
    buf[1] = (seq & 0xff) as u8;
    buf[2] = ((seq >> 8) & 0xff) as u8;
    buf[3] = ((seq >> 16) & 0xff) as u8;
    buf[4] = ((seq >> 24) & 0xff) as u8;
    buf[5] = ((seq >> 32) & 0xff) as u8;
    buf[6] = ((seq >> 40) & 0xff) as u8;
    buf[7] = ((seq >> 48) & 0xff) as u8;
    buf[8] = ((seq >> 56) & 0xff) as u8;
    buf[9] = (payload_len & 0xff) as u8;
    buf[10] = ((payload_len >> 8) & 0xff) as u8;
    assert(buf@.subrange(0, 11) =~= header_bytes(packet_type, seq, payload_len));
    assert(buf@.subrange(11, buf@.len() as int) =~= old(buf)@.subrange(11, old(buf)@.len() as int));
    HEADER_SIZE
}

/// Decode a frame header from the first 11 bytes of `buf`.
pub fn decode_header(buf: &[u8]) -> (r: (u8, u64, u16))
    requires
        buf@.len() >= HEADER_SIZE,
    ensures
        r == header_fields(buf@),
{
    let seq: u64 = (buf[1] as u64) | ((buf[2] as u64) << 8) | ((buf[3] as u64) << 16) | ((
    buf[4] as u64) << 24) | ((buf[5] as u64) << 32) | ((buf[6] as u64) << 40) | ((buf[7] as u64)
        << 48) | ((buf[8] as u64) << 56);
    let payload_len: u16 = (buf[9] as u16) | ((buf[10] as u16) << 8);
    (buf[0], seq, payload_len)
}

/// Decoding what was encoded gives back the header fields.
pub proof fn lemma_decode_encode(packet_type: u8, seq: u64, payload_len: u16)
    ensures
        header_fields(header_bytes(packet_type, seq, payload_len)) == (packet_type, seq, payload_len),
{
    let h = header_bytes(packet_type, seq, payload_len);
    assert(h.subrange(1, 9) =~= le_bytes_u64(seq));
    assert(h.subrange(9, 11) =~= le_bytes_u16(payload_len));
    lemma_u64_le_roundtrip(seq);
    lemma_u16_le_roundtrip(payload_len);
}

/// Encoding the fields that a header decodes to gives back its 11 bytes.
pub proof fn lemma_encode_decode(b: Seq<u8>)
    requires
        b.len() >= HEADER_SIZE,
    ensures
        ({
            let (t, s, l) = header_fields(b);
            header_bytes(t, s, l) == b.subrange(0, 11)
        }),
{
    lemma_u64_bytes_roundtrip(b.subrange(1, 9));
    lemma_u16_bytes_roundtrip(b.subrange(9, 11));
    let (t, s, l) = header_fields(b);
    assert(header_bytes(t, s, l) =~= b.subrange(0, 11));
}

} // verus!
