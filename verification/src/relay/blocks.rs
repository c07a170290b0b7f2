//! Carrying FEC blocks over tunnel frames.
//!
//! A block of data is split into `data_shards` equal shards (zero-padded);
//! each shard travels in its own frame, prefixed with the block index (4
//! bytes, big-endian) and the shard index (2 bytes, big-endian). A frame is
//! the wire header followed by the encrypted payload. The receiver counts
//! every sequence number it skipped as a lost packet.
use super::fec::{lemma_lost_in_all_received, lemma_lost_in_update, lost_in, LossTracker};
use super::wire::{decode_header, encode_header, header_bytes, header_fields, lemma_decode_encode, HEADER_SIZE};
use vstd::prelude::*;

verus! {

/// Bytes of a shard: `ceil(len / data_shards)`.
pub open spec fn shard_len_for(len: nat, data_shards: nat) -> nat {
    if len % data_shards == 0 {
        len / data_shards
    } else {
        len / data_shards + 1
    }
}

/// `data` followed by zero bytes up to `total` bytes.
pub open spec fn zero_padded(data: Seq<u8>, total: nat) -> Seq<u8> {
    Seq::new(total, |i: int| if i < data.len() { data[i] } else { 0u8 })
}

/// Split a block into `data_shards` shards of `ceil(len / data_shards)` bytes
/// each; the shards, laid end to end, are the data followed by zero bytes.
pub fn split_block(data: &[u8], data_shards: usize) -> (r: Vec<Vec<u8>>)
    requires
        data@.len() > 0,
        data_shards > 0,
        data@.len() + data_shards <= usize::MAX,
    ensures
        r@.len() == data_shards,
        forall|i: int| 0 <= i < r@.len() ==> (#[trigger] r@[i])@.len() == shard_len_for(
            data@.len(),
            data_shards as nat,
        ),
        r.deep_view().flatten() == zero_padded(
            data@,
            (data_shards * shard_len_for(data@.len(), data_shards as nat)) as nat,
        ),
        forall|i: int|
            0 <= i < r@.len() ==> data_shards * (#[trigger] r@[i])@.len() >= data@.len()
                && data_shards * (r@[i]@.len() - 1) < data@.len(),
{
    let len = data.len();
    let d = data_shards;
    let ss: usize = if len % d == 0 {
        len / d
    } else {
        len / d + 1
    };
    let ghost total: nat = (d * ss) as nat;
    proof {
        assert(d * (len / d) + len % d == len) by (nonlinear_arith)
            requires
                d > 0,
        ;
        assert(d * ss <= len + d - 1) by (nonlinear_arith)
            requires
                d > 0,
                d * (len / d) + len % d == len,
                len % d < d,
                ss as int == (if len % d == 0 {
                    (len / d) as int
                } else {
                    (len / d) as int + 1
                }),
        ;
        assert(d * ss >= len) by (nonlinear_arith)
            requires
                d > 0,
                d * (len / d) + len % d == len,
                len % d < d,
                ss as int == (if len % d == 0 {
                    (len / d) as int
                } else {
                    (len / d) as int + 1
                }),
        ;
    }
    let ghost target = zero_padded(data@, total);
    let mut r: Vec<Vec<u8>> = Vec::new();
    let mut pos: usize = 0;
    let mut i: usize = 0;
    assert(target.take(0) =~= r.deep_view().flatten());
    while i < d
        invariant
            len == data@.len(),
            ss == shard_len_for(len as nat, d as nat),
            total == d * ss,
            total <= usize::MAX,
            i <= d,
            pos == i * ss,
            pos <= total,
            target == zero_padded(data@, total),
            r@.len() == i,
            forall|j: int| 0 <= j < r@.len() ==> (#[trigger] r@[j])@.len() == ss,
            r.deep_view().flatten() == target.take(pos as int),
        decreases d - i,
    {
        proof {
            assert((i + 1) * ss == i * ss + ss) by (nonlinear_arith);
            assert((i + 1) * ss <= d * ss) by (nonlinear_arith)
                requires
                    i + 1 <= d,
            ;
        }
        let mut shard: Vec<u8> = Vec::new();
        let pos0 = pos;
        let mut k: usize = 0;
        while k < ss
            invariant
                len == data@.len(),
                pos0 + ss <= total,
                total <= usize::MAX,
                k <= ss,
                pos == pos0 + k,
                target == zero_padded(data@, total),
                shard@ == target.subrange(pos0 as int, pos as int),
            decreases ss - k,
        {
            let b: u8 = if pos < len {
                data[pos]
            } else {
                0u8
            };
            shard.push(b);
            pos = pos + 1;
            k = k + 1;
            assert(shard@ =~= target.subrange(pos0 as int, pos as int));
        }
        let ghost before = r.deep_view();
        r.push(shard);
        proof {
            assert(shard.deep_view() =~= shard@);
            assert(r.deep_view() =~= before.push(shard@));
            before.lemma_flatten_push(shard@);
            assert(target.take(pos as int) =~= target.take(pos0 as int) + target.subrange(
                pos0 as int,
                pos as int,
            ));
        }
        i = i + 1;
    }
    assert(target.take(pos as int) =~= target);
    proof {
        lemma_shard_len_is_least(len as nat, d as nat);
    }
    r
}

/// The shard length is the least that holds the data: `data_shards` shards
/// of it hold `len` bytes, and one byte less per shard would not.
pub proof fn lemma_shard_len_is_least(len: nat, data_shards: nat)
    requires
        data_shards > 0,
    ensures
        data_shards * shard_len_for(len, data_shards) >= len,
        data_shards * (shard_len_for(len, data_shards) - 1) < len || len == 0,
        len > 0 ==> shard_len_for(len, data_shards) >= 1,
{
    let c = shard_len_for(len, data_shards);
    let d = data_shards;
    assert(d * c >= len && (d * (c - 1) < len || len == 0) && (len > 0 ==> c >= 1)) by (nonlinear_arith)
        requires
            d > 0,
            c == (if len % d == 0 {
                len / d
            } else {
                len / d + 1
            }),
    ;
}

/// Big-endian bytes of a block index.
pub open spec fn be_bytes_u32(x: u32) -> Seq<u8> {
    seq![((x >> 24) & 0xff) as u8, ((x >> 16) & 0xff) as u8, ((x >> 8) & 0xff) as u8, (x & 0xff) as u8]
}

/// Big-endian bytes of a shard index.
pub open spec fn be_bytes_u16(x: u16) -> Seq<u8> {
    seq![((x >> 8) & 0xff) as u8, (x & 0xff) as u8]
}

/// The block index in the first four bytes of `b`.
pub open spec fn u32_from_be(b: Seq<u8>) -> u32 {
    ((b[0] as u32) << 24) | ((b[1] as u32) << 16) | ((b[2] as u32) << 8) | (b[3] as u32)
}

/// The shard index in bytes 4 and 5 of `b`.
pub open spec fn u16_from_be(b: Seq<u8>) -> u16 {
    ((b[4] as u16) << 8) | (b[5] as u16)
}

/// The payload that carries shard `shard_idx` of block `block_idx`.
pub open spec fn shard_payload_bytes(block_idx: u32, shard_idx: u16, shard: Seq<u8>) -> Seq<u8> {
    be_bytes_u32(block_idx) + be_bytes_u16(shard_idx) + shard
}

/// What a decrypted payload carries: block index, shard index and shard,
/// or `None` when it is shorter than the 6-byte prefix.
pub open spec fn shard_payload_fields(p: Seq<u8>) -> Option<(u32, u16, Seq<u8>)> {
    if p.len() < 6 {
        None
    } else {
        Some((u32_from_be(p), u16_from_be(p), p.skip(6)))
    }
}

/// Prefix a shard with its block and shard indices.
pub fn shard_payload(block_idx: u32, shard_idx: u16, shard: &[u8]) -> (r: Vec<u8>)
    ensures
        r@ == shard_payload_bytes(block_idx, shard_idx, shard@),
{
    let mut r: Vec<u8> = Vec::new();
    r.push(((block_idx >> 24) & 0xff) as u8);
    r.push(((block_idx >> 16) & 0xff) as u8);
    r.push(((block_idx >> 8) & 0xff) as u8);
    r.push((block_idx & 0xff) as u8);
    r.push(((shard_idx >> 8) & 0xff) as u8);
    r.push((shard_idx & 0xff) as u8);
    let n = shard.len();
    for i in 0..n
        invariant
            n == shard@.len(),
            r@ == be_bytes_u32(block_idx) + be_bytes_u16(shard_idx) + shard@.take(i as int),
    {
        r.push(shard[i]);
        assert(shard@.take(i + 1) =~= shard@.take(i as int).push(shard@[i as int]));
        assert(r@ =~= be_bytes_u32(block_idx) + be_bytes_u16(shard_idx) + shard@.take(i + 1));
    }
    assert(shard@.take(n as int) =~= shard@);
    r
}

/// Read the block index, shard index and shard from a decrypted payload.
pub fn parse_shard_payload(p: &[u8]) -> (r: Option<(u32, u16, Vec<u8>)>)
    ensures
        match r {
            None => shard_payload_fields(p@) is None,
            Some((b, s, shard)) => shard_payload_fields(p@) == Some((b, s, shard@)),
        },
{
    if p.len() < 6 {
        return None;
    }
    let block_idx: u32 = ((p[0] as u32) << 24) | ((p[1] as u32) << 16) | ((p[2] as u32) << 8) | (
    p[3] as u32);
    let shard_idx: u16 = ((p[4] as u16) << 8) | (p[5] as u16);
    let mut shard: Vec<u8> = Vec::new();
    let n = p.len();
    let mut i: usize = 6;
    while i < n
        invariant
            n == p@.len(),
            6 <= i <= n,
            shard@ == p@.subrange(6, i as int),
        decreases n - i,
    {
        shard.push(p[i]);
        i = i + 1;
        assert(shard@ =~= p@.subrange(6, i as int));
    }
    assert(shard@ =~= p@.skip(6));
    Some((block_idx, shard_idx, shard))
}

/// Reading a shard payload gives back the indices and the shard it was built from.
pub proof fn lemma_shard_payload_roundtrip(block_idx: u32, shard_idx: u16, shard: Seq<u8>)
    ensures
        shard_payload_fields(shard_payload_bytes(block_idx, shard_idx, shard)) == Some(
            (block_idx, shard_idx, shard),
        ),
{
    let p = shard_payload_bytes(block_idx, shard_idx, shard);
    assert(p.skip(6) =~= shard);
    assert(p[0] == ((block_idx >> 24) & 0xff) as u8);
    assert(p[3] == (block_idx & 0xff) as u8);
    assert(p[4] == ((shard_idx >> 8) & 0xff) as u8);
    assert(p[5] == (shard_idx & 0xff) as u8);
    assert(block_idx == (((((block_idx >> 24) & 0xff) as u8) as u32) << 24) | (((((block_idx >> 16)
        & 0xff) as u8) as u32) << 16) | (((((block_idx >> 8) & 0xff) as u8) as u32) << 8) | (((
    block_idx & 0xff) as u8) as u32)) by (bit_vector);
    assert(shard_idx == (((((shard_idx >> 8) & 0xff) as u8) as u16) << 8) | (((shard_idx & 0xff)
        as u8) as u16)) by (bit_vector);
}

/// The frame that carries `ciphertext` with header type `packet_type` and
/// sequence number `seq`; the header's length field holds the ciphertext
/// length truncated to 16 bits.
pub open spec fn frame_bytes(packet_type: u8, seq: u64, ciphertext: Seq<u8>) -> Seq<u8> {
    header_bytes(packet_type, seq, (ciphertext.len() % 0x10000) as u16) + ciphertext
}

/// What a received datagram carries: packet type, sequence number and the
/// ciphertext that the header's length field delimits; `None` when the
/// datagram is shorter than the header or than the length it announces.
pub open spec fn frame_fields(d: Seq<u8>) -> Option<(u8, u64, Seq<u8>)> {
    if d.len() < HEADER_SIZE {
        None
    } else {
        let (t, s, l) = header_fields(d);
        if HEADER_SIZE + l > d.len() {
            None
        } else {
            Some((t, s, d.subrange(HEADER_SIZE as int, HEADER_SIZE + l)))
        }
    }
}

/// Build the frame for `ciphertext`.
pub fn build_frame(packet_type: u8, seq: u64, ciphertext: &[u8]) -> (r: Vec<u8>)
    requires
        ciphertext@.len() + HEADER_SIZE <= usize::MAX,
    ensures
        r@ == frame_bytes(packet_type, seq, ciphertext@),
{
    let n = ciphertext.len();
    let mut frame: Vec<u8> = Vec::new();
    let mut i: usize = 0;
    while i < HEADER_SIZE
        invariant
            i <= HEADER_SIZE,
            frame@.len() == i,
        decreases HEADER_SIZE - i,
    {
        frame.push(0u8);
        i = i + 1;
    }
    let ct_len: u16 = (n % 0x10000) as u16;
    encode_header(frame.as_mut_slice(), packet_type, seq, ct_len);
    let ghost head = frame@;
    assert(head =~= header_bytes(packet_type, seq, ct_len)) by {
        assert(head.subrange(0, 11) =~= head);
    }
    for j in 0..n
        invariant
            n == ciphertext@.len(),
            frame@ == head + ciphertext@.take(j as int),
    {
        frame.push(ciphertext[j]);
        assert(ciphertext@.take(j + 1) =~= ciphertext@.take(j as int).push(ciphertext@[j as int]));
        assert(frame@ =~= head + ciphertext@.take(j + 1));
    }
    assert(ciphertext@.take(n as int) =~= ciphertext@);
    frame
}

/// Read the packet type, sequence number and ciphertext from a datagram.
pub fn parse_frame(datagram: &[u8]) -> (r: Option<(u8, u64, Vec<u8>)>)
    ensures
        match r {
            None => frame_fields(datagram@) is None,
            Some((t, s, c)) => frame_fields(datagram@) == Some((t, s, c@)),
        },
{
    if datagram.len() < HEADER_SIZE {
        return None;
    }
    let (packet_type, seq, payload_len) = decode_header(datagram);
    let end = HEADER_SIZE + payload_len as usize;
    if end > datagram.len() {
        return None;
    }
    let mut c: Vec<u8> = Vec::new();
    let mut i: usize = HEADER_SIZE;
    while i < end
        invariant
            end <= datagram@.len(),
            HEADER_SIZE <= i <= end,
            c@ == datagram@.subrange(HEADER_SIZE as int, i as int),
        decreases end - i,
    {
        c.push(datagram[i]);
        i = i + 1;
        assert(c@ =~= datagram@.subrange(HEADER_SIZE as int, i as int));
    }
    Some((packet_type, seq, c))
}

/// A frame built for a ciphertext of at most 65535 bytes reads back as the
/// packet type, sequence number and ciphertext it was built from.
pub proof fn lemma_frame_roundtrip(packet_type: u8, seq: u64, ciphertext: Seq<u8>)
    requires
        ciphertext.len() <= 0xffff,
    ensures
        frame_fields(frame_bytes(packet_type, seq, ciphertext)) == Some((packet_type, seq, ciphertext)),
{
    let f = frame_bytes(packet_type, seq, ciphertext);
    let l = (ciphertext.len() % 0x10000) as u16;
    lemma_decode_encode(packet_type, seq, l);
    let h = header_bytes(packet_type, seq, l);
    assert(f.subrange(0, 11) =~= h);
    assert(header_fields(f) == header_fields(h)) by {
        assert(f.subrange(1, 9) =~= h.subrange(1, 9));
        assert(f.subrange(9, 11) =~= h.subrange(9, 11));
    }
    assert(f.subrange(11, 11 + l) =~= ciphertext);
}

/// The window after recording the arrivals `bits` in order, starting at `pos`.
pub open spec fn recorded(w: Seq<bool>, pos: nat, bits: Seq<bool>) -> Seq<bool>
    decreases bits.len(),
{
    if bits.len() == 0 || w.len() == 0 {
        w
    } else {
        recorded(w.update(pos as int, bits[0]), (pos + 1) % w.len(), bits.drop_first())
    }
}

/// `n` lost packets followed by one received packet.
pub open spec fn gap_then_arrival(n: nat) -> Seq<bool> {
    Seq::new(n, |i: int| false).push(true)
}

/// The number of sequence numbers from `expected` up to (not including)
/// `seq`, counting with wrap-around.
pub open spec fn seq_gap(expected: u64, seq: u64) -> nat {
    if seq >= expected {
        (seq - expected) as nat
    } else {
        (seq + 0x1_0000_0000_0000_0000 - expected) as nat
    }
}

/// Recording one more arrival overwrites the slot after the ones recorded so
/// far (wrapping around the window), as one `LossTracker::record` does.
pub proof fn lemma_recorded_push(w: Seq<bool>, pos: nat, bits: Seq<bool>, b: bool)
    requires
        w.len() > 0,
        pos < w.len(),
    ensures
        recorded(w, pos, bits.push(b)) == recorded(w, pos, bits).update(
            ((pos + bits.len()) % w.len()) as int,
            b,
        ),
        recorded(w, pos, bits).len() == w.len(),
    decreases bits.len(),
{
    let n = w.len();
    if bits.len() == 0 {
        assert(bits.push(b).drop_first() =~= Seq::<bool>::empty());
        assert((pos + 0) % n == pos) by {
            vstd::arithmetic::div_mod::lemma_small_mod(pos, n);
        }
        assert(bits.push(b)[0] == b);
        assert(recorded(w, pos, bits.push(b)) == recorded(
            w.update(pos as int, b),
            (pos + 1) % n,
            Seq::<bool>::empty(),
        ));
        assert(recorded(w, pos, bits) == w);
    } else {
        let w2 = w.update(pos as int, bits[0]);
        let p2 = (pos + 1) % n;
        assert(bits.push(b).drop_first() =~= bits.drop_first().push(b));
        assert(bits.push(b)[0] == bits[0]);
        assert(recorded(w, pos, bits.push(b)) == recorded(w2, p2, bits.drop_first().push(b)));
        assert(recorded(w, pos, bits) == recorded(w2, p2, bits.drop_first()));
        lemma_recorded_push(w2, p2, bits.drop_first(), b);
        vstd::arithmetic::div_mod::lemma_add_mod_noop_right(
            (bits.len() - 1) as int,
            (pos + 1) as int,
            n as int,
        );
        assert(((p2 + (bits.len() - 1)) % (n as int)) == ((pos + bits.len()) % n) as int);
        assert(bits.drop_first().len() == bits.len() - 1);
        assert(((p2 + bits.drop_first().len()) % w2.len()) as int == ((pos + bits.len()) % n) as int);
    }
}

/// Record a frame with sequence number `seq` when `expected` was due: every
/// sequence number skipped (counting with wrap-around) is recorded as lost,
/// then the frame as received. Returns the next expected sequence number.
pub fn record_arrival(tracker: &mut LossTracker, expected: u64, seq: u64) -> (next: u64)
    requires
        old(tracker).wf(),
        old(tracker).entries().len() > 0,
    ensures
        final(tracker).wf(),
        final(tracker).entries().len() == old(tracker).entries().len(),
        final(tracker).entries() == recorded(
            old(tracker).entries(),
            old(tracker).position(),
            gap_then_arrival(seq_gap(expected, seq)),
        ),
        final(tracker).position() == (old(tracker).position() + seq_gap(expected, seq) + 1) % old(
            tracker,
        ).entries().len(),
        next == (seq as int + 1) % 0x1_0000_0000_0000_0000,
{
    let ghost w0 = tracker.entries();
    let ghost p0 = tracker.position();
    proof {
        tracker.lemma_position_in_window();
    }
    let mut e = expected;
    let ghost mut k: nat = 0;
    proof {
        assert(recorded(w0, p0, Seq::new(0, |i: int| false)) == w0);
        assert((p0 + 0) % w0.len() == p0) by {
            vstd::arithmetic::div_mod::lemma_small_mod(p0, w0.len());
        }
    }
    while e != seq
        invariant
            tracker.wf(),
            tracker.entries().len() == w0.len(),
            w0.len() > 0,
            p0 < w0.len(),
            k + seq_gap(e, seq) == seq_gap(expected, seq),
            tracker.entries() == recorded(w0, p0, Seq::new(k, |i: int| false)),
            tracker.position() == (p0 + k) % w0.len(),
        decreases seq_gap(e, seq),
    {
        proof {
            lemma_recorded_push(w0, p0, Seq::new(k, |i: int| false), false);
            assert(Seq::new(k, |i: int| false).push(false) =~= Seq::new(k + 1, |i: int| false));
            vstd::arithmetic::div_mod::lemma_add_mod_noop_right(1, (p0 + k) as int, w0.len() as int);
        }
        tracker.record(false);
        e = e.wrapping_add(1);
        proof {
            k = k + 1;
        }
    }
    proof {
        lemma_recorded_push(w0, p0, Seq::new(k, |i: int| false), true);
        assert(Seq::new(k, |i: int| false).push(true) =~= gap_then_arrival(seq_gap(expected, seq)));
        vstd::arithmetic::div_mod::lemma_add_mod_noop_right(1, (p0 + k) as int, w0.len() as int);
    }
    tracker.record(true);
    seq.wrapping_add(1)
}

/// A window of `w` slots, all counted as received.
pub open spec fn all_received(w: nat) -> Seq<bool> {
    Seq::new(w, |i: int| true)
}

/// The value of slot `j` of a window of `w` slots, all received at first,
/// after recording `bits` from slot 0: the latest record that landed in the
/// slot, or `true` when none did.
spec fn slot_after(bits: Seq<bool>, w: nat, j: int) -> bool {
    let k = bits.len();
    let p = k % w;
    let base = k - p;
    if j < p {
        bits[base + j]
    } else if k >= w {
        bits[base - w + j]
    } else {
        true
    }
}

proof fn lemma_window_slots(w: nat, bits: Seq<bool>)
    requires
        w > 0,
    ensures
        recorded(all_received(w), 0, bits).len() == w,
        forall|j: int| 0 <= j < w ==> #[trigger] recorded(all_received(w), 0, bits)[j]
            == slot_after(bits, w, j),
    decreases bits.len(),
{
    let w0 = all_received(w);
    let k = bits.len() as int;
    if k == 0 {
        assert(recorded(w0, 0, bits) == w0);
        assert(0nat % w == 0) by {
            vstd::arithmetic::div_mod::lemma_small_mod(0, w);
        }
    } else {
        let prev = bits.drop_last();
        let b = bits.last();
        lemma_window_slots(w, prev);
        lemma_recorded_push(w0, 0, prev, b);
        assert(prev.push(b) =~= bits);
        let kp = k - 1;
        let p = kp % (w as int);
        let base = kp - p;
        vstd::arithmetic::div_mod::lemma_fundamental_div_mod(kp, w as int);
        vstd::arithmetic::div_mod::lemma_mod_pos_bound(kp, w as int);
        let q = kp / (w as int);
        assert(base == w * q);
        assert(q >= 0) by (nonlinear_arith)
            requires
                base == w * q,
                base >= 0,
                w > 0,
        ;
        assert((0 + prev.len()) % w == p);
        if p + 1 < w {
            assert(k == q * w + (p + 1)) by (nonlinear_arith)
                requires
                    base == w * q,
                    kp == base + p,
                    k == kp + 1,
            ;
            vstd::arithmetic::div_mod::lemma_fundamental_div_mod_converse(k, w as int, q, p + 1);
            assert((kp >= w <==> base >= w) && (k >= w <==> base >= w)) by (nonlinear_arith)
                requires
                    k == kp + 1,
                    base == w * q,
                    kp == base + p,
                    0 <= p,
                    p + 1 < w,
                    q >= 0,
            ;
        } else {
            assert(k == (q + 1) * w + 0) by (nonlinear_arith)
                requires
                    base == w * q,
                    kp == base + p,
                    k == kp + 1,
                    p + 1 == w,
            ;
            vstd::arithmetic::div_mod::lemma_fundamental_div_mod_converse(k, w as int, q + 1, 0);
            assert(w * (q + 1) == base + w) by (nonlinear_arith)
                requires
                    base == w * q,
            ;
        }
        assert forall|j: int| 0 <= j < w implies #[trigger] recorded(w0, 0, bits)[j] == slot_after(
            bits,
            w,
            j,
        ) by {
            if j != p {
                assert(recorded(w0, 0, bits)[j] == recorded(w0, 0, prev)[j]);
                if p + 1 < w {
                    assert(k % (w as int) == p + 1);
                    if j < p {
                        assert(bits[base + j] == prev[base + j]);
                    } else if base >= w {
                        assert(bits[base - w + j] == prev[base - w + j]);
                    }
                } else {
                    assert(k % (w as int) == 0);
                    assert(k - w + j == base + j);
                    assert(bits[base + j] == prev[base + j]);
                }
            }
        }
    }
}

proof fn lemma_lost_in_first(s: Seq<bool>)
    requires
        s.len() > 0,
    ensures
        lost_in(s) == (if s[0] {
            0nat
        } else {
            1nat
        }) + lost_in(s.drop_first()),
    decreases s.len(),
{
    if s.len() == 1 {
        assert(s.drop_first() =~= Seq::<bool>::empty());
        assert(s.drop_last() =~= Seq::<bool>::empty());
    } else {
        lemma_lost_in_first(s.drop_last());
        assert(s.drop_last().drop_first() =~= s.drop_first().drop_last());
        assert(s.drop_first().last() == s.last());
    }
}

/// A loss window of `w` slots, all received at first, after recording the
/// arrivals `bits` in order counts exactly the losses among the last
/// `min(bits.len(), w)` of them.
pub proof fn lemma_loss_window_counts_last_records(w: nat, bits: Seq<bool>)
    requires
        w > 0,
    ensures
        lost_in(recorded(all_received(w), 0, bits)) == lost_in(
            bits.skip(
                if bits.len() > w {
                    bits.len() - w
                } else {
                    0
                },
            ),
        ),
    decreases bits.len(),
{
    let w0 = all_received(w);
    let k = bits.len() as int;
    if k == 0 {
        assert(recorded(w0, 0, bits) == w0);
        lemma_lost_in_all_received(w);
        assert(bits.skip(0) =~= Seq::<bool>::empty());
    } else {
        let prev = bits.drop_last();
        let b = bits.last();
        let kp = k - 1;
        lemma_loss_window_counts_last_records(w, prev);
        lemma_window_slots(w, prev);
        lemma_recorded_push(w0, 0, prev, b);
        assert(prev.push(b) =~= bits);
        let wp = recorded(w0, 0, prev);
        let p = kp % (w as int);
        vstd::arithmetic::div_mod::lemma_mod_pos_bound(kp, w as int);
        vstd::arithmetic::div_mod::lemma_fundamental_div_mod(kp, w as int);
        assert((0 + prev.len()) % w == p);
        lemma_lost_in_update(wp, p, b);
        if kp < w {
            assert(wp[p] == slot_after(prev, w, p));
            assert(wp[p]);
            assert(prev.skip(0) =~= prev);
            assert(bits.skip(0) =~= bits);
            assert(bits.drop_last() =~= prev);
        } else {
            let q = kp / (w as int);
            assert(kp - p - w + p == kp - w);
            assert(wp[p] == prev[kp - w]);
            let sp = prev.skip(kp - w);
            let sn = bits.skip(k - w);
            assert(sp.len() == w);
            lemma_lost_in_first(sp);
            assert(sp[0] == prev[kp - w]);
            assert(sn.drop_last() =~= sp.drop_first());
            assert(sn.last() == b);
            if kp == w {
                assert(prev.skip(0) =~= sp);
            }
        }
    }
}

} // verus!
