//! The receiving end of a block transfer.
//!
//! Frames arrive one datagram at a time. Each one is checked against the
//! wire header, counted in the loss window (every skipped sequence number
//! is a lost packet), decrypted, and its shard filed under its block; a
//! control frame carrying `DONE` ends the transfer. At the end every
//! expected block is reconstructed from the shards that arrived.
use super::blocks::{
    frame_bytes, frame_fields, gap_then_arrival, lemma_frame_roundtrip, lemma_shard_payload_roundtrip,
    parse_frame, parse_shard_payload, record_arrival, recorded, seq_gap, shard_payload_bytes,
    shard_payload_fields,
};
use super::crypto::{chacha_open, nonce_for, TunnelCrypto, KEY_SIZE};
use super::fec::{
    agrees, codec_ok, is_codeword, lemma_agreeing_is_reconstructible, lemma_loss_within_parity,
    present_count, reconstructible, FecConfig, FecEncoder, LossTracker,
};
use super::wire::PACKET_CONTROL;
use vstd::prelude::*;

verus! {

/// Slots of the loss window that a receiver keeps.
pub const RECEIVER_WINDOW: usize = 1000;

/// The payload of the control frame that ends a transfer: `DONE`.
pub open spec fn done_bytes() -> Seq<u8> {
    seq![0x44u8, 0x4fu8, 0x4eu8, 0x45u8]
}

/// The payload that ends a transfer.
pub fn done_payload() -> (r: Vec<u8>)
    ensures
        r@ == done_bytes(),
{
    let mut r: Vec<u8> = Vec::new();
    r.push(0x44u8);
    r.push(0x4fu8);
    r.push(0x4eu8);
    r.push(0x45u8);
    assert(r@ =~= done_bytes());
    r
}

/// `blocks` after filing the shard that a payload carries: the slot of its
/// shard index in the block of its block index, when both exist; a payload
/// too short to carry indices, or with indices out of range, files nothing.
pub open spec fn filed(
    blocks: Seq<Seq<Option<Seq<u8>>>>,
    fields: Option<(u32, u16, Seq<u8>)>,
) -> Seq<Seq<Option<Seq<u8>>>> {
    match fields {
        Some((b, s, shard)) => if b < blocks.len() && s < blocks[b as int].len() {
            blocks.update(b as int, blocks[b as int].update(s as int, Some(shard)))
        } else {
            blocks
        },
        None => blocks,
    }
}

/// A shard sent the way a sender sends it (prefixed with its block and shard
/// indices, sealed for its sequence number, framed) reaches the receiver as
/// a frame that is not the end marker and files the shard under its indices.
pub proof fn lemma_sent_shard_is_filed(
    blocks: Seq<Seq<Option<Seq<u8>>>>,
    key: Seq<u8>,
    packet_type: u8,
    seq: u64,
    block_idx: u32,
    shard_idx: u16,
    shard: Seq<u8>,
    ciphertext: Seq<u8>,
)
    requires
        ciphertext.len() <= 0xffff,
        chacha_open(key, nonce_for(seq), ciphertext) == Some(
            shard_payload_bytes(block_idx, shard_idx, shard),
        ),
    ensures
        frame_fields(frame_bytes(packet_type, seq, ciphertext)) == Some(
            (packet_type, seq, ciphertext),
        ),
        shard_payload_bytes(block_idx, shard_idx, shard) != done_bytes(),
        filed(blocks, shard_payload_fields(shard_payload_bytes(block_idx, shard_idx, shard)))
            == if block_idx < blocks.len() && shard_idx < blocks[block_idx as int].len() {
            blocks.update(
                block_idx as int,
                blocks[block_idx as int].update(shard_idx as int, Some(shard)),
            )
        } else {
            blocks
        },
{
    lemma_frame_roundtrip(packet_type, seq, ciphertext);
    lemma_shard_payload_roundtrip(block_idx, shard_idx, shard);
    assert(shard_payload_bytes(block_idx, shard_idx, shard).len() >= 6);
}

/// Outcome of one block at the end of a transfer.
#[derive(Debug, Clone, Copy)]
pub struct BlockOutcome {
    /// The block could be reconstructed.
    pub recovered: bool,
    /// Shards of the block that never arrived.
    pub shards_lost: usize,
}

/// Receiver state: the cipher, the FEC configuration, the loss window, the
/// next expected sequence number and the shards received per block.
pub struct ShardReceiver {
    crypto: TunnelCrypto,
    config: FecConfig,
    tracker: LossTracker,
    expected_seq: u64,
    blocks: Vec<Vec<Option<Vec<u8>>>>,
}

impl ShardReceiver {
    /// The tunnel key.
    pub closed spec fn key(&self) -> Seq<u8> {
        self.crypto.key()
    }

    /// The FEC configuration the blocks were encoded with.
    pub closed spec fn config(&self) -> FecConfig {
        self.config
    }

    /// The loss window.
    pub closed spec fn entries(&self) -> Seq<bool> {
        self.tracker.entries()
    }

    /// The slot of the loss window that the next record overwrites.
    pub closed spec fn position(&self) -> nat {
        self.tracker.position()
    }

    /// The sequence number expected next.
    pub closed spec fn expected(&self) -> u64 {
        self.expected_seq
    }

    /// Shards received so far, one slot per shard of each expected block.
    pub closed spec fn blocks(&self) -> Seq<Seq<Option<Seq<u8>>>> {
        self.blocks.deep_view()
    }

    /// A usable codec, a nonempty consistent loss window, and one slot per
    /// shard in every block.
    pub closed spec fn wf(&self) -> bool {
        &&& codec_ok(self.config.data_shards as nat, self.config.parity_shards as nat)
        &&& self.tracker.wf()
        &&& self.tracker.entries().len() > 0
        &&& forall|i: int|
            0 <= i < self.blocks@.len() ==> (#[trigger] self.blocks@[i])@.len()
                == self.config.data_shards + self.config.parity_shards
    }

    /// A receiver for `expected_blocks` blocks encoded with `config`,
    /// encrypted with `key`: nothing received, sequence number 0 expected,
    /// a loss window of `RECEIVER_WINDOW` slots all counted as received.
    pub fn new(key: &[u8; KEY_SIZE], config: FecConfig, expected_blocks: usize) -> (r: Self)
        requires
            codec_ok(config.data_shards as nat, config.parity_shards as nat),
        ensures
            r.wf(),
            r.key() == key@,
            r.config() == config,
            r.entries() == Seq::new(RECEIVER_WINDOW as nat, |i: int| true),
            r.position() == 0,
            r.expected() == 0,
            r.blocks() == Seq::new(
                expected_blocks as nat,
                |i: int|
                    Seq::new(
                        (config.data_shards + config.parity_shards) as nat,
                        |j: int| None::<Seq<u8>>,
                    ),
            ),
    {
        let total = config.data_shards + config.parity_shards;
        let ghost empty_block = Seq::new(total as nat, |j: int| None::<Seq<u8>>);
        let mut blocks: Vec<Vec<Option<Vec<u8>>>> = Vec::new();
        let mut i: usize = 0;
        while i < expected_blocks
            invariant
                i <= expected_blocks,
                blocks@.len() == i,
                forall|k: int| 0 <= k < i ==> (#[trigger] blocks@[k])@.len() == total,
                forall|k: int, l: int| 0 <= k < i && 0 <= l < total ==> (#[trigger] blocks@[k]@[l]) is None,
            decreases expected_blocks - i,
        {
            let mut block: Vec<Option<Vec<u8>>> = Vec::new();
            let mut j: usize = 0;
            while j < total
                invariant
                    j <= total,
                    block@.len() == j,
                    forall|l: int| 0 <= l < j ==> (#[trigger] block@[l]) is None,
                decreases total - j,
            {
                block.push(None);
                j = j + 1;
            }
            blocks.push(block);
            i = i + 1;
        }
        proof {
            assert forall|k: int| 0 <= k < expected_blocks implies (#[trigger] blocks.deep_view()[k])
                == empty_block by {
                assert(blocks@[k].deep_view() =~= empty_block);
            }
            assert(blocks.deep_view() =~= Seq::new(expected_blocks as nat, |i: int| empty_block));
        }
        ShardReceiver {
            crypto: TunnelCrypto::new(key),
            config,
            tracker: LossTracker::new(RECEIVER_WINDOW),
            expected_seq: 0,
            blocks,
        }
    }

    /// Take one received datagram; `true` when it ends the transfer.
    ///
    /// A datagram whose header is malformed or announces more bytes than it
    /// holds is ignored. Otherwise the sequence numbers skipped since the
    /// expected one are recorded as lost and this one as received. A frame
    /// that fails to decrypt changes nothing more; a control frame carrying
    /// `DONE` ends the transfer; any other decrypted payload files its shard
    /// (see `filed`).
    pub fn on_datagram(&mut self, datagram: &[u8]) -> (done: bool)
        requires
            old(self).wf(),
        ensures
            final(self).wf(),
            final(self).key() == old(self).key(),
            final(self).config() == old(self).config(),
            match frame_fields(datagram@) {
                None => {
                    &&& !done
                    &&& final(self).entries() == old(self).entries()
                    &&& final(self).position() == old(self).position()
                    &&& final(self).expected() == old(self).expected()
                    &&& final(self).blocks() == old(self).blocks()
                },
                Some((t, s, c)) => {
                    &&& final(self).entries() == recorded(
                        old(self).entries(),
                        old(self).position(),
                        gap_then_arrival(seq_gap(old(self).expected(), s)),
                    )
                    &&& final(self).position() == (old(self).position() + seq_gap(
                        old(self).expected(),
                        s,
                    ) + 1) % old(self).entries().len()
                    &&& final(self).expected() == (s as int + 1) % 0x1_0000_0000_0000_0000
                    &&& match chacha_open(old(self).key(), nonce_for(s), c) {
                        None => !done && final(self).blocks() == old(self).blocks(),
                        Some(p) => if t == PACKET_CONTROL && p == done_bytes() {
                            done && final(self).blocks() == old(self).blocks()
                        } else {
                            !done && final(self).blocks() == filed(
                                old(self).blocks(),
                                shard_payload_fields(p),
                            )
                        },
                    }
                },
            },
    {
        let (packet_type, seq, ciphertext) = match parse_frame(datagram) {
            Some(f) => f,
            None => return false,
        };
        self.expected_seq = record_arrival(&mut self.tracker, self.expected_seq, seq);
        let plaintext = match self.crypto.decrypt(seq, &ciphertext) {
            Ok(p) => p,
            Err(_) => return false,
        };
        if packet_type == PACKET_CONTROL && plaintext.len() == 4 && plaintext[0] == 0x44u8
            && plaintext[1] == 0x4fu8 && plaintext[2] == 0x4eu8 && plaintext[3] == 0x45u8 {
            assert(plaintext@ =~= done_bytes());
            return true;
        }
        assert(!(packet_type == PACKET_CONTROL && plaintext@ == done_bytes()));
        let (block_idx, shard_idx, shard) = match parse_shard_payload(&plaintext) {
            Some(f) => f,
            None => return false,
        };
        let b = block_idx as usize;
        let s = shard_idx as usize;
        if b < self.blocks.len() && s < self.blocks[b].len() {
            let ghost before = self.blocks.deep_view();
            let ghost shard_view = shard@;
            assert(shard.deep_view() =~= shard_view);
            self.blocks[b][s] = Some(shard);
            proof {
                assert(self.blocks@[b as int]@.len() == before[b as int].len());
                assert(self.blocks@[b as int].deep_view() =~= before[b as int].update(
                    s as int,
                    Some(shard_view),
                ));
                assert(self.blocks.deep_view() =~= before.update(
                    b as int,
                    before[b as int].update(s as int, Some(shard_view)),
                ));
            }
        }
        false
    }

    /// The loss window.
    pub fn tracker(&self) -> (t: &LossTracker)
        requires
            self.wf(),
        ensures
            t.wf(),
            t.entries() == self.entries(),
            t.position() == self.position(),
    {
        &self.tracker
    }

    /// End the transfer: for each expected block, in order, whether it can be
    /// reconstructed from the shards that arrived, and how many of its shards
    /// never arrived.
    pub fn finish(self) -> (r: Vec<BlockOutcome>)
        requires
            self.wf(),
        ensures
            r@.len() == self.blocks().len(),
            forall|i: int|
                0 <= i < r@.len() ==> (#[trigger] r@[i]).shards_lost == self.blocks()[i].len()
                    - present_count(self.blocks()[i]),
            forall|i: int|
                0 <= i < r@.len() ==> (#[trigger] r@[i]).recovered == reconstructible(
                    self.blocks()[i],
                    self.config().data_shards as nat,
                    self.config().parity_shards as nat,
                ),
            forall|i: int, cw: Seq<Seq<u8>>|
                0 <= i < r@.len() && is_codeword(
                    cw,
                    self.config().data_shards as nat,
                    self.config().parity_shards as nat,
                ) && #[trigger] agrees(self.blocks()[i], cw) && r@[i].shards_lost
                    <= self.config().parity_shards ==> r@[i].recovered,
    {
        let ghost original = self.blocks.deep_view();
        let encoder = FecEncoder::new(self.config);
        let mut blocks = self.blocks;
        let n = blocks.len();
        let mut r: Vec<BlockOutcome> = Vec::new();
        let mut i: usize = 0;
        while i < n
            invariant
                n == blocks@.len(),
                n == original.len(),
                i <= n,
                r@.len() == i,
                encoder.config == self.config,
                codec_ok(self.config.data_shards as nat, self.config.parity_shards as nat),
                forall|k: int| i <= k < n ==> (#[trigger] blocks.deep_view()[k]) == original[k],
                forall|k: int|
                    0 <= k < i ==> (#[trigger] r@[k]).shards_lost == original[k].len()
                        - present_count(original[k]),
                forall|k: int|
                    0 <= k < i ==> (#[trigger] r@[k]).recovered == reconstructible(
                        original[k],
                        self.config.data_shards as nat,
                        self.config.parity_shards as nat,
                    ),
            decreases n - i,
        {
            assert(blocks.deep_view()[i as int] == original[i as int]);
            let shards_lost = missing_shards(&blocks[i]);
            let ghost before = blocks@;
            let ghost before_deep = blocks.deep_view();
            let slot = &mut blocks[i];
            let recovered = encoder.reconstruct(slot.as_mut_slice()).is_ok();
            proof {
                assert(blocks@.len() == n);
                assert forall|k: int| i + 1 <= k < n implies (#[trigger] blocks.deep_view()[k])
                    == original[k] by {
                    assert(blocks@[k] == before[k]);
                    assert(before_deep[k] == original[k]);
                }
            }
            r.push(BlockOutcome { recovered, shards_lost });
            i = i + 1;
        }
        proof {
            assert forall|i: int, cw: Seq<Seq<u8>>|
                0 <= i < r@.len() && is_codeword(
                    cw,
                    self.config.data_shards as nat,
                    self.config.parity_shards as nat,
                ) && #[trigger] agrees(original[i], cw) && r@[i].shards_lost
                    <= self.config.parity_shards implies r@[i].recovered by {
                lemma_loss_within_parity(
                    original[i],
                    self.config.data_shards as nat,
                    self.config.parity_shards as nat,
                );
                lemma_agreeing_is_reconstructible(
                    original[i],
                    cw,
                    self.config.data_shards as nat,
                    self.config.parity_shards as nat,
                );
            }
        }
        r
    }
}

/// Number of empty slots in a block.
fn missing_shards(block: &Vec<Option<Vec<u8>>>) -> (n: usize)
    ensures
        n == block.deep_view().len() - present_count(block.deep_view()),
{
    let ghost s = block.deep_view();
    let mut missing: usize = 0;
    let mut i: usize = 0;
    while i < block.len()
        invariant
            s == block.deep_view(),
            i <= s.len(),
            missing == i - present_count(s.take(i as int)),
            present_count(s.take(i as int)) <= i,
        decreases block.len() - i,
    {
        assert(s.take(i + 1).drop_last() =~= s.take(i as int));
        assert(s.take(i + 1).last() == s[i as int]);
        if block[i].is_none() {
            missing = missing + 1;
        }
        i = i + 1;
    }
    assert(s.take(i as int) =~= s);
    missing
}

} // verus!
