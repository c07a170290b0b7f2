use entrouter_line::relay::blocks::record_arrival;
use entrouter_line::relay::fec::LossTracker;

#[test]
fn skipped_sequence_numbers_count_as_lost() {
    let mut t = LossTracker::new(10);
    let next = record_arrival(&mut t, 0, 0);
    assert_eq!(next, 1);
    assert_eq!(t.lost_count(), 0);
    let next = record_arrival(&mut t, next, 4);
    assert_eq!(next, 5);
    assert_eq!(t.lost_count(), 3);
}

#[test]
fn sequence_numbers_wrap() {
    let mut t = LossTracker::new(8);
    let next = record_arrival(&mut t, u64::MAX - 1, 1);
    assert_eq!(next, 2);
    assert_eq!(t.lost_count(), 3);
}

use entrouter_line::relay::blocks::{build_frame, shard_payload, split_block};
use entrouter_line::relay::crypto::TunnelCrypto;
use entrouter_line::relay::fec::{FecConfig, FecEncoder};
use entrouter_line::relay::receiver::{done_payload, ShardReceiver};
use entrouter_line::relay::wire;

const KEY: [u8; 32] = [7u8; 32];

fn config() -> FecConfig {
    FecConfig { data_shards: 4, parity_shards: 2 }
}

/// Frames for one encoded block of 100 bytes, starting at sequence number `seq0`.
fn block_frames(block_idx: u32, seq0: u64) -> Vec<Vec<u8>> {
    let crypto = TunnelCrypto::new(&KEY);
    let data: Vec<u8> = (0..100u32).map(|i| (i * 7 % 251) as u8).collect();
    let mut shards = split_block(&data, 4);
    FecEncoder::new(config()).encode(&mut shards);
    assert_eq!(shards.len(), 6);
    shards
        .iter()
        .enumerate()
        .map(|(i, shard)| {
            let seq = seq0 + i as u64;
            let ptype = if i < 4 { wire::PACKET_DATA } else { wire::PACKET_PARITY };
            let payload = shard_payload(block_idx, i as u16, shard);
            build_frame(ptype, seq, &crypto.encrypt(seq, &payload))
        })
        .collect()
}

fn done_frame(seq: u64) -> Vec<u8> {
    let crypto = TunnelCrypto::new(&KEY);
    build_frame(wire::PACKET_CONTROL, seq, &crypto.encrypt(seq, &done_payload()))
}

#[test]
fn done_payload_spells_done() {
    assert_eq!(done_payload(), b"DONE".to_vec());
}

#[test]
fn receiver_recovers_block_within_parity() {
    let mut rx = ShardReceiver::new(&KEY, config(), 1);
    let frames = block_frames(0, 0);
    for (i, f) in frames.iter().enumerate() {
        if i == 1 || i == 4 {
            continue; // lost on the way
        }
        assert!(!rx.on_datagram(f));
    }
    assert!(rx.on_datagram(&done_frame(6)));
    assert_eq!(rx.tracker().lost_count(), 2);
    let out = rx.finish();
    assert_eq!(out.len(), 1);
    assert!(out[0].recovered);
    assert_eq!(out[0].shards_lost, 2);
}

#[test]
fn receiver_reports_block_beyond_parity() {
    let mut rx = ShardReceiver::new(&KEY, config(), 2);
    let frames = block_frames(1, 0);
    for (i, f) in frames.iter().enumerate() {
        if i < 3 {
            continue;
        }
        assert!(!rx.on_datagram(f));
    }
    let out = rx.finish();
    assert_eq!(out.len(), 2);
    // Block 0 never arrived at all.
    assert!(!out[0].recovered);
    assert_eq!(out[0].shards_lost, 6);
    // Block 1 lost three shards, one more than its parity.
    assert!(!out[1].recovered);
    assert_eq!(out[1].shards_lost, 3);
}

#[test]
fn receiver_ignores_malformed_datagrams() {
    let mut rx = ShardReceiver::new(&KEY, config(), 1);
    assert!(!rx.on_datagram(&[1, 2, 3]));
    // A header that announces more bytes than follow.
    let mut f = block_frames(0, 0).remove(0);
    f.truncate(20);
    assert!(!rx.on_datagram(&f));
    assert_eq!(rx.tracker().lost_count(), 0);
    let out = rx.finish();
    assert_eq!(out[0].shards_lost, 6);
}

#[test]
fn receiver_counts_but_does_not_file_undecryptable_frames() {
    let mut rx = ShardReceiver::new(&[9u8; 32], config(), 1);
    for f in block_frames(0, 0) {
        assert!(!rx.on_datagram(&f));
    }
    // The done marker under a wrong key does not end the transfer either.
    assert!(!rx.on_datagram(&done_frame(6)));
    assert_eq!(rx.tracker().lost_count(), 0);
    let out = rx.finish();
    assert!(!out[0].recovered);
    assert_eq!(out[0].shards_lost, 6);
}

#[test]
fn receiver_ignores_shards_outside_the_expected_blocks() {
    let mut rx = ShardReceiver::new(&KEY, config(), 1);
    for f in block_frames(5, 0) {
        assert!(!rx.on_datagram(&f));
    }
    let out = rx.finish();
    assert_eq!(out.len(), 1);
    assert_eq!(out[0].shards_lost, 6);
}

