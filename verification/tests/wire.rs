use entrouter_line::relay::blocks::{build_frame, parse_frame, parse_shard_payload, shard_payload, split_block};
use entrouter_line::relay::wire::{
    decode_header, encode_header, AUTH_TAG_SIZE, HEADER_SIZE, MAX_PACKET, MAX_PAYLOAD, PACKET_CONTROL,
    PACKET_DATA, PACKET_PARITY, PACKET_PING, PACKET_PONG,
};

#[test]
fn roundtrip_header() {
    let mut buf = [0u8; HEADER_SIZE];
    encode_header(&mut buf, PACKET_DATA, 1234u64, 500);
    let (ptype, seq, len) = decode_header(&buf);
    assert_eq!(ptype, PACKET_DATA);
    assert_eq!(seq, 1234u64);
    assert_eq!(len, 500);
}

#[test]
fn all_packet_types() {
    for ptype in [PACKET_DATA, PACKET_PARITY, PACKET_PING, PACKET_PONG, PACKET_CONTROL] {
        let mut buf = [0u8; HEADER_SIZE];
        encode_header(&mut buf, ptype, 0, 0);
        let (decoded_type, _, _) = decode_header(&buf);
        assert_eq!(decoded_type, ptype);
    }
}

#[test]
fn max_seq_and_len() {
    let mut buf = [0u8; HEADER_SIZE];
    encode_header(&mut buf, PACKET_DATA, u64::MAX, u16::MAX);
    let (ptype, seq, len) = decode_header(&buf);
    assert_eq!(ptype, PACKET_DATA);
    assert_eq!(seq, u64::MAX);
    assert_eq!(len, u16::MAX);
}

#[test]
fn zero_values() {
    let mut buf = [0u8; HEADER_SIZE];
    encode_header(&mut buf, 0, 0, 0);
    let (ptype, seq, len) = decode_header(&buf);
    assert_eq!(ptype, 0);
    assert_eq!(seq, 0);
    assert_eq!(len, 0);
}

#[test]
fn payload_within_mtu() {
    assert!(MAX_PACKET <= 1500);
    assert_eq!(MAX_PACKET, HEADER_SIZE + MAX_PAYLOAD + AUTH_TAG_SIZE);
}

#[test]
fn header_bytes_are_little_endian() {
    let mut buf = [0xEEu8; 14];
    let written = encode_header(&mut buf, PACKET_PONG, 0x0102030405060708, 0x0A0B);
    assert_eq!(written, HEADER_SIZE);
    assert_eq!(buf, [0x04, 0x08, 0x07, 0x06, 0x05, 0x04, 0x03, 0x02, 0x01, 0x0B, 0x0A, 0xEE, 0xEE, 0xEE]);
}

#[test]
fn decode_reads_only_the_header() {
    let buf = [0x05u8, 1, 0, 0, 0, 0, 0, 0, 0, 2, 0, 9, 9, 9];
    assert_eq!(decode_header(&buf), (PACKET_CONTROL, 1, 2));
}

#[test]
fn frame_roundtrip() {
    let ct = vec![1u8, 2, 3, 4, 5];
    let frame = build_frame(PACKET_DATA, 77, &ct);
    assert_eq!(frame.len(), HEADER_SIZE + 5);
    assert_eq!(decode_header(&frame), (PACKET_DATA, 77, 5));
    let (t, s, c) = parse_frame(&frame).unwrap();
    assert_eq!((t, s, c), (PACKET_DATA, 77, ct));
}

#[test]
fn frame_too_short_or_truncated() {
    assert!(parse_frame(&[1u8, 2, 3]).is_none());
    let mut frame = build_frame(PACKET_DATA, 1, &[9u8; 10]);
    frame.truncate(HEADER_SIZE + 9);
    assert!(parse_frame(&frame).is_none());
}

#[test]
fn shard_payload_roundtrip() {
    let p = shard_payload(0x01020304, 0x0506, &[7u8, 8]);
    assert_eq!(p, vec![1u8, 2, 3, 4, 5, 6, 7, 8]);
    assert_eq!(parse_shard_payload(&p), Some((0x01020304, 0x0506, vec![7u8, 8])));
    assert_eq!(parse_shard_payload(&[1u8, 2, 3, 4, 5]), None);
}

#[test]
fn split_block_pads_with_zeros() {
    let data: Vec<u8> = (1..=10).collect();
    let shards = split_block(&data, 4);
    assert_eq!(shards.len(), 4);
    assert_eq!(shards[0], vec![1u8, 2, 3]);
    assert_eq!(shards[1], vec![4u8, 5, 6]);
    assert_eq!(shards[2], vec![7u8, 8, 9]);
    assert_eq!(shards[3], vec![10u8, 0, 0]);
    let small = split_block(&[5u8], 3);
    assert_eq!(small, vec![vec![5u8], vec![0u8], vec![0u8]]);
}
