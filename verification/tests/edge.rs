use entrouter_line::edge::tcp_split::{relay_chunks, MAX_RELAY_DATA};
use entrouter_line::edge::{delivery_edge, EdgeKind, QUIC_FLOW_ID_BASE};

#[test]
fn flow_ids_below_the_quic_base_go_to_tcp() {
    assert_eq!(delivery_edge(1), EdgeKind::Tcp);
    assert_eq!(delivery_edge(QUIC_FLOW_ID_BASE - 1), EdgeKind::Tcp);
    assert_eq!(delivery_edge(QUIC_FLOW_ID_BASE), EdgeKind::Quic);
    assert_eq!(delivery_edge(u32::MAX), EdgeKind::Quic);
}

#[test]
fn empty_read_gives_no_pieces() {
    assert!(relay_chunks(&[]).is_empty());
}

#[test]
fn reads_are_cut_at_the_relay_payload_size() {
    let data: Vec<u8> = (0..3000u32).map(|i| (i % 251) as u8).collect();
    let pieces = relay_chunks(&data);
    let lens: Vec<usize> = pieces.iter().map(|p| p.len()).collect();
    assert_eq!(lens, vec![1400, 1400, 200]);
    assert_eq!(pieces.concat(), data);
}

#[test]
fn exact_multiple_has_no_short_piece() {
    let data = vec![7u8; 2 * MAX_RELAY_DATA];
    let pieces = relay_chunks(&data);
    assert_eq!(pieces.len(), 2);
    assert!(pieces.iter().all(|p| p.len() == MAX_RELAY_DATA));
    assert_eq!(relay_chunks(&data[..MAX_RELAY_DATA + 1]).len(), 2);
}
