use entrouter_line::mesh::latency_matrix::LatencyMatrix;
use entrouter_line::mesh::probe::Prober;
use entrouter_line::mesh::router::MeshRouter;
use std::sync::Arc;

fn make_prober() -> Prober {
    Prober::new("local".into(), LatencyMatrix::new())
}

#[test]
fn create_ping_returns_4_bytes() {
    let mut p = make_prober();
    let payload = p.create_ping("remote");
    assert_eq!(payload.len(), 4);
}

#[test]
fn ping_ids_increment() {
    let mut p = make_prober();
    let p1 = p.create_ping("a");
    let p2 = p.create_ping("b");
    let id1 = u32::from_le_bytes([p1[0], p1[1], p1[2], p1[3]]);
    let id2 = u32::from_le_bytes([p2[0], p2[1], p2[2], p2[3]]);
    assert_eq!(id2, id1 + 1);
}

#[test]
fn create_pong_echoes_payload() {
    let ping = vec![1, 2, 3, 4];
    let pong = Prober::create_pong(&ping);
    assert_eq!(pong, ping);
}

#[test]
fn handle_pong_updates_matrix() {
    let mut p = make_prober();
    let ping = p.create_ping("remote");
    p.handle_pong("remote", &ping);
    let rtt = p.matrix().get_rtt("local", "remote");
    assert!(rtt.is_some());
    let rtt_rev = p.matrix().get_rtt("remote", "local");
    assert!(rtt_rev.is_some());
}

#[test]
fn handle_pong_unknown_probe_id_ignored() {
    let mut p = make_prober();
    p.handle_pong("remote", &999u32.to_le_bytes());
    assert!(p.matrix().get_rtt("local", "remote").is_none());
}

#[test]
fn handle_pong_short_payload_ignored() {
    let mut p = make_prober();
    p.handle_pong("remote", &[1, 2, 3]);
    assert!(p.matrix().get_rtt("local", "remote").is_none());
}

#[test]
fn pending_count_tracks_outstanding() {
    let mut p = make_prober();
    assert_eq!(p.pending_count(), 0);
    let ping1 = p.create_ping("a");
    let _ping2 = p.create_ping("b");
    assert_eq!(p.pending_count(), 2);
    p.handle_pong("a", &ping1);
    assert_eq!(p.pending_count(), 1);
}

#[test]
fn first_ping_id_is_one_and_pong_is_consumed_once() {
    let mut p = make_prober();
    let ping = p.create_ping("peer");
    assert_eq!(ping, vec![1u8, 0, 0, 0]);
    p.handle_pong("peer", &ping);
    assert_eq!(p.pending_count(), 0);
    let before = p.matrix().get_rtt("local", "peer");
    p.handle_pong("peer", &ping);
    assert_eq!(p.matrix().get_rtt("local", "peer"), before);
}

#[test]
fn handle_pong_at_folds_exact_rtt() {
    let mut p = make_prober();
    let ping = p.create_ping_at("remote", 1_000);
    assert_eq!(p.pending_count(), 1);
    p.handle_pong_at("remote", &ping, 1_750);
    assert_eq!(p.pending_count(), 0);
    let rtt = p.matrix().get_rtt("local", "remote").unwrap();
    assert_eq!(rtt.as_micros(), 750);
    let rev = p.matrix().get_rtt("remote", "local").unwrap();
    assert_eq!(rev.as_micros(), 750);
}

#[test]
fn handle_pong_at_clock_going_back_gives_zero_rtt() {
    let mut p = make_prober();
    let ping = p.create_ping_at("remote", 5_000);
    p.handle_pong_at("remote", &ping, 4_000);
    assert_eq!(p.matrix().get_rtt("local", "remote").unwrap().as_micros(), 0);
}

#[test]
fn create_ping_at_drops_stale_probes() {
    let mut p = make_prober();
    let old = p.create_ping_at("a", 0);
    // Ten seconds later the first probe is no longer fresh.
    p.create_ping_at("b", 10_000_000);
    assert_eq!(p.pending_count(), 1);
    p.handle_pong_at("a", &old, 10_000_100);
    assert!(p.matrix().get_rtt("local", "a").is_none());
}

#[test]
fn router_sees_probed_latencies() {
    let mut p = make_prober();
    let router = MeshRouter::new("local".into(), Arc::new(LatencyMatrix::new()));
    assert!(router.next_hop_in(p.matrix(), "remote").is_none());
    let ping = p.create_ping_at("remote", 100);
    p.handle_pong_at("remote", &ping, 400);
    let route = router.next_hop_in(p.matrix(), "remote").unwrap();
    assert_eq!(route.next_hop, "remote");
    assert_eq!(route.path, vec!["local".to_string(), "remote".to_string()]);
    assert_eq!(route.total_rtt.as_micros(), 300);
    let alts = router.top_paths_in(p.matrix(), "remote", 3);
    assert_eq!(alts.len(), 1);
    assert_eq!(alts[0].next_hop, "remote");
}
