use entrouter_line::mesh::latency_matrix::LatencyMatrix;
use entrouter_line::mesh::router::MeshRouter;
use std::sync::Arc;
use std::time::Duration;

#[test]
fn direct_route() {
    let mut matrix = LatencyMatrix::new();
    matrix.update("syd", "sgp", Duration::from_millis(50));
    matrix.update("sgp", "syd", Duration::from_millis(50));

    let router = MeshRouter::new("syd".to_string(), Arc::new(matrix));
    let route = router.next_hop("sgp").unwrap();
    assert_eq!(route.next_hop, "sgp");
    assert_eq!(route.path, vec!["syd", "sgp"]);
}

#[test]
fn multi_hop_shortest_path() {
    let mut matrix = LatencyMatrix::new();
    matrix.update("syd", "sgp", Duration::from_millis(50));
    matrix.update("sgp", "lon", Duration::from_millis(80));
    matrix.update("syd", "lon", Duration::from_millis(200));

    let router = MeshRouter::new("syd".to_string(), Arc::new(matrix));
    let route = router.next_hop("lon").unwrap();
    assert_eq!(route.next_hop, "sgp");
    assert_eq!(route.path, vec!["syd", "sgp", "lon"]);
}

#[test]
fn no_route() {
    let mut matrix = LatencyMatrix::new();
    matrix.update("syd", "sgp", Duration::from_millis(50));

    let router = MeshRouter::new("syd".to_string(), Arc::new(matrix));
    assert!(router.next_hop("lon").is_none());
}

#[test]
fn self_route_is_none() {
    let matrix = LatencyMatrix::new();
    let router = MeshRouter::new("syd".to_string(), Arc::new(matrix));
    assert!(router.next_hop("syd").is_none());
}

#[test]
fn top_paths_returns_all_candidates() {
    let mut matrix = LatencyMatrix::new();
    matrix.update("syd", "sgp", Duration::from_millis(50));
    matrix.update("sgp", "lon", Duration::from_millis(80));
    matrix.update("syd", "lon", Duration::from_millis(200));

    let router = MeshRouter::new("syd".to_string(), Arc::new(matrix));
    let paths = router.top_paths("lon", 5);
    assert!(paths.len() >= 2);
    assert_eq!(paths[0].next_hop, "sgp");
}

#[test]
fn route_rtt_is_sum_of_hops() {
    let mut matrix = LatencyMatrix::new();
    matrix.update("a", "b", Duration::from_millis(10));
    matrix.update("b", "c", Duration::from_millis(20));

    let router = MeshRouter::new("a".to_string(), Arc::new(matrix));
    let route = router.next_hop("c").unwrap();
    assert_eq!(route.total_rtt, Duration::from_millis(30));
}

#[test]
fn top_paths_totals_and_truncation() {
    let mut matrix = LatencyMatrix::new();
    matrix.update("syd", "sgp", Duration::from_millis(50));
    matrix.update("sgp", "lon", Duration::from_millis(80));
    matrix.update("syd", "lon", Duration::from_millis(200));
    matrix.update("syd", "hkg", Duration::from_millis(30));
    let router = MeshRouter::new("syd".to_string(), Arc::new(matrix));

    let all = router.top_paths("lon", 5);
    assert_eq!(all.len(), 2);
    assert_eq!(all[0].total_rtt, Duration::from_millis(130));
    assert_eq!(all[0].path, vec!["syd", "sgp", "lon"]);
    assert_eq!(all[1].next_hop, "lon");
    assert_eq!(all[1].total_rtt, Duration::from_millis(200));
    assert_eq!(all[1].path, vec!["syd", "lon"]);

    let one = router.top_paths("lon", 1);
    assert_eq!(one.len(), 1);
    assert_eq!(one[0].next_hop, "sgp");

    assert!(router.top_paths("lon", 0).is_empty());
    assert!(router.top_paths("syd", 5).is_empty());
}

#[test]
fn route_prefers_cheaper_longer_path() {
    let mut matrix = LatencyMatrix::new();
    matrix.update("a", "b", Duration::from_millis(1));
    matrix.update("b", "c", Duration::from_millis(1));
    matrix.update("c", "d", Duration::from_millis(1));
    matrix.update("a", "d", Duration::from_millis(5));
    let router = MeshRouter::new("a".to_string(), Arc::new(matrix));
    let route = router.next_hop("d").unwrap();
    assert_eq!(route.path, vec!["a", "b", "c", "d"]);
    assert_eq!(route.total_rtt, Duration::from_millis(3));
    assert_eq!(router.local_node(), "a");
}

#[test]
fn matrix_smooths_samples() {
    let mut matrix = LatencyMatrix::new();
    assert!(matrix.get_rtt("a", "b").is_none());
    matrix.update("a", "b", Duration::from_millis(80));
    assert_eq!(matrix.get_rtt("a", "b"), Some(Duration::from_millis(80)));
    matrix.update("a", "b", Duration::from_millis(160));
    assert_eq!(matrix.get_rtt("a", "b"), Some(Duration::from_millis(90)));
    assert!(matrix.get_rtt("b", "a").is_none());
    assert_eq!(matrix.nodes(), vec!["a".to_string(), "b".to_string()]);
}

#[test]
fn zero_cost_cycles_do_not_repeat_nodes() {
    let mut matrix = LatencyMatrix::new();
    matrix.update("a", "b", Duration::ZERO);
    matrix.update("b", "a", Duration::ZERO);
    matrix.update("b", "c", Duration::from_micros(10));
    let router = MeshRouter::new("a".to_string(), Arc::new(matrix));
    let route = router.next_hop("c").unwrap();
    assert_eq!(route.path, vec!["a", "b", "c"]);
    assert_eq!(route.total_rtt, Duration::from_micros(10));
}

#[test]
fn routing_over_an_updated_matrix() {
    let router = MeshRouter::new("syd".to_string(), Arc::new(LatencyMatrix::new()));
    let mut live = LatencyMatrix::new();
    assert!(router.next_hop_in(&live, "sgp").is_none());
    live.update("syd", "sgp", Duration::from_millis(50));
    let route = router.next_hop_in(&live, "sgp").unwrap();
    assert_eq!(route.total_rtt, Duration::from_millis(50));
}

#[test]
fn top_paths_and_next_hop_agree() {
    let mut matrix = LatencyMatrix::new();
    matrix.update("syd", "sgp", Duration::from_millis(50));
    matrix.update("sgp", "lon", Duration::from_millis(80));
    matrix.update("syd", "lon", Duration::from_millis(200));
    matrix.update("syd", "tyo", Duration::from_millis(30));
    let router = MeshRouter::new("syd".to_string(), Arc::new(matrix));
    let best = router.next_hop("lon").unwrap();
    let top = router.top_paths("lon", 3);
    assert_eq!(top.len(), 2);
    assert_eq!(top[0].total_rtt, best.total_rtt);
    assert!(router.top_paths("lon", 0).is_empty());
    // No route at all: both find nothing.
    assert!(router.next_hop("nowhere").is_none());
    assert!(router.top_paths("nowhere", 3).is_empty());
}
