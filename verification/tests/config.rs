use base64::Engine;
use entrouter_line::config::{Config, ConfigError, ListenConfig, MeshConfig, PeerConfig, RelayConfig};

fn valid_key_b64() -> String {
    base64::engine::general_purpose::STANDARD.encode([0xABu8; 32])
}

fn minimal_config(overrides: impl FnOnce(&mut Config)) -> Config {
    let mut cfg = Config {
        node_id: "test-01".into(),
        region: "test".into(),
        listen: ListenConfig {
            relay_addr: "127.0.0.1:4433".into(),
            tcp_addr: "127.0.0.1:8443".into(),
            quic_addr: "127.0.0.1:4434".into(),
            admin_addr: "127.0.0.1:9090".into(),
            admin_token: None,
            tls_cert_path: None,
            tls_key_path: None,
        },
        mesh: MeshConfig { probe_interval_ms: 1000 },
        relay: RelayConfig { default_dest: "peer-01".into(), fec_data_shards: None, fec_parity_shards: None },
        peers: vec![PeerConfig {
            node_id: "peer-01".into(),
            region: "remote".into(),
            addr: "1.2.3.4:4433".into(),
            shared_key: valid_key_b64(),
        }],
    };
    overrides(&mut cfg);
    cfg
}

#[test]
fn valid_config_passes() {
    let cfg = minimal_config(|_| {});
    assert!(cfg.validate().is_ok());
}

#[test]
fn empty_node_id_fails() {
    let cfg = minimal_config(|c| c.node_id = "".into());
    let err = cfg.validate().unwrap_err();
    assert!(err.message().contains("node_id"));
}

#[test]
fn no_peers_fails() {
    let cfg = minimal_config(|c| c.peers.clear());
    let err = cfg.validate().unwrap_err();
    assert!(err.message().contains("peer"));
}

#[test]
fn bad_base64_key_fails() {
    let cfg = minimal_config(|c| c.peers[0].shared_key = "not-valid-base64!!!".into());
    let err = cfg.validate().unwrap_err();
    assert!(err.message().contains("base64"));
}

#[test]
fn wrong_key_length_fails() {
    let short_key = base64::engine::general_purpose::STANDARD.encode([0u8; 16]);
    let cfg = minimal_config(|c| c.peers[0].shared_key = short_key);
    let err = cfg.validate().unwrap_err();
    assert!(err.message().contains("32 bytes"));
}

#[test]
fn tls_cert_without_key_fails() {
    let cfg = minimal_config(|c| {
        c.listen.tls_cert_path = Some("/tmp/cert.pem".into());
    });
    let err = cfg.validate().unwrap_err();
    assert!(err.message().contains("tls_cert_path"));
}

#[test]
fn tls_key_without_cert_fails() {
    let cfg = minimal_config(|c| {
        c.listen.tls_key_path = Some("/tmp/key.pem".into());
    });
    let err = cfg.validate().unwrap_err();
    assert!(err.message().contains("tls_key_path"));
}

#[test]
fn tls_both_present_passes() {
    let cfg = minimal_config(|c| {
        c.listen.tls_cert_path = Some("/tmp/cert.pem".into());
        c.listen.tls_key_path = Some("/tmp/key.pem".into());
    });
    assert!(cfg.validate().is_ok());
}

#[test]
fn decode_key_roundtrip() {
    let peer = PeerConfig {
        node_id: "n".into(),
        region: "r".into(),
        addr: "1.2.3.4:5".into(),
        shared_key: valid_key_b64(),
    };
    let key = peer.decode_key().unwrap();
    assert_eq!(key, [0xABu8; 32]);
}

#[test]
fn validation_messages_are_exact() {
    let short_key = base64::engine::general_purpose::STANDARD.encode([0u8; 16]);
    let cfg = minimal_config(|c| c.peers[0].shared_key = short_key);
    match cfg.validate().unwrap_err() {
        ConfigError::Validation(m) => assert_eq!(m, "shared_key for peer peer-01 must be 32 bytes (got 16)"),
        other => panic!("unexpected {other:?}"),
    }
    let cfg = minimal_config(|c| c.peers[0].shared_key = "???".into());
    assert_eq!(cfg.validate().unwrap_err().message(), "config validation: invalid base64 shared_key for peer peer-01");
    let cfg = minimal_config(|c| c.node_id = "".into());
    assert_eq!(cfg.validate().unwrap_err().message(), "config validation: node_id cannot be empty");
    assert_eq!(ConfigError::Parse("bad".into()).message(), "config parse error: bad");
}

#[test]
fn first_bad_peer_is_reported() {
    let cfg = minimal_config(|c| {
        let long_key = base64::engine::general_purpose::STANDARD.encode([1u8; 123]);
        c.peers.push(PeerConfig { node_id: "p2".into(), region: "r".into(), addr: "1.1.1.1:1".into(), shared_key: long_key });
        c.peers.push(PeerConfig { node_id: "p3".into(), region: "r".into(), addr: "1.1.1.1:1".into(), shared_key: "!".into() });
    });
    match cfg.validate().unwrap_err() {
        ConfigError::Validation(m) => assert_eq!(m, "shared_key for peer p2 must be 32 bytes (got 123)"),
        other => panic!("unexpected {other:?}"),
    }
}

#[test]
fn fec_config_defaults_to_10_plus_4() {
    let relay = RelayConfig { default_dest: "peer-01".into(), fec_data_shards: None, fec_parity_shards: None };
    let c = relay.fec_config();
    assert_eq!((c.data_shards, c.parity_shards), (10, 4));
}

#[test]
fn fec_config_takes_configured_counts() {
    let relay = RelayConfig { default_dest: "peer-01".into(), fec_data_shards: Some(20), fec_parity_shards: None };
    let c = relay.fec_config();
    assert_eq!((c.data_shards, c.parity_shards), (20, 4));
    let relay = RelayConfig { default_dest: "peer-01".into(), fec_data_shards: None, fec_parity_shards: Some(2) };
    let c = relay.fec_config();
    assert_eq!((c.data_shards, c.parity_shards), (10, 2));
}
