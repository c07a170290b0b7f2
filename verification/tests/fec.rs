use entrouter_line::relay::fec::{FecConfig, FecEncoder, FecError, LossTracker};

#[test]
fn encode_decode_no_loss() {
    let config = FecConfig { data_shards: 4, parity_shards: 2 };
    let enc = FecEncoder::new(config);

    let mut shards: Vec<Vec<u8>> = (0..4).map(|i| vec![i as u8; 100]).collect();
    enc.encode(&mut shards);

    assert_eq!(shards.len(), 6);
    let mut opt: Vec<Option<Vec<u8>>> = shards.into_iter().map(Some).collect();
    enc.reconstruct(&mut opt).unwrap();
}

#[test]
fn recover_from_loss() {
    let config = FecConfig { data_shards: 4, parity_shards: 2 };
    let enc = FecEncoder::new(config);

    let original: Vec<Vec<u8>> = (0..4).map(|i| vec![i as u8 + 10; 100]).collect();

    let mut shards = original.clone();
    enc.encode(&mut shards);

    let mut opt: Vec<Option<Vec<u8>>> = shards.into_iter().map(Some).collect();
    opt[0] = None;
    opt[2] = None;

    enc.reconstruct(&mut opt).unwrap();

    assert_eq!(opt[0].as_ref().unwrap(), &original[0]);
    assert_eq!(opt[2].as_ref().unwrap(), &original[2]);
}

#[test]
fn too_many_lost_fails() {
    let config = FecConfig { data_shards: 4, parity_shards: 2 };
    let enc = FecEncoder::new(config);

    let mut shards: Vec<Vec<u8>> = (0..4).map(|i| vec![i as u8; 100]).collect();
    enc.encode(&mut shards);

    let mut opt: Vec<Option<Vec<u8>>> = shards.into_iter().map(Some).collect();
    opt[0] = None;
    opt[1] = None;
    opt[2] = None;

    assert!(enc.reconstruct(&mut opt).is_err());
}

#[test]
fn loss_tracker_adapts() {
    let mut tracker = LossTracker::new(100);

    for _ in 0..100 {
        tracker.record(true);
    }
    let config = tracker.recommended_config();
    assert_eq!(config.parity_shards, 1);

    let mut tracker2 = LossTracker::new(100);
    for i in 0..100 {
        tracker2.record(i % 20 != 0);
    }
    let config2 = tracker2.recommended_config();
    assert!(config2.parity_shards >= 4);
}

#[test]
fn total_shards() {
    let c = FecConfig { data_shards: 10, parity_shards: 4 };
    assert_eq!(c.total_shards(), 14);
}

#[test]
fn loss_tracker_window_wraparound() {
    let mut tracker = LossTracker::new(4);
    tracker.record(true);
    tracker.record(false);
    tracker.record(true);
    tracker.record(false);
    let rate = tracker.lost_count() as f64 / tracker.window_len() as f64;
    assert!((rate - 0.5).abs() < f64::EPSILON);

    tracker.record(true);
    tracker.record(true);
    let rate = tracker.lost_count() as f64 / tracker.window_len() as f64;
    assert!((rate - 0.25).abs() < f64::EPSILON);
}

fn tracker_with_losses(window: usize, lost: usize) -> LossTracker {
    let mut t = LossTracker::new(window);
    for i in 0..window {
        t.record(i >= lost);
    }
    t
}

#[test]
fn recommended_config_tiers() {
    let tiers = [(0, (20, 1)), (4, (20, 1)), (5, (10, 2)), (9, (10, 2)), (10, (10, 4)), (29, (10, 4)), (30, (8, 4)), (49, (8, 4)), (50, (6, 4)), (100, (6, 4))];
    for (lost, expected) in tiers {
        let c = tracker_with_losses(1000, lost).recommended_config();
        assert_eq!((c.data_shards, c.parity_shards), expected, "lost {lost}");
    }
    let empty = LossTracker::new(0).recommended_config();
    assert_eq!((empty.data_shards, empty.parity_shards), (6, 4));
}

#[test]
fn reconstruct_rejects_wrong_shapes() {
    let enc = FecEncoder::new(FecConfig { data_shards: 2, parity_shards: 1 });
    let mut wrong_count: Vec<Option<Vec<u8>>> = vec![Some(vec![1u8]), Some(vec![2u8])];
    assert!(matches!(enc.reconstruct(&mut wrong_count), Err(FecError::TooManyLost)));
    assert_eq!(wrong_count, vec![Some(vec![1u8]), Some(vec![2u8])]);

    let mut uneven: Vec<Option<Vec<u8>>> = vec![Some(vec![1u8, 2]), Some(vec![2u8]), None];
    assert!(enc.reconstruct(&mut uneven).is_err());
    assert_eq!(uneven[2], None);
}

#[test]
fn encode_pads_missing_data_shards_and_recovers_parity() {
    let enc = FecEncoder::new(FecConfig { data_shards: 3, parity_shards: 2 });
    let mut shards = vec![vec![1u8, 2, 3]];
    enc.encode(&mut shards);
    assert_eq!(shards.len(), 5);
    assert_eq!(shards[1], vec![0u8, 0, 0]);
    assert_eq!(shards[2], vec![0u8, 0, 0]);
    assert_ne!(shards[3], vec![0u8, 0, 0]);

    let full = shards.clone();
    let mut opt: Vec<Option<Vec<u8>>> = shards.into_iter().map(Some).collect();
    opt[3] = None;
    opt[4] = None;
    enc.reconstruct(&mut opt).unwrap();
    let back: Vec<Vec<u8>> = opt.into_iter().map(|s| s.unwrap()).collect();
    assert_eq!(back, full);
}

#[test]
fn fec_error_message() {
    assert_eq!(FecError::TooManyLost.message(), "too many shards lost to reconstruct");
}

#[test]
fn loss_window_counts_the_last_records() {
    let mut t = LossTracker::new(4);
    let run = [false, false, true, true, true, false];
    for (k, &r) in run.iter().enumerate() {
        t.record(r);
        let start = (k + 1).saturating_sub(4);
        let expected = run[start..=k].iter().filter(|&&x| !x).count();
        assert_eq!(t.lost_count(), expected);
    }
    assert_eq!(t.lost_count(), 1);
}
