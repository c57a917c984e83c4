use plato_mythos_bridge::palaver_consensus::{Mean, Move, PalaverConsensus, RoomConfig, RoomConsensus};

/// A real value, in millionths.
fn micro(x: f64) -> i64 {
    (x * 1_000_000.0).round() as i64
}

/// A value in millionths, as a real number.
fn unit_value(x: i64) -> f64 {
    x as f64 / 1_000_000.0
}

/// An exact move, as a real number.
fn move_value(m: Move) -> f64 {
    m.numerator as f64 / m.count as f64 / 2f64.powi(m.halvings as i32) / 1_000_000.0
}

/// An exact mean of millionths, as a real number.
fn value(m: Mean) -> f64 {
    m.total as f64 / m.count as f64 / 1_000_000.0
}

#[test]
fn palaver_two_rooms_converge() {
    let mut consensus = RoomConsensus::new(micro(0.001), 50);
    let mut c1 = RoomConfig::new("A".into());
    c1.set("timeout", micro(10.0));
    let mut c2 = RoomConfig::new("B".into());
    c2.set("timeout", micro(20.0));
    consensus.add_room("A".into(), c1);
    consensus.add_room("B".into(), c2);
    let (result, history) = consensus.negotiate(50);
    let timeout = value(result.get("timeout").unwrap());
    assert!((timeout - 15.0).abs() < 0.5, "Expected ~15.0, got {}", timeout);
    assert!(history.last().unwrap().converged);
}

#[test]
fn palaver_three_rooms() {
    let mut consensus = RoomConsensus::new(micro(0.01), 50);
    let mut c1 = RoomConfig::new("A".into());
    c1.set("max_conn", micro(5.0));
    let mut c2 = RoomConfig::new("B".into());
    c2.set("max_conn", micro(10.0));
    let mut c3 = RoomConfig::new("C".into());
    c3.set("max_conn", micro(15.0));
    consensus.add_room("A".into(), c1);
    consensus.add_room("B".into(), c2);
    consensus.add_room("C".into(), c3);
    let (result, _) = consensus.negotiate(50);
    assert!((value(result.get("max_conn").unwrap()) - 10.0).abs() < 1.0);
}

#[test]
fn palaver_convergence_tracking() {
    let mut consensus = RoomConsensus::new(micro(0.01), 50);
    let mut c1 = RoomConfig::new("A".into());
    c1.set("val", micro(0.0));
    let mut c2 = RoomConfig::new("B".into());
    c2.set("val", micro(100.0));
    consensus.add_room("A".into(), c1);
    consensus.add_room("B".into(), c2);
    let (_, history) = consensus.negotiate(50);
    // Delta should decrease over rounds
    assert!(history.len() > 1);
    assert!(move_value(history.last().unwrap().max_delta) <= move_value(history.first().unwrap().max_delta));
}

#[test]
fn palaver_room_count() {
    let mut consensus = RoomConsensus::new(micro(0.01), 10);
    assert_eq!(consensus.room_count(), 0);
    let c = RoomConfig::new("X".into());
    consensus.add_room("X".into(), c);
    assert_eq!(consensus.room_count(), 1);
}

#[test]
fn palaver_empty_negotiation() {
    let mut consensus = RoomConsensus::new(micro(0.01), 10);
    let (result, history) = consensus.negotiate(5);
    assert!(result.settings.is_empty());
    assert!(history.is_empty());
}

#[test]
fn palaver_config_set_get() {
    let mut c = RoomConfig::new("test".into());
    c.set("key", micro(42.0));
    assert_eq!(c.get("key"), Some(micro(42.0)));
    assert_eq!(c.get("missing"), None);
}

#[test]
fn palaver_create_consensus() {
    let c = PalaverConsensus::create_consensus(micro(0.05));
    assert_eq!(c.room_count(), 0);
}

#[test]
fn palaver_multiple_settings() {
    let mut consensus = RoomConsensus::new(micro(0.01), 50);
    let mut c1 = RoomConfig::new("A".into());
    c1.set("x", micro(1.0));
    c1.set("y", micro(10.0));
    let mut c2 = RoomConfig::new("B".into());
    c2.set("x", micro(9.0));
    c2.set("y", micro(20.0));
    consensus.add_room("A".into(), c1);
    consensus.add_room("B".into(), c2);
    let (result, _) = consensus.negotiate(50);
    assert!((value(result.get("x").unwrap()) - 5.0).abs() < 1.0);
    assert!((value(result.get("y").unwrap()) - 15.0).abs() < 1.0);
}

#[test]
fn palaver_first_round_exact() {
    let mut consensus = RoomConsensus::new(0, 1);
    let mut c1 = RoomConfig::new("A".into());
    c1.set("v", 0);
    let mut c2 = RoomConfig::new("B".into());
    c2.set("v", 100);
    consensus.add_room("A".into(), c1);
    consensus.add_room("B".into(), c2);
    let (result, history) = consensus.negotiate(7);
    // Capped at one round: each moves half way to the mean 50.
    assert_eq!(history.len(), 1);
    assert_eq!(history[0].round, 1);
    assert_eq!(history[0].max_delta, Move { numerator: 100, count: 2, halvings: 1 });
    assert_eq!(move_value(history[0].max_delta), 25.0 / 1_000_000.0);
    assert!(!history[0].converged);
    assert_eq!(result.get("v"), Some(Mean { total: 100, count: 2 }));
    assert_eq!(result.room_id, "consensus");
}

#[test]
fn palaver_keys_missing_in_some_rooms() {
    let mut consensus = RoomConsensus::new(1, 10);
    let mut c1 = RoomConfig::new("A".into());
    c1.set("a", 10);
    let mut c2 = RoomConfig::new("B".into());
    c2.set("b", 7);
    c2.set("a", 30);
    consensus.add_room("A".into(), c1);
    consensus.add_room("B".into(), c2);
    let (result, history) = consensus.negotiate(10);
    assert_eq!(result.get("b"), Some(Mean { total: 7, count: 1 }));
    assert_eq!(result.get("a"), Some(Mean { total: 40, count: 2 }));
    let keys: Vec<String> = result.settings.iter().map(|e| e.0.clone()).collect();
    assert_eq!(keys, vec!["a".to_string(), "b".to_string()]);
    for (i, h) in history.iter().enumerate() {
        assert_eq!(h.round as usize, i + 1);
    }
    assert!(history.last().unwrap().converged);
}

#[test]
fn palaver_set_replaces() {
    let mut c = RoomConfig::new("r".into());
    c.set("k", 1);
    c.set("k", 2);
    assert_eq!(c.settings.len(), 1);
    assert_eq!(c.get("k"), Some(2));
}

#[test]
fn palaver_zero_rounds() {
    let mut consensus = RoomConsensus::new(1, 10);
    let mut c1 = RoomConfig::new("A".into());
    c1.set("a", 3);
    consensus.add_room("A".into(), c1);
    let (result, history) = consensus.negotiate(0);
    assert!(history.is_empty());
    assert_eq!(result.get("a"), Some(Mean { total: 3, count: 1 }));
}

#[test]
fn palaver_agreeing_rooms_are_settled() {
    let mut c = RoomConsensus::new(micro(0.01), 10);
    for id in ["a", "b", "c"] {
        let mut cfg = RoomConfig::new(id.into());
        cfg.set("rate", micro(0.75));
        if id != "b" {
            cfg.set("size", micro(-3.0));
        }
        c.add_room(id.into(), cfg);
    }
    let (consensus, history) = c.negotiate(10);
    assert_eq!(history.len(), 1);
    assert_eq!(history[0].round, 1);
    assert_eq!(history[0].max_delta.numerator, 0);
    assert_eq!(move_value(history[0].max_delta), 0.0);
    assert!(history[0].converged);
    assert_eq!(consensus.get("rate"), Some(Mean { total: 3 * micro(0.75) as i128, count: 3 }));
    assert_eq!(consensus.get("size"), Some(Mean { total: 2 * micro(-3.0) as i128, count: 2 }));
}

#[test]
fn palaver_moves_never_grow() {
    let mut c = RoomConsensus::new(0, 30);
    let values = [(-7.5, 3.25), (12.0, -1.0), (0.125, 100.0), (3.0, 3.0)];
    for (i, (a, b)) in values.iter().enumerate() {
        let mut cfg = RoomConfig::new(format!("room-{}", i));
        cfg.set("alpha", micro(*a));
        if i % 2 == 0 {
            cfg.set("beta", micro(*b));
        }
        c.add_room(format!("room-{}", i), cfg);
    }
    let (_, history) = c.negotiate(30);
    assert!(history.len() > 2);
    for pair in history.windows(2) {
        assert_eq!(pair[1].max_delta.numerator, pair[0].max_delta.numerator);
        assert_eq!(pair[1].max_delta.count, pair[0].max_delta.count);
        assert_eq!(pair[1].max_delta.halvings, pair[0].max_delta.halvings + 1);
        assert_eq!(move_value(pair[1].max_delta) * 2.0, move_value(pair[0].max_delta));
    }
}

#[test]
fn palaver_round_keeps_mean() {
    let mut c = RoomConsensus::new(0, 1);
    for (i, v) in [1i64, 2, 4, -9, 17].iter().enumerate() {
        let mut cfg = RoomConfig::new(format!("r{}", i));
        cfg.set("k", *v);
        c.add_room(format!("r{}", i), cfg);
    }
    // mean of 1, 2, 4, -9, 17 is 15 / 5 = 3, whatever the rounds did
    for _ in 0..6 {
        let (consensus, history) = c.negotiate(1);
        assert_eq!(history.len(), 1);
        assert_eq!(consensus.get("k"), Some(Mean { total: 15, count: 5 }));
    }
}

#[test]
fn palaver_consensus_is_the_exact_mean() {
    // 0, 0.000001 and 0.000005: the mean 0.000002 is kept exactly
    let mut c = RoomConsensus::new(0, 10);
    for (i, v) in [0i64, 1, 5].iter().enumerate() {
        let mut cfg = RoomConfig::new(format!("r{}", i));
        cfg.set("k", *v);
        c.add_room(format!("r{}", i), cfg);
    }
    let (consensus, _) = c.negotiate(10);
    assert_eq!(consensus.get("k"), Some(Mean { total: 6, count: 3 }));
    assert!((value(consensus.get("k").unwrap()) - 0.000002).abs() < 1e-18);
    // a third of a millionth is kept too
    let mut c = RoomConsensus::new(0, 3);
    for (i, v) in [0i64, 0, 1].iter().enumerate() {
        let mut cfg = RoomConfig::new(format!("r{}", i));
        cfg.set("k", *v);
        c.add_room(format!("r{}", i), cfg);
    }
    let (consensus, _) = c.negotiate(3);
    assert_eq!(consensus.get("k"), Some(Mean { total: 1, count: 3 }));
}

#[test]
fn palaver_rounds_halve_exactly() {
    // 0, 0.000001 and 0.000005 with threshold 0: the mean is 0.000002, and the farthest
    // setting (0.000005) moves 0.0000015, then 0.00000075, ...
    let mut c = RoomConsensus::new(0, 10);
    for (i, v) in [0i64, 1, 5].iter().enumerate() {
        let mut cfg = RoomConfig::new(format!("r{}", i));
        cfg.set("k", *v);
        c.add_room(format!("r{}", i), cfg);
    }
    let (_, history) = c.negotiate(10);
    assert_eq!(history.len(), 10);
    assert_eq!(history[0].max_delta, Move { numerator: 9, count: 3, halvings: 1 });
    assert_eq!(history[1].max_delta, Move { numerator: 9, count: 3, halvings: 2 });
    assert_eq!(move_value(history[0].max_delta), 0.0000015);
    assert_eq!(move_value(history[1].max_delta), 0.00000075);
    assert!(history.iter().all(|h| !h.converged));
    assert_eq!(c.halvings(), 10);
}

#[test]
fn palaver_thirteenth_round_is_exact() {
    let mut consensus = RoomConsensus::new(micro(0.01), 50);
    let mut c1 = RoomConfig::new("A".into());
    c1.set("val", micro(0.0));
    let mut c2 = RoomConfig::new("B".into());
    c2.set("val", micro(100.0));
    consensus.add_room("A".into(), c1);
    consensus.add_room("B".into(), c2);
    let (_, history) = consensus.negotiate(50);
    assert_eq!(history.len(), 13);
    assert_eq!(move_value(history[0].max_delta), 25.0);
    assert_eq!(history[12].max_delta, Move { numerator: 100_000_000, count: 2, halvings: 13 });
    assert_eq!(move_value(history[12].max_delta), 0.006103515625);
    assert!(history[12].converged);
    assert!(!history[11].converged);
}

#[test]
fn palaver_join_after_rounds_settles_the_others() {
    // Two rooms at 0 and 1 after two rounds sit at 0.375 and 0.625 millionths; rounded down
    // they become 0 and 0, and a third room joins at 9.
    let mut c = RoomConsensus::new(0, 10);
    for (i, v) in [0i64, 1].iter().enumerate() {
        let mut cfg = RoomConfig::new(format!("r{}", i));
        cfg.set("k", *v);
        c.add_room(format!("r{}", i), cfg);
    }
    let (_, history) = c.negotiate(2);
    assert_eq!(history[1].max_delta, Move { numerator: 1, count: 2, halvings: 2 });
    assert_eq!(c.halvings(), 2);
    let mut cfg = RoomConfig::new("r2".into());
    cfg.set("k", 9);
    c.add_room("r2".into(), cfg);
    assert_eq!(c.halvings(), 0);
    assert_eq!(c.room_count(), 3);
    let (consensus, history) = c.negotiate(1);
    // anchors 0, 0, 9: mean 3, farthest distance 6
    assert_eq!(history[0].max_delta, Move { numerator: 18, count: 3, halvings: 1 });
    // the consensus keeps the mean of the values as proposed: (0 + 1 + 9) / 3
    assert_eq!(consensus.get("k"), Some(Mean { total: 10, count: 3 }));
}
