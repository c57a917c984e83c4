use plato_mythos_bridge::griot_memory::{GriotMemory, RoomMemory};

/// A real rate or weight, in millionths.
fn ppm(x: f64) -> i64 {
    (x * 1_000_000.0).round() as i64
}

#[test]
fn griot_record_event() {
    let mut mem = RoomMemory::new("room-1".into(), ppm(0.1));
    mem.record_event("config_update".into());
    assert_eq!(mem.event_count(), 1);
}

#[test]
fn griot_memory_strengths_decay() {
    let mut mem = RoomMemory::new("room-1".into(), ppm(0.5));
    mem.record_event("first".into());
    mem.record_event("second".into());
    mem.record_event("third".into());
    let ages = mem.event_ages();
    assert_eq!(ages.len(), 3);
    // Most recent is youngest, so remembered most strongly
    assert!(ages[2] <= ages[0]);
    assert_eq!(ages, vec![2, 1, 0]);
}

#[test]
fn griot_tradition_score_no_traditions() {
    let mut mem = RoomMemory::new("room-1".into(), ppm(0.1));
    mem.record_event("unique".into());
    assert!(mem.tradition_summary().is_empty());
}

#[test]
fn griot_tradition_score_with_traditions() {
    let mut mem = RoomMemory::new("room-1".into(), ppm(0.1));
    mem.record_event("daily_check".into());
    mem.record_event("config_update".into());
    mem.record_event("daily_check".into());
    mem.record_event("daily_check".into());
    let stats = mem.tradition_summary();
    assert_eq!(stats.len(), 1);
    assert_eq!(stats[0].event_type, "daily_check");
    assert_eq!(stats[0].count, 3);
    assert_eq!(stats[0].last_tick, 4);
}

#[test]
fn griot_tradition_maintained() {
    let mut mem = RoomMemory::new("room-1".into(), ppm(0.1));
    mem.record_event("heartbeat".into());
    assert!(!mem.tradition_maintained("heartbeat"));
    mem.record_event("heartbeat".into());
    assert!(mem.tradition_maintained("heartbeat"));
}

#[test]
fn griot_manager_system_health() {
    let mut gm = GriotMemory::new(ppm(0.1));
    gm.add_room("room-1".into());
    gm.record("room-1", "check".into());
    gm.record("room-1", "check".into());
    let room = gm.room("room-1").unwrap();
    assert_eq!(room.tradition_summary().len(), 1);
}

#[test]
fn griot_manager_multiple_rooms() {
    let mut gm = GriotMemory::new(ppm(0.1));
    gm.add_room("A".into());
    gm.add_room("B".into());
    gm.record("A", "ping".into());
    gm.record("A", "ping".into());
    gm.record("B", "pong".into());
    assert_eq!(gm.rooms().len(), 2);
    assert_eq!(gm.room("A").unwrap().event_count(), 2);
    assert_eq!(gm.room("B").unwrap().event_count(), 1);
}

#[test]
fn griot_room_id() {
    let mem = RoomMemory::new("test-room".into(), ppm(0.1));
    assert_eq!(mem.room_id(), "test-room");
}

#[test]
fn griot_default() {
    let gm = GriotMemory::default();
    assert_eq!(gm.room_count(), 0);
}

#[test]
fn griot_empty_memory_strengths() {
    let mem = RoomMemory::new("x".into(), ppm(0.1));
    assert!(mem.event_ages().is_empty());
}

#[test]
fn griot_decay_is_clamped() {
    assert_eq!(RoomMemory::new("a".into(), ppm(2.0)).decay_rate(), 1_000_000);
    assert_eq!(RoomMemory::new("b".into(), ppm(-0.5)).decay_rate(), 0);
    assert_eq!(RoomMemory::new("c".into(), ppm(0.25)).decay_rate(), 250_000);
}

#[test]
fn griot_weighted_events_and_ticks() {
    let mut mem = RoomMemory::new("r".into(), 0);
    mem.record_weighted_event("w".into(), ppm(2.5));
    mem.record_event("w".into());
    assert_eq!(mem.current_tick(), 2);
    let events = mem.events();
    assert_eq!(events[0].weight, 2_500_000);
    assert_eq!(events[0].tick, 1);
    assert_eq!(events[1].weight, 1_000_000);
    assert_eq!(events[1].tick, 2);
}

#[test]
fn griot_record_creates_unknown_room() {
    let mut gm = GriotMemory::new(ppm(0.3));
    gm.record("new-room", "e".into());
    let room = gm.room("new-room").unwrap();
    assert_eq!(room.event_count(), 1);
    assert_eq!(room.decay_rate(), 300_000);
    gm.add_room("new-room".into());
    assert_eq!(gm.room_count(), 1);
    assert!(gm.room("other").is_none());
}

#[test]
fn griot_traditions_registry() {
    let mut mem = RoomMemory::new("r".into(), 0);
    mem.add_tradition("standup".into(), ppm(0.5));
    mem.add_tradition("standup".into(), ppm(0.9));
    mem.add_tradition("retro".into(), ppm(0.2));
    assert_eq!(mem.event_count(), 0);
}

#[test]
fn griot_summary_lists_each_recurring_type_once() {
    let mut mem = RoomMemory::new("r".into(), 0);
    for t in ["a", "b", "a", "c", "b", "a"] {
        mem.record_event(t.into());
    }
    let stats = mem.tradition_summary();
    let got: Vec<(String, usize, u64)> = stats.iter().map(|s| (s.event_type.clone(), s.count, s.last_tick)).collect();
    assert_eq!(got, vec![("a".to_string(), 3, 6), ("b".to_string(), 2, 5)]);
}

#[test]
fn griot_recording_ages_every_memory() {
    let mut m = RoomMemory::new("r".into(), ppm(0.5));
    m.record_event("a".into());
    m.record_event("b".into());
    assert_eq!(m.event_ages(), vec![1, 0]);
    m.record_weighted_event("c".into(), ppm(2.0));
    assert_eq!(m.event_ages(), vec![2, 1, 0]);
    assert_eq!(m.current_tick(), 3);
}
