use plato_music_sync::cadence::{CadenceType, RoomState};
use plato_music_sync::CadenceDetector;

#[test]
fn test_perfect_cadence() {
    let mut detector = CadenceDetector::new();
    detector.tick(); // tick 1
    let result = detector.record_state("engine", RoomState::Alarm);
    assert!(result.is_none());
    detector.tick(); // tick 2
    let result = detector.record_state("engine", RoomState::Action);
    assert!(result.is_none());
    detector.tick(); // tick 3
    let result = detector.record_state("engine", RoomState::Resolved);
    assert_eq!(result, Some(CadenceType::Perfect));
    assert_eq!(detector.count_by_type(CadenceType::Perfect), 1);
}

#[test]
fn test_deceptive_cadence() {
    let mut detector = CadenceDetector::new();
    detector.tick();
    detector.record_state("engine", RoomState::Alarm);
    detector.tick();
    detector.record_state("engine", RoomState::Action);
    detector.tick();
    let result = detector.record_deceptive_transition("engine");
    assert_eq!(result, CadenceType::Deceptive);
    assert_eq!(detector.count_by_type(CadenceType::Deceptive), 1);
}

#[test]
fn test_half_cadence() {
    let mut detector = CadenceDetector::new();
    detector.tick();
    detector.record_state("engine", RoomState::Alarm);
    // No action, no resolution — alarm still pending
    let half = detector.detect_half_cadences();
    assert_eq!(half.len(), 1);
    assert_eq!(half[0].0, "engine");
    detector.tick();
    let result = detector.finalize_half_cadence("engine");
    assert_eq!(result, Some(CadenceType::Half));
    assert_eq!(detector.count_by_type(CadenceType::Half), 1);
}

#[test]
fn test_track_pattern_over_100_ticks() {
    let mut detector = CadenceDetector::new();
    // Simulate 100 ticks with alternating cadences
    for i in 0..25 {
        detector.tick(); // alarm
        detector.record_state("engine", RoomState::Alarm);
        detector.tick(); // action
        detector.record_state("engine", RoomState::Action);
        if i % 5 == 4 {
            // Every 5th cycle: deceptive
            detector.tick();
            detector.record_deceptive_transition("engine");
            // Resolve the new alarm
            detector.tick();
            detector.record_state("engine", RoomState::Action);
            detector.tick();
            detector.record_state("engine", RoomState::Resolved);
        } else {
            detector.tick(); // resolved
            detector.record_state("engine", RoomState::Resolved);
        }
        detector.tick(); // normal
        detector.record_state("engine", RoomState::Normal);
    }
    let stats = detector.stats();
    assert!(stats.perfect >= 15); // Most should be perfect
    assert!(stats.deceptive >= 3); // Some deceptive
    assert!(stats.total >= 20);
}

#[test]
fn perfect_pattern_holds_its_three_events() {
    let mut detector = CadenceDetector::new();
    detector.tick();
    detector.record_state("engine", RoomState::Alarm);
    detector.tick();
    detector.record_state("engine", RoomState::Action);
    detector.tick();
    detector.record_state("engine", RoomState::Resolved);
    let patterns = detector.patterns();
    assert_eq!(patterns.len(), 1);
    let p = &patterns[0];
    assert_eq!(p.cadence_type, CadenceType::Perfect);
    assert_eq!(p.room_name, "engine");
    assert_eq!(p.start_tick, 1);
    assert_eq!(p.end_tick, Some(3));
    let states: Vec<RoomState> = p.events.iter().map(|e| e.state).collect();
    assert_eq!(states, vec![RoomState::Alarm, RoomState::Action, RoomState::Resolved]);
    let ticks: Vec<u64> = p.events.iter().map(|e| e.tick).collect();
    assert_eq!(ticks, vec![1, 2, 3]);
    assert!(detector.detect_half_cadences().is_empty());
}

#[test]
fn resolution_without_alarm_completes_nothing() {
    let mut detector = CadenceDetector::new();
    assert_eq!(detector.record_state("engine", RoomState::Resolved), None);
    assert_eq!(detector.record_state("engine", RoomState::Action), None);
    assert_eq!(detector.record_state("engine", RoomState::Normal), None);
    assert_eq!(detector.stats().total, 0);
    assert!(detector.patterns().is_empty());
}

#[test]
fn deceptive_without_open_sequence_records_nothing() {
    let mut detector = CadenceDetector::new();
    assert_eq!(detector.record_deceptive_transition("engine"), CadenceType::Deceptive);
    assert_eq!(detector.count_by_type(CadenceType::Deceptive), 0);
    assert!(detector.detect_half_cadences().is_empty());
}

#[test]
fn deceptive_transition_opens_a_fresh_alarm() {
    let mut detector = CadenceDetector::new();
    detector.record_state("bilge", RoomState::Alarm);
    detector.tick();
    detector.record_state("bilge", RoomState::Action);
    detector.tick();
    detector.record_deceptive_transition("bilge");
    let p = &detector.patterns()[0];
    assert_eq!(p.cadence_type, CadenceType::Deceptive);
    assert_eq!(p.start_tick, 0);
    assert_eq!(p.end_tick, Some(2));
    assert_eq!(p.events.len(), 3);
    assert_eq!(p.events[2].state, RoomState::Alarm);
    let half = detector.detect_half_cadences();
    assert_eq!(half, vec![("bilge", 2)]);
}

#[test]
fn half_cadence_has_no_end_and_closes_the_alarm() {
    let mut detector = CadenceDetector::new();
    detector.tick();
    detector.record_state("galley", RoomState::Alarm);
    detector.tick();
    detector.record_state("galley", RoomState::Action);
    assert_eq!(detector.finalize_half_cadence("galley"), Some(CadenceType::Half));
    assert_eq!(detector.finalize_half_cadence("galley"), None);
    let p = &detector.patterns()[0];
    assert_eq!(p.start_tick, 1);
    assert_eq!(p.end_tick, None);
    assert_eq!(p.events.len(), 2);
    assert_eq!(detector.record_state("galley", RoomState::Resolved), None);
}

#[test]
fn pending_alarms_of_several_rooms() {
    let mut detector = CadenceDetector::new();
    detector.record_state("engine", RoomState::Alarm);
    detector.tick();
    detector.record_state("bilge", RoomState::Alarm);
    detector.tick();
    detector.record_state("bridge", RoomState::Normal);
    detector.record_state("engine", RoomState::Action);
    let mut half = detector.detect_half_cadences();
    half.sort();
    assert_eq!(half, vec![("bilge", 1), ("engine", 0)]);
    assert_eq!(detector.current_tick(), 2);
}

#[test]
fn stats_total_is_sum_of_types() {
    let mut detector = CadenceDetector::new();
    detector.record_state("a", RoomState::Alarm);
    detector.record_state("a", RoomState::Resolved);
    detector.record_state("b", RoomState::Alarm);
    detector.record_deceptive_transition("b");
    detector.finalize_half_cadence("b");
    let stats = detector.stats();
    assert_eq!(stats.perfect, 1);
    assert_eq!(stats.deceptive, 1);
    assert_eq!(stats.half, 1);
    assert_eq!(stats.total, 3);
    assert_eq!(stats.total, detector.patterns().len());
}

#[test]
fn new_alarm_after_action_is_deceptive() {
    let mut detector = CadenceDetector::new();

    // Alarm, action, resolved: a perfect cadence
    detector.tick();
    detector.record_state("engine", RoomState::Alarm);
    detector.tick();
    detector.record_state("engine", RoomState::Action);
    detector.tick();
    let result = detector.record_state("engine", RoomState::Resolved);
    assert_eq!(result, Some(CadenceType::Perfect));

    // Alarm, action, new alarm: a deceptive cadence
    detector.tick();
    detector.record_state("engine", RoomState::Alarm);
    detector.tick();
    detector.record_state("engine", RoomState::Action);
    detector.tick();
    let result = detector.record_state("engine", RoomState::Alarm);
    assert_eq!(result, Some(CadenceType::Deceptive));

    let stats = detector.stats();
    assert_eq!(stats.perfect, 1);
    assert_eq!(stats.deceptive, 1);
    assert_eq!(stats.half, 0);

    let p = &detector.patterns()[1];
    assert_eq!(p.start_tick, 4);
    assert_eq!(p.end_tick, Some(6));
    let states: Vec<RoomState> = p.events.iter().map(|e| e.state).collect();
    assert_eq!(states, vec![RoomState::Alarm, RoomState::Action, RoomState::Alarm]);
    // the new alarm stays pending
    assert_eq!(detector.detect_half_cadences(), vec![("engine", 6)]);
}

#[test]
fn repeated_alarm_without_action_restarts_the_sequence() {
    let mut detector = CadenceDetector::new();
    detector.record_state("engine", RoomState::Alarm);
    detector.tick();
    assert_eq!(detector.record_state("engine", RoomState::Alarm), None);
    assert_eq!(detector.stats().total, 0);
    assert_eq!(detector.detect_half_cadences(), vec![("engine", 1)]);
}
