use plato_music_sync::cadence::{CadenceType, RoomState};
use plato_music_sync::CadenceDetector;

#[test]
fn test_cadence_pattern_over_500_ticks() {
    let mut cadence = CadenceDetector::new();

    let mut perfect_count = 0usize;
    let mut deceptive_count = 0usize;

    for cycle in 0..100 {
        // Alarm
        cadence.tick();
        cadence.record_state("engine", RoomState::Alarm);

        // Action
        cadence.tick();
        cadence.record_state("engine", RoomState::Action);

        // Resolution
        cadence.tick();
        if cycle % 7 == 6 {
            // Every 7th cycle: deceptive (new alarm instead of resolution)
            cadence.record_deceptive_transition("engine");
            deceptive_count += 1;
            // Resolve the second alarm
            cadence.tick();
            cadence.record_state("engine", RoomState::Action);
            cadence.tick();
            cadence.record_state("engine", RoomState::Resolved);
            perfect_count += 1;
        } else {
            cadence.record_state("engine", RoomState::Resolved);
            perfect_count += 1;
        }

        // Return to normal
        cadence.tick();
        cadence.record_state("engine", RoomState::Normal);
    }

    let stats = cadence.stats();
    assert!(stats.perfect >= 90);
    assert!(stats.deceptive >= 10);
    assert!(stats.total >= 100);
    assert!(cadence.current_tick() > 400, "tick was {}", cadence.current_tick());
    assert_eq!(stats.perfect, perfect_count);
    assert_eq!(stats.deceptive, deceptive_count);
    assert_eq!(cadence.count_by_type(CadenceType::Half), 0);
}

#[test]
fn engine_overheat_alarm_resolves_perfectly() {
    let mut cadence = CadenceDetector::new();
    for _ in 0..30u64 {
        cadence.tick();
    }
    cadence.record_state("engine", RoomState::Alarm);
    for _ in 30..50u64 {
        cadence.tick();
    }
    cadence.tick();
    cadence.record_state("engine", RoomState::Action);
    cadence.tick();
    let result = cadence.record_state("engine", RoomState::Resolved);
    assert_eq!(result, Some(CadenceType::Perfect));
    let p = &cadence.patterns()[0];
    assert_eq!(p.start_tick, 30);
    assert_eq!(p.end_tick, Some(52));
}
