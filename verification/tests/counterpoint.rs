use plato_music_sync::counterpoint::Direction::{Down, Stable, Up};
use plato_music_sync::counterpoint::{tally_motions, MotionCounts, MotionType};

#[test]
fn motion_between_directions() {
    assert_eq!(MotionType::between(Up, Down), MotionType::Contrary);
    assert_eq!(MotionType::between(Down, Up), MotionType::Contrary);
    assert_eq!(MotionType::between(Up, Up), MotionType::Parallel);
    assert_eq!(MotionType::between(Down, Down), MotionType::Parallel);
    assert_eq!(MotionType::between(Stable, Up), MotionType::Oblique);
    assert_eq!(MotionType::between(Down, Stable), MotionType::Oblique);
    assert_eq!(MotionType::between(Stable, Stable), MotionType::Oblique);
}

#[test]
fn tally_counts_known_steps_only() {
    let steps = vec![
        Some((Up, Down)),
        Some((Up, Down)),
        None,
        Some((Up, Up)),
        Some((Stable, Down)),
        None,
    ];
    assert_eq!(
        tally_motions(&steps),
        MotionCounts { contrary: 2, parallel: 1, oblique: 1 }
    );
    assert_eq!(tally_motions(&[]), MotionCounts { contrary: 0, parallel: 0, oblique: 0 });
}
