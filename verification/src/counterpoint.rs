//! Counterpoint analysis: the kind of motion between two rooms' values.
//!
//! - **Contrary motion**: one room's value goes up while the other goes down (productive).
//! - **Parallel motion**: both go the same direction (potentially redundant).
//! - **Oblique motion**: one stable, the other changing or stable (normal operation).
//!
//! Deciding the direction of a room's value change compares measured values; what follows
//! from the directions — the motion between two rooms and the tally over a history — is
//! decided here.
use vstd::prelude::*;

verus! {

/// Direction of a room's value change.
#[derive(Debug, Clone, Copy, PartialEq, Eq, Structural)]
pub enum Direction {
    Up,
    Down,
    Stable,
}

/// Type of motion between two rooms.
#[derive(Debug, Clone, Copy, PartialEq, Eq, Structural)]
pub enum MotionType {
    /// The rooms move in opposite directions — productive interaction.
    Contrary,
    /// The rooms move in the same direction — potentially redundant.
    Parallel,
    /// One room stable — normal operation.
    Oblique,
}

/// The motion of two rooms whose values moved in directions `a` and `b`.
pub open spec fn spec_motion(a: Direction, b: Direction) -> MotionType {
    match (a, b) {
        (Direction::Up, Direction::Down) | (Direction::Down, Direction::Up) => MotionType::Contrary,
        (Direction::Up, Direction::Up) | (Direction::Down, Direction::Down) => MotionType::Parallel,
        _ => MotionType::Oblique,
    }
}

impl MotionType {
    /// Classify the motion of two rooms from the directions of their changes.
    pub fn between(dir_a: Direction, dir_b: Direction) -> (res: MotionType)
        ensures
            res == spec_motion(dir_a, dir_b),
    {
        match (dir_a, dir_b) {
            (Direction::Up, Direction::Down) | (Direction::Down, Direction::Up) => {
                MotionType::Contrary
            },
            (Direction::Up, Direction::Up) | (Direction::Down, Direction::Down) => {
                MotionType::Parallel
            },
            (Direction::Stable, _) | (_, Direction::Stable) => MotionType::Oblique,
        }
    }
}

/// Number of steps of each motion type in a history.
#[derive(Debug, Clone, Copy, PartialEq, Eq, Structural)]
pub struct MotionCounts {
    pub contrary: usize,
    pub parallel: usize,
    pub oblique: usize,
}

/// Number of steps, among those where both rooms' directions are known, whose motion is `t`.
pub open spec fn count_motion(steps: Seq<Option<(Direction, Direction)>>, t: MotionType) -> nat
    decreases steps.len(),
{
    if steps.len() == 0 {
        0
    } else {
        count_motion(steps.drop_last(), t) + match steps.last() {
            Some((a, b)) => if spec_motion(a, b) == t {
                1nat
            } else {
                0nat
            },
            None => 0nat,
        }
    }
}

/// Number of steps where both rooms' directions are known.
pub open spec fn count_known(steps: Seq<Option<(Direction, Direction)>>) -> nat
    decreases steps.len(),
{
    if steps.len() == 0 {
        0
    } else {
        count_known(steps.drop_last()) + if steps.last() is Some {
            1nat
        } else {
            0nat
        }
    }
}

/// Count the motion types over a history of steps; a step is `None` when the direction of
/// either room is unknown at that step, and such steps are not counted.
pub fn tally_motions(steps: &[Option<(Direction, Direction)>]) -> (res: MotionCounts)
    ensures
        res.contrary == count_motion(steps@, MotionType::Contrary),
        res.parallel == count_motion(steps@, MotionType::Parallel),
        res.oblique == count_motion(steps@, MotionType::Oblique),
        res.contrary + res.parallel + res.oblique == count_known(steps@),
{
    let n = steps.len();
    let mut contrary: usize = 0;
    let mut parallel: usize = 0;
    let mut oblique: usize = 0;
    let mut i: usize = 0;
    while i < n
        invariant
            n == steps@.len(),
            0 <= i <= n,
            contrary == count_motion(steps@.take(i as int), MotionType::Contrary),
            parallel == count_motion(steps@.take(i as int), MotionType::Parallel),
            oblique == count_motion(steps@.take(i as int), MotionType::Oblique),
            contrary + parallel + oblique <= i,
        decreases n - i,
    {
        proof {
            assert(steps@.take(i + 1).drop_last() =~= steps@.take(i as int));
        }
        match steps[i] {
            Some((a, b)) => match MotionType::between(a, b) {
                MotionType::Contrary => contrary = contrary + 1,
                MotionType::Parallel => parallel = parallel + 1,
                MotionType::Oblique => oblique = oblique + 1,
            },
            None => {},
        }
        i = i + 1;
    }
    proof {
        assert(steps@.take(n as int) =~= steps@);
        lemma_motion_counts_partition(steps@);
    }
    MotionCounts { contrary, parallel, oblique }
}

/// Every step with both directions known has exactly one motion type.
pub proof fn lemma_motion_counts_partition(steps: Seq<Option<(Direction, Direction)>>)
    ensures
        count_motion(steps, MotionType::Contrary) + count_motion(steps, MotionType::Parallel)
            + count_motion(steps, MotionType::Oblique) == count_known(steps),
    decreases steps.len(),
{
    if steps.len() > 0 {
        lemma_motion_counts_partition(steps.drop_last());
    }
}

/// The motion between two rooms does not depend on which room is named first; it is contrary
/// exactly when both move in opposite directions, parallel exactly when both move the same
/// direction, and oblique exactly when at least one is stable.
pub proof fn lemma_motion_symmetric(a: Direction, b: Direction)
    ensures
        spec_motion(a, b) == spec_motion(b, a),
        spec_motion(a, b) == MotionType::Contrary <==> (a != Direction::Stable && b
            != Direction::Stable && a != b),
        spec_motion(a, b) == MotionType::Parallel <==> (a != Direction::Stable && a == b),
        spec_motion(a, b) == MotionType::Oblique <==> (a == Direction::Stable || b
            == Direction::Stable),
{
}

/// Appending one step to a history changes the tallies as the motion of that step says: a
/// step where the rooms move in opposite directions adds one contrary motion, a step where
/// both move the same direction adds one parallel motion, a step where at least one room is
/// stable adds one oblique motion, and a step with an unknown direction adds nothing.
pub proof fn lemma_count_motion_step(
    steps: Seq<Option<(Direction, Direction)>>,
    step: Option<(Direction, Direction)>,
)
    ensures
        count_motion(steps.push(step), MotionType::Contrary) == count_motion(
            steps,
            MotionType::Contrary,
        ) + match step {
            Some((a, b)) => if (a == Direction::Up && b == Direction::Down) || (a == Direction::Down
                && b == Direction::Up) {
                1nat
            } else {
                0nat
            },
            None => 0nat,
        },
        count_motion(steps.push(step), MotionType::Parallel) == count_motion(
            steps,
            MotionType::Parallel,
        ) + match step {
            Some((a, b)) => if a != Direction::Stable && a == b {
                1nat
            } else {
                0nat
            },
            None => 0nat,
        },
        count_motion(steps.push(step), MotionType::Oblique) == count_motion(
            steps,
            MotionType::Oblique,
        ) + match step {
            Some((a, b)) => if a == Direction::Stable || b == Direction::Stable {
                1nat
            } else {
                0nat
            },
            None => 0nat,
        },
        count_known(steps.push(step)) == count_known(steps) + if step is Some {
            1nat
        } else {
            0nat
        },
{
    assert(steps.push(step).drop_last() =~= steps);
}

/// A history with no steps has no motion of any type.
pub proof fn lemma_count_motion_empty(t: MotionType)
    ensures
        count_motion(Seq::<Option<(Direction, Direction)>>::empty(), t) == 0,
        count_known(Seq::<Option<(Direction, Direction)>>::empty()) == 0,
{
}

} // verus!
