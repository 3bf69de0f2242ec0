//! Cadence detection: resolution patterns in room state.
//!
//! - **Perfect cadence**: alarm, then action, then resolved.
//! - **Deceptive cadence**: alarm, then action, then a new alarm instead of a resolution.
//! - **Half cadence**: an alarm still pending.
//!
//! The detector is specified as a state machine over [`DetectorView`]: every operation's
//! contract says which transition of the view it performs.
use vstd::prelude::*;
use crate::room_map::RoomMap;

verus! {

/// Type of cadence detected.
#[derive(Debug, Clone, Copy, PartialEq, Eq, Structural)]
pub enum CadenceType {
    /// Alarm triggered, action taken, alarm resolved.
    Perfect,
    /// Alarm triggered, action taken, new alarm appeared.
    Deceptive,
    /// Alarm triggered, still pending resolution.
    Half,
}

/// A state of a room.
#[derive(Debug, Clone, Copy, PartialEq, Eq, Structural)]
pub enum RoomState {
    Normal,
    Alarm,
    Action,
    Resolved,
}

/// A recorded state change of a room.
#[derive(Debug, Clone)]
pub struct CadenceEvent {
    pub room_name: String,
    pub state: RoomState,
    pub tick: u64,
}

/// A completed cadence pattern.
#[derive(Debug, Clone)]
pub struct CadencePattern {
    pub cadence_type: CadenceType,
    pub room_name: String,
    pub start_tick: u64,
    pub end_tick: Option<u64>,
    pub events: Vec<CadenceEvent>,
}

/// Summary statistics of cadence patterns.
#[derive(Debug, Clone)]
pub struct CadenceStats {
    pub perfect: usize,
    pub deceptive: usize,
    pub half: usize,
    pub total: usize,
}

/// The cadence detector tracks resolution patterns.
#[derive(Debug, Clone)]
pub struct CadenceDetector {
    /// Current state per room.
    room_states: RoomMap<RoomState>,
    /// Open sequences per room (an alarm and what followed it).
    active_sequences: RoomMap<Vec<CadenceEvent>>,
    /// Completed cadence patterns, oldest first.
    patterns: Vec<CadencePattern>,
    /// Current tick counter.
    current_tick: u64,
}

/// Mathematical model of an event.
pub struct EventView {
    pub room: Seq<char>,
    pub state: RoomState,
    pub tick: u64,
}

/// Mathematical model of a pattern.
pub struct PatternView {
    pub cadence_type: CadenceType,
    pub room: Seq<char>,
    pub start_tick: u64,
    pub end_tick: Option<u64>,
    pub events: Seq<EventView>,
}

/// Mathematical model of the detector: the last state of each room, the open sequence of
/// each room with an alarm in progress, the completed patterns in order, and the tick.
pub struct DetectorView {
    pub states: Map<Seq<char>, RoomState>,
    pub active: Map<Seq<char>, Seq<EventView>>,
    pub patterns: Seq<PatternView>,
    pub tick: u64,
}

impl View for CadenceEvent {
    type V = EventView;

    open spec fn view(&self) -> EventView {
        EventView { room: self.room_name@, state: self.state, tick: self.tick }
    }
}

/// The models of a sequence of events.
pub open spec fn events_view(events: Seq<CadenceEvent>) -> Seq<EventView> {
    events.map_values(|e: CadenceEvent| e@)
}

impl View for CadencePattern {
    type V = PatternView;

    open spec fn view(&self) -> PatternView {
        PatternView {
            cadence_type: self.cadence_type,
            room: self.room_name@,
            start_tick: self.start_tick,
            end_tick: self.end_tick,
            events: events_view(self.events@),
        }
    }
}

/// The models of a sequence of patterns.
pub open spec fn patterns_view(patterns: Seq<CadencePattern>) -> Seq<PatternView> {
    patterns.map_values(|p: CadencePattern| p@)
}

/// Tick of the first event, or `default` when there is none.
pub open spec fn start_tick_of(events: Seq<EventView>, default: u64) -> u64 {
    if events.len() > 0 {
        events[0].tick
    } else {
        default
    }
}

/// A sequence that begins with an alarm.
pub open spec fn opens_with_alarm(events: Seq<EventView>) -> bool {
    events.len() > 0 && events[0].state == RoomState::Alarm
}

/// Number of patterns of the given type.
pub open spec fn count_type(patterns: Seq<PatternView>, cadence_type: CadenceType) -> nat
    decreases patterns.len(),
{
    if patterns.len() == 0 {
        0
    } else {
        count_type(patterns.drop_last(), cadence_type) + if patterns.last().cadence_type
            == cadence_type {
            1nat
        } else {
            0nat
        }
    }
}

/// An open or completed sequence of `room`: it starts with an alarm, all its events belong to
/// `room`, happened no later than `now`, and are in tick order.
pub open spec fn sequence_well_formed(events: Seq<EventView>, room: Seq<char>, now: u64) -> bool {
    &&& opens_with_alarm(events)
    &&& forall|i: int| 0 <= i < events.len() ==> (#[trigger] events[i]).room == room
        && events[i].tick <= now
    &&& forall|i: int, j: int|
        0 <= i <= j < events.len() ==> (#[trigger] events[i]).tick <= (#[trigger] events[j]).tick
}

/// Every event at positions `1 .. upto` is an action.
pub open spec fn actions_between(events: Seq<EventView>, upto: int) -> bool {
    forall|i: int| 1 <= i < upto ==> (#[trigger] events[i]).state == RoomState::Action
}

/// A completed pattern: a well-formed sequence whose first event gives the start tick, whose
/// inner events are actions, and whose type matches how it ended.
pub open spec fn pattern_well_formed(p: PatternView, now: u64) -> bool {
    &&& sequence_well_formed(p.events, p.room, now)
    &&& actions_between(p.events, p.events.len() - 1)
    &&& p.start_tick == p.events[0].tick
    &&& match p.cadence_type {
        CadenceType::Perfect => {
            &&& p.events.last().state == RoomState::Resolved
            &&& p.end_tick == Some(p.events.last().tick)
        },
        CadenceType::Deceptive => {
            &&& p.events.len() >= 2
            &&& p.events.last().state == RoomState::Alarm
            &&& p.end_tick == Some(p.events.last().tick)
        },
        CadenceType::Half => p.end_tick is None,
    }
}

impl DetectorView {
    /// The detector before anything is recorded.
    pub open spec fn initial() -> DetectorView {
        DetectorView {
            states: Map::empty(),
            active: Map::empty(),
            patterns: Seq::empty(),
            tick: 0,
        }
    }

    /// What every reachable detector satisfies.
    pub open spec fn inv(self) -> bool {
        &&& forall|r: Seq<char>| #[trigger]
            self.active.contains_key(r) ==> sequence_well_formed(self.active[r], r, self.tick)
                && actions_between(self.active[r], self.active[r].len() as int)
                && self.states.contains_key(r)
        &&& forall|i: int|
            0 <= i < self.patterns.len() ==> pattern_well_formed(
                #[trigger] self.patterns[i],
                self.tick,
            )
    }

    /// An event of `room` in `state` at the current tick.
    pub open spec fn event(self, room: Seq<char>, state: RoomState) -> EventView {
        EventView { room, state, tick: self.tick }
    }

    /// The detector one tick later.
    pub open spec fn after_tick(self) -> DetectorView {
        DetectorView {
            states: self.states,
            active: self.active,
            patterns: self.patterns,
            tick: (self.tick + 1) as u64,
        }
    }

    /// Whether an alarm of `room` now would follow an action of its open sequence, so that
    /// the alarm ends that sequence as a deceptive cadence.
    pub open spec fn alarm_is_deceptive(self, room: Seq<char>) -> bool {
        &&& self.active.contains_key(room)
        &&& self.active[room].len() > 0
        &&& self.active[room].last().state == RoomState::Action
    }

    /// The detector after `room` reports `state`, and the cadence completed by it, if any.
    ///
    /// An alarm after an action closes the open sequence as a deceptive cadence and opens a
    /// fresh one with the new alarm; any other alarm opens a fresh sequence. An action extends
    /// an open sequence; a resolution closes an open sequence as a perfect cadence; a return
    /// to normal changes no sequence.
    pub open spec fn after_record_state(self, room: Seq<char>, state: RoomState) -> (
        DetectorView,
        Option<CadenceType>,
    ) {
        let ev = self.event(room, state);
        let states = self.states.insert(room, state);
        match state {
            RoomState::Alarm => if self.alarm_is_deceptive(room) {
                let closed = self.after_deceptive_transition(room);
                (
                    DetectorView {
                        states,
                        active: closed.active,
                        patterns: closed.patterns,
                        tick: self.tick,
                    },
                    Some(CadenceType::Deceptive),
                )
            } else {
                (
                    DetectorView {
                        states,
                        active: self.active.insert(room, seq![ev]),
                        patterns: self.patterns,
                        tick: self.tick,
                    },
                    None,
                )
            },
            RoomState::Action => (
                DetectorView {
                    states,
                    active: if self.active.contains_key(room) {
                        self.active.insert(room, self.active[room].push(ev))
                    } else {
                        self.active
                    },
                    patterns: self.patterns,
                    tick: self.tick,
                },
                None,
            ),
            RoomState::Resolved => if self.active.contains_key(room) {
                let events = self.active[room].push(ev);
                (
                    DetectorView {
                        states,
                        active: self.active.remove(room),
                        patterns: self.patterns.push(
                            PatternView {
                                cadence_type: CadenceType::Perfect,
                                room,
                                start_tick: start_tick_of(events, self.tick),
                                end_tick: Some(self.tick),
                                events,
                            },
                        ),
                        tick: self.tick,
                    },
                    Some(CadenceType::Perfect),
                )
            } else {
                (
                    DetectorView {
                        states,
                        active: self.active,
                        patterns: self.patterns,
                        tick: self.tick,
                    },
                    None,
                )
            },
            RoomState::Normal => (
                DetectorView {
                    states,
                    active: self.active,
                    patterns: self.patterns,
                    tick: self.tick,
                },
                None,
            ),
        }
    }

    /// The detector after a new alarm takes the place of the resolution of `room`: an open
    /// sequence of `room` is closed as a deceptive cadence ending in that alarm, and a fresh
    /// sequence starts with it. Without an open sequence nothing changes.
    pub open spec fn after_deceptive_transition(self, room: Seq<char>) -> DetectorView {
        if self.active.contains_key(room) {
            let ev = self.event(room, RoomState::Alarm);
            let events = self.active[room].push(ev);
            DetectorView {
                states: self.states,
                active: self.active.insert(room, seq![ev]),
                patterns: self.patterns.push(
                    PatternView {
                        cadence_type: CadenceType::Deceptive,
                        room,
                        start_tick: start_tick_of(events, self.tick),
                        end_tick: Some(self.tick),
                        events,
                    },
                ),
                tick: self.tick,
            }
        } else {
            self
        }
    }

    /// The detector after the pending sequence of `room` is closed as a half cadence, and the
    /// cadence closed, if any.
    pub open spec fn after_finalize_half_cadence(self, room: Seq<char>) -> (
        DetectorView,
        Option<CadenceType>,
    ) {
        if self.active.contains_key(room) {
            let events = self.active[room];
            (
                DetectorView {
                    states: self.states,
                    active: self.active.remove(room),
                    patterns: self.patterns.push(
                        PatternView {
                            cadence_type: CadenceType::Half,
                            room,
                            start_tick: start_tick_of(events, self.tick),
                            end_tick: None,
                            events,
                        },
                    ),
                    tick: self.tick,
                },
                Some(CadenceType::Half),
            )
        } else {
            (self, None)
        }
    }
}

/// A well-formed sequence stays well formed when time moves on.
proof fn lemma_sequence_later(events: Seq<EventView>, room: Seq<char>, now: u64, later: u64)
    requires
        sequence_well_formed(events, room, now),
        now <= later,
    ensures
        sequence_well_formed(events, room, later),
{
}

/// Appending an event of `room` at `now` keeps a sequence well formed.
proof fn lemma_sequence_push(events: Seq<EventView>, room: Seq<char>, now: u64, ev: EventView)
    requires
        sequence_well_formed(events, room, now),
        ev.room == room,
        ev.tick == now,
    ensures
        sequence_well_formed(events.push(ev), room, now),
        events.push(ev)[0] == events[0],
        events.push(ev).last() == ev,
        events.push(ev).len() >= 2,
{
    let s = events.push(ev);
    assert forall|i: int, j: int| 0 <= i <= j < s.len() implies (#[trigger] s[i]).tick <= (
    #[trigger] s[j]).tick by {
        if j < events.len() {
            assert(s[i] == events[i] && s[j] == events[j]);
        } else {
            assert(s[i].tick <= now);
        }
    }
}

/// The detector before anything is recorded satisfies the invariant.
pub proof fn lemma_initial_inv()
    ensures
        DetectorView::initial().inv(),
{
}

/// Advancing the tick keeps the invariant.
pub proof fn lemma_tick_keeps_inv(m: DetectorView)
    requires
        m.inv(),
        m.tick < u64::MAX,
    ensures
        m.after_tick().inv(),
{
    let n = m.after_tick();
    assert forall|r: Seq<char>| #[trigger] n.active.contains_key(r) implies sequence_well_formed(
        n.active[r],
        r,
        n.tick,
    ) && n.states.contains_key(r) by {
        lemma_sequence_later(m.active[r], r, m.tick, n.tick);
    }
    assert forall|i: int| 0 <= i < n.patterns.len() implies pattern_well_formed(
        #[trigger] n.patterns[i],
        n.tick,
    ) by {
        lemma_sequence_later(m.patterns[i].events, m.patterns[i].room, m.tick, n.tick);
    }
}

/// Recording a deceptive transition keeps the invariant.
pub proof fn lemma_deceptive_transition_keeps_inv(m: DetectorView, room: Seq<char>)
    requires
        m.inv(),
    ensures
        m.after_deceptive_transition(room).inv(),
{
    let n = m.after_deceptive_transition(room);
    if m.active.contains_key(room) {
        let ev = m.event(room, RoomState::Alarm);
        let events = m.active[room].push(ev);
        lemma_sequence_push(m.active[room], room, m.tick, ev);
        assert forall|r: Seq<char>| #[trigger] n.active.contains_key(r) implies sequence_well_formed(
            n.active[r],
            r,
            n.tick,
        ) && actions_between(n.active[r], n.active[r].len() as int) && n.states.contains_key(
            r,
        ) by {
            if r == room {
                assert(n.active[r] =~= seq![ev]);
            }
        }
        assert forall|i: int| 0 <= i < n.patterns.len() implies pattern_well_formed(
            #[trigger] n.patterns[i],
            n.tick,
        ) by {
            if i < m.patterns.len() {
                assert(n.patterns[i] == m.patterns[i]);
            } else {
                assert forall|j: int| 1 <= j < events.len() - 1 implies (#[trigger] events[j]).state
                    == RoomState::Action by {
                    assert(events[j] == m.active[room][j]);
                }
            }
        }
    }
}

/// Recording a state keeps the invariant.
pub proof fn lemma_record_state_keeps_inv(m: DetectorView, room: Seq<char>, state: RoomState)
    requires
        m.inv(),
    ensures
        m.after_record_state(room, state).0.inv(),
{
    let n = m.after_record_state(room, state).0;
    let ev = m.event(room, state);
    if state == RoomState::Alarm && m.alarm_is_deceptive(room) {
        lemma_deceptive_transition_keeps_inv(m, room);
        let c = m.after_deceptive_transition(room);
        assert(n.active == c.active && n.patterns == c.patterns && n.tick == c.tick);
        assert forall|r: Seq<char>| #[trigger] n.active.contains_key(r) implies n.states.contains_key(
            r,
        ) by {
            assert(c.active.contains_key(r));
        }
    } else {
        if m.active.contains_key(room) {
            lemma_sequence_push(m.active[room], room, m.tick, ev);
        }
        assert forall|r: Seq<char>| #[trigger] n.active.contains_key(r) implies sequence_well_formed(
            n.active[r],
            r,
            n.tick,
        ) && actions_between(n.active[r], n.active[r].len() as int) && n.states.contains_key(r) by {
            if r == room && state == RoomState::Alarm {
                assert(n.active[r] =~= seq![ev]);
            } else if r == room && state == RoomState::Action {
                let old_seq = m.active[room];
                let new_seq = n.active[r];
                assert forall|j: int| 1 <= j < new_seq.len() implies (#[trigger] new_seq[j]).state
                    == RoomState::Action by {
                    if j < old_seq.len() {
                        assert(new_seq[j] == old_seq[j]);
                    }
                }
            }
        }
        assert forall|i: int| 0 <= i < n.patterns.len() implies pattern_well_formed(
            #[trigger] n.patterns[i],
            n.tick,
        ) by {
            if i < m.patterns.len() {
                assert(n.patterns[i] == m.patterns[i]);
            } else {
                let old_seq = m.active[room];
                let events = old_seq.push(ev);
                assert forall|j: int| 1 <= j < events.len() - 1 implies (#[trigger] events[j]).state
                    == RoomState::Action by {
                    assert(events[j] == old_seq[j]);
                }
            }
        }
    }
}

/// Closing a half cadence keeps the invariant.
pub proof fn lemma_finalize_half_cadence_keeps_inv(m: DetectorView, room: Seq<char>)
    requires
        m.inv(),
    ensures
        m.after_finalize_half_cadence(room).0.inv(),
{
    let n = m.after_finalize_half_cadence(room).0;
    if m.active.contains_key(room) {
        assert forall|i: int| 0 <= i < n.patterns.len() implies pattern_well_formed(
            #[trigger] n.patterns[i],
            n.tick,
        ) by {
            if i < m.patterns.len() {
                assert(n.patterns[i] == m.patterns[i]);
            }
        }
    }
}

proof fn lemma_map_values_insert(
    m: Map<Seq<char>, Vec<CadenceEvent>>,
    k: Seq<char>,
    v: Vec<CadenceEvent>,
)
    ensures
        m.insert(k, v).map_values(|v: Vec<CadenceEvent>| events_view(v@)) =~= m.map_values(
            |v: Vec<CadenceEvent>| events_view(v@),
        ).insert(k, events_view(v@)),
{
}

proof fn lemma_map_values_remove(m: Map<Seq<char>, Vec<CadenceEvent>>, k: Seq<char>)
    ensures
        m.remove(k).map_values(|v: Vec<CadenceEvent>| events_view(v@)) =~= m.map_values(
            |v: Vec<CadenceEvent>| events_view(v@),
        ).remove(k),
{
}

/// Every pattern has exactly one of the three types, so the per-type counts add up to the
/// number of patterns.
pub proof fn lemma_counts_partition(patterns: Seq<PatternView>)
    ensures
        count_type(patterns, CadenceType::Perfect) + count_type(patterns, CadenceType::Deceptive)
            + count_type(patterns, CadenceType::Half) == patterns.len(),
    decreases patterns.len(),
{
    if patterns.len() > 0 {
        lemma_counts_partition(patterns.drop_last());
    }
}

/// An alarm, an action one tick later and a resolution one tick after that, all of the same
/// room, complete a perfect cadence made of exactly those three events, and leave the room
/// with no open sequence.
pub proof fn lemma_alarm_action_resolved_is_perfect(m: DetectorView, room: Seq<char>)
    requires
        m.tick + 2 <= u64::MAX,
        !m.alarm_is_deceptive(room),
    ensures
        ({
            let (m1, r1) = m.after_record_state(room, RoomState::Alarm);
            let (m2, r2) = m1.after_tick().after_record_state(room, RoomState::Action);
            let (m3, r3) = m2.after_tick().after_record_state(room, RoomState::Resolved);
            &&& r1 is None
            &&& r2 is None
            &&& r3 == Some(CadenceType::Perfect)
            &&& m3.patterns == m.patterns.push(
                PatternView {
                    cadence_type: CadenceType::Perfect,
                    room,
                    start_tick: m.tick,
                    end_tick: Some((m.tick + 2) as u64),
                    events: seq![
                        EventView { room, state: RoomState::Alarm, tick: m.tick },
                        EventView { room, state: RoomState::Action, tick: (m.tick + 1) as u64 },
                        EventView { room, state: RoomState::Resolved, tick: (m.tick + 2) as u64 },
                    ],
                },
            )
            &&& !m3.active.contains_key(room)
            &&& m3.states[room] == RoomState::Resolved
        }),
{
    let (m1, r1) = m.after_record_state(room, RoomState::Alarm);
    let (m2, r2) = m1.after_tick().after_record_state(room, RoomState::Action);
    let (m3, r3) = m2.after_tick().after_record_state(room, RoomState::Resolved);
    let e0 = EventView { room, state: RoomState::Alarm, tick: m.tick };
    let e1 = EventView { room, state: RoomState::Action, tick: (m.tick + 1) as u64 };
    let e2 = EventView { room, state: RoomState::Resolved, tick: (m.tick + 2) as u64 };
    assert(m2.active[room] =~= seq![e0, e1]);
    assert(m2.active[room].push(e2) =~= seq![e0, e1, e2]);
}

/// An alarm, an action one tick later and a new alarm one tick after that, all of the same
/// room, complete a deceptive cadence made of exactly those three events, and leave the room
/// with a fresh open sequence holding just the new alarm.
pub proof fn lemma_alarm_action_alarm_is_deceptive(m: DetectorView, room: Seq<char>)
    requires
        m.tick + 2 <= u64::MAX,
        !m.alarm_is_deceptive(room),
    ensures
        ({
            let (m1, r1) = m.after_record_state(room, RoomState::Alarm);
            let (m2, r2) = m1.after_tick().after_record_state(room, RoomState::Action);
            let (m3, r3) = m2.after_tick().after_record_state(room, RoomState::Alarm);
            let new_alarm = EventView { room, state: RoomState::Alarm, tick: (m.tick + 2) as u64 };
            &&& r1 is None
            &&& r2 is None
            &&& r3 == Some(CadenceType::Deceptive)
            &&& m3.patterns == m.patterns.push(
                PatternView {
                    cadence_type: CadenceType::Deceptive,
                    room,
                    start_tick: m.tick,
                    end_tick: Some((m.tick + 2) as u64),
                    events: seq![
                        EventView { room, state: RoomState::Alarm, tick: m.tick },
                        EventView { room, state: RoomState::Action, tick: (m.tick + 1) as u64 },
                        new_alarm,
                    ],
                },
            )
            &&& m3.active.contains_key(room)
            &&& m3.active[room] == seq![new_alarm]
            &&& m3.states[room] == RoomState::Alarm
        }),
{
    let (m1, r1) = m.after_record_state(room, RoomState::Alarm);
    let (m2, r2) = m1.after_tick().after_record_state(room, RoomState::Action);
    let e0 = EventView { room, state: RoomState::Alarm, tick: m.tick };
    let e1 = EventView { room, state: RoomState::Action, tick: (m.tick + 1) as u64 };
    let e2 = EventView { room, state: RoomState::Alarm, tick: (m.tick + 2) as u64 };
    assert(m2.active[room] =~= seq![e0, e1]);
    assert(m2.after_tick().alarm_is_deceptive(room));
    assert(m2.active[room].push(e2) =~= seq![e0, e1, e2]);
}

/// An operation on the detector, as a value: advancing the tick, recording a state of a room,
/// recording a deceptive transition of a room, or closing the half cadence of a room.
pub enum CadenceOp {
    Tick,
    Record(Seq<char>, RoomState),
    DeceptiveTransition(Seq<char>),
    FinalizeHalf(Seq<char>),
}

impl DetectorView {
    /// The detector after `op`, and the cadence that `op` records, if any.
    pub open spec fn step(self, op: CadenceOp) -> (DetectorView, Option<CadenceType>) {
        match op {
            CadenceOp::Tick => (self.after_tick(), None),
            CadenceOp::Record(room, state) => self.after_record_state(room, state),
            CadenceOp::DeceptiveTransition(room) => (
                self.after_deceptive_transition(room),
                if self.active.contains_key(room) {
                    Some(CadenceType::Deceptive)
                } else {
                    None
                },
            ),
            CadenceOp::FinalizeHalf(room) => self.after_finalize_half_cadence(room),
        }
    }
}

/// The detector reached from a new one by the operations `ops`, in order.
pub open spec fn run(ops: Seq<CadenceOp>) -> DetectorView
    decreases ops.len(),
{
    if ops.len() == 0 {
        DetectorView::initial()
    } else {
        run(ops.drop_last()).step(ops.last()).0
    }
}

/// Number of operations among `ops` that recorded a cadence of type `t`.
pub open spec fn count_recorded(ops: Seq<CadenceOp>, t: CadenceType) -> nat
    decreases ops.len(),
{
    if ops.len() == 0 {
        0
    } else {
        count_recorded(ops.drop_last(), t) + if run(ops.drop_last()).step(ops.last()).1 == Some(
            t,
        ) {
            1nat
        } else {
            0nat
        }
    }
}

/// Number of tick operations among `ops`.
pub open spec fn count_ticks(ops: Seq<CadenceOp>) -> nat
    decreases ops.len(),
{
    if ops.len() == 0 {
        0
    } else {
        count_ticks(ops.drop_last()) + if ops.last() is Tick {
            1nat
        } else {
            0nat
        }
    }
}

/// Whether `room` has an alarm that nothing closed since: its latest alarm comes after its
/// latest resolution and its latest closed half cadence.
pub open spec fn alarm_pending(ops: Seq<CadenceOp>, room: Seq<char>) -> bool
    decreases ops.len(),
{
    if ops.len() == 0 {
        false
    } else {
        match ops.last() {
            CadenceOp::Record(r, s) => if r == room && s == RoomState::Alarm {
                true
            } else if r == room && s == RoomState::Resolved {
                false
            } else {
                alarm_pending(ops.drop_last(), room)
            },
            CadenceOp::FinalizeHalf(r) => if r == room {
                false
            } else {
                alarm_pending(ops.drop_last(), room)
            },
            _ => alarm_pending(ops.drop_last(), room),
        }
    }
}

/// The tick at which the pending alarm of `room` began: the tick of its latest alarm, or of a
/// deceptive transition of `room` made while that alarm was pending.
pub open spec fn pending_since(ops: Seq<CadenceOp>, room: Seq<char>) -> u64
    decreases ops.len(),
{
    if ops.len() == 0 {
        0
    } else {
        let prev = ops.drop_last();
        match ops.last() {
            CadenceOp::Record(r, s) => if r == room && s == RoomState::Alarm {
                run(prev).tick
            } else {
                pending_since(prev, room)
            },
            CadenceOp::DeceptiveTransition(r) => if r == room && alarm_pending(prev, room) {
                run(prev).tick
            } else {
                pending_since(prev, room)
            },
            _ => pending_since(prev, room),
        }
    }
}

/// Over any history of operations from a new detector: the clock counts the ticks, the
/// invariant holds, each per-type count equals the number of operations that recorded a
/// cadence of that type, and a room is pending exactly when an alarm of it was recorded and
/// not closed since, with the pending alarm dated as `pending_since` says.
pub proof fn lemma_run(ops: Seq<CadenceOp>)
    requires
        ops.len() <= u64::MAX,
    ensures
        run(ops).tick == count_ticks(ops),
        count_ticks(ops) <= ops.len(),
        run(ops).inv(),
        forall|t: CadenceType| #[trigger] count_type(run(ops).patterns, t) == count_recorded(ops, t),
        forall|room: Seq<char>| #[trigger]
            run(ops).active.contains_key(room) == alarm_pending(ops, room),
        forall|room: Seq<char>|
            #![trigger run(ops).active[room]]
            run(ops).active.contains_key(room) ==> run(ops).active[room][0].tick == pending_since(
                ops,
                room,
            ),
    decreases ops.len(),
{
    if ops.len() == 0 {
        lemma_initial_inv();
        assert forall|t: CadenceType| #[trigger] count_type(run(ops).patterns, t) == count_recorded(
            ops,
            t,
        ) by {}
    } else {
        let prev = ops.drop_last();
        let op = ops.last();
        lemma_run(prev);
        let m = run(prev);
        let n = run(ops);
        assert(n == m.step(op).0);
        match op {
            CadenceOp::Tick => {
                lemma_tick_keeps_inv(m);
            },
            CadenceOp::Record(r, s) => {
                lemma_record_state_keeps_inv(m, r, s);
            },
            CadenceOp::DeceptiveTransition(r) => {
                lemma_deceptive_transition_keeps_inv(m, r);
            },
            CadenceOp::FinalizeHalf(r) => {
                lemma_finalize_half_cadence_keeps_inv(m, r);
            },
        }
        assert forall|t: CadenceType| #[trigger] count_type(n.patterns, t) == count_recorded(
            ops,
            t,
        ) by {
            match op {
                CadenceOp::Tick => {},
                CadenceOp::Record(r, s) => {
                    lemma_counts_follow_results(m, r, s, t);
                },
                CadenceOp::DeceptiveTransition(r) => {
                    lemma_counts_follow_results(m, r, RoomState::Normal, t);
                },
                CadenceOp::FinalizeHalf(r) => {
                    lemma_counts_follow_results(m, r, RoomState::Normal, t);
                },
            }
        }
        assert forall|room: Seq<char>| #[trigger] n.active.contains_key(room) == alarm_pending(
            ops,
            room,
        ) by {
            if let CadenceOp::Record(r, s) = op {
                if r == room && s == RoomState::Alarm && m.alarm_is_deceptive(room) {
                    assert(n.active.contains_key(room));
                }
            }
        }
        assert forall|room: Seq<char>|
            #![trigger n.active[room]]
            n.active.contains_key(room) implies n.active[room][0].tick == pending_since(
                ops,
                room,
            ) by {
            match op {
                CadenceOp::Record(r, s) => {
                    if r == room && s == RoomState::Alarm {
                        if m.alarm_is_deceptive(room) {
                            assert(n.active[room] == seq![m.event(room, RoomState::Alarm)]);
                        }
                    } else if r == room && s == RoomState::Action {
                        assert(n.active[room][0] == m.active[room][0]);
                    }
                },
                CadenceOp::DeceptiveTransition(r) => {
                    if r == room {
                        assert(m.active.contains_key(room) == alarm_pending(prev, room));
                    }
                },
                _ => {},
            }
        }
    }
}

/// What recording a resolution does, for any detector and any spacing of ticks: with an open
/// sequence, it reports a perfect cadence and appends one pattern holding that sequence
/// followed by the resolution at the current tick, ending at the current tick and starting at
/// the sequence's first event; the room's sequence closes and other rooms' are untouched.
/// Without an open sequence it reports nothing and records no pattern.
pub proof fn lemma_record_resolved(m: DetectorView, room: Seq<char>)
    ensures
        ({
            let (n, res) = m.after_record_state(room, RoomState::Resolved);
            let resolved = EventView { room, state: RoomState::Resolved, tick: m.tick };
            &&& n.tick == m.tick
            &&& n.states == m.states.insert(room, RoomState::Resolved)
            &&& !n.active.contains_key(room)
            &&& forall|r: Seq<char>|
                r != room ==> (#[trigger] n.active.contains_key(r) == m.active.contains_key(r))
                    && (m.active.contains_key(r) ==> n.active[r] == m.active[r])
            &&& if m.active.contains_key(room) {
                let open = m.active[room];
                &&& res == Some(CadenceType::Perfect)
                &&& n.patterns.len() == m.patterns.len() + 1
                &&& n.patterns.drop_last() == m.patterns
                &&& n.patterns.last().cadence_type == CadenceType::Perfect
                &&& n.patterns.last().room == room
                &&& n.patterns.last().events.len() == open.len() + 1
                &&& n.patterns.last().events.drop_last() == open
                &&& n.patterns.last().events.last() == resolved
                &&& n.patterns.last().end_tick == Some(m.tick)
                &&& n.patterns.last().start_tick == if open.len() > 0 {
                    open[0].tick
                } else {
                    m.tick
                }
            } else {
                &&& res is None
                &&& n.patterns == m.patterns
            }
        }),
{
    let (n, res) = m.after_record_state(room, RoomState::Resolved);
    if m.active.contains_key(room) {
        let open = m.active[room];
        assert(n.patterns.drop_last() =~= m.patterns);
        assert(n.patterns.last().events.drop_last() =~= open);
    } else {
        assert(!n.active.contains_key(room));
    }
}

/// What recording an action does: with an open sequence, the action at the current tick is
/// appended to it; without one nothing opens. It never reports a cadence, never records a
/// pattern and leaves other rooms' sequences untouched.
pub proof fn lemma_record_action(m: DetectorView, room: Seq<char>)
    ensures
        ({
            let (n, res) = m.after_record_state(room, RoomState::Action);
            &&& res is None
            &&& n.tick == m.tick
            &&& n.patterns == m.patterns
            &&& n.states == m.states.insert(room, RoomState::Action)
            &&& n.active.contains_key(room) == m.active.contains_key(room)
            &&& m.active.contains_key(room) ==> n.active[room] == m.active[room].push(
                EventView { room, state: RoomState::Action, tick: m.tick },
            )
            &&& forall|r: Seq<char>|
                r != room ==> (#[trigger] n.active.contains_key(r) == m.active.contains_key(r))
                    && (m.active.contains_key(r) ==> n.active[r] == m.active[r])
        }),
{
}

/// What recording a return to normal does: it reports nothing, records no pattern and leaves
/// every open sequence as it was (a pending alarm stays pending); only the room's state changes.
pub proof fn lemma_record_normal(m: DetectorView, room: Seq<char>)
    ensures
        ({
            let (n, res) = m.after_record_state(room, RoomState::Normal);
            &&& res is None
            &&& n.tick == m.tick
            &&& n.patterns == m.patterns
            &&& n.active == m.active
            &&& n.states == m.states.insert(room, RoomState::Normal)
        }),
{
}

/// What recording an alarm does: when the room's open sequence ends in an action, it reports a
/// deceptive cadence and appends one pattern holding that sequence followed by the new alarm
/// at the current tick, ending at the current tick; otherwise it reports nothing and records no
/// pattern. Either way the room is left with a fresh sequence holding just the new alarm, and
/// other rooms' sequences are untouched.
pub proof fn lemma_record_alarm(m: DetectorView, room: Seq<char>)
    ensures
        ({
            let (n, res) = m.after_record_state(room, RoomState::Alarm);
            let alarm = EventView { room, state: RoomState::Alarm, tick: m.tick };
            &&& n.tick == m.tick
            &&& n.states == m.states.insert(room, RoomState::Alarm)
            &&& n.active.contains_key(room)
            &&& n.active[room] == seq![alarm]
            &&& forall|r: Seq<char>|
                r != room ==> (#[trigger] n.active.contains_key(r) == m.active.contains_key(r))
                    && (m.active.contains_key(r) ==> n.active[r] == m.active[r])
            &&& if m.active.contains_key(room) && m.active[room].len() > 0
                && m.active[room].last().state == RoomState::Action {
                let open = m.active[room];
                &&& res == Some(CadenceType::Deceptive)
                &&& n.patterns.len() == m.patterns.len() + 1
                &&& n.patterns.drop_last() == m.patterns
                &&& n.patterns.last().cadence_type == CadenceType::Deceptive
                &&& n.patterns.last().room == room
                &&& n.patterns.last().events.len() == open.len() + 1
                &&& n.patterns.last().events.drop_last() == open
                &&& n.patterns.last().events.last() == alarm
                &&& n.patterns.last().end_tick == Some(m.tick)
                &&& n.patterns.last().start_tick == open[0].tick
            } else {
                &&& res is None
                &&& n.patterns == m.patterns
            }
        }),
{
    let (n, res) = m.after_record_state(room, RoomState::Alarm);
    if m.alarm_is_deceptive(room) {
        let open = m.active[room];
        assert(n.patterns.drop_last() =~= m.patterns);
        assert(n.patterns.last().events.drop_last() =~= open);
    }
}

/// What a deceptive transition does, for any detector and any spacing of ticks: with an open
/// sequence it appends one deceptive pattern holding that sequence followed by an alarm at the
/// current tick, ending at the current tick and starting at the sequence's first event, and the
/// room is left with a fresh sequence holding just that alarm; without one nothing changes.
/// Either way it answers `Deceptive`.
pub proof fn lemma_deceptive_transition(m: DetectorView, room: Seq<char>)
    ensures
        ({
            let n = m.after_deceptive_transition(room);
            let alarm = EventView { room, state: RoomState::Alarm, tick: m.tick };
            if m.active.contains_key(room) {
                let open = m.active[room];
                &&& n.tick == m.tick
                &&& n.states == m.states
                &&& n.active.contains_key(room)
                &&& n.active[room] == seq![alarm]
                &&& forall|r: Seq<char>|
                    r != room ==> (#[trigger] n.active.contains_key(r) == m.active.contains_key(r))
                        && (m.active.contains_key(r) ==> n.active[r] == m.active[r])
                &&& n.patterns.len() == m.patterns.len() + 1
                &&& n.patterns.drop_last() == m.patterns
                &&& n.patterns.last().cadence_type == CadenceType::Deceptive
                &&& n.patterns.last().room == room
                &&& n.patterns.last().events.len() == open.len() + 1
                &&& n.patterns.last().events.drop_last() == open
                &&& n.patterns.last().events.last() == alarm
                &&& n.patterns.last().end_tick == Some(m.tick)
                &&& n.patterns.last().start_tick == if open.len() > 0 {
                    open[0].tick
                } else {
                    m.tick
                }
            } else {
                n == m
            }
        }),
{
    let n = m.after_deceptive_transition(room);
    if m.active.contains_key(room) {
        let open = m.active[room];
        assert(n.patterns.drop_last() =~= m.patterns);
        assert(n.patterns.last().events.drop_last() =~= open);
    }
}

/// What closing a half cadence does, whatever the room's last recorded state: with an open
/// sequence it reports a half cadence and appends one pattern holding exactly that sequence,
/// with no end tick and starting at its first event, and the room's sequence closes; without one
/// it reports nothing and nothing changes.
pub proof fn lemma_finalize_half_cadence(m: DetectorView, room: Seq<char>)
    ensures
        ({
            let (n, res) = m.after_finalize_half_cadence(room);
            if m.active.contains_key(room) {
                let open = m.active[room];
                &&& res == Some(CadenceType::Half)
                &&& n.tick == m.tick
                &&& n.states == m.states
                &&& !n.active.contains_key(room)
                &&& forall|r: Seq<char>|
                    r != room ==> (#[trigger] n.active.contains_key(r) == m.active.contains_key(r))
                        && (m.active.contains_key(r) ==> n.active[r] == m.active[r])
                &&& n.patterns.len() == m.patterns.len() + 1
                &&& n.patterns.drop_last() == m.patterns
                &&& n.patterns.last().cadence_type == CadenceType::Half
                &&& n.patterns.last().room == room
                &&& n.patterns.last().events == open
                &&& n.patterns.last().end_tick is None
                &&& n.patterns.last().start_tick == if open.len() > 0 {
                    open[0].tick
                } else {
                    m.tick
                }
            } else {
                &&& res is None
                &&& n == m
            }
        }),
{
    let (n, res) = m.after_finalize_half_cadence(room);
    if m.active.contains_key(room) {
        assert(n.patterns.drop_last() =~= m.patterns);
    }
}

/// Advancing the tick moves the clock by one and changes nothing else.
pub proof fn lemma_tick(m: DetectorView)
    requires
        m.tick < u64::MAX,
    ensures
        m.after_tick().tick == m.tick + 1,
        m.after_tick().states == m.states,
        m.after_tick().active == m.active,
        m.after_tick().patterns == m.patterns,
{
}

/// Patterns are only ever appended: every operation keeps the earlier patterns as a prefix,
/// adds at most one, and no operation but `tick` moves the clock.
pub proof fn lemma_patterns_append_only(m: DetectorView, room: Seq<char>, state: RoomState)
    ensures
        ({
            let n = m.after_record_state(room, state).0;
            &&& m.patterns.is_prefix_of(n.patterns)
            &&& n.patterns.len() <= m.patterns.len() + 1
            &&& n.tick == m.tick
        }),
        ({
            let n = m.after_deceptive_transition(room);
            &&& m.patterns.is_prefix_of(n.patterns)
            &&& n.patterns.len() <= m.patterns.len() + 1
            &&& n.tick == m.tick
        }),
        ({
            let n = m.after_finalize_half_cadence(room).0;
            &&& m.patterns.is_prefix_of(n.patterns)
            &&& n.patterns.len() <= m.patterns.len() + 1
            &&& n.tick == m.tick
        }),
        m.tick < u64::MAX ==> m.after_tick().patterns == m.patterns,
{
    let n1 = m.after_record_state(room, state).0;
    let n2 = m.after_deceptive_transition(room);
    let n3 = m.after_finalize_half_cadence(room).0;
    assert(m.patterns.is_prefix_of(n1.patterns));
    assert(m.patterns.is_prefix_of(n2.patterns));
    assert(m.patterns.is_prefix_of(n3.patterns));
}

/// The per-type counts move exactly with the cadences reported: recording a state or closing a
/// half cadence raises the count of the returned type by one and leaves the others unchanged,
/// and a deceptive transition raises the deceptive count by one exactly when the room had an
/// open sequence.
pub proof fn lemma_counts_follow_results(
    m: DetectorView,
    room: Seq<char>,
    state: RoomState,
    t: CadenceType,
)
    ensures
        ({
            let (n, res) = m.after_record_state(room, state);
            count_type(n.patterns, t) == count_type(m.patterns, t) + if res == Some(t) {
                1nat
            } else {
                0nat
            }
        }),
        ({
            let (n, res) = m.after_finalize_half_cadence(room);
            count_type(n.patterns, t) == count_type(m.patterns, t) + if res == Some(t) {
                1nat
            } else {
                0nat
            }
        }),
        ({
            let n = m.after_deceptive_transition(room);
            count_type(n.patterns, t) == count_type(m.patterns, t) + if m.active.contains_key(
                room,
            ) && t == CadenceType::Deceptive {
                1nat
            } else {
                0nat
            }
        }),
{
    let (n1, r1) = m.after_record_state(room, state);
    let (n2, r2) = m.after_finalize_half_cadence(room);
    let n3 = m.after_deceptive_transition(room);
    if n1.patterns.len() > m.patterns.len() {
        assert(n1.patterns.drop_last() =~= m.patterns);
    }
    if n2.patterns.len() > m.patterns.len() {
        assert(n2.patterns.drop_last() =~= m.patterns);
    }
    if n3.patterns.len() > m.patterns.len() {
        assert(n3.patterns.drop_last() =~= m.patterns);
    }
}

/// In every reachable detector each open sequence begins with an alarm, so the pending half
/// cadences are exactly the rooms with an open sequence.
pub proof fn lemma_open_sequences_are_pending_alarms(m: DetectorView, room: Seq<char>)
    requires
        m.inv(),
        m.active.contains_key(room),
    ensures
        opens_with_alarm(m.active[room]),
        m.active[room][0].tick <= m.tick,
{
}

impl View for CadenceDetector {
    type V = DetectorView;

    closed spec fn view(&self) -> DetectorView {
        DetectorView {
            states: self.room_states@,
            active: self.active_sequences@.map_values(|v: Vec<CadenceEvent>| events_view(v@)),
            patterns: patterns_view(self.patterns@),
            tick: self.current_tick,
        }
    }
}

impl CadenceDetector {
    /// The detector's tables are consistent and its model satisfies the invariant.
    pub closed spec fn wf(&self) -> bool {
        &&& self.room_states.wf()
        &&& self.active_sequences.wf()
        &&& self@.inv()
    }

    /// A well-formed detector's model satisfies the invariant: every open sequence begins with
    /// an alarm followed only by actions, and every pattern is well formed.
    pub proof fn lemma_wf_inv(&self)
        requires
            self.wf(),
        ensures
            self@.inv(),
    {
    }

    /// A detector with no rooms, no patterns, at tick 0.
    pub fn new() -> (res: Self)
        ensures
            res.wf(),
            res@ == DetectorView::initial(),
    {
        let res = CadenceDetector {
            room_states: RoomMap::new(),
            active_sequences: RoomMap::new(),
            patterns: Vec::new(),
            current_tick: 0,
        };
        proof {
            assert(res@.active =~= Map::<Seq<char>, Seq<EventView>>::empty());
            assert(res@.patterns =~= Seq::<PatternView>::empty());
        }
        res
    }

    /// Advance the tick counter.
    pub fn tick(&mut self)
        requires
            old(self).wf(),
            old(self)@.tick < u64::MAX,
        ensures
            final(self).wf(),
            final(self)@ == old(self)@.after_tick(),
    {
        proof {
            lemma_tick_keeps_inv(self@);
        }
        self.current_tick = self.current_tick + 1;
    }

    /// The current tick.
    pub fn current_tick(&self) -> (res: u64)
        ensures
            res == self@.tick,
    {
        self.current_tick
    }

    /// Record a state change for a room; returns the cadence it completes, if any.
    pub fn record_state(&mut self, room_name: &str, state: RoomState) -> (res: Option<
        CadenceType,
    >)
        requires
            old(self).wf(),
        ensures
            final(self).wf(),
            (final(self)@, res) == old(self)@.after_record_state(room_name@, state),
    {
        let ghost m = self@;
        let ghost raw = self.active_sequences@;
        proof {
            lemma_record_state_keeps_inv(m, room_name@, state);
        }
        self.room_states.insert(room_name, state);
        let event = CadenceEvent { room_name: room_name.to_owned(), state, tick: self.current_tick };
        assert(event@ == m.event(room_name@, state));
        match state {
            RoomState::Alarm => {
                let follows_action = match self.active_sequences.get(room_name) {
                    Some(open) => open.len() > 0 && open[open.len() - 1].state == RoomState::Action,
                    None => false,
                };
                proof {
                    if self.active_sequences@.contains_key(room_name@) {
                        let open = self.active_sequences@[room_name@];
                        assert(events_view(open@).len() == open@.len());
                        if open@.len() > 0 {
                            assert(events_view(open@).last() == open@[open@.len() - 1]@);
                        }
                    }
                }
                if follows_action {
                    proof {
                        assert(self@.active == m.active);
                        assert forall|r: Seq<char>| #[trigger] self@.active.contains_key(r) implies self@.states.contains_key(r) by {
                            assert(m.states.contains_key(r));
                        }
                    }
                    self.record_deceptive_transition(room_name);
                    return Some(CadenceType::Deceptive);
                }
                let mut seq: Vec<CadenceEvent> = Vec::new();
                seq.push(event);
                proof {
                    assert(events_view(seq@) =~= seq![m.event(room_name@, state)]);
                    lemma_map_values_insert(raw, room_name@, seq);
                }
                self.active_sequences.insert(room_name, seq);
                None
            },
            RoomState::Action => {
                match self.active_sequences.remove(room_name) {
                    Some(mut seq) => {
                        let ghost before = seq@;
                        seq.push(event);
                        proof {
                            assert(events_view(seq@) =~= events_view(before).push(event@));
                            lemma_map_values_remove(raw, room_name@);
                            lemma_map_values_insert(raw.remove(room_name@), room_name@, seq);
                            assert(raw.remove(room_name@).insert(room_name@, seq) =~= raw.insert(
                                room_name@,
                                seq,
                            ));
                            lemma_map_values_insert(raw, room_name@, seq);
                        }
                        self.active_sequences.insert(room_name, seq);
                    },
                    None => {
                        proof {
                            assert(raw.remove(room_name@) =~= raw);
                        }
                    },
                }
                None
            },
            RoomState::Resolved => {
                match self.active_sequences.remove(room_name) {
                    Some(mut seq) => {
                        let ghost before = seq@;
                        seq.push(event);
                        let start_tick = seq[0].tick;
                        let ghost events = events_view(seq@);
                        proof {
                            assert(events =~= events_view(before).push(event@));
                            lemma_map_values_remove(raw, room_name@);
                        }
                        let pattern = CadencePattern {
                            cadence_type: CadenceType::Perfect,
                            room_name: room_name.to_owned(),
                            start_tick,
                            end_tick: Some(self.current_tick),
                            events: seq,
                        };
                        let ghost old_patterns = self.patterns@;
                        self.patterns.push(pattern);
                        proof {
                            assert(patterns_view(self.patterns@) =~= patterns_view(
                                old_patterns,
                            ).push(pattern@));
                        }
                        Some(CadenceType::Perfect)
                    },
                    None => {
                        proof {
                            assert(raw.remove(room_name@) =~= raw);
                        }
                        None
                    },
                }
            },
            RoomState::Normal => None,
        }
    }

    /// Record that a new alarm took the place of the resolution of a room: closes the room's
    /// open sequence as a deceptive cadence and opens a new one with that alarm.
    pub fn record_deceptive_transition(&mut self, room_name: &str) -> (res: CadenceType)
        requires
            old(self).wf(),
        ensures
            final(self).wf(),
            final(self)@ == old(self)@.after_deceptive_transition(room_name@),
            res == CadenceType::Deceptive,
    {
        let ghost m = self@;
        let ghost raw = self.active_sequences@;
        proof {
            lemma_deceptive_transition_keeps_inv(m, room_name@);
        }
        let event = CadenceEvent {
            room_name: room_name.to_owned(),
            state: RoomState::Alarm,
            tick: self.current_tick,
        };
        match self.active_sequences.remove(room_name) {
            Some(mut seq) => {
                let new_event = CadenceEvent {
                    room_name: room_name.to_owned(),
                    state: RoomState::Alarm,
                    tick: self.current_tick,
                };
                let ghost before = seq@;
                seq.push(event);
                let start_tick = seq[0].tick;
                let pattern = CadencePattern {
                    cadence_type: CadenceType::Deceptive,
                    room_name: room_name.to_owned(),
                    start_tick,
                    end_tick: Some(self.current_tick),
                    events: seq,
                };
                let ghost old_patterns = self.patterns@;
                self.patterns.push(pattern);
                let mut fresh: Vec<CadenceEvent> = Vec::new();
                fresh.push(new_event);
                proof {
                    assert(events_view(pattern.events@) =~= events_view(before).push(event@));
                    assert(patterns_view(self.patterns@) =~= patterns_view(old_patterns).push(
                        pattern@,
                    ));
                    assert(events_view(fresh@) =~= seq![m.event(room_name@, RoomState::Alarm)]);
                    lemma_map_values_insert(raw.remove(room_name@), room_name@, fresh);
                    assert(raw.remove(room_name@).insert(room_name@, fresh) =~= raw.insert(
                        room_name@,
                        fresh,
                    ));
                    lemma_map_values_insert(raw, room_name@, fresh);
                }
                self.active_sequences.insert(room_name, fresh);
            },
            None => {
                proof {
                    assert(raw.remove(room_name@) =~= raw);
                }
            },
        }
        CadenceType::Deceptive
    }

    /// Rooms with a pending alarm, each with the tick at which its alarm began.
    #[verifier::spinoff_prover]
    pub fn detect_half_cadences(&self) -> (res: Vec<(&str, u64)>)
        requires
            self.wf(),
        ensures
            forall|i: int|
                0 <= i < res@.len() ==> {
                    let r = (#[trigger] res@[i]).0@;
                    &&& self@.active.contains_key(r)
                    &&& opens_with_alarm(self@.active[r])
                    &&& res@[i].1 == self@.active[r][0].tick
                },
            forall|i: int, j: int|
                0 <= i < j < res@.len() ==> (#[trigger] res@[i]).0@ != (#[trigger] res@[j]).0@,
            forall|r: Seq<char>| #[trigger]
                self@.active.contains_key(r) ==> exists|i: int|
                    0 <= i < res@.len() && (#[trigger] res@[i]).0@ == r,
    {
        let mut res: Vec<(&str, u64)> = Vec::new();
        let n = self.active_sequences.len();
        proof {
            self.active_sequences.lemma_entries();
        }
        let ghost names = self.active_sequences.name_seq();
        let ghost values = self.active_sequences.value_seq();
        let ghost mut idx: Seq<int> = Seq::empty();
        let mut i: usize = 0;
        while i < n
            invariant
                self.active_sequences.wf(),
                n == names.len(),
                names == self.active_sequences.name_seq(),
                values == self.active_sequences.value_seq(),
                names.len() == values.len(),
                0 <= i <= n,
                idx.len() == res@.len(),
                forall|k: int| 0 <= k < idx.len() ==> 0 <= #[trigger] idx[k] < i,
                forall|k: int, l: int| 0 <= k < l < idx.len() ==> #[trigger] idx[k] < #[trigger] idx[l],
                forall|k: int|
                    0 <= k < res@.len() ==> {
                        &&& (#[trigger] res@[k]).0@ == names[idx[k]]
                        &&& opens_with_alarm(events_view(values[idx[k]]@))
                        &&& res@[k].1 == values[idx[k]]@[0].tick
                    },
                forall|j: int|
                    0 <= j < i && opens_with_alarm(events_view(#[trigger] values[j]@)) ==> exists|k: int|
                        0 <= k < idx.len() && idx[k] == j,
            decreases n - i,
        {
            let ghost old_idx = idx;
            let seq = self.active_sequences.value_at(i);
            proof {
                assert(events_view(seq@).len() == seq@.len());
                if seq@.len() > 0 {
                    assert(events_view(seq@)[0] == seq@[0]@);
                }
            }
            if seq.len() > 0 && seq[0].state == RoomState::Alarm {
                let name = self.active_sequences.name_at(i);
                let entry = (name.as_str(), seq[0].tick);
                let ghost old_res = res@;
                res.push(entry);
                proof {
                    idx = idx.push(i as int);
                    assert(idx[idx.len() - 1] == i);
                    assert(entry.0@ == names[i as int]);
                    assert forall|k: int| 0 <= k < res@.len() implies {
                        &&& (#[trigger] res@[k]).0@ == names[idx[k]]
                        &&& opens_with_alarm(events_view(values[idx[k]]@))
                        &&& res@[k].1 == values[idx[k]]@[0].tick
                    } by {
                        if k < old_res.len() {
                            assert(res@[k] == old_res[k]);
                            assert(idx[k] == old_idx[k]);
                        } else {
                            assert(res@[k] == entry);
                            assert(idx[k] == i);
                            assert(values[i as int] == *seq);
                            assert(opens_with_alarm(events_view(values[i as int]@)));
                            assert(entry.1 == values[i as int]@[0].tick);
                        }
                    }
                }
            }
            proof {
                assert forall|j: int|
                    0 <= j < i + 1 && opens_with_alarm(events_view(#[trigger] values[j]@)) implies exists|
                    k: int,
                | 0 <= k < idx.len() && idx[k] == j by {
                    if j < i {
                        let k = choose|k: int| 0 <= k < old_idx.len() && old_idx[k] == j;
                        assert(idx[k] == old_idx[k]);
                    } else {
                        assert(idx[idx.len() - 1] == j);
                    }
                }
            }
            i = i + 1;
        }
        proof {
            self.active_sequences.lemma_entries();
            self.lemma_wf_inv();
            assert forall|k: int| 0 <= k < res@.len() implies {
                let r = (#[trigger] res@[k]).0@;
                &&& self@.active.contains_key(r)
                &&& opens_with_alarm(self@.active[r])
                &&& res@[k].1 == self@.active[r][0].tick
            } by {
                let j = idx[k];
                assert(self.active_sequences@.contains_key(names[j]));
                assert(self@.active[names[j]] == events_view(values[j]@));
                assert(events_view(values[j]@)[0] == values[j]@[0]@);
            }
            assert forall|k: int, l: int| 0 <= k < l < res@.len() implies (#[trigger] res@[k]).0@
                != (#[trigger] res@[l]).0@ by {
                assert(idx[k] < idx[l]);
            }
            assert forall|r: Seq<char>| #[trigger]
                self@.active.contains_key(r) implies exists|k: int|
                0 <= k < res@.len() && (#[trigger] res@[k]).0@ == r by {
                assert(opens_with_alarm(self@.active[r]));
                let j = names.index_of(r);
                assert(names[j] == r);
                assert(values[j] == self.active_sequences@[r]);
                let k = choose|k: int| 0 <= k < idx.len() && idx[k] == j;
                assert(res@[k].0@ == r);
            }
        }
        res
    }

    /// Close the pending sequence of a room as a half cadence.
    pub fn finalize_half_cadence(&mut self, room_name: &str) -> (res: Option<CadenceType>)
        requires
            old(self).wf(),
        ensures
            final(self).wf(),
            (final(self)@, res) == old(self)@.after_finalize_half_cadence(room_name@),
    {
        let ghost m = self@;
        let ghost raw = self.active_sequences@;
        proof {
            lemma_finalize_half_cadence_keeps_inv(m, room_name@);
            lemma_map_values_remove(raw, room_name@);
        }
        match self.active_sequences.remove(room_name) {
            Some(seq) => {
                let start_tick = if seq.len() > 0 {
                    seq[0].tick
                } else {
                    self.current_tick
                };
                let pattern = CadencePattern {
                    cadence_type: CadenceType::Half,
                    room_name: room_name.to_owned(),
                    start_tick,
                    end_tick: None,
                    events: seq,
                };
                let ghost old_patterns = self.patterns@;
                self.patterns.push(pattern);
                proof {
                    assert(patterns_view(self.patterns@) =~= patterns_view(old_patterns).push(
                        pattern@,
                    ));
                }
                Some(CadenceType::Half)
            },
            None => {
                proof {
                    assert(raw.remove(room_name@) =~= raw);
                }
                None
            },
        }
    }

    /// All completed patterns, oldest first.
    pub fn patterns(&self) -> (res: &[CadencePattern])
        ensures
            patterns_view(res@) == self@.patterns,
    {
        self.patterns.as_slice()
    }

    /// Number of completed patterns of the given type.
    pub fn count_by_type(&self, cadence_type: CadenceType) -> (res: usize)
        ensures
            res == count_type(self@.patterns, cadence_type),
    {
        let n = self.patterns.len();
        let ghost ps = self@.patterns;
        let mut count: usize = 0;
        let mut i: usize = 0;
        while i < n
            invariant
                n == self.patterns@.len(),
                ps == patterns_view(self.patterns@),
                0 <= i <= n,
                count == count_type(ps.take(i as int), cadence_type),
                count <= i,
            decreases n - i,
        {
            proof {
                assert(ps.take(i + 1).drop_last() =~= ps.take(i as int));
            }
            if self.patterns[i].cadence_type == cadence_type {
                count = count + 1;
            }
            i = i + 1;
        }
        proof {
            assert(ps.take(n as int) =~= ps);
        }
        count
    }

    /// Number of completed patterns of each type, and in total.
    pub fn stats(&self) -> (res: CadenceStats)
        ensures
            res.perfect == count_type(self@.patterns, CadenceType::Perfect),
            res.deceptive == count_type(self@.patterns, CadenceType::Deceptive),
            res.half == count_type(self@.patterns, CadenceType::Half),
            res.total == res.perfect + res.deceptive + res.half,
            res.total == self@.patterns.len(),
    {
        let perfect = self.count_by_type(CadenceType::Perfect);
        let deceptive = self.count_by_type(CadenceType::Deceptive);
        let half = self.count_by_type(CadenceType::Half);
        proof {
            assert(self.patterns.len() == self.patterns@.len());
            lemma_counts_partition(self@.patterns);
            assert(self@.patterns.len() == self.patterns@.len());
        }
        CadenceStats { perfect, deceptive, half, total: perfect + deceptive + half }
    }
}

} // verus!
