//! The sign, ordering and lap-state decisions of gate-based lap timing.

use vstd::prelude::*;

verus! {

/// Which direction may cross a gate.
///
/// The sign is relative to the directed gate segment from its start to its end.
/// `NegativeToPositive` therefore means the vehicle moves from the segment's right-hand side to
/// its left-hand side in conventional longitude/latitude coordinates.
#[derive(Clone, Copy, Debug, PartialEq, Eq, Structural)]
pub enum GateDirection {
    /// Accept either direction.
    Either,
    /// Accept only crossings whose signed side changes from negative to positive.
    NegativeToPositive,
    /// Accept only crossings whose signed side changes from positive to negative.
    PositiveToNegative,
}

impl Default for GateDirection {
    fn default() -> (r: Self)
        ensures
            r == GateDirection::Either,
    {
        GateDirection::Either
    }
}

/// The sign of a point's signed distance from a directed gate line.
#[derive(Clone, Copy, Debug, PartialEq, Eq, Structural)]
pub enum Side {
    Negative,
    On,
    Positive,
}

/// A movement from `before` to `after` crosses the line: the points lie strictly on opposite
/// sides. Touching the line, or travelling along it, is not a crossing.
pub open spec fn strictly_opposite(before: Side, after: Side) -> bool {
    (before == Side::Negative && after == Side::Positive) || (before == Side::Positive && after
        == Side::Negative)
}

/// `direction` allows a movement from `before` to `after`.
pub open spec fn direction_allows(direction: GateDirection, before: Side, after: Side) -> bool {
    match direction {
        GateDirection::Either => true,
        GateDirection::NegativeToPositive => before == Side::Negative && after == Side::Positive,
        GateDirection::PositiveToNegative => before == Side::Positive && after == Side::Negative,
    }
}

impl GateDirection {
    /// Whether this direction allows a movement from `before` to `after`.
    pub fn matches(self, before: Side, after: Side) -> (r: bool)
        ensures
            r == direction_allows(self, before, after),
    {
        match self {
            GateDirection::Either => true,
            GateDirection::NegativeToPositive => before == Side::Negative && after
                == Side::Positive,
            GateDirection::PositiveToNegative => before == Side::Positive && after
                == Side::Negative,
        }
    }

    /// Whether this gate accepts a movement between the two sides.
    pub fn accepts_crossing(self, before: Side, after: Side) -> (r: bool)
        ensures
            r == (strictly_opposite(before, after) && direction_allows(self, before, after)),
    {
        let opposite = (before == Side::Negative && after == Side::Positive) || (before
            == Side::Positive && after == Side::Negative);
        opposite && self.matches(before, after)
    }
}

/// A gate crossing found between two consecutive samples.
#[derive(Clone, Copy, Debug, PartialEq, Eq, Structural)]
pub enum GateEvent {
    StartFinish,
    Sector(usize),
}

/// The rank of an event among crossings at the same point of a segment: the start/finish gate
/// first, then sectors in their configured order.
pub open spec fn event_rank(event: GateEvent) -> int {
    match event {
        GateEvent::StartFinish => 0,
        GateEvent::Sector(index) => index + 1,
    }
}

pub fn event_order(event: GateEvent) -> (r: usize)
    requires
        event matches GateEvent::Sector(index) ==> index < usize::MAX,
    ensures
        r == event_rank(event),
{
    match event {
        GateEvent::StartFinish => 0,
        GateEvent::Sector(index) => index + 1,
    }
}


/// What a lap timer does on one gate crossing.
#[derive(Clone, Copy, Debug, PartialEq, Eq, Structural)]
pub enum LapStep {
    /// The start/finish line was crossed and a new lap begins with no sector recorded.
    /// `completes` says whether the lap that was open ends here and is reported; `recorded` is
    /// how many of its sectors, counted from the first, had been crossed in order.
    StartFinish { completes: bool, recorded: usize },
    /// The next expected sector gate was crossed; its crossing time belongs to the open lap.
    RecordSector(usize),
    /// No lap is open or the sector is not the next one expected; nothing changes.
    Ignore,
}

/// The state of a lap timer: how many sector gates are configured, whether a lap is open, and
/// how many of its sectors have been crossed in order (they are always sectors `0..next`).
pub type LapState = (nat, bool, nat);

/// A state that a lap timer can be in.
pub open spec fn lap_state_valid(state: LapState) -> bool {
    &&& state.2 <= state.0
    &&& !state.1 ==> state.2 == 0
}

/// The timer before the first crossing.
pub open spec fn lap_start_state(sector_count: nat) -> LapState {
    (sector_count, false, 0)
}

/// What the timer does on `event`. `later` says whether the crossing comes strictly after the
/// start of the open lap; a lap of zero or negative duration is not reported.
pub open spec fn lap_step_of(state: LapState, event: GateEvent, later: bool) -> LapStep {
    match event {
        GateEvent::StartFinish => LapStep::StartFinish {
            completes: state.1 && later,
            recorded: state.2 as usize,
        },
        GateEvent::Sector(index) => if state.1 && index == state.2 {
            LapStep::RecordSector(index)
        } else {
            LapStep::Ignore
        },
    }
}

/// The timer after `event`.
pub open spec fn lap_after(state: LapState, event: GateEvent, later: bool) -> LapState {
    match event {
        GateEvent::StartFinish => (state.0, true, 0),
        GateEvent::Sector(index) => if state.1 && index == state.2 {
            (state.0, state.1, state.2 + 1)
        } else {
            state
        },
    }
}

/// A lap timer that follows start/finish and sector crossings in the order they occur.
pub struct LapTracker {
    sector_count: usize,
    lap_open: bool,
    next_sector: usize,
}

impl View for LapTracker {
    type V = LapState;

    closed spec fn view(&self) -> LapState {
        (self.sector_count as nat, self.lap_open, self.next_sector as nat)
    }
}

impl LapTracker {
    #[verifier::type_invariant]
    closed spec fn valid(self) -> bool {
        lap_state_valid(self@)
    }

    /// A timer for `sector_count` sector gates, before the first crossing.
    pub fn new(sector_count: usize) -> (r: Self)
        ensures
            r@ == lap_start_state(sector_count as nat),
    {
        LapTracker { sector_count, lap_open: false, next_sector: 0 }
    }

    /// Advances the timer over one crossing. `later` says whether the crossing comes strictly
    /// after the start of the open lap.
    pub fn on_event(&mut self, event: GateEvent, later: bool) -> (r: LapStep)
        requires
            event matches GateEvent::Sector(index) ==> index < old(self)@.0,
        ensures
            r == lap_step_of(old(self)@, event, later),
            final(self)@ == lap_after(old(self)@, event, later),
            lap_state_valid(final(self)@),
    {
        proof {
            use_type_invariant(&*self);
        }
        match event {
            GateEvent::StartFinish => {
                let step = LapStep::StartFinish {
                    completes: self.lap_open && later,
                    recorded: self.next_sector,
                };
                *self = LapTracker { sector_count: self.sector_count, lap_open: true, next_sector: 0 };
                step
            },
            GateEvent::Sector(index) => {
                if self.lap_open && index == self.next_sector {
                    *self = LapTracker {
                        sector_count: self.sector_count,
                        lap_open: true,
                        next_sector: index + 1,
                    };
                    LapStep::RecordSector(index)
                } else {
                    LapStep::Ignore
                }
            },
        }
    }
}


/// The timer after each crossing of `events` in turn, each with its `later` flag.
pub open spec fn lap_run(state: LapState, events: Seq<(GateEvent, bool)>) -> LapState
    decreases events.len(),
{
    if events.len() == 0 {
        state
    } else {
        let before = lap_run(state, events.drop_last());
        lap_after(before, events.last().0, events.last().1)
    }
}

/// What the timer does on each crossing of `events` in turn.
pub open spec fn lap_steps(state: LapState, events: Seq<(GateEvent, bool)>) -> Seq<LapStep>
    decreases events.len(),
{
    if events.len() == 0 {
        Seq::empty()
    } else {
        let before = lap_run(state, events.drop_last());
        lap_steps(state, events.drop_last()).push(
            lap_step_of(before, events.last().0, events.last().1),
        )
    }
}

/// How many sectors were recorded since the last start/finish crossing among `steps`.
pub open spec fn records_since_start(steps: Seq<LapStep>) -> nat
    decreases steps.len(),
{
    if steps.len() == 0 {
        0
    } else {
        match steps.last() {
            LapStep::StartFinish { .. } => 0,
            LapStep::RecordSector(_) => records_since_start(steps.drop_last()) + 1,
            LapStep::Ignore => records_since_start(steps.drop_last()),
        }
    }
}

/// Whether a start/finish crossing occurs among `steps`.
pub open spec fn has_started(steps: Seq<LapStep>) -> bool {
    exists|k: int| 0 <= k < steps.len() && #[trigger] steps[k] is StartFinish
}

/// Every sector index among `events` names a configured gate.
pub open spec fn sectors_within(events: Seq<(GateEvent, bool)>, sector_count: nat) -> bool {
    forall|k: int|
        0 <= k < events.len() ==> ((#[trigger] events[k]).0 matches GateEvent::Sector(index)
            ==> index < sector_count)
}

proof fn lemma_lap_prefix(state: LapState, events: Seq<(GateEvent, bool)>, k: int)
    requires
        0 <= k < events.len(),
    ensures
        lap_steps(state, events).len() == events.len(),
        lap_steps(state, events.take(k)) == lap_steps(state, events).take(k),
        lap_steps(state, events)[k] == lap_step_of(
            lap_run(state, events.take(k)),
            events[k].0,
            events[k].1,
        ),
    decreases events.len(),
{
    let init = events.drop_last();
    if k == events.len() - 1 {
        assert(events.take(k) == init);
        if k > 0 {
            lemma_lap_prefix(state, init, k - 1);
        }
    } else {
        lemma_lap_prefix(state, init, k);
        assert(init.take(k) == events.take(k));
        assert(init[k] == events[k]);
    }
    assert(lap_steps(state, events).take(k) == lap_steps(state, init).take(k)) by {
        if k < events.len() - 1 {
            assert(lap_steps(state, events).take(k) =~= lap_steps(state, init).take(k));
        } else {
            assert(lap_steps(state, events).take(k) =~= lap_steps(state, init));
            assert(lap_steps(state, init).take(k) =~= lap_steps(state, init)) by {
                if k > 0 {
                    lemma_lap_prefix(state, init, k - 1);
                }
            }
        }
    }
}

proof fn lemma_lap_run_state(sector_count: nat, events: Seq<(GateEvent, bool)>)
    requires
        sectors_within(events, sector_count),
    ensures
        lap_steps(lap_start_state(sector_count), events).len() == events.len(),
        lap_run(lap_start_state(sector_count), events) == (
            sector_count,
            has_started(lap_steps(lap_start_state(sector_count), events)),
            records_since_start(lap_steps(lap_start_state(sector_count), events)),
        ),
        lap_state_valid(lap_run(lap_start_state(sector_count), events)),
    decreases events.len(),
{
    let start = lap_start_state(sector_count);
    if events.len() > 0 {
        let init = events.drop_last();
        assert(sectors_within(init, sector_count)) by {
            assert forall|k: int| 0 <= k < init.len() implies ((#[trigger] init[k]).0 matches GateEvent::Sector(index)
                ==> index < sector_count) by {
                assert(init[k] == events[k]);
            }
        }
        lemma_lap_run_state(sector_count, init);
        let before = lap_steps(start, init);
        let after = lap_steps(start, events);
        assert(after.drop_last() == before);
        assert(events.last() == events[events.len() - 1]);
        assert forall|k: int| 0 <= k < before.len() implies after[k] == before[k] by {}
        if has_started(before) {
            let w = choose|k: int| 0 <= k < before.len() && #[trigger] before[k] is StartFinish;
            assert(after[w] is StartFinish);
        }
        if has_started(after) && !(after.last() is StartFinish) {
            let w = choose|k: int| 0 <= k < after.len() && #[trigger] after[k] is StartFinish;
            assert(w < before.len());
            assert(before[w] is StartFinish);
        }
        if after.last() is StartFinish {
            assert(after[after.len() - 1] is StartFinish);
        }
    }
}

/// Within a lap, sector gates count only in their configured order: on any sequence of
/// crossings fed to a fresh timer, the sector recorded at each crossing is the one whose index
/// equals the number of sectors already recorded since the last start/finish crossing, and each
/// start/finish crossing reports exactly that number for the lap it ends, never more than the
/// configured sector count. No sector is recorded before the first start/finish crossing.
pub proof fn law_sectors_recorded_in_order(sector_count: nat, events: Seq<(GateEvent, bool)>)
    requires
        sector_count <= usize::MAX,
        sectors_within(events, sector_count),
    ensures
        lap_steps(lap_start_state(sector_count), events).len() == events.len(),
        forall|k: int|
            #![trigger lap_steps(lap_start_state(sector_count), events)[k]]
            0 <= k < events.len() ==> ({
                let steps = lap_steps(lap_start_state(sector_count), events);
                let before = steps.take(k);
                &&& (steps[k] matches LapStep::RecordSector(index) ==> {
                    &&& index == records_since_start(before)
                    &&& index < sector_count
                    &&& has_started(before)
                })
                &&& (steps[k] matches LapStep::StartFinish { completes, recorded } ==> {
                    &&& recorded == records_since_start(before)
                    &&& recorded <= sector_count
                    &&& (completes ==> has_started(before))
                })
            }),
{
    let start = lap_start_state(sector_count);
    lemma_lap_run_state(sector_count, events);
    assert forall|k: int|
        #![trigger lap_steps(lap_start_state(sector_count), events)[k]]
        0 <= k < events.len() implies {
            let steps = lap_steps(lap_start_state(sector_count), events);
            let before = steps.take(k);
            &&& (steps[k] matches LapStep::RecordSector(index) ==> {
                &&& index == records_since_start(before)
                &&& index < sector_count
                &&& has_started(before)
            })
            &&& (steps[k] matches LapStep::StartFinish { completes, recorded } ==> {
                &&& recorded == records_since_start(before)
                &&& recorded <= sector_count
                &&& (completes ==> has_started(before))
            })
        } by {
        lemma_lap_prefix(start, events, k);
        let prefix = events.take(k);
        assert(sectors_within(prefix, sector_count)) by {
            assert forall|j: int| 0 <= j < prefix.len() implies ((#[trigger] prefix[j]).0 matches GateEvent::Sector(index)
                ==> index < sector_count) by {
                assert(prefix[j] == events[j]);
            }
        }
        lemma_lap_run_state(sector_count, prefix);
        assert(events[k] == events[k]);
    }
}


/// A directed gate accepts only movements from its own side to the other: a
/// `NegativeToPositive` gate accepts a movement only from the negative to the positive side,
/// a `PositiveToNegative` gate only the reverse, and `Either` places no condition. A strict
/// crossing is accepted by exactly one of the two directed gates, a movement is accepted by one
/// directed gate exactly when the reversed movement is accepted by the other, and touching or
/// staying on one side is never a crossing.
pub proof fn law_gate_directions(before: Side, after: Side)
    ensures
        direction_allows(GateDirection::NegativeToPositive, before, after) ==> before
            == Side::Negative && after == Side::Positive,
        direction_allows(GateDirection::PositiveToNegative, before, after) ==> before
            == Side::Positive && after == Side::Negative,
        direction_allows(GateDirection::Either, before, after),
        direction_allows(GateDirection::NegativeToPositive, before, after) == direction_allows(
            GateDirection::PositiveToNegative,
            after,
            before,
        ),
        strictly_opposite(before, after) ==> (direction_allows(
            GateDirection::NegativeToPositive,
            before,
            after,
        ) != direction_allows(GateDirection::PositiveToNegative, before, after)),
        strictly_opposite(before, after) ==> before != Side::On && after != Side::On && before
            != after,
        before != Side::On && after != Side::On && before != after ==> strictly_opposite(
            before,
            after,
        ),
{
}

/// Every start/finish crossing that comes later than the start of an open lap completes that
/// lap, however many of its sectors were crossed, and reports how many were; any start/finish
/// crossing opens a fresh lap with no sector recorded. With no lap open, or a crossing that is
/// not later, nothing is completed.
pub proof fn law_start_finish_completes_any_open_lap(state: LapState, later: bool)
    requires
        lap_state_valid(state),
        state.0 <= usize::MAX,
    ensures
        lap_step_of(state, GateEvent::StartFinish, later) == (LapStep::StartFinish {
            completes: state.1 && later,
            recorded: state.2 as usize,
        }),
        state.1 && later ==> (lap_step_of(state, GateEvent::StartFinish, later) matches LapStep::StartFinish { completes: true, .. }),
        lap_after(state, GateEvent::StartFinish, later) == (state.0, true, 0nat),
{
}

/// Over any sequence of crossings fed to a fresh timer, a start/finish crossing completes a
/// lap exactly when an earlier start/finish crossing has opened one and the crossing comes
/// later than that lap's start; how many sectors were crossed plays no part.
pub proof fn law_laps_complete_on_every_later_crossing(
    sector_count: nat,
    events: Seq<(GateEvent, bool)>,
)
    requires
        sectors_within(events, sector_count),
    ensures
        forall|k: int|
            #![trigger lap_steps(lap_start_state(sector_count), events)[k]]
            0 <= k < events.len() && events[k].0 == GateEvent::StartFinish ==> (lap_steps(
                lap_start_state(sector_count),
                events,
            )[k] matches LapStep::StartFinish { completes, .. } && completes == (has_started(
                lap_steps(lap_start_state(sector_count), events).take(k),
            ) && events[k].1)),
{
    let start = lap_start_state(sector_count);
    lemma_lap_run_state(sector_count, events);
    assert forall|k: int|
        #![trigger lap_steps(lap_start_state(sector_count), events)[k]]
        0 <= k < events.len() && events[k].0 == GateEvent::StartFinish implies (lap_steps(
            lap_start_state(sector_count),
            events,
        )[k] matches LapStep::StartFinish { completes, .. } && completes == (has_started(
            lap_steps(lap_start_state(sector_count), events).take(k),
        ) && events[k].1)) by {
        lemma_lap_prefix(start, events, k);
        let prefix = events.take(k);
        assert(sectors_within(prefix, sector_count)) by {
            assert forall|j: int| 0 <= j < prefix.len() implies ((#[trigger] prefix[j]).0 matches GateEvent::Sector(index)
                ==> index < sector_count) by {
                assert(prefix[j] == events[j]);
            }
        }
        lemma_lap_run_state(sector_count, prefix);
    }
}

/// Crossings found at the same point of a segment are taken start/finish first, then sector
/// gates in their configured order: the rank of a start/finish crossing is below that of every
/// sector crossing, and sector ranks strictly increase with the sector index.
pub proof fn law_event_order_puts_start_finish_first(i: usize, j: usize)
    ensures
        event_rank(GateEvent::StartFinish) < event_rank(GateEvent::Sector(i)),
        i < j ==> event_rank(GateEvent::Sector(i)) < event_rank(GateEvent::Sector(j)),
        event_rank(GateEvent::Sector(i)) == event_rank(GateEvent::Sector(j)) ==> i == j,
        event_rank(GateEvent::StartFinish) == 0,
{
}

/// A malformed input or impossible analysis request.
#[derive(Clone, Debug, PartialEq, Eq)]
pub enum AnalysisError {
    /// The timestamp and value counts differ.
    MismatchedLengths { timestamps: usize, values: usize },
    /// The timestamp at `index` is not finite.
    InvalidTimestamp { index: usize },
    /// The timestamp at `index` is not strictly greater than its predecessor.
    NonMonotonicTimestamp { index: usize },
    /// A query timestamp is not finite.
    InvalidQueryTimestamp,
    /// The point at `index` is not a finite WGS84 coordinate.
    InvalidPoint { index: usize },
    /// The timing line called `name` has an invalid or repeated end point.
    InvalidGate { name: String },
    /// Resampling needs a finite start no later than a finite end, and a positive finite
    /// interval.
    InvalidResamplingInterval,
    /// A smoothing window must hold at least one sample.
    InvalidSmoothingWindow,
    /// Resampling would create more than `limit` samples.
    OutputLimit { limit: usize },
}

} // verus!
