//! The state machine of a regression over a stream of points: how much of
//! the current segment has been seen, and what each further point leads to.
//!
//! A regression keeps the geometry; this module decides. It is told of each
//! point whether it fits the current segment, and answers with what to do
//! with the point.

use vstd::prelude::*;

verus! {

/// How much of the current segment a stream has seen.
#[derive(Debug, Clone, Copy, PartialEq, Eq, Structural)]
pub enum StreamState {
    /// No point: two are needed before the segment has a direction.
    Need2,
    /// The first point of the segment.
    Need1,
    /// Two points or more: the segment has bounds that a point can be held
    /// against.
    Ready,
}

/// What a regression does with a point.
#[derive(Debug, Clone, Copy, PartialEq, Eq, Structural)]
pub enum PointAction {
    /// Keep it as the first point of the segment.
    Start,
    /// Keep it as the second point and set the bounds up.
    SetUp,
    /// Tighten the bounds around it.
    Tighten,
    /// Emit the current segment, which ends before the point, and keep the
    /// point as the first of the next segment.
    Emit,
}

/// What a regression emits when the stream ends.
#[derive(Debug, Clone, Copy, PartialEq, Eq, Structural)]
pub enum Closing {
    /// Nothing: there was no point.
    Nothing,
    /// The constant through the only point of the segment.
    Constant,
    /// The current segment.
    Current,
}

/// What is done with a point that comes in state `state`; `fits` says
/// whether the point lies within the bounds, and counts in `Ready` alone.
pub open spec fn action_on(state: StreamState, fits: bool) -> PointAction {
    match state {
        StreamState::Need2 => PointAction::Start,
        StreamState::Need1 => PointAction::SetUp,
        StreamState::Ready => if fits {
            PointAction::Tighten
        } else {
            PointAction::Emit
        },
    }
}

/// The state after a point that comes in state `state`.
pub open spec fn state_after(state: StreamState, fits: bool) -> StreamState {
    match action_on(state, fits) {
        PointAction::Start => StreamState::Need1,
        PointAction::SetUp => StreamState::Ready,
        PointAction::Tighten => StreamState::Ready,
        PointAction::Emit => StreamState::Need1,
    }
}

/// What the end of the stream leads to in state `state`.
pub open spec fn closing_of(state: StreamState) -> Closing {
    match state {
        StreamState::Need2 => Closing::Nothing,
        StreamState::Need1 => Closing::Constant,
        StreamState::Ready => Closing::Current,
    }
}

/// The state of a stream after the points of which `fits` says, one by one,
/// whether they fitted.
pub open spec fn state_of(fits: Seq<bool>) -> StreamState
    decreases fits.len(),
{
    if fits.len() == 0 {
        StreamState::Need2
    } else {
        state_after(state_of(fits.drop_last()), fits.last())
    }
}

/// The segments that a stream has emitted after the points of `fits`.
pub open spec fn emitted(fits: Seq<bool>) -> nat
    decreases fits.len(),
{
    if fits.len() == 0 {
        0
    } else {
        emitted(fits.drop_last()) + if action_on(state_of(fits.drop_last()), fits.last())
            == PointAction::Emit {
            1nat
        } else {
            0nat
        }
    }
}

/// The points that the current segment is known to hold in state `state`.
pub open spec fn held(state: StreamState) -> nat {
    match state {
        StreamState::Need2 => 0,
        StreamState::Need1 => 1,
        StreamState::Ready => 2,
    }
}

/// Takes a point in: what to do with it, and the state that follows.
pub fn step(state: StreamState, fits: bool) -> (r: (StreamState, PointAction))
    ensures
        r.0 == state_after(state, fits),
        r.1 == action_on(state, fits),
{
    match state {
        StreamState::Need2 => (StreamState::Need1, PointAction::Start),
        StreamState::Need1 => (StreamState::Ready, PointAction::SetUp),
        StreamState::Ready => {
            if fits {
                (StreamState::Ready, PointAction::Tighten)
            } else {
                (StreamState::Need1, PointAction::Emit)
            }
        },
    }
}

/// Ends the stream: what to emit last.
pub fn closing(state: StreamState) -> (r: Closing)
    ensures
        r == closing_of(state),
{
    match state {
        StreamState::Need2 => Closing::Nothing,
        StreamState::Need1 => Closing::Constant,
        StreamState::Ready => Closing::Current,
    }
}

/// Every emitted segment holds two points at least: the points taken in are
/// no fewer than two for each emitted segment and those that the current
/// segment holds.
pub proof fn lemma_segments_hold_two(fits: Seq<bool>)
    ensures
        2 * emitted(fits) + held(state_of(fits)) <= fits.len(),
    decreases fits.len(),
{
    if fits.len() > 0 {
        lemma_segments_hold_two(fits.drop_last());
    }
}

/// The end of a stream emits nothing if and only if no point was taken in.
pub proof fn lemma_closing_nothing(fits: Seq<bool>)
    ensures
        closing_of(state_of(fits)) == Closing::Nothing <==> fits.len() == 0,
{
}

/// A stream of `n` points gives at most half of `n`, rounded up, segments,
/// the last one counted.
pub proof fn lemma_segment_count(fits: Seq<bool>)
    ensures
        2 * (emitted(fits) + if fits.len() == 0 {
            0nat
        } else {
            1nat
        }) <= fits.len() + 1,
{
    lemma_segments_hold_two(fits);
    lemma_closing_nothing(fits);
}

} // verus!
