//! The schedule for replaying a recorded segment as a pointer movement.
//!
//! Replaying visits the segment's samples in order: before each move it waits
//! for the time recorded between the previous sample and this one (nothing
//! before the first move; samples carry milliseconds since the start of the
//! recording), and it blends the recorded offset with a share `index / last_index` of the
//! correction that lands the pointer on its target. The blending itself is
//! coordinate arithmetic left to the caller; this module decides whether a
//! segment can be replayed and lays out the steps.
use vstd::prelude::*;
use crate::segment::{Sample, Segment};

verus! {

/// Why a movement cannot be replayed.
#[derive(Clone, Copy, Debug, PartialEq, Eq, Structural)]
pub enum PlaybackError {
    /// No segment was found to replay.
    EmptyDatabase,
    /// The segment has fewer than two samples (the count found).
    InsufficientSamples(usize),
}

/// One move of a replay.
#[derive(Clone, Copy, Debug, PartialEq, Eq, Structural)]
pub struct PlaybackStep {
    /// Milliseconds to wait before the move (none when zero): the time from
    /// the previous sample, zero for the first sample or when time ran backwards.
    pub delay_ms: u64,
    /// Position of the sample in the segment.
    pub index: usize,
    /// Position of the segment's last sample: the move applies the share
    /// `index / last_index` of the correction.
    pub last_index: usize,
}

/// Milliseconds recorded between the sample before `i` and the sample at `i`
/// of `points`, clamped at zero; zero for the first sample.
pub open spec fn delay_before<C>(points: Seq<Sample<C>>, i: int) -> u64 {
    if i == 0 || points[i].t_ms < points[i - 1].t_ms {
        0
    } else {
        (points[i].t_ms - points[i - 1].t_ms) as u64
    }
}

/// The step that replays the sample at `i` of `points`.
pub open spec fn step_for<C>(points: Seq<Sample<C>>, i: int) -> PlaybackStep {
    PlaybackStep { delay_ms: delay_before(points, i), index: i as usize, last_index: (points.len() - 1) as usize }
}

/// The replay waits nothing before the first move and, before each later
/// move, the time recorded since the previous sample (nothing when time ran
/// backwards); the step for the sample at `i` applies the share
/// `i / (len - 1)` of the correction.
pub proof fn lemma_replay_waits_recorded_gaps<C>(points: Seq<Sample<C>>, i: int)
    requires
        0 <= i < points.len(),
        points.len() >= 2,
        points.len() <= usize::MAX,
    ensures
        i == 0 ==> step_for(points, i).delay_ms == 0,
        i > 0 && points[i - 1].t_ms <= points[i].t_ms ==> step_for(points, i).delay_ms as int == points[i].t_ms
            - points[i - 1].t_ms,
        i > 0 && points[i].t_ms < points[i - 1].t_ms ==> step_for(points, i).delay_ms == 0,
        step_for(points, i).index as int == i,
        step_for(points, i).last_index as int == points.len() - 1,
{
}

/// Lays out the replay of `segment`: one step per sample, in order.
///
/// Fails with `EmptyDatabase` when no segment is given, and with
/// `InsufficientSamples` when it has fewer than two samples.
pub fn playback_plan<C: Copy>(segment: Option<&Segment<C>>) -> (res: Result<Vec<PlaybackStep>, PlaybackError>)
    ensures
        match segment {
            None => res == Err::<Vec<PlaybackStep>, PlaybackError>(PlaybackError::EmptyDatabase),
            Some(seg) => if seg@.len() < 2 {
                res == Err::<Vec<PlaybackStep>, PlaybackError>(
                    PlaybackError::InsufficientSamples(seg@.len() as usize),
                )
            } else {
                res matches Ok(steps) && steps@.len() == seg@.len() && forall|i: int|
                    0 <= i < steps@.len() ==> #[trigger] steps@[i] == step_for(seg@, i)
            },
        },
{
    let seg = match segment {
        None => return Err(PlaybackError::EmptyDatabase),
        Some(seg) => seg,
    };
    let points = seg.points();
    let total = points.len();
    if total < 2 {
        return Err(PlaybackError::InsufficientSamples(total));
    }
    let mut steps: Vec<PlaybackStep> = Vec::new();
    let mut i: usize = 0;
    while i < total
        invariant
            total == points@.len(),
            points@ == seg@,
            total >= 2,
            0 <= i <= total,
            steps@.len() == i,
            forall|j: int| 0 <= j < i ==> #[trigger] steps@[j] == step_for(seg@, j),
        decreases total - i,
    {
        let delay_ms = if i == 0 {
            0
        } else {
            points[i].t_ms.saturating_sub(points[i - 1].t_ms)
        };
        steps.push(PlaybackStep { delay_ms, index: i, last_index: total - 1 });
        i = i + 1;
    }
    Ok(steps)
}

} // verus!
