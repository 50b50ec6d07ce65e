//! Samples, segments and the validity rules that a finished gesture must meet.
//!
//! Positions are carried as an opaque coordinate type `C`. Everything this
//! module decides reads timestamps and point counts directly; the only
//! geometric question, how far apart two samples are compared with a
//! threshold, is answered by a caller-supplied metric (see [`Proximity`]).
use vstd::prelude::*;

verus! {

/// A single mouse position sample with timestamp.
#[derive(Clone, Copy, Debug)]
pub struct Sample<C> {
    /// Timestamp in milliseconds from start of recording.
    pub t_ms: u64,
    /// X coordinate in screen pixels.
    pub x: C,
    /// Y coordinate in screen pixels.
    pub y: C,
}

/// How the distance between two samples compares with a threshold.
///
/// A metric answers `Within` when the distance is below the threshold,
/// `AtThreshold` when it is equal, `Beyond` when it is above, and
/// `Undefined` when the two cannot be compared (a distance that is not a number).
#[derive(Clone, Copy, Debug, PartialEq, Eq, Structural)]
pub enum Proximity {
    Within,
    AtThreshold,
    Beyond,
    Undefined,
}

/// The distance is strictly greater than the threshold.
pub open spec fn is_beyond(p: Proximity) -> bool {
    p is Beyond
}

/// The distance is at least the threshold.
pub open spec fn is_reached(p: Proximity) -> bool {
    p is Beyond || p is AtThreshold
}

/// A metric can be asked about any two samples and any threshold.
pub open spec fn metric_total<C, M: Fn(&Sample<C>, &Sample<C>, &C) -> Proximity>(metric: M) -> bool {
    forall|a: &Sample<C>, b: &Sample<C>, t: &C| call_requires(metric, (a, b, t))
}

/// Errors raised by segment queries.
#[derive(Clone, Copy, Debug, PartialEq, Eq, Structural)]
pub enum SegmentError {
    /// The segment holds no point, so it has no first or last sample.
    EmptySegment,
}

/// Configuration parameters for gesture segmentation.
#[derive(Clone, Copy, Debug)]
pub struct SegmenterConfig<C> {
    /// Movement epsilon in pixels - minimum distance to consider as movement
    pub move_epsilon_px: C,
    /// Inactivity timeout in milliseconds - time without movement to end segment
    pub inactive_ms: u64,
    /// Minimum segment duration in milliseconds
    pub min_segment_duration_ms: u64,
    /// Minimum segment displacement in pixels - straight-line distance from start to end
    pub min_segment_displacement_px: C,
    /// Minimum number of points in a valid segment
    pub min_points: usize,
}

/// Time from the first to the last point, clamped at zero.
pub open spec fn span<C>(points: Seq<Sample<C>>) -> u64
    recommends
        points.len() > 0,
{
    if points.last().t_ms >= points[0].t_ms {
        (points.last().t_ms - points[0].t_ms) as u64
    } else {
        0
    }
}

/// The span is the exact time from the first to the last point when that
/// is not negative, and zero otherwise.
pub proof fn lemma_span_is_elapsed_time<C>(points: Seq<Sample<C>>)
    requires
        points.len() > 0,
    ensures
        points.last().t_ms >= points[0].t_ms ==> span(points) as int == points.last().t_ms - points[0].t_ms,
        points.last().t_ms < points[0].t_ms ==> span(points) == 0,
{
}

/// Whether judging `points` against `config` needs the displacement test:
/// the count and duration tests come first and short-circuit it.
pub open spec fn needs_displacement<C>(points: Seq<Sample<C>>, config: SegmenterConfig<C>) -> bool {
    &&& points.len() >= config.min_points
    &&& points.len() > 0
    &&& span(points) >= config.min_segment_duration_ms
}

/// The validity verdict on `points`, where `disp` is the metric's answer on the
/// first and last point against the minimum displacement.
pub open spec fn validity<C>(points: Seq<Sample<C>>, config: SegmenterConfig<C>, disp: Proximity) -> Result<bool, SegmentError> {
    if points.len() < config.min_points {
        Ok(false)
    } else if points.len() == 0 {
        Err(SegmentError::EmptySegment)
    } else if span(points) < config.min_segment_duration_ms {
        Ok(false)
    } else {
        Ok(is_reached(disp))
    }
}

/// A segment is judged valid exactly when it has at least the minimum number
/// of points (and at least one), the time from its first to its last point
/// (zero if negative) is at least the minimum duration, and its endpoints are
/// at least the minimum displacement apart; the judgement fails only on an
/// empty segment that the point count lets through.
pub proof fn lemma_validity_exact<C>(points: Seq<Sample<C>>, config: SegmenterConfig<C>, disp: Proximity)
    ensures
        validity(points, config, disp) == Ok::<bool, SegmentError>(true) <==> {
            &&& points.len() >= config.min_points
            &&& points.len() > 0
            &&& (if points.last().t_ms >= points[0].t_ms {
                points.last().t_ms - points[0].t_ms
            } else {
                0
            }) >= config.min_segment_duration_ms
            &&& (disp is Beyond || disp is AtThreshold)
        },
        validity(points, config, disp) is Err <==> (points.len() >= config.min_points && points.len() == 0),
{
}

/// `disp` is what the metric answered on the segment's endpoints, wherever the
/// verdict asks for it.
pub open spec fn displacement_answered<C, M: Fn(&Sample<C>, &Sample<C>, &C) -> Proximity>(
    metric: M,
    points: Seq<Sample<C>>,
    config: SegmenterConfig<C>,
    disp: Proximity,
) -> bool {
    needs_displacement(points, config) ==> call_ensures(
        metric,
        (&points[0], &points.last(), &config.min_segment_displacement_px),
        disp,
    )
}

/// A sequence of samples representing a discrete gesture or mouse movement.
#[derive(Debug)]
pub struct Segment<C> {
    points: Vec<Sample<C>>,
}

impl<C> View for Segment<C> {
    type V = Seq<Sample<C>>;

    closed spec fn view(&self) -> Seq<Sample<C>> {
        self.points@
    }
}

impl<C: Copy> Segment<C> {
    /// Builds a segment from its points, in order.
    pub fn from_points(points: Vec<Sample<C>>) -> (seg: Self)
        ensures
            seg@ == points@,
    {
        Segment { points }
    }

    /// Returns a slice of all samples in this segment.
    pub fn points(&self) -> (pts: &[Sample<C>])
        ensures
            pts@ == self@,
    {
        self.points.as_slice()
    }

    /// Calculates the duration of the segment in milliseconds.
    ///
    /// Returns the time difference between the first and last sample,
    /// or zero when the last sample is older than the first.
    pub fn duration(&self) -> (res: Result<u64, SegmentError>)
        ensures
            self@.len() == 0 <==> res is Err,
            res matches Ok(d) ==> d == span(self@),
            self@.len() > 0 && self@.last().t_ms >= self@[0].t_ms ==> (res matches Ok(d) && d as int
                == self@.last().t_ms - self@[0].t_ms),
            self@.len() > 0 && self@.last().t_ms < self@[0].t_ms ==> res == Ok::<u64, SegmentError>(0),
            res matches Err(e) ==> e == SegmentError::EmptySegment,
    {
        let n = self.points.len();
        if n == 0 {
            return Err(SegmentError::EmptySegment);
        }
        let first = self.points[0].t_ms;
        let last = self.points[n - 1].t_ms;
        Ok(last.saturating_sub(first))
    }

    /// Calculates the displacement of the segment: the distance, as `distance`
    /// measures it, from the first to the last sample.
    pub fn displacement<D, F: Fn(&Sample<C>, &Sample<C>) -> D>(&self, distance: &F) -> (res: Result<D, SegmentError>)
        requires
            forall|a: &Sample<C>, b: &Sample<C>| call_requires(*distance, (a, b)),
        ensures
            self@.len() == 0 <==> res is Err,
            res matches Ok(d) ==> call_ensures(*distance, (&self@[0], &self@.last()), d),
            res matches Err(e) ==> e == SegmentError::EmptySegment,
    {
        let n = self.points.len();
        if n == 0 {
            return Err(SegmentError::EmptySegment);
        }
        let first = &self.points[0];
        let last = &self.points[n - 1];
        Ok(distance(first, last))
    }

    /// Checks if the segment meets validity criteria.
    ///
    /// A segment is valid if it has enough points, sufficient duration,
    /// and sufficient displacement as defined by the configuration; the
    /// tests run in that order and stop at the first that fails.
    pub fn is_valid<M: Fn(&Sample<C>, &Sample<C>, &C) -> Proximity>(
        &self,
        config: &SegmenterConfig<C>,
        metric: &M,
    ) -> (res: Result<bool, SegmentError>)
        requires
            metric_total(*metric),
        ensures
            exists|disp: Proximity|
                displacement_answered(*metric, self@, *config, disp) && res == validity(self@, *config, disp),
    {
        let n = self.points.len();
        if n < config.min_points {
            assert(validity(self@, *config, Proximity::Undefined) == Ok::<bool, SegmentError>(false));
            return Ok(false);
        }
        let duration = match self.duration() {
            Ok(d) => d,
            Err(e) => {
                assert(validity(self@, *config, Proximity::Undefined) == Err::<bool, SegmentError>(e));
                return Err(e);
            },
        };
        if duration < config.min_segment_duration_ms {
            assert(validity(self@, *config, Proximity::Undefined) == Ok::<bool, SegmentError>(false));
            return Ok(false);
        }
        let first = &self.points[0];
        let last = &self.points[n - 1];
        let disp = metric(first, last, &config.min_segment_displacement_px);
        assert(self@.last() == self@[n - 1]);
        let valid = match disp {
            Proximity::Beyond => true,
            Proximity::AtThreshold => true,
            _ => false,
        };
        assert(displacement_answered(*metric, self@, *config, disp));
        assert(validity(self@, *config, disp) == Ok::<bool, SegmentError>(valid));
        Ok(valid)
    }
}

} // verus!
