//! The state machine that turns a stream of samples into gesture segments.
//!
//! The segmenter is idle until a sample lands farther than the movement
//! epsilon from the one before it; it then records points until the pointer
//! has rested for the inactivity timeout, and hands the recorded segment out
//! if it is valid. Distances are judged by the metric the segmenter was built
//! with; every other decision is made here.
use vstd::prelude::*;
use crate::segment::{
    Sample, Segment, SegmentError, SegmenterConfig, Proximity, is_beyond, metric_total, validity,
    displacement_answered, is_reached, span, needs_displacement,
};

verus! {

/// The abstract state of a segmenter.
#[allow(inconsistent_fields)]
pub ghost enum Phase<C> {
    /// Not currently recording a segment.
    Idle { last_sample: Option<Sample<C>> },
    /// Actively recording a segment.
    Recording {
        points: Seq<Sample<C>>,
        last_sample: Sample<C>,
        last_recorded_point: Sample<C>,
        last_movement_time: u64,
    },
}

/// Milliseconds from `since` to `now`, clamped at zero.
pub open spec fn elapsed_ms(now: u64, since: u64) -> u64 {
    if now >= since {
        (now - since) as u64
    } else {
        0
    }
}

/// A recording phase holds at least the two samples that started it and ends
/// at its last recorded point.
pub open spec fn phase_wf<C>(phase: Phase<C>) -> bool {
    match phase {
        Phase::Idle { .. } => true,
        Phase::Recording { points, last_recorded_point, .. } => {
            &&& points.len() >= 2
            &&& points.last() == last_recorded_point
        },
    }
}

/// Each point lies beyond `epsilon` from the point before it, as `metric` answered.
pub open spec fn spaced<C, M: Fn(&Sample<C>, &Sample<C>, &C) -> Proximity>(
    metric: M,
    epsilon: C,
    points: Seq<Sample<C>>,
) -> bool {
    forall|i: int, j: int|
        0 <= i && j == i + 1 && j < points.len() ==> #[trigger] call_ensures(
            metric,
            (&points[i], &points[j], &epsilon),
            Proximity::Beyond,
        )
}

/// The position of the latest answer at or after `from` that reported
/// movement, or `from - 1` when there is none.
pub open spec fn latest_movement(answers: Seq<Proximity>, from: int) -> int
    decreases answers.len(),
{
    if answers.len() == 0 || answers.len() - 1 < from {
        from - 1
    } else if is_beyond(answers.last()) {
        answers.len() - 1
    } else {
        latest_movement(answers.drop_last(), from)
    }
}

/// `points` are the samples of `history` at the strictly increasing positions `picks`.
pub open spec fn picked_from<C>(points: Seq<Sample<C>>, history: Seq<Sample<C>>, picks: Seq<int>) -> bool {
    &&& picks.len() == points.len()
    &&& forall|k: int|
        0 <= k < picks.len() ==> 0 <= #[trigger] picks[k] < history.len() && points[k] == history[picks[k]]
    &&& forall|k: int, l: int| 0 <= k < l < picks.len() ==> #[trigger] picks[k] < #[trigger] picks[l]
}

/// `points` were taken, in order, from `history`, beginning with the sample
/// before position `start` and the sample at `start`.
pub open spec fn started_at<C>(points: Seq<Sample<C>>, history: Seq<Sample<C>>, start: int) -> bool {
    exists|picks: Seq<int>| #[trigger] picked_from(points, history, picks) && picks[0] == start - 1 && picks[1] == start
}

/// `phase` agrees with the samples pushed so far (`history`) and with the
/// metric's answers on each sample and the one before it (`answers`; the
/// first sample has none to compare with). The segmenter has been idle since
/// position `idle_since` (the first sample, or the one that closed the last
/// recording) with no movement after it, up to the current recording, if
/// any: it began at `start`, the first movement after that, and its points
/// were taken from the history at `picks`. Its last movement time is that of
/// the latest sample reported to have moved, and its last sample is its last
/// recorded point or was reported as no movement from it.
pub open spec fn tracks<C, M: Fn(&Sample<C>, &Sample<C>, &C) -> Proximity>(
    metric: M,
    epsilon: C,
    phase: Phase<C>,
    history: Seq<Sample<C>>,
    answers: Seq<Proximity>,
    idle_since: int,
    start: int,
    picks: Seq<int>,
) -> bool {
    &&& answers.len() == history.len()
    &&& forall|i: int, j: int|
        0 <= i && j == i + 1 && j < history.len() ==> #[trigger] call_ensures(
            metric,
            (&history[i], &history[j], &epsilon),
            answers[j],
        )
    &&& 0 <= idle_since
    &&& match phase {
        Phase::Idle { last_sample } => {
            &&& last_sample == (if history.len() == 0 {
                None
            } else {
                Some(history.last())
            })
            &&& history.len() == 0 ==> idle_since == 0
            &&& history.len() > 0 ==> idle_since < history.len()
            &&& forall|i: int| idle_since < i < history.len() ==> !is_beyond(#[trigger] answers[i])
        },
        Phase::Recording { points, last_sample, last_recorded_point, last_movement_time } => {
            &&& idle_since < start < history.len()
            &&& (last_recorded_point == last_sample || exists|r: Proximity|
                #[trigger] call_ensures(metric, (&last_recorded_point, &last_sample, &epsilon), r)
                    && !is_beyond(r))
            &&& is_beyond(answers[start])
            &&& forall|i: int| idle_since < i < start ==> !is_beyond(#[trigger] answers[i])
            &&& last_sample == history.last()
            &&& picked_from(points, history, picks)
            &&& picks[0] == start - 1
            &&& picks[1] == start
            &&& last_movement_time == history[latest_movement(answers, start)].t_ms
        },
    }
}

/// The metric's answer depends only on the positions of the two samples and
/// on the threshold, and it is the same each time the metric is asked.
pub open spec fn positional<C, M: Fn(&Sample<C>, &Sample<C>, &C) -> Proximity>(metric: M) -> bool {
    forall|a1: Sample<C>, b1: Sample<C>, a2: Sample<C>, b2: Sample<C>, t: C, r1: Proximity, r2: Proximity|
        a1.x == a2.x && a1.y == a2.y && b1.x == b2.x && b1.y == b2.y && #[trigger] call_ensures(
            metric,
            (&a1, &b1, &t),
            r1,
        ) && #[trigger] call_ensures(metric, (&a2, &b2, &t), r2) ==> r1 == r2
}

/// Two samples at the same position are never reported as lying beyond
/// `epsilon` from each other.
pub open spec fn rest_is_no_movement<C, M: Fn(&Sample<C>, &Sample<C>, &C) -> Proximity>(
    metric: M,
    epsilon: C,
) -> bool {
    forall|a: Sample<C>, b: Sample<C>, r: Proximity|
        a.x == b.x && a.y == b.y && #[trigger] call_ensures(metric, (&a, &b, &epsilon), r) ==> !is_beyond(r)
}

/// Appending an answer moves the latest movement to it when it reports
/// movement, and leaves it otherwise.
pub proof fn lemma_latest_movement_push(answers: Seq<Proximity>, from: int, a: Proximity)
    requires
        0 <= from <= answers.len(),
    ensures
        latest_movement(answers.push(a), from) == if is_beyond(a) {
            answers.len() as int
        } else {
            latest_movement(answers, from)
        },
{
    assert(answers.push(a).drop_last() == answers);
    if answers.len() == from {
        if answers.len() == 0 {
        } else {
            assert(latest_movement(answers, from) == from - 1);
        }
    }
}

/// When the answer at `from` reports movement, the latest movement lies
/// between `from` and the end, reports movement, and no later answer does.
pub proof fn lemma_latest_movement_is_last_move(answers: Seq<Proximity>, from: int)
    requires
        0 <= from < answers.len(),
        is_beyond(answers[from]),
    ensures
        from <= latest_movement(answers, from) < answers.len(),
        answers[latest_movement(answers, from)] is Beyond,
        forall|i: int| latest_movement(answers, from) < i < answers.len() ==> !(#[trigger] answers[i] is Beyond),
    decreases answers.len(),
{
    if is_beyond(answers.last()) {
    } else {
        assert(from != answers.len() - 1);
        let shorter = answers.drop_last();
        assert(shorter[from] == answers[from]);
        lemma_latest_movement_is_last_move(shorter, from);
        assert(shorter[latest_movement(shorter, from)] == answers[latest_movement(shorter, from)]);
        assert forall|i: int| latest_movement(answers, from) < i < answers.len() implies !(
        #[trigger] answers[i] is Beyond) by {
            if i < shorter.len() {
                assert(shorter[i] == answers[i]);
            }
        }
    }
}

/// Finishing acts as an immediate inactivity timeout: a sample that the
/// metric reports as no movement from the previous and the last recorded
/// point, arriving once the inactivity timeout has passed since the last
/// movement, hands out exactly what finishing hands out.
pub proof fn lemma_finish_is_immediate_timeout<C>(
    config: SegmenterConfig<C>,
    phase: Phase<C>,
    s: Sample<C>,
    moved_prev: Proximity,
    moved_rec: Proximity,
    disp: Proximity,
)
    requires
        phase is Recording,
        !is_beyond(moved_prev),
        !is_beyond(moved_rec),
        elapsed_ms(s.t_ms, phase->last_movement_time) >= config.inactive_ms,
    ensures
        advance(config, phase, s, moved_prev, moved_rec, disp).1 == closing(config, phase, disp),
{
}

/// The time of the last movement once `s` has been seen, where `moved` is the
/// metric's answer on the previous sample and `s`.
pub open spec fn next_movement_time<C>(last_movement_time: u64, s: Sample<C>, moved: Proximity) -> u64 {
    if is_beyond(moved) {
        s.t_ms
    } else {
        last_movement_time
    }
}

/// The recorded points once `s` has been seen, where `moved` is the metric's
/// answer on the last recorded point and `s`.
pub open spec fn next_points<C>(points: Seq<Sample<C>>, s: Sample<C>, moved: Proximity) -> Seq<Sample<C>> {
    if is_beyond(moved) {
        points.push(s)
    } else {
        points
    }
}

/// While recording, `s` closes the segment: the pointer has rested for the
/// inactivity timeout.
pub open spec fn closes<C>(
    config: SegmenterConfig<C>,
    last_movement_time: u64,
    s: Sample<C>,
    moved_prev: Proximity,
) -> bool {
    elapsed_ms(s.t_ms, next_movement_time(last_movement_time, s, moved_prev)) >= config.inactive_ms
}

/// What a finished recording yields: its points if they are valid.
pub open spec fn verdict<C>(points: Seq<Sample<C>>, config: SegmenterConfig<C>, disp: Proximity) -> Option<Seq<Sample<C>>> {
    if validity(points, config, disp) == Ok::<bool, SegmentError>(true) {
        Some(points)
    } else {
        None
    }
}

/// One step of the segmenter: the phase after `s` and the segment it yields.
///
/// `moved_prev` is the metric's answer on the previous sample and `s` against
/// the movement epsilon, `moved_rec` its answer on the last recorded point and
/// `s`, and `disp` its answer on the endpoints of a finished segment against
/// the minimum displacement.
pub open spec fn advance<C>(
    config: SegmenterConfig<C>,
    phase: Phase<C>,
    s: Sample<C>,
    moved_prev: Proximity,
    moved_rec: Proximity,
    disp: Proximity,
) -> (Phase<C>, Option<Seq<Sample<C>>>) {
    match phase {
        Phase::Idle { last_sample: None } => (Phase::Idle { last_sample: Some(s) }, None),
        Phase::Idle { last_sample: Some(prev) } => {
            if is_beyond(moved_prev) {
                (
                    Phase::Recording {
                        points: seq![prev, s],
                        last_sample: s,
                        last_recorded_point: s,
                        last_movement_time: s.t_ms,
                    },
                    None,
                )
            } else {
                (Phase::Idle { last_sample: Some(s) }, None)
            }
        },
        Phase::Recording { points, last_sample, last_recorded_point, last_movement_time } => {
            let movement = next_movement_time(last_movement_time, s, moved_prev);
            let grown = next_points(points, s, moved_rec);
            if closes(config, last_movement_time, s, moved_prev) {
                (Phase::Idle { last_sample: Some(s) }, verdict(grown, config, disp))
            } else {
                (
                    Phase::Recording {
                        points: grown,
                        last_sample: s,
                        last_recorded_point: if is_beyond(moved_rec) {
                            s
                        } else {
                            last_recorded_point
                        },
                        last_movement_time: movement,
                    },
                    None,
                )
            }
        },
    }
}

/// The answers `moved_prev`, `moved_rec` and `disp` are those that `metric`
/// gave on the pairs that a step from `phase` on `s` asks about.
pub open spec fn consulted<C, M: Fn(&Sample<C>, &Sample<C>, &C) -> Proximity>(
    metric: M,
    config: SegmenterConfig<C>,
    phase: Phase<C>,
    s: Sample<C>,
    moved_prev: Proximity,
    moved_rec: Proximity,
    disp: Proximity,
) -> bool {
    match phase {
        Phase::Idle { last_sample: None } => true,
        Phase::Idle { last_sample: Some(prev) } => call_ensures(
            metric,
            (&prev, &s, &config.move_epsilon_px),
            moved_prev,
        ),
        Phase::Recording { points, last_sample, last_recorded_point, last_movement_time } => {
            &&& call_ensures(metric, (&last_sample, &s, &config.move_epsilon_px), moved_prev)
            &&& call_ensures(metric, (&last_recorded_point, &s, &config.move_epsilon_px), moved_rec)
            &&& closes(config, last_movement_time, s, moved_prev) ==> displacement_answered(
                metric,
                next_points(points, s, moved_rec),
                config,
                disp,
            )
        },
    }
}

/// What finishing in `phase` yields, where `disp` is the metric's answer on
/// the endpoints of a segment in progress.
pub open spec fn closing<C>(config: SegmenterConfig<C>, phase: Phase<C>, disp: Proximity) -> Option<Seq<Sample<C>>> {
    match phase {
        Phase::Idle { .. } => None,
        Phase::Recording { points, .. } => verdict(points, config, disp),
    }
}

/// The points of the segment that a push or a finish handed out, if any.
pub open spec fn yielded<C>(res: Result<Option<Segment<C>>, SegmentError>) -> Option<Seq<Sample<C>>> {
    match res {
        Ok(Some(seg)) => Some(seg@),
        _ => None,
    }
}


/// Every segment a step hands out is valid: it has at least two points and at
/// least the minimum number, lasts at least the minimum duration, and its
/// endpoints are at least the minimum displacement apart; the segmenter is
/// then idle, remembering the sample that closed the segment.
pub proof fn lemma_yielded_segment_is_valid<C>(
    config: SegmenterConfig<C>,
    phase: Phase<C>,
    s: Sample<C>,
    moved_prev: Proximity,
    moved_rec: Proximity,
    disp: Proximity,
)
    requires
        phase_wf(phase),
        advance(config, phase, s, moved_prev, moved_rec, disp).1 is Some,
    ensures
        ({
            let pts = advance(config, phase, s, moved_prev, moved_rec, disp).1.unwrap();
            &&& pts.len() >= 2
            &&& pts.len() >= config.min_points
            &&& span(pts) >= config.min_segment_duration_ms
            &&& is_reached(disp)
            &&& advance(config, phase, s, moved_prev, moved_rec, disp).0 == (Phase::Idle { last_sample: Some(s) })
        }),
{
}

/// Every segment that finishing hands out is valid in the same sense.
pub proof fn lemma_finished_segment_is_valid<C>(config: SegmenterConfig<C>, phase: Phase<C>, disp: Proximity)
    requires
        phase_wf(phase),
        closing(config, phase, disp) is Some,
    ensures
        ({
            let pts = closing(config, phase, disp).unwrap();
            &&& pts.len() >= 2
            &&& pts.len() >= config.min_points
            &&& span(pts) >= config.min_segment_duration_ms
            &&& is_reached(disp)
        }),
{
}

/// While idle, a sample within the movement epsilon of the one before it
/// keeps the segmenter idle and hands nothing out.
pub proof fn lemma_no_movement_stays_idle<C>(
    config: SegmenterConfig<C>,
    last_sample: Option<Sample<C>>,
    s: Sample<C>,
    moved_prev: Proximity,
    moved_rec: Proximity,
    disp: Proximity,
)
    requires
        !is_beyond(moved_prev),
    ensures
        advance(config, Phase::Idle { last_sample }, s, moved_prev, moved_rec, disp) == (
        Phase::Idle { last_sample: Some(s) }, None::<Seq<Sample<C>>>),
{
}

/// While recording, the segment is closed exactly when the pointer has rested
/// for the inactivity timeout; until then nothing is handed out.
pub proof fn lemma_inactivity_closes<C>(
    config: SegmenterConfig<C>,
    phase: Phase<C>,
    s: Sample<C>,
    moved_prev: Proximity,
    moved_rec: Proximity,
    disp: Proximity,
)
    requires
        phase is Recording,
    ensures
        ({
            let next = advance(config, phase, s, moved_prev, moved_rec, disp);
            if closes(config, phase->last_movement_time, s, moved_prev) {
                next.0 == (Phase::Idle { last_sample: Some(s) })
            } else {
                next.0 is Recording && next.1 is None
            }
        }),
{
}

/// Recorded points are never rewritten: a step from a recording keeps its
/// points as a prefix and appends at most the new sample, and only when the
/// sample lies beyond the movement epsilon from the last recorded point.
pub proof fn lemma_recording_only_appends<C>(
    config: SegmenterConfig<C>,
    phase: Phase<C>,
    s: Sample<C>,
    moved_prev: Proximity,
    moved_rec: Proximity,
    disp: Proximity,
)
    requires
        phase is Recording,
    ensures
        ({
            let next = advance(config, phase, s, moved_prev, moved_rec, disp);
            let grown = if next.0 is Recording {
                next.0->points
            } else {
                next_points(phase->points, s, moved_rec)
            };
            &&& next.1 is Some ==> next.1.unwrap() == grown
            &&& grown == (if is_beyond(moved_rec) {
                phase->points.push(s)
            } else {
                phase->points
            })
        }),
{
}

#[allow(inconsistent_fields)]
enum State<C> {
    Idle { last_sample: Option<Sample<C>> },
    Recording {
        segment: Vec<Sample<C>>,
        last_sample: Sample<C>,
        last_recorded_point: Sample<C>,
        last_movement_time: u64,
    },
}

impl<C> State<C> {
    spec fn phase(&self) -> Phase<C> {
        match self {
            State::Idle { last_sample } => Phase::Idle { last_sample: *last_sample },
            State::Recording { segment, last_sample, last_recorded_point, last_movement_time } => {
                Phase::Recording {
                    points: segment@,
                    last_sample: *last_sample,
                    last_recorded_point: *last_recorded_point,
                    last_movement_time: *last_movement_time,
                }
            },
        }
    }
}

/// State machine for segmenting a stream of mouse samples into discrete gestures.
///
/// The segmenter tracks mouse movement and identifies meaningful gesture segments
/// by monitoring movement distance and inactivity periods. It filters out noise
/// and only records segments that meet minimum criteria for duration, displacement,
/// and point count.
pub struct Segmenter<C, M> {
    config: SegmenterConfig<C>,
    metric: M,
    state: State<C>,
    history: Ghost<Seq<Sample<C>>>,
    answers: Ghost<Seq<Proximity>>,
    idle_since: Ghost<int>,
    start: Ghost<int>,
    picks: Ghost<Seq<int>>,
}

impl<C: Copy, M: Fn(&Sample<C>, &Sample<C>, &C) -> Proximity> Segmenter<C, M> {
    /// The segmenter's abstract state.
    pub closed spec fn phase(&self) -> Phase<C> {
        self.state.phase()
    }

    /// The configuration the segmenter was built with.
    pub closed spec fn config(&self) -> SegmenterConfig<C> {
        self.config
    }

    /// The metric the segmenter judges distances with.
    pub closed spec fn metric(&self) -> M {
        self.metric
    }

    /// The samples pushed so far, in order.
    pub closed spec fn history(&self) -> Seq<Sample<C>> {
        self.history@
    }

    /// The metric's answer on each pushed sample and the one before it,
    /// against the movement epsilon (the first sample has none to compare with).
    pub closed spec fn answers(&self) -> Seq<Proximity> {
        self.answers@
    }

    /// The position in the history since which the segmenter has been idle.
    pub closed spec fn idle_since(&self) -> int {
        self.idle_since@
    }

    /// The position in the history of the sample that began the current recording.
    pub closed spec fn recording_start(&self) -> int {
        self.start@
    }

    /// The positions in the history of the current recording's points.
    pub closed spec fn recording_picks(&self) -> Seq<int> {
        self.picks@
    }

    /// The segmenter's metric answers every question, its phase is well
    /// formed, recorded points lie beyond epsilon from one another, and the
    /// phase agrees with the history of pushed samples.
    pub open spec fn wf(&self) -> bool {
        &&& metric_total(self.metric())
        &&& phase_wf(self.phase())
        &&& self.phase() matches Phase::Recording { points, .. } ==> spaced(
            self.metric(),
            self.config().move_epsilon_px,
            points,
        )
        &&& tracks(
            self.metric(),
            self.config().move_epsilon_px,
            self.phase(),
            self.history(),
            self.answers(),
            self.idle_since(),
            self.recording_start(),
            self.recording_picks(),
        )
    }

    /// Creates a new segmenter with the given configuration; `metric` compares
    /// the distance between two samples with a threshold.
    pub fn new(config: SegmenterConfig<C>, metric: M) -> (seg: Self)
        requires
            metric_total(metric),
        ensures
            seg.wf(),
            seg.phase() == (Phase::Idle::<C> { last_sample: None }),
            seg.config() == config,
            seg.metric() == metric,
            seg.history() == Seq::<Sample<C>>::empty(),
    {
        Segmenter {
            config,
            metric,
            state: State::Idle { last_sample: None },
            history: Ghost(Seq::empty()),
            answers: Ghost(Seq::empty()),
            idle_since: Ghost(0),
            start: Ghost(0),
            picks: Ghost(Seq::empty()),
        }
    }

    /// Processes a new sample and returns a completed segment if one is finalized.
    ///
    /// The segmenter transitions between idle and recording states based on mouse
    /// movement. A segment is finalized and returned when inactivity is detected.
    /// Invalid segments (too short, too small displacement, etc.) are discarded.
    pub fn push(&mut self, sample: Sample<C>) -> (res: Result<Option<Segment<C>>, SegmentError>)
        requires
            old(self).wf(),
        ensures
            final(self).wf(),
            final(self).config() == old(self).config(),
            final(self).metric() == old(self).metric(),
            final(self).history() == old(self).history().push(sample),
            res is Ok,
            yielded(res) matches Some(pts) ==> spaced(old(self).metric(), old(self).config().move_epsilon_px, pts),
            old(self).phase() is Recording ==> ({
                let moved_at = final(self).history()[latest_movement(
                    final(self).answers(),
                    old(self).recording_start(),
                )].t_ms;
                final(self).phase() is Idle <==> (if sample.t_ms >= moved_at {
                    sample.t_ms - moved_at
                } else {
                    0
                }) >= old(self).config().inactive_ms
            }),
            final(self).answers().len() == old(self).answers().len() + 1,
            final(self).answers().drop_last() == old(self).answers(),
            old(self).phase() is Idle && !(final(self).answers().last() is Beyond) ==> final(self).phase() == (
            Phase::Idle { last_sample: Some(sample) }) && yielded(res) is None,
            old(self).phase() is Idle && old(self).history().len() > 0 && final(self).answers().last() is Beyond
                ==> final(self).phase() == (Phase::Recording {
                points: seq![old(self).history().last(), sample],
                last_sample: sample,
                last_recorded_point: sample,
                last_movement_time: sample.t_ms,
            }) && yielded(res) is None,
            yielded(res) matches Some(pts) ==> {
                &&& old(self).phase() is Recording
                &&& final(self).phase() == (Phase::Idle { last_sample: Some(sample) })
                &&& started_at(pts, final(self).history(), old(self).recording_start())
            },
            exists|moved_prev: Proximity, moved_rec: Proximity, disp: Proximity|
                #![trigger advance(old(self).config(), old(self).phase(), sample, moved_prev, moved_rec, disp)]
                {
                    &&& consulted(
                        old(self).metric(),
                        old(self).config(),
                        old(self).phase(),
                        sample,
                        moved_prev,
                        moved_rec,
                        disp,
                    )
                    &&& advance(old(self).config(), old(self).phase(), sample, moved_prev, moved_rec, disp)
                        == (final(self).phase(), yielded(res))
                },
    {
        let ghost phase0 = self.phase();
        let ghost cfg0 = self.config();
        let ghost metric0 = self.metric();
        let ghost eps = cfg0.move_epsilon_px;
        let ghost h0 = self.history@;
        let ghost a0 = self.answers@;
        let ghost idle0 = self.idle_since@;
        let ghost start0 = self.start@;
        let ghost picks0 = self.picks@;
        let ghost n = h0.len() as int;
        let ghost h1 = h0.push(sample);
        self.history = Ghost(h1);
        let mut state = State::Idle { last_sample: None };
        std::mem::swap(&mut state, &mut self.state);
        match state {
            State::Idle { last_sample: None } => {
                self.state = State::Idle { last_sample: Some(sample) };
                self.answers = Ghost(a0.push(Proximity::Undefined));
                let res = Ok(None);
                assert(advance(cfg0, phase0, sample, Proximity::Undefined, Proximity::Undefined, Proximity::Undefined)
                    == (self.phase(), yielded(res)));
                res
            },
            State::Idle { last_sample: Some(prev) } => {
                let moved = (self.metric)(&prev, &sample, &self.config.move_epsilon_px);
                let ghost a1 = a0.push(moved);
                self.answers = Ghost(a1);
                proof {
                    assert forall|i: int, j: int|
                        0 <= i && j == i + 1 && j < h1.len() implies #[trigger] call_ensures(
                        metric0,
                        (&h1[i], &h1[j], &eps),
                        a1[j],
                    ) by {
                        if j < n {
                            assert(h1[i] == h0[i] && h1[j] == h0[j] && a1[j] == a0[j]);
                        }
                    }
                }
                let beyond = match moved {
                    Proximity::Beyond => true,
                    _ => false,
                };
                if beyond {
                    let mut segment = Vec::new();
                    segment.push(prev);
                    segment.push(sample);
                    self.state = State::Recording {
                        segment,
                        last_sample: sample,
                        last_recorded_point: sample,
                        last_movement_time: sample.t_ms,
                    };
                    self.start = Ghost(n);
                    let ghost first_picks = Seq::<int>::empty().push(n - 1).push(n);
                    self.picks = Ghost(first_picks);
                    assert(segment@ == seq![prev, sample]);
                    proof {
                        lemma_latest_movement_push(a0, n, moved);
                        assert(latest_movement(a0, n) == n - 1);
                        assert(picked_from(segment@, h1, self.picks@));
                        assert forall|i: int| idle0 < i < n implies !is_beyond(#[trigger] a1[i]) by {
                            assert(a1[i] == a0[i]);
                        }
                    }
                } else {
                    self.state = State::Idle { last_sample: Some(sample) };
                    proof {
                        assert forall|i: int| idle0 < i < h1.len() implies !is_beyond(#[trigger] a1[i]) by {
                            if i < n {
                                assert(a1[i] == a0[i]);
                            }
                        }
                    }
                }
                let res = Ok(None);
                assert(consulted(metric0, cfg0, phase0, sample, moved, Proximity::Undefined, Proximity::Undefined));
                assert(advance(cfg0, phase0, sample, moved, Proximity::Undefined, Proximity::Undefined)
                    == (self.phase(), yielded(res)));
                res
            },
            State::Recording {
                mut segment,
                last_sample: prev_sample,
                last_recorded_point,
                mut last_movement_time,
            } => {
                let ghost points0 = segment@;
                let ghost movement0 = last_movement_time;
                let moved_prev = (self.metric)(&prev_sample, &sample, &self.config.move_epsilon_px);
                let ghost a1 = a0.push(moved_prev);
                self.answers = Ghost(a1);
                proof {
                    assert forall|i: int, j: int|
                        0 <= i && j == i + 1 && j < h1.len() implies #[trigger] call_ensures(
                        metric0,
                        (&h1[i], &h1[j], &eps),
                        a1[j],
                    ) by {
                        if j < n {
                            assert(h1[i] == h0[i] && h1[j] == h0[j] && a1[j] == a0[j]);
                        }
                    }
                    lemma_latest_movement_push(a0, start0, moved_prev);
                    lemma_latest_movement_is_last_move(a0, start0);
                    lemma_latest_movement_is_last_move(a1, start0);
                    assert(a1[start0] == a0[start0]);
                    assert(h1[latest_movement(a0, start0)] == h0[latest_movement(a0, start0)]);
                }
                match moved_prev {
                    Proximity::Beyond => {
                        last_movement_time = sample.t_ms;
                    },
                    _ => {},
                }
                let moved_rec = (self.metric)(&last_recorded_point, &sample, &self.config.move_epsilon_px);
                let last_recorded_point = match moved_rec {
                    Proximity::Beyond => {
                        segment.push(sample);
                        sample
                    },
                    _ => last_recorded_point,
                };
                let ghost picks1 = if is_beyond(moved_rec) {
                    picks0.push(n)
                } else {
                    picks0
                };
                self.picks = Ghost(picks1);
                assert(segment@ == next_points(points0, sample, moved_rec));
                assert(last_movement_time == next_movement_time(movement0, sample, moved_prev));
                assert(last_movement_time == h1[latest_movement(a1, start0)].t_ms);
                proof {
                    assert forall|k: int| 0 <= k < picks1.len() implies 0 <= #[trigger] picks1[k] < h1.len()
                        && segment@[k] == h1[picks1[k]] by {
                        if k < picks0.len() {
                            assert(picks1[k] == picks0[k]);
                            assert(segment@[k] == points0[k]);
                        }
                    }
                    assert forall|k: int, l: int| 0 <= k < l < picks1.len() implies #[trigger] picks1[k]
                        < #[trigger] picks1[l] by {
                        if l < picks0.len() {
                            assert(picks1[k] == picks0[k] && picks1[l] == picks0[l]);
                        } else {
                            assert(picks1[k] == picks0[k]);
                        }
                    }
                    assert(picked_from(segment@, h1, picks1));
                    assert(picks1[0] == picks0[0] && picks1[1] == picks0[1]);
                }
                let inactive_duration = sample.t_ms.saturating_sub(last_movement_time);
                if inactive_duration >= self.config.inactive_ms {
                    self.state = State::Idle { last_sample: Some(sample) };
                    self.idle_since = Ghost(n);
                    let finished = Segment::from_points(segment);
                    let valid = finished.is_valid(&self.config, &self.metric);
                    let ghost grown = finished@;
                    assert(grown.len() >= 2);
                    assert(started_at(grown, h1, start0));
                    match valid {
                        Ok(true) => {
                            let res = Ok(Some(finished));
                            let ghost disp = choose|d: Proximity|
                                displacement_answered(self.metric, grown, self.config, d)
                                    && valid == validity(grown, self.config, d);
                            assert(consulted(metric0, cfg0, phase0, sample, moved_prev, moved_rec, disp));
                            assert(advance(cfg0, phase0, sample, moved_prev, moved_rec, disp)
                                == (self.phase(), yielded(res)));
                            res
                        },
                        Ok(false) => {
                            let res = Ok(None);
                            let ghost disp = choose|d: Proximity|
                                displacement_answered(self.metric, grown, self.config, d)
                                    && valid == validity(grown, self.config, d);
                            assert(consulted(metric0, cfg0, phase0, sample, moved_prev, moved_rec, disp));
                            assert(advance(cfg0, phase0, sample, moved_prev, moved_rec, disp)
                                == (self.phase(), yielded(res)));
                            res
                        },
                        Err(e) => Err(e),
                    }
                } else {
                    self.state = State::Recording {
                        segment,
                        last_sample: sample,
                        last_recorded_point,
                        last_movement_time,
                    };
                    proof {
                        assert forall|i: int| idle0 < i < start0 implies !is_beyond(#[trigger] a1[i]) by {
                            assert(a1[i] == a0[i]);
                        }
                        if !is_beyond(moved_rec) {
                            assert(call_ensures(metric0, (&last_recorded_point, &sample, &eps), moved_rec));
                        }
                    }
                    let res = Ok(None);
                    assert(consulted(metric0, cfg0, phase0, sample, moved_prev, moved_rec, Proximity::Undefined));
                    assert(advance(cfg0, phase0, sample, moved_prev, moved_rec, Proximity::Undefined)
                        == (self.phase(), yielded(res)));
                    res
                }
            },
        }
    }

    /// Finalizes any in-progress segment and returns it if valid.
    ///
    /// This should be called when the sample stream ends to ensure the last
    /// segment is not lost. Returns `None` if idle or if the segment is invalid.
    pub fn finish(self) -> (res: Result<Option<Segment<C>>, SegmentError>)
        requires
            self.wf(),
        ensures
            res is Ok,
            yielded(res) matches Some(pts) ==> spaced(self.metric(), self.config().move_epsilon_px, pts),
            yielded(res) matches Some(pts) ==> {
                &&& self.phase() is Recording
                &&& started_at(pts, self.history(), self.recording_start())
            },
            exists|disp: Proximity|
                #![trigger closing(self.config(), self.phase(), disp)]
                {
                    &&& (self.phase() matches Phase::Recording { points, .. } ==> displacement_answered(
                        self.metric(),
                        points,
                        self.config(),
                        disp,
                    ))
                    &&& yielded(res) == closing(self.config(), self.phase(), disp)
                },
    {
        let ghost phase0 = self.phase();
        let ghost history0 = self.history();
        let ghost start0 = self.recording_start();
        let ghost picks0 = self.recording_picks();
        match self.state {
            State::Recording { segment, .. } => {
                let finished = Segment::from_points(segment);
                let valid = finished.is_valid(&self.config, &self.metric);
                assert(picked_from(finished@, history0, picks0));
                assert(started_at(finished@, history0, start0));
                let ghost disp = choose|d: Proximity|
                    displacement_answered(self.metric, finished@, self.config, d)
                        && valid == validity(finished@, self.config, d);
                match valid {
                    Ok(true) => {
                        let res = Ok(Some(finished));
                        assert(yielded(res) == closing(self.config(), phase0, disp));
                        res
                    },
                    Ok(false) => {
                        let res = Ok(None);
                        assert(yielded(res) == closing(self.config(), phase0, disp));
                        res
                    },
                    Err(e) => Err(e),
                }
            },
            State::Idle { .. } => {
                let res = Ok(None);
                assert(yielded(res) == closing(self.config(), phase0, Proximity::Undefined));
                res
            },
        }
    }

    /// Finishing acts as an immediate inactivity timeout: on a well-formed
    /// recording segmenter, a sample that the metric can only report as no
    /// movement from the last sample and from the last recorded point, and
    /// that arrives at least `inactive_ms` after the latest movement of the
    /// recording, leaves the segmenter idle on that sample and hands out
    /// exactly what finishing would, the metric being asked the same question
    /// about the segment's endpoints.
    pub proof fn lemma_push_at_rest_closes_like_finish(
        &self,
        q: Sample<C>,
        moved_prev: Proximity,
        moved_rec: Proximity,
        disp: Proximity,
    )
        requires
            self.wf(),
            self.phase() is Recording,
            forall|r: Proximity|
                call_ensures(
                    self.metric(),
                    (&self.history().last(), &q, &self.config().move_epsilon_px),
                    r,
                ) ==> !is_beyond(r),
            forall|r: Proximity|
                call_ensures(
                    self.metric(),
                    (&self.phase()->last_recorded_point, &q, &self.config().move_epsilon_px),
                    r,
                ) ==> !is_beyond(r),
            elapsed_ms(
                q.t_ms,
                self.history()[latest_movement(self.answers(), self.recording_start())].t_ms,
            ) >= self.config().inactive_ms,
            consulted(self.metric(), self.config(), self.phase(), q, moved_prev, moved_rec, disp),
        ensures
            advance(self.config(), self.phase(), q, moved_prev, moved_rec, disp) == (
            Phase::Idle { last_sample: Some(q) }, closing(self.config(), self.phase(), disp)),
            displacement_answered(self.metric(), self.phase()->points, self.config(), disp),
    {
        assert(!is_beyond(moved_prev));
        assert(!is_beyond(moved_rec));
        lemma_finish_is_immediate_timeout(self.config(), self.phase(), q, moved_prev, moved_rec, disp);
    }

    /// Finishing acts as an immediate inactivity timeout, from positions
    /// alone: on a well-formed recording segmenter whose metric depends only
    /// on positions and never reports two samples at the same position as
    /// movement, pushing a sample at the position of the last sample, at
    /// least `inactive_ms` after the latest movement, leaves the segmenter
    /// idle on that sample and hands out exactly what finishing hands out.
    pub proof fn lemma_push_at_last_position_closes_like_finish(
        &self,
        q: Sample<C>,
        moved_prev: Proximity,
        moved_rec: Proximity,
        disp: Proximity,
        finish_disp: Proximity,
    )
        requires
            self.wf(),
            self.phase() is Recording,
            positional(self.metric()),
            rest_is_no_movement(self.metric(), self.config().move_epsilon_px),
            q.x == self.history().last().x,
            q.y == self.history().last().y,
            elapsed_ms(
                q.t_ms,
                self.history()[latest_movement(self.answers(), self.recording_start())].t_ms,
            ) >= self.config().inactive_ms,
            consulted(self.metric(), self.config(), self.phase(), q, moved_prev, moved_rec, disp),
            displacement_answered(self.metric(), self.phase()->points, self.config(), finish_disp),
        ensures
            advance(self.config(), self.phase(), q, moved_prev, moved_rec, disp) == (
            Phase::Idle { last_sample: Some(q) }, closing(self.config(), self.phase(), finish_disp)),
    {
        let m = self.metric();
        let eps = self.config().move_epsilon_px;
        let phase = self.phase();
        let last = phase->Recording_last_sample;
        let rec = phase->last_recorded_point;
        assert(call_ensures(m, (&last, &q, &eps), moved_prev));
        assert(!is_beyond(moved_prev));
        assert(call_ensures(m, (&rec, &q, &eps), moved_rec));
        if rec != last {
            let r = choose|r: Proximity| #[trigger] call_ensures(m, (&rec, &last, &eps), r) && !is_beyond(r);
            assert(moved_rec == r);
        }
        assert(!is_beyond(moved_rec));
        let points = phase->points;
        assert(next_points(points, q, moved_rec) == points);
        if needs_displacement(points, self.config()) {
            assert(disp == finish_disp);
        }
        assert(validity(points, self.config(), disp) == validity(points, self.config(), finish_disp));
    }
}

} // verus!
