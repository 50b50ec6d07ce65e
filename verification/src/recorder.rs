//! The decisions of a gesture recorder: which segments wait in memory, when
//! they are written out, when a new recording file is started, and how that
//! file is named. Reading the clock and writing files is left to the caller,
//! which hands in the whole seconds elapsed since the last flush or rotation.
use vstd::prelude::*;
use std::path::PathBuf;
use std::time::Duration;

verus! {

/// Declares `std::path::PathBuf` so that a configuration can carry the
/// recording directory; nothing is claimed of what a path holds.
#[verifier::external_type_specification]
#[verifier::external_body]
pub struct ExPathBuf(PathBuf);

/// Gives `<std::path::PathBuf as Clone>::clone` a specification so that a
/// configuration can be cloned; nothing is claimed of the copy it returns.
pub assume_specification[<PathBuf as Clone>::clone](path: &PathBuf) -> PathBuf;

/// The duration that `Duration::from_secs(secs)` builds.
pub uninterp spec fn duration_of_secs(secs: u64) -> Duration;

/// Calls `std::time::Duration::from_secs`, which builds the duration of
/// `secs` whole seconds; its result is named [`duration_of_secs`].
#[verifier::external_body]
fn duration_from_secs(secs: u64) -> (d: Duration)
    ensures
        d == duration_of_secs(secs),
{
    Duration::from_secs(secs)
}

/// Configuration parameters for the recorder.
#[derive(Clone, Debug)]
pub struct RecorderConfig {
    /// Directory to store recordings
    pub recording_dir: PathBuf,
    /// Flush interval in seconds - how often to write segments to disk
    pub flush_interval_secs: u64,
    /// Rotation interval in minutes - how often to create a new recording file
    pub rotation_interval_mins: u64,
}

/// The rotation interval in seconds.
pub open spec fn rotation_secs(config: RecorderConfig) -> int {
    config.rotation_interval_mins * 60
}

impl RecorderConfig {
    /// Returns the flush interval as a Duration.
    pub fn flush_interval(&self) -> (d: Duration)
        ensures
            d == duration_of_secs(self.flush_interval_secs),
    {
        duration_from_secs(self.flush_interval_secs)
    }

    /// Returns the rotation interval as a Duration.
    pub fn rotation_interval(&self) -> (d: Duration)
        requires
            rotation_secs(*self) <= u64::MAX,
        ensures
            d == duration_of_secs(rotation_secs(*self) as u64),
    {
        duration_from_secs(self.rotation_interval_mins * 60)
    }
}

/// The name of the recording file started at `timestamp`.
pub open spec fn file_name_for(timestamp: Seq<char>) -> Seq<char> {
    "segments_"@ + timestamp + ".bin"@
}

/// Names the recording file started at `timestamp`: `segments_<timestamp>.bin`.
pub fn recording_file_name(timestamp: &str) -> (name: String)
    ensures
        name@ == file_name_for(timestamp@),
        name@ == "segments_"@ + timestamp@ + ".bin"@,
{
    let mut name = String::from_str("segments_");
    name.append(timestamp);
    name.append(".bin");
    name
}

/// A step of the queue: what it holds afterwards and the batch it hands out
/// to be written, if any.
pub open spec fn after_record<S>(pending: Seq<S>, item: S, secs_since_flush: u64, config: RecorderConfig) -> (
    Seq<S>,
    Option<Seq<S>>,
) {
    let all = pending.push(item);
    if secs_since_flush >= config.flush_interval_secs {
        (Seq::empty(), Some(all))
    } else {
        (all, None)
    }
}

/// A rotation check: what the queue holds afterwards and, when the rotation
/// interval has passed, the batch to write before the new file is started.
pub open spec fn after_rotation_check<S>(pending: Seq<S>, secs_since_rotation: u64, config: RecorderConfig) -> (
    Seq<S>,
    Option<Seq<S>>,
) {
    if secs_since_rotation >= rotation_secs(config) {
        (Seq::empty(), Some(pending))
    } else {
        (pending, None)
    }
}

/// The contents of a batch handed out, if any.
pub open spec fn batch_view<S>(batch: Option<Vec<S>>) -> Option<Seq<S>> {
    match batch {
        Some(b) => Some(b@),
        None => None,
    }
}

/// The segments a recorder holds in memory until they are written out.
pub struct RecordQueue<S> {
    pending: Vec<S>,
}

impl<S> View for RecordQueue<S> {
    type V = Seq<S>;

    closed spec fn view(&self) -> Seq<S> {
        self.pending@
    }
}

impl<S> RecordQueue<S> {
    /// An empty queue.
    pub fn new() -> (q: Self)
        ensures
            q@ == Seq::<S>::empty(),
    {
        RecordQueue { pending: Vec::new() }
    }

    /// The number of segments waiting.
    pub fn len(&self) -> (n: usize)
        ensures
            n == self@.len(),
    {
        self.pending.len()
    }

    /// Whether no segment is waiting.
    pub fn is_empty(&self) -> (b: bool)
        ensures
            b <==> self@.len() == 0,
    {
        self.pending.len() == 0
    }

    /// Buffers a segment for writing, then checks whether it is time to flush:
    /// when at least the flush interval has passed since the last flush and a
    /// segment is waiting, every waiting segment is handed out, in order, to
    /// be written now.
    pub fn record(&mut self, item: S, secs_since_flush: u64, config: &RecorderConfig) -> (batch: Option<Vec<S>>)
        ensures
            (final(self)@, batch_view(batch)) == after_record(old(self)@, item, secs_since_flush, *config),
            secs_since_flush < config.flush_interval_secs ==> batch is None && final(self)@ == old(self)@.push(item),
            secs_since_flush >= config.flush_interval_secs ==> (batch matches Some(b) && b@ == old(self)@.push(item)
                && final(self)@.len() == 0),
    {
        self.pending.push(item);
        if secs_since_flush >= config.flush_interval_secs && self.pending.len() != 0 {
            Some(self.take_all())
        } else {
            None
        }
    }

    /// Checks whether it is time to start a new recording file: when at least
    /// the rotation interval has passed since the last rotation, every
    /// waiting segment is handed out, in order, to be written before the
    /// switch (the batch may be empty).
    pub fn check_rotation(&mut self, secs_since_rotation: u64, config: &RecorderConfig) -> (batch: Option<Vec<S>>)
        requires
            rotation_secs(*config) <= u64::MAX,
        ensures
            (final(self)@, batch_view(batch)) == after_rotation_check(old(self)@, secs_since_rotation, *config),
            secs_since_rotation < config.rotation_interval_mins * 60 ==> batch is None && final(self)@ == old(self)@,
            secs_since_rotation >= config.rotation_interval_mins * 60 ==> (batch matches Some(b) && b@ == old(self)@
                && final(self)@.len() == 0),
    {
        if secs_since_rotation >= config.rotation_interval_mins * 60 {
            Some(self.take_all())
        } else {
            None
        }
    }

    /// Hands out every waiting segment, in order, and empties the queue.
    pub fn take_all(&mut self) -> (batch: Vec<S>)
        ensures
            batch@ == old(self)@,
            final(self)@ == Seq::<S>::empty(),
    {
        let mut batch = Vec::new();
        std::mem::swap(&mut batch, &mut self.pending);
        batch
    }
}

/// No segment is lost, duplicated or reordered by recording one: the batch
/// handed out, followed by what stays queued, is what was queued followed by
/// the new segment.
pub proof fn lemma_record_conserves<S>(pending: Seq<S>, item: S, secs_since_flush: u64, config: RecorderConfig)
    ensures
        ({
            let (rest, batch) = after_record(pending, item, secs_since_flush, config);
            (match batch {
                Some(b) => b,
                None => Seq::empty(),
            }) + rest == pending.push(item)
        }),
{
    let (rest, batch) = after_record(pending, item, secs_since_flush, config);
    match batch {
        Some(b) => assert(b + rest == b),
        None => assert(Seq::<S>::empty() + rest == rest),
    }
}

/// No segment is lost, duplicated or reordered by a rotation check either.
pub proof fn lemma_rotation_conserves<S>(pending: Seq<S>, secs_since_rotation: u64, config: RecorderConfig)
    ensures
        ({
            let (rest, batch) = after_rotation_check(pending, secs_since_rotation, config);
            (match batch {
                Some(b) => b,
                None => Seq::empty(),
            }) + rest == pending
        }),
{
    let (rest, batch) = after_rotation_check(pending, secs_since_rotation, config);
    match batch {
        Some(b) => assert(b + rest == b),
        None => assert(Seq::<S>::empty() + rest == rest),
    }
}

/// Before the flush interval has passed, recording hands nothing out and
/// keeps every segment, the new one last; once it has passed, recording
/// hands out every segment, the new one last, and keeps none.
pub proof fn lemma_flush_only_when_due<S>(pending: Seq<S>, item: S, secs_since_flush: u64, config: RecorderConfig)
    ensures
        secs_since_flush < config.flush_interval_secs ==> after_record(pending, item, secs_since_flush, config)
            == (pending.push(item), None::<Seq<S>>),
        secs_since_flush >= config.flush_interval_secs ==> after_record(pending, item, secs_since_flush, config)
            == (Seq::<S>::empty(), Some(pending.push(item))),
{
}

/// Before `rotation_interval_mins` minutes have passed there is no rotation
/// and the queue is unchanged; once they have, every waiting segment is
/// handed out and none is kept.
pub proof fn lemma_rotate_only_when_due<S>(pending: Seq<S>, secs_since_rotation: u64, config: RecorderConfig)
    ensures
        secs_since_rotation < config.rotation_interval_mins * 60 ==> after_rotation_check(
            pending,
            secs_since_rotation,
            config,
        ) == (pending, None::<Seq<S>>),
        secs_since_rotation >= config.rotation_interval_mins * 60 ==> after_rotation_check(
            pending,
            secs_since_rotation,
            config,
        ) == (Seq::<S>::empty(), Some(pending)),
{
}

/// Once the flush interval has passed, recording leaves nothing waiting.
pub proof fn lemma_flush_due_empties<S>(pending: Seq<S>, item: S, secs_since_flush: u64, config: RecorderConfig)
    requires
        secs_since_flush >= config.flush_interval_secs,
    ensures
        after_record(pending, item, secs_since_flush, config).0.len() == 0,
{
}

} // verus!
