//! Segmentation of mouse position samples into gestures, the length-prefixed
//! framing of recorded gestures, the bookkeeping of a gesture recorder and
//! the schedule of a gesture replay.
pub mod command;
pub mod frame;
pub mod playback;
pub mod recorder;
pub mod segment;
pub mod segmenter;

pub use command::{parse_command, Command};
pub use frame::{encode_frame, split_frames};
pub use playback::{playback_plan, PlaybackError, PlaybackStep};
pub use recorder::{recording_file_name, RecordQueue, RecorderConfig};
pub use segment::{Proximity, Sample, Segment, SegmentError, SegmenterConfig};
pub use segmenter::Segmenter;
