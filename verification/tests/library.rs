use std::path::PathBuf;
use std::time::Duration;

use mutils::{
    parse_command, Command,
    encode_frame, playback_plan, recording_file_name, split_frames, PlaybackError, PlaybackStep, Proximity,
    RecordQueue, RecorderConfig, Sample, Segment, SegmentError, Segmenter, SegmenterConfig,
};

fn euclid(a: &Sample<f64>, b: &Sample<f64>) -> f64 {
    let dx = b.x - a.x;
    let dy = b.y - a.y;
    (dx * dx + dy * dy).sqrt()
}

fn compare(a: &Sample<f64>, b: &Sample<f64>, threshold: &f64) -> Proximity {
    match euclid(a, b).partial_cmp(threshold) {
        Some(std::cmp::Ordering::Less) => Proximity::Within,
        Some(std::cmp::Ordering::Equal) => Proximity::AtThreshold,
        Some(std::cmp::Ordering::Greater) => Proximity::Beyond,
        None => Proximity::Undefined,
    }
}

fn pt(t_ms: u64, x: f64, y: f64) -> Sample<f64> {
    Sample { t_ms, x, y }
}

fn config() -> SegmenterConfig<f64> {
    SegmenterConfig {
        move_epsilon_px: 2.0,
        inactive_ms: 300,
        min_segment_duration_ms: 40,
        min_segment_displacement_px: 10.0,
        min_points: 3,
    }
}

fn recorder_config(flush: u64, rotation: u64) -> RecorderConfig {
    RecorderConfig {
        recording_dir: PathBuf::from("recordings"),
        flush_interval_secs: flush,
        rotation_interval_mins: rotation,
    }
}

#[test]
fn frame_has_little_endian_length_prefix() {
    let frame = encode_frame(&[7, 8, 9]);
    assert_eq!(frame, vec![3, 0, 0, 0, 7, 8, 9]);
    let big = vec![0u8; 300];
    let frame = encode_frame(&big);
    assert_eq!(&frame[..4], &[44, 1, 0, 0]);
    assert_eq!(frame.len(), 304);
}

#[test]
fn empty_payload_frame() {
    assert_eq!(encode_frame(&[]), vec![0, 0, 0, 0]);
    assert_eq!(split_frames(&[0, 0, 0, 0]), vec![Vec::<u8>::new()]);
}

#[test]
fn frames_round_trip_in_order() {
    let payloads: Vec<Vec<u8>> = vec![vec![1, 2, 3], vec![], vec![4; 10]];
    let mut data = Vec::new();
    for p in &payloads {
        data.extend(encode_frame(p));
    }
    assert_eq!(split_frames(&data), payloads);
}

#[test]
fn truncated_tail_is_ignored() {
    let mut data = encode_frame(&[1, 2]);
    data.extend(encode_frame(&[3]));
    // too short for a length prefix
    let mut short = data.clone();
    short.extend([9, 9]);
    assert_eq!(split_frames(&short), vec![vec![1, 2], vec![3]]);
    // a prefix announcing more bytes than remain
    let mut cut = data.clone();
    cut.extend([5, 0, 0, 0, 1, 2]);
    assert_eq!(split_frames(&cut), vec![vec![1, 2], vec![3]]);
    assert_eq!(split_frames(&[]), Vec::<Vec<u8>>::new());
    assert_eq!(split_frames(&[1, 0, 0]), Vec::<Vec<u8>>::new());
}

#[test]
fn intervals_are_whole_seconds() {
    let config = recorder_config(5, 60);
    assert_eq!(config.flush_interval(), Duration::from_secs(5));
    assert_eq!(config.rotation_interval(), Duration::from_secs(3600));
    let copy = config.clone();
    assert_eq!(copy.recording_dir, PathBuf::from("recordings"));
    assert_eq!(copy.rotation_interval(), Duration::from_secs(3600));
    let config = recorder_config(0, 1);
    assert_eq!(config.flush_interval(), Duration::ZERO);
    assert_eq!(config.rotation_interval(), Duration::from_secs(60));
}

#[test]
fn file_name_from_timestamp() {
    assert_eq!(recording_file_name("20240131_235959"), "segments_20240131_235959.bin");
    assert_eq!(recording_file_name(""), "segments_.bin");
}

#[test]
fn queue_flushes_when_interval_passed() {
    let config = recorder_config(5, 60);
    let mut queue = RecordQueue::new();
    assert!(queue.is_empty());
    assert_eq!(queue.record(1, 0, &config), None);
    assert_eq!(queue.record(2, 4, &config), None);
    assert_eq!(queue.len(), 2);
    assert_eq!(queue.record(3, 5, &config), Some(vec![1, 2, 3]));
    assert!(queue.is_empty());
    assert_eq!(queue.record(4, 100, &config), Some(vec![4]));
}

#[test]
fn queue_rotation_hands_out_pending() {
    let config = recorder_config(5, 2);
    let mut queue = RecordQueue::new();
    queue.record(1, 0, &config);
    queue.record(2, 0, &config);
    assert_eq!(queue.check_rotation(119, &config), None);
    assert_eq!(queue.len(), 2);
    assert_eq!(queue.check_rotation(120, &config), Some(vec![1, 2]));
    assert!(queue.is_empty());
    assert_eq!(queue.check_rotation(500, &config), Some(Vec::<i32>::new()));
    queue.record(7, 0, &config);
    assert_eq!(queue.take_all(), vec![7]);
    assert!(queue.is_empty());
}

#[test]
fn playback_plan_errors() {
    assert_eq!(playback_plan::<f64>(None), Err(PlaybackError::EmptyDatabase));
    let one = Segment::from_points(vec![pt(0, 1.0, 1.0)]);
    assert_eq!(playback_plan(Some(&one)), Err(PlaybackError::InsufficientSamples(1)));
    let none = Segment::<f64>::from_points(vec![]);
    assert_eq!(playback_plan(Some(&none)), Err(PlaybackError::InsufficientSamples(0)));
}

#[test]
fn playback_plan_steps() {
    let seg = Segment::from_points(vec![pt(0, 1.0, 1.0), pt(16, 2.0, 1.0), pt(17, 4.0, 2.0)]);
    let steps = playback_plan(Some(&seg)).unwrap();
    assert_eq!(
        steps,
        vec![
            PlaybackStep { delay_ms: 0, index: 0, last_index: 2 },
            PlaybackStep { delay_ms: 16, index: 1, last_index: 2 },
            PlaybackStep { delay_ms: 1, index: 2, last_index: 2 },
        ]
    );
    // a gesture recorded late in a session waits only between its samples
    let late = Segment::from_points(vec![pt(600_000, 1.0, 1.0), pt(600_020, 2.0, 1.0), pt(600_010, 3.0, 1.0)]);
    let steps = playback_plan(Some(&late)).unwrap();
    let delays: Vec<u64> = steps.iter().map(|s| s.delay_ms).collect();
    assert_eq!(delays, vec![0, 20, 0]);
}

#[test]
fn segment_queries_on_empty_segment() {
    let empty = Segment::<f64>::from_points(vec![]);
    assert_eq!(empty.duration(), Err(SegmentError::EmptySegment));
    assert!(empty.displacement(&euclid).is_err());
    // the point count test comes first
    assert_eq!(empty.is_valid(&config(), &compare), Ok(false));
    let lenient = SegmenterConfig { min_points: 0, ..config() };
    assert_eq!(empty.is_valid(&lenient, &compare), Err(SegmentError::EmptySegment));
}

#[test]
fn duration_saturates_when_time_runs_backwards() {
    let seg = Segment::from_points(vec![pt(500, 0.0, 0.0), pt(100, 30.0, 0.0)]);
    assert_eq!(seg.duration(), Ok(0));
    assert_eq!(seg.points().len(), 2);
    assert_eq!(seg.points()[1].t_ms, 100);
}

#[test]
fn displacement_threshold_is_inclusive() {
    let cfg = SegmenterConfig { min_points: 2, min_segment_duration_ms: 0, ..config() };
    let exact = Segment::from_points(vec![pt(0, 0.0, 0.0), pt(10, 6.0, 8.0)]);
    assert_eq!(exact.is_valid(&cfg, &compare), Ok(true));
    let short = Segment::from_points(vec![pt(0, 0.0, 0.0), pt(10, 6.0, 7.9)]);
    assert_eq!(short.is_valid(&cfg, &compare), Ok(false));
}

#[test]
fn movement_threshold_is_strict() {
    let mut seg = Segmenter::new(config(), compare);
    seg.push(pt(0, 0.0, 0.0)).unwrap();
    // exactly epsilon away: no movement
    seg.push(pt(10, 2.0, 0.0)).unwrap();
    assert!(seg.finish().unwrap().is_none());
}

#[test]
fn undefined_distance_is_no_movement() {
    let mut seg = Segmenter::new(config(), compare);
    seg.push(pt(0, 0.0, 0.0)).unwrap();
    seg.push(pt(10, f64::NAN, 0.0)).unwrap();
    seg.push(pt(20, 0.0, 0.0)).unwrap();
    assert!(seg.finish().unwrap().is_none());
}

#[test]
fn emitted_segments_are_valid_and_start_idle() {
    let mut seg = Segmenter::new(config(), compare);
    let mut emitted = Vec::new();
    let stream = [
        pt(0, 0.0, 0.0),
        pt(10, 5.0, 0.0),
        pt(20, 10.0, 0.0),
        pt(60, 20.0, 0.0),
        pt(400, 20.0, 0.0),
        pt(410, 20.5, 0.0),
        pt(420, 30.0, 0.0),
        pt(425, 31.0, 0.0),
        pt(800, 31.0, 0.0),
    ];
    for s in stream {
        if let Some(done) = seg.push(s).unwrap() {
            emitted.push(done);
        }
    }
    assert_eq!(emitted.len(), 1);
    let pts = emitted[0].points();
    assert_eq!(pts.len(), 4);
    assert_eq!(pts[0].t_ms, 0);
    assert_eq!(pts[3].t_ms, 60);
    let cfg = config();
    assert!(emitted[0].is_valid(&cfg, &compare).unwrap());
    // the second movement was too short (duration 10 ms) and was discarded
    assert!(seg.finish().unwrap().is_none());
}

#[test]
fn inactivity_is_measured_from_last_movement() {
    let mut seg = Segmenter::new(config(), compare);
    seg.push(pt(0, 0.0, 0.0)).unwrap();
    seg.push(pt(10, 5.0, 0.0)).unwrap();
    seg.push(pt(20, 10.0, 0.0)).unwrap();
    seg.push(pt(60, 20.0, 0.0)).unwrap();
    // jitter below epsilon does not count as movement
    assert!(seg.push(pt(200, 21.0, 0.0)).unwrap().is_none());
    assert!(seg.push(pt(359, 21.5, 0.0)).unwrap().is_none());
    let done = seg.push(pt(360, 21.5, 0.0)).unwrap().unwrap();
    assert_eq!(done.points().len(), 4);
}

#[test]
fn finish_after_emission_is_idle() {
    let mut seg = Segmenter::new(config(), compare);
    for s in [pt(0, 0.0, 0.0), pt(10, 5.0, 0.0), pt(20, 10.0, 0.0), pt(60, 20.0, 0.0)] {
        assert!(seg.push(s).unwrap().is_none());
    }
    assert!(seg.push(pt(400, 20.0, 0.0)).unwrap().is_some());
    assert!(seg.finish().unwrap().is_none());
}

#[test]
fn finish_equals_push_at_rest_after_timeout() {
    let stream = [pt(0, 0.0, 0.0), pt(10, 5.0, 0.0), pt(20, 10.0, 0.0), pt(60, 20.0, 0.0)];
    let mut finished = Segmenter::new(config(), compare);
    let mut pushed = Segmenter::new(config(), compare);
    for s in stream {
        assert!(finished.push(s).unwrap().is_none());
        assert!(pushed.push(s).unwrap().is_none());
    }
    let a = finished.finish().unwrap().unwrap();
    let b = pushed.push(pt(60 + 300, 20.0, 0.0)).unwrap().unwrap();
    let ta: Vec<u64> = a.points().iter().map(|p| p.t_ms).collect();
    let tb: Vec<u64> = b.points().iter().map(|p| p.t_ms).collect();
    assert_eq!(ta, tb);
    assert_eq!(ta, vec![0, 10, 20, 60]);
}

#[test]
fn prompt_commands() {
    assert_eq!(parse_command("quit\n"), Command::Quit);
    assert_eq!(parse_command("  ExIt \r\n"), Command::Quit);
    assert_eq!(parse_command("QUIT"), Command::Quit);
    assert_eq!(parse_command("500 300\n"), Command::Move { x: 500, y: 300 });
    assert_eq!(parse_command("\t-5   +7 "), Command::Move { x: -5, y: 7 });
    assert_eq!(parse_command("-2147483648 2147483647"), Command::Move { x: i32::MIN, y: i32::MAX });
    assert_eq!(parse_command("quit now"), Command::BadX(vec!['q', 'u', 'i', 't']));
    assert_eq!(parse_command("quit now please"), Command::WrongArity);
    assert_eq!(parse_command(""), Command::WrongArity);
    assert_eq!(parse_command("1 2 3"), Command::WrongArity);
    assert_eq!(parse_command("12a 4"), Command::BadX(vec!['1', '2', 'a']));
    assert_eq!(parse_command("4 2147483648"), Command::BadY("2147483648".chars().collect()));
    assert_eq!(parse_command("+ 4"), Command::BadX(vec!['+']));
    assert_eq!(parse_command("4 -"), Command::BadY(vec!['-']));
    assert_eq!(parse_command("\u{3000}7\u{00a0}8\u{2003}"), Command::Move { x: 7, y: 8 });
}
