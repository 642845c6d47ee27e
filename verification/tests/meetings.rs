use transcribe::diarize::score_of_bits;
use transcribe::gate::{FloorMove, Frame, LevelGate, SpeechGate};
use transcribe::segmenter::{Config, Event, Segmenter};
use transcribe::session::{
    chunk_note, describe, format_duration, format_minute, Action, Minute, Phase, Session, Settings,
    Status,
};
use transcribe::summarize::Label;
use transcribe::transcripts::Meta;

const RATE: u32 = 16_000;

/// One second, in a config's unit.
const SEC: u64 = 1_000_000;

/// A level gate and the noise floor that it goes by.
struct Levels {
    floor: f32,
    gate: LevelGate,
}

fn score(level: f32) -> i32 {
    score_of_bits(level.to_bits())
}

impl Levels {
    fn new() -> Levels {
        Levels { floor: 0.004, gate: LevelGate::new() }
    }

    fn decide(&mut self, frame: &[f32]) -> Frame {
        let sum: f32 = frame.iter().map(|s| s * s).sum();
        let level = (sum / frame.len() as f32).sqrt();
        match self.gate.floor_move(score(level), score(self.floor)) {
            FloorMove::Fall => self.floor += (level - self.floor) * 0.3,
            FloorMove::Rise => self.floor += (level - self.floor) * 0.01,
            FloorMove::Hold => {}
        }
        self.floor = self.floor.max(1e-6);
        let open_at = (self.floor * 3.5).max(0.004);
        let close_at = (self.floor * 1.8).max(0.004 * 0.6);
        self.gate.decide(score(level), score(open_at), score(close_at))
    }
}

/// A segmenter with its level gate.
struct Ear {
    seg: Segmenter<f32>,
    levels: Levels,
}

impl Ear {
    fn new(rate: u32, cfg: Config) -> Ear {
        Ear { seg: Segmenter::new(rate, cfg), levels: Levels::new() }
    }

    fn push(&mut self, block: &[f32], out: &mut Vec<Event<f32>>) {
        let verdicts: Vec<Frame> =
            self.seg.frames(block).iter().map(|frame| self.levels.decide(frame)).collect();
        self.seg.push(block, &verdicts, out);
    }
}

/// `secs` of a loud-ish tone: what the level gate should hear as speech.
fn speech(secs: f64) -> Vec<f32> {
    let n = (secs * RATE as f64) as usize;
    (0..n)
        .map(|i| {
            let t = i as f32 / RATE as f32;
            // Amplitude-modulated, like syllables, well above the level gate.
            0.3 * (t * 220.0 * std::f32::consts::TAU).sin()
                * (0.6 + 0.4 * (t * 3.0 * std::f32::consts::TAU).sin())
        })
        .collect()
}

/// `secs` of a quiet room — not digital silence, which is unrealistic.
fn quiet(secs: f64) -> Vec<f32> {
    let n = (secs * RATE as f64) as usize;
    (0..n)
        .map(|i| 0.0005 * ((i as f32 * 0.37).sin() + (i as f32 * 1.7).cos()))
        .collect()
}

fn feed(ear: &mut Ear, audio: &[f32], out: &mut Vec<Event<f32>>) {
    // In blocks, the way a capture stream delivers it.
    for block in audio.chunks(1024) {
        ear.push(block, out);
    }
}

fn secs_of(events: &[Event<f32>]) -> f64 {
    events
        .iter()
        .filter_map(|e| match e {
            Event::Chunk(c) => Some(c.len() as f64 / RATE as f64),
            _ => None,
        })
        .sum()
}

#[test]
fn the_gate_separates_speech_from_a_quiet_room() {
    let mut gate = SpeechGate::new(RATE);
    let mut levels = Levels::new();
    let mut hear = |audio: &[f32]| -> Vec<Frame> {
        let mut frames = Vec::new();
        gate.push(audio, &mut frames);
        frames.iter().map(|frame| levels.decide(frame)).collect()
    };
    let frames = hear(&quiet(2.0));
    assert!(frames.iter().all(|f| !f.voiced), "a quiet room is not speech");
    let frames = hear(&speech(1.0));
    let voiced = frames.iter().filter(|f| f.voiced).count();
    assert!(voiced > frames.len() * 8 / 10, "{voiced} of {} frames voiced", frames.len());
}

#[test]
fn talking_holds_the_floor_and_stays_open() {
    let mut gate = LevelGate::new();
    assert_eq!(gate.floor_move(5, 10), FloorMove::Fall);
    assert_eq!(gate.floor_move(10, 10), FloorMove::Rise);
    assert!(!gate.decide(20, 20, 10).voiced);
    assert!(gate.decide(21, 20, 10).voiced);
    assert_eq!(gate.floor_move(10, 10), FloorMove::Hold);
    assert_eq!(gate.floor_move(9, 10), FloorMove::Fall);
    assert!(gate.decide(11, 20, 10).voiced);
    assert_eq!(gate.decide(10, 20, 10).level, 10);
    assert!(!gate.decide(11, 20, 10).voiced);
}

/// The whole point of the feature: a pause in the middle of a meeting
/// must not split it, but a long silence has to end it.
#[test]
fn a_minute_of_silence_does_not_split_a_meeting() {
    let cfg = Config { gap: 60 * SEC, ..Config::default() };
    let mut seg = Ear::new(RATE, cfg);
    let mut events = Vec::new();
    feed(&mut seg, &speech(20.0), &mut events);
    feed(&mut seg, &quiet(55.0), &mut events);
    feed(&mut seg, &speech(20.0), &mut events);
    assert!(
        !events.iter().any(|e| matches!(e, Event::MeetingEnded { .. })),
        "a 55s pause ended the meeting"
    );
    assert_eq!(
        events.iter().filter(|e| matches!(e, Event::MeetingStarted)).count(),
        1,
        "the meeting restarted instead of continuing"
    );
    feed(&mut seg, &quiet(70.0), &mut events);
    let ended = events.iter().find_map(|e| match e {
        Event::MeetingEnded { keep, speech, .. } => Some((*keep, *speech as f64 / RATE as f64)),
        _ => None,
    });
    let (keep, speech_secs) = ended.expect("70s of silence did not end the meeting");
    assert!(keep, "a 40s meeting should be kept");
    assert!(speech_secs > 30.0, "only {speech_secs:.0}s of speech counted");
}

#[test]
fn a_cough_never_starts_a_meeting() {
    let mut seg = Ear::new(RATE, Config::default());
    let mut events = Vec::new();
    feed(&mut seg, &quiet(2.0), &mut events);
    feed(&mut seg, &speech(0.3), &mut events);
    feed(&mut seg, &quiet(5.0), &mut events);
    assert!(events.is_empty(), "{events:?}");
}

/// Brief chatter does start a meeting, but is thrown away rather than
/// filed as one.
#[test]
fn a_passing_remark_is_recorded_but_not_kept() {
    let cfg = Config { gap: 3 * SEC, min_meeting: 8 * SEC, ..Config::default() };
    let mut seg = Ear::new(RATE, cfg);
    let mut events = Vec::new();
    feed(&mut seg, &speech(2.0), &mut events);
    feed(&mut seg, &quiet(5.0), &mut events);
    let keep = events.iter().find_map(|e| match e {
        Event::MeetingEnded { keep, .. } => Some(*keep),
        _ => None,
    });
    assert_eq!(keep, Some(false));
}

/// Long meetings are handed over in pieces as they run, so the text
/// appears while people are still talking — and memory stays bounded.
#[test]
fn a_long_meeting_is_transcribed_in_chunks_as_it_runs() {
    let cfg = Config { chunk: 10 * SEC, pause: SEC, ..Config::default() };
    let mut seg = Ear::new(RATE, cfg);
    let mut events = Vec::new();
    for _ in 0..4 {
        feed(&mut seg, &speech(12.0), &mut events);
        feed(&mut seg, &quiet(2.0), &mut events);
    }
    let chunks = events.iter().filter(|e| matches!(e, Event::Chunk(_))).count();
    assert!(chunks >= 3, "only {chunks} chunk(s) while the meeting ran");
    // Memory stays bounded: only the undecoded tail is held.
    let held = seg.seg.pending_samples() as f64 / RATE as f64;
    assert!(held < 15.0, "holding {held:.1}s after chunking");
}

/// Without any pause to cut at, a chunk still has to be handed over.
#[test]
fn unbroken_speech_is_cut_at_the_limit() {
    let cfg = Config { chunk: 60 * SEC, max_chunk: 20 * SEC, ..Config::default() };
    let mut seg = Ear::new(RATE, cfg);
    let mut events = Vec::new();
    feed(&mut seg, &speech(50.0), &mut events);
    let chunks: Vec<f64> = events
        .iter()
        .filter_map(|e| match e {
            Event::Chunk(c) => Some(c.len() as f64 / RATE as f64),
            _ => None,
        })
        .collect();
    assert!(chunks.len() >= 2, "{chunks:?}");
    assert!(chunks.iter().all(|&s| s <= 21.0), "{chunks:?}");
}

/// Stopping mid-meeting keeps what was said instead of dropping it.
#[test]
fn stopping_finishes_the_meeting_in_progress() {
    let mut seg = Ear::new(RATE, Config::default());
    let mut events = Vec::new();
    feed(&mut seg, &speech(20.0), &mut events);
    seg.seg.finish(&mut events);
    assert!(matches!(events.last(), Some(Event::MeetingEnded { keep: true, .. })));
    assert!(secs_of(&events) > 15.0, "only {}s handed over", secs_of(&events));
}

/// The first word must survive the level gate's reaction time.
#[test]
fn a_meeting_keeps_the_audio_before_the_first_word() {
    let cfg = Config { preroll: 2 * SEC, ..Config::default() };
    let mut seg = Ear::new(RATE, cfg);
    let mut events = Vec::new();
    feed(&mut seg, &quiet(10.0), &mut events);
    feed(&mut seg, &speech(20.0), &mut events);
    seg.seg.finish(&mut events);
    // 20s of speech plus up to 2s of pre-roll and 1s of tail.
    let handed = secs_of(&events);
    assert!((20.0..=23.5).contains(&handed), "handed over {handed:.1}s");
}

/// Nobody opens a meeting with one unbroken sentence: "Good morning
/// everyone, thanks for joining" is three short bursts, and the
/// meeting has to start at the first of them. Deciding on a single
/// unbroken run instead used to cut the greeting off.
#[test]
fn a_meeting_starts_at_the_first_word_not_the_longest_run() {
    let cfg = Config { preroll: 2 * SEC, ..Config::default() };
    let mut seg = Ear::new(RATE, cfg);
    let mut events = Vec::new();
    feed(&mut seg, &quiet(3.0), &mut events);
    feed(&mut seg, &speech(0.6), &mut events); // "Good morning,"
    feed(&mut seg, &quiet(1.5), &mut events);
    feed(&mut seg, &speech(4.0), &mut events); // "... thanks for joining"
    seg.seg.finish(&mut events);
    // The meeting runs from 2s of pre-roll before the first burst (at
    // 3.0s) to the end of the audio (9.1s): about 8.1s. Starting at
    // the long run instead would hand over only ~6s.
    let handed = secs_of(&events);
    assert!(handed >= 7.5, "only {handed:.1}s handed over — the opening was cut off");
}

/// A capture device delivers whatever block size it likes, and it is
/// rarely a whole number of 20 ms frames — 4608 samples at 48 kHz is
/// 4.8 of them. The leftover has to be accounted for exactly once:
/// counting only whole frames while the level gate also held the remainder
/// used to walk the read position off the end of the buffer.
#[test]
fn odd_block_sizes_keep_the_counters_in_step() {
    for (rate, block) in [(48_000, 4608), (44_100, 1000), (16_000, 1024), (48_000, 480)] {
        // Cut often, so the read position is exercised right after a
        // chunk hand-off, when almost nothing is left pending.
        let cfg = Config { chunk: 5 * SEC, pause: SEC / 2, gap: 10 * SEC, ..Config::default() };
        let mut seg = Ear::new(rate, cfg);
        let mut events = Vec::new();
        let push = |seg: &mut Ear, audio: &[f32], events: &mut Vec<Event<f32>>| {
            for chunk in audio.chunks(block) {
                seg.push(chunk, events);
            }
        };
        // Long enough to idle-trim many times over, then talk.
        let quiet_at = |secs: f64| vec![0.0005f32; (secs * rate as f64) as usize];
        let speech_at = |secs: f64| {
            (0..(secs * rate as f64) as usize)
                .map(|i| 0.3 * (i as f32 * 0.05).sin())
                .collect::<Vec<f32>>()
        };
        push(&mut seg, &quiet_at(30.0), &mut events);
        // Talking with pauses, the way a meeting actually goes.
        for _ in 0..6 {
            push(&mut seg, &speech_at(8.0), &mut events);
            push(&mut seg, &quiet_at(2.0), &mut events);
        }
        push(&mut seg, &quiet_at(30.0), &mut events);
        seg.seg.finish(&mut events);
        let (analyzed, total) = seg.seg.progress();
        assert!(
            analyzed <= total,
            "{rate} Hz / {block}: gated {analyzed} samples of {total} received",
        );
        // Frames stayed aligned with the audio, so the meeting was
        // still heard, chunked, and closed.
        let chunks = events.iter().filter(|e| matches!(e, Event::Chunk(_))).count();
        let ended = events
            .iter()
            .any(|e| matches!(e, Event::MeetingEnded { keep: true, .. }));
        assert!(chunks >= 2 && ended, "{rate} Hz / {block}: {chunks} chunk(s), ended {ended}");
    }
}

/// Idle listening must not grow without bound.
#[test]
fn listening_keeps_only_the_preroll() {
    let mut seg = Ear::new(RATE, Config::default());
    let mut events = Vec::new();
    for _ in 0..30 {
        feed(&mut seg, &quiet(10.0), &mut events);
    }
    assert!(events.is_empty());
    let held = seg.seg.pending_samples() as f64 / RATE as f64;
    assert!(held <= 2.5, "holding {held:.1}s of idle audio");
}

#[test]
fn frames_never_drift() {
    let mut gate: SpeechGate<u32> = SpeechGate::new(500);
    assert_eq!(gate.frame_len(), 10);
    let mut frames = Vec::new();
    let audio: Vec<u32> = (0..57).collect();
    for block in audio.chunks(7) {
        gate.push(block, &mut frames);
    }
    assert_eq!(frames.len(), 5);
    assert_eq!(frames.concat(), audio[..50]);
    assert_eq!(gate.frames(&[57, 58]).len(), 0);
    assert_eq!(gate.frames(&[57, 58, 59])[0], (50..60).collect::<Vec<u32>>());
    for (rate, len) in [(0, 1), (24, 1), (75, 2), (16_000, 320), (44_100, 882), (48_000, 960)] {
        assert_eq!(SpeechGate::<u32>::new(rate).frame_len(), len);
        let rounded = ((rate as f64) * 0.020).round().max(1.0) as usize;
        assert_eq!(rounded, len);
    }
}

/// Drives a segmenter at 50 Hz, one sample per frame, by hand.
fn run(cfg: Config, voiced: &[bool]) -> (Segmenter<usize>, Vec<Event<usize>>) {
    let mut seg = Segmenter::new(50, cfg);
    let mut events = Vec::new();
    for (i, v) in voiced.iter().enumerate() {
        assert_eq!(seg.frames(&[i]).len(), 1);
        seg.push(&[i], &[Frame { voiced: *v, level: *v as i32 }], &mut events);
    }
    (seg, events)
}

/// In samples at 50 Hz: a config in which everything is short.
fn short() -> Config {
    let frames = |n: u64| n * 20_000;
    Config {
        gap: frames(10),
        start: frames(2),
        start_window: frames(5),
        min_meeting: frames(4),
        chunk: frames(6),
        max_chunk: frames(8),
        pause: frames(2),
        preroll: frames(3),
        tail: frames(1),
    }
}

#[test]
fn a_meeting_is_told_in_order() {
    let mut voiced = vec![false; 6];
    voiced.extend([true; 7]);
    voiced.extend([false; 12]);
    let (seg, events) = run(short(), &voiced);
    assert!(!seg.in_meeting());
    let told: Vec<String> = events.iter().map(|e| format!("{e:?}")).collect();
    assert_eq!(
        told,
        vec![
            "MeetingStarted",
            // From three samples of pre-roll: cut at the first quietest
            // frame whenever eight are held, and at the pause.
            "Chunk([3])",
            "Chunk([4])",
            "Chunk([5])",
            "Chunk([6, 7, 8, 9, 10, 11, 12, 13])",
            "MeetingEnded { len: 7, speech: 7, keep: true }",
        ]
    );
}

#[test]
fn block_sizes_make_no_difference() {
    let voiced = |i: usize| i % 37 > 20 || (i / 50) % 3 == 1;
    let audio: Vec<usize> = (0..600).collect();
    let listen = |block: usize| {
        let mut seg = Segmenter::new(50, short());
        let mut events = Vec::new();
        for part in audio.chunks(block) {
            let verdicts: Vec<Frame> = seg
                .frames(part)
                .iter()
                .map(|frame| Frame { voiced: voiced(frame[0]), level: (frame[0] * 7 % 11) as i32 })
                .collect();
            seg.push(part, &verdicts, &mut events);
        }
        (format!("{events:?}"), seg.pending_samples(), seg.in_meeting())
    };
    let one = listen(600);
    assert!(one.0.contains("MeetingEnded"));
    for block in [1, 2, 7, 64, 599] {
        assert_eq!(listen(block), one);
    }
}

#[test]
fn stopping_in_a_sentence_hands_everything_over() {
    let (mut seg, mut events) = run(short(), &[false, true, true, true]);
    assert!(seg.in_meeting());
    assert!(seg.voiced());
    assert_eq!(seg.meeting_samples(), 4);
    assert_eq!(seg.silence_samples(), 0);
    seg.finish(&mut events);
    let told: Vec<String> = events.iter().map(|e| format!("{e:?}")).collect();
    assert_eq!(
        told,
        vec![
            "MeetingStarted",
            "Chunk([0, 1, 2, 3])",
            "MeetingEnded { len: 3, speech: 3, keep: false }",
        ]
    );
    assert_eq!(seg.pending_samples(), 0);
    // Stopping again changes nothing.
    seg.finish(&mut events);
    assert_eq!(events.len(), 3);
}

#[test]
fn meetings_follow_one_another() {
    // Three meetings, told in chunks of consecutive samples.
    let mut voiced: Vec<bool> = Vec::new();
    for said in [7, 9, 5] {
        voiced.extend(vec![false; 9]);
        voiced.extend(vec![true; said]);
        voiced.extend(vec![false; 12]);
    }
    let (_, events) = run(short(), &voiced);
    let mut meetings: Vec<Vec<usize>> = Vec::new();
    let mut lengths = Vec::new();
    for event in events {
        match event {
            Event::MeetingStarted => meetings.push(Vec::new()),
            Event::Chunk(chunk) => meetings.last_mut().unwrap().extend(chunk),
            Event::MeetingEnded { len, speech, .. } => {
                assert!(speech <= len);
                lengths.push(len);
            }
        }
    }
    assert_eq!(lengths, vec![7, 9, 5]);
    let mut end = 0;
    for meeting in meetings {
        assert!(meeting[0] >= end);
        end = meeting[0] + meeting.len();
        assert_eq!(meeting, (meeting[0]..end).collect::<Vec<usize>>());
    }
}

/// A meeting lasts from its first to its last word.
#[test]
fn the_length_leaves_out_preroll_and_tail() {
    let mut seg = Ear::new(RATE, Config::default());
    let mut events = Vec::new();
    feed(&mut seg, &quiet(10.0), &mut events);
    feed(&mut seg, &speech(20.0), &mut events);
    seg.seg.finish(&mut events);
    match events.last() {
        Some(Event::MeetingEnded { len, keep: true, .. }) => {
            let secs = *len as f64 / RATE as f64;
            assert!((19.9..=20.1).contains(&secs), "{secs}s");
        }
        other => panic!("{other:?}"),
    }
}

#[test]
fn a_session_files_what_was_said() {
    let mut session = Session::new();
    let mut status = Status::default();
    assert!(matches!(
        session.handle(Event::<u8>::MeetingStarted, 10, &mut status),
        Action::Nothing
    ));
    assert_eq!(status.note, "meeting started");
    session.begin("2026-09-17 14:32".to_owned(), &mut status);
    match session.handle(Event::Chunk(vec![1u8, 2]), 10, &mut status) {
        Action::Transcribe(audio) => assert_eq!(audio, vec![1, 2]),
        _ => panic!("a chunk is to be transcribed"),
    }
    assert_eq!(status.phase, Phase::Transcribing);
    session.transcribed(Ok(" Hello. \n".to_owned()), &mut status);
    session.transcribed(Ok("  ".to_owned()), &mut status);
    session.transcribed(Err("no model".to_owned()), &mut status);
    assert_eq!(status.note, "error: no model");
    session.transcribed(Ok("Bye.".to_owned()), &mut status);
    assert_eq!(status.transcript, "Hello.\nBye.");
    let ended = Event::<u8>::MeetingEnded { len: 36_615, speech: 100, keep: true };
    match session.handle(ended, 10, &mut status) {
        Action::File { meta, transcript } => {
            assert_eq!(meta.date, "2026-09-17 14:32");
            assert_eq!(meta.duration, "1:01:01");
            assert_eq!(meta.title, "");
            assert_eq!(transcript, "Hello.\nBye.");
            let label = Label { title: "T".to_owned(), summary: "S".to_owned() };
            let named = describe(meta.clone(), Some(label));
            assert_eq!((named.title.as_str(), named.summary.as_str()), ("T", "S"));
            assert_eq!(describe(meta.clone(), None), meta);
        }
        _ => panic!("a meeting is to be filed"),
    }
    assert_eq!(status.phase, Phase::Saving);
    session.filed("T", Ok("/x/T.txt".to_owned()), &mut status);
    assert_eq!(status.note, "saved \"T\"");
    assert_eq!(status.saved, vec!["/x/T.txt".to_owned()]);
    assert_eq!(status.transcript, "");
    session.filed("T", Err("disk full".to_owned()), &mut status);
    assert_eq!(status.note, "error: saving failed: disk full");
    status.tell("downloading the voice activity model ...".to_owned());
    assert_eq!(status.note, "downloading the voice activity model ...");
}

#[test]
fn the_start_of_a_meeting_is_stamped() {
    let mut session = Session::new();
    let mut status = Status::default();
    session.handle(Event::<u8>::MeetingStarted, 10, &mut status);
    session.transcribed(Ok("Words.".to_owned()), &mut status);
    let ended = Event::<u8>::MeetingEnded { len: 10, speech: 1, keep: true };
    match session.handle(ended, 10, &mut status) {
        Action::File { meta, .. } => {
            let shape: String =
                meta.date.chars().map(|c| if c.is_ascii_digit() { '0' } else { c }).collect();
            assert_eq!(shape, "0000-00-00 00:00");
        }
        _ => panic!("a meeting is to be filed"),
    }
}

#[test]
fn noise_is_ignored() {
    let mut session = Session::new();
    let mut status = Status::default();
    session.begin("now".to_owned(), &mut status);
    let ended = Event::<u8>::MeetingEnded { len: 25, speech: 1, keep: true };
    assert!(matches!(session.handle(ended, 10, &mut status), Action::Nothing));
    assert_eq!(status.note, "ignored 3s of noise");
    session.transcribed(Ok("Words.".to_owned()), &mut status);
    let ended = Event::<u8>::MeetingEnded { len: 24, speech: 1, keep: false };
    assert!(matches!(session.handle(ended, 10, &mut status), Action::Nothing));
    assert_eq!(status.note, "ignored 2s of noise");
    assert_eq!(status.transcript, "");
}

#[test]
fn the_status_shows_what_is_heard() {
    let (seg, _) = run(short(), &[true, true, false, false]);
    let mut status = Status::default();
    status.observe(&seg);
    assert_eq!(status.phase, Phase::Recording);
    assert_eq!((status.meeting, status.silence, status.voiced), (4, 2, false));
    status.stop();
    assert_eq!((status.phase, status.meeting), (Phase::Stopped, 0));
    status.observe(&seg);
    assert_eq!(status.phase, Phase::Stopped);
    let (seg, _) = run(short(), &[false]);
    let mut status = Status::default();
    status.observe(&seg);
    assert_eq!(status.phase, Phase::Listening);
}

#[test]
fn times_are_written_to_the_minute() {
    for (year, month, day, hour, minute) in [
        (2026, 9, 17, 14, 32),
        (999, 1, 2, 0, 9),
        (0, 12, 31, 23, 59),
        (-45, 3, 15, 12, 0),
        (12_345, 10, 1, 1, 1),
    ] {
        let expected = chrono::NaiveDate::from_ymd_opt(year, month, day)
            .unwrap()
            .and_hms_opt(hour, minute, 0)
            .unwrap()
            .format("%Y-%m-%d %H:%M")
            .to_string();
        assert_eq!(format_minute(Minute { year, month, day, hour, minute }), expected);
    }
}

#[test]
fn durations_and_notes_read_well() {
    assert_eq!(format_duration(0), "00:00");
    assert_eq!(format_duration(1984), "33:04");
    assert_eq!(format_duration(3600 * 12 + 61), "12:01:01");
    assert_eq!(chunk_note(16_000 * 45, 7), "transcribing the last 45s (7%)");
    for len in [7_999usize, 8_000, 8_001, 24_000, 40_000, 72_000] {
        let secs = len as f64 / 16_000.0;
        assert_eq!(chunk_note(len, -1), format!("transcribing the last {secs:.0}s (-1%)"));
    }
    assert_eq!(Meta::default().title, "");
}

#[test]
fn chunks_are_transcribed_without_speakers() {
    let settings = Settings {
        cfg: Config::default(),
        model: "m.bin".to_owned(),
        vad_model: Some("vad.bin".to_owned()),
        language: "de".to_owned(),
        prompt: "p".to_owned(),
        context: "c".to_owned(),
        summary_model: None,
        vocabulary: String::new(),
        dir: "out".to_owned(),
    };
    let opts = settings.chunk_options::<u8>();
    assert_eq!(opts.model, "m.bin");
    assert_eq!(opts.vad_model.as_deref(), Some("vad.bin"));
    assert_eq!((opts.language.as_str(), opts.prompt.as_str()), ("de", "p"));
    assert_eq!(opts.context, "c");
    assert!(opts.diarize.is_none() && !opts.timestamps);
}
