//! Groups a live input into meetings. Pure: audio in, events out.
//!
//! Everything here counts in samples at the *device's* rate rather than in
//! wall-clock time: audio arrives in bursts whenever the UI thread gets around
//! to handing it over, and sample counts stay true regardless.

use std::collections::VecDeque;
use vstd::prelude::*;

use crate::gate::{frame_size, frames_view, whole_frames, Frame, SpeechGate};

verus! {

/// How the segmenter decides where a meeting begins and ends, in microseconds.
#[derive(Debug, Clone, Copy)]
pub struct Config {
    /// Silence that ends a meeting. A minute by default, so a pause for reading,
    /// thinking, or a slide change doesn't split one in two.
    pub gap: u64,
    /// Speech needed within [`Config::start_window`] to start a meeting — long
    /// enough that a door slam or a cough doesn't.
    pub start: u64,
    /// The window that speech is added up over to start a meeting. It spans the
    /// commas: "Good morning everyone, thanks for joining" is several short
    /// runs, and a meeting has to begin at the first of them rather than at
    /// whichever one happens to cross the threshold.
    pub start_window: u64,
    /// Speech a meeting must contain in total to be worth keeping.
    pub min_meeting: u64,
    /// Audio to hold before cutting a chunk at the next pause.
    pub chunk: u64,
    /// Cut even without a pause once a chunk reaches this — someone can talk
    /// without a real break for a long time.
    pub max_chunk: u64,
    /// Silence that counts as a pause to cut a chunk at.
    pub pause: u64,
    /// Audio kept before speech starts, so the first word survives the level gate's
    /// reaction time.
    pub preroll: u64,
    /// Silence kept after the last speech of a meeting.
    pub tail: u64,
}

impl Default for Config {
    fn default() -> (r: Self)
        ensures
            r.gap == 60_000_000,
            r.start == 1_200_000,
            r.start_window == 6_000_000,
            r.min_meeting == 8_000_000,
            r.chunk == 45_000_000,
            r.max_chunk == 150_000_000,
            r.pause == 1_000_000,
            r.preroll == 2_000_000,
            r.tail == 1_000_000,
    {
        Config {
            gap: 60_000_000,
            start: 1_200_000,
            start_window: 6_000_000,
            min_meeting: 8_000_000,
            chunk: 45_000_000,
            max_chunk: 150_000_000,
            pause: 1_000_000,
            preroll: 2_000_000,
            tail: 1_000_000,
        }
    }
}

/// A time in microseconds as whole samples at `rate`, no more than fit.
pub open spec fn samples_in(time: u64, rate: u32) -> u64 {
    let n = time * rate / 1_000_000;
    if n > u64::MAX {
        u64::MAX
    } else {
        n as u64
    }
}

/// A time in microseconds as whole samples at `rate`, no more than fit.
fn to_samples(time: u64, rate: u32) -> (r: u64)
    ensures
        r == samples_in(time, rate),
{
    proof {
        assert(time * rate <= u64::MAX * u32::MAX) by (nonlinear_arith)
            requires
                time <= u64::MAX,
                rate <= u32::MAX,
        ;
    }
    let n: u128 = time as u128 * rate as u128 / 1_000_000;
    if n > u64::MAX as u128 {
        u64::MAX
    } else {
        n as u64
    }
}

/// A [`Config`] in samples.
pub struct Limits {
    pub frame: u64,
    pub gap: u64,
    pub start: u64,
    pub start_window: u64,
    /// Fewer samples of speech than this are no meeting.
    pub min_meeting: u128,
    pub chunk: u64,
    pub max_chunk: u64,
    pub pause: u64,
    pub preroll: u64,
    pub tail: u64,
}

impl Limits {
    /// The limits that a config sets at `rate`.
    pub open spec fn of(cfg: Config, rate: u32) -> Limits {
        Limits {
            frame: frame_size(rate) as u64,
            gap: samples_in(cfg.gap, rate),
            start: samples_in(cfg.start, rate),
            start_window: samples_in(cfg.start_window, rate),
            min_meeting: ((cfg.min_meeting * rate + 999_999) / 1_000_000) as u128,
            chunk: samples_in(cfg.chunk, rate),
            max_chunk: samples_in(cfg.max_chunk, rate),
            pause: samples_in(cfg.pause, rate),
            preroll: samples_in(cfg.preroll, rate),
            tail: samples_in(cfg.tail, rate),
        }
    }

    fn new(cfg: Config, rate: u32) -> (r: Limits)
        ensures
            r == Limits::of(cfg, rate),
            r.frame > 0,
    {
        let nearest: u64 = (rate as u64 + 25) / 50;
        proof {
            assert(cfg.min_meeting * rate <= u64::MAX * u32::MAX) by (nonlinear_arith)
                requires
                    cfg.min_meeting <= u64::MAX,
                    rate <= u32::MAX,
            ;
        }
        let least: u128 = (cfg.min_meeting as u128 * rate as u128 + 999_999) / 1_000_000;
        Limits {
            frame: if nearest < 1 {
                1
            } else {
                nearest
            },
            gap: to_samples(cfg.gap, rate),
            start: to_samples(cfg.start, rate),
            start_window: to_samples(cfg.start_window, rate),
            min_meeting: least,
            chunk: to_samples(cfg.chunk, rate),
            max_chunk: to_samples(cfg.max_chunk, rate),
            pause: to_samples(cfg.pause, rate),
            preroll: to_samples(cfg.preroll, rate),
            tail: to_samples(cfg.tail, rate),
        }
    }
}

/// What the segmenter wants done with the audio it has grouped.
#[derive(Debug)]
pub enum Event<T> {
    MeetingStarted,
    /// Audio to transcribe and append to the running meeting, at the device's
    /// sample rate.
    Chunk(Vec<T>),
    MeetingEnded {
        /// Samples from the first to the last word.
        len: u64,
        /// How many of those were actually speech.
        speech: u64,
        /// False when it was too short to be a meeting — a passing remark, a
        /// phone notification — and should be thrown away.
        keep: bool,
    },
}

/// An event as mathematical values.
pub enum Happening<T> {
    Started,
    Chunk(Seq<T>),
    Ended { len: u64, speech: u64, keep: bool },
}

impl<T> View for Event<T> {
    type V = Happening<T>;

    open spec fn view(&self) -> Happening<T> {
        match self {
            Event::MeetingStarted => Happening::Started,
            Event::Chunk(chunk) => Happening::Chunk(chunk@),
            Event::MeetingEnded { len, speech, keep } => Happening::Ended {
                len: *len,
                speech: *speech,
                keep: *keep,
            },
        }
    }
}

/// The events of a list as mathematical values.
pub open spec fn happenings<T>(v: Seq<Event<T>>) -> Seq<Happening<T>> {
    Seq::new(v.len(), |i: int| v[i]@)
}

/// A running meeting.
#[derive(Debug, Clone, Copy)]
pub struct Meeting {
    /// Where its audio starts.
    pub start: u64,
    /// Where its first word begins.
    pub first: u64,
    /// How much was said in it.
    pub speech: u64,
}

/// What has been heard and what was made of it.
pub struct Hearing<T> {
    /// All audio so far.
    pub audio: Seq<T>,
    /// Up to where it has been handed over or thrown away.
    pub pending_start: int,
    /// How far the level gate has looked, in whole frames. Cuts are measured against
    /// this, so it never runs past what arrived.
    pub analyzed: int,
    /// End of the most recent voiced frame.
    pub speech_end: int,
    /// Whether the last frame was voiced.
    pub voiced: bool,
    /// The frames of the start window: end position, and whether voiced.
    pub window: Seq<(u64, bool)>,
    /// The last frames: end position and level.
    pub quiet: Seq<(u64, i32)>,
    pub meeting: Option<Meeting>,
}

/// How many frames are kept to find the least bad spot to cut at: two seconds.
pub const QUIET_FRAMES: usize = 100;

/// How many of the frames are voiced.
pub open spec fn voiced_count(window: Seq<(u64, bool)>) -> nat
    decreases window.len(),
{
    if window.len() == 0 {
        0
    } else {
        voiced_count(window.drop_last()) + if window.last().1 {
            1nat
        } else {
            0nat
        }
    }
}

/// The end of the first voiced frame, if there is one.
pub open spec fn first_voiced(window: Seq<(u64, bool)>) -> Option<u64>
    decreases window.len(),
{
    if window.len() == 0 {
        None
    } else if window[0].1 {
        Some(window[0].0)
    } else {
        first_voiced(window.drop_first())
    }
}

/// The frames that still belong to a window of `len` samples that ends at `end`.
pub open spec fn recent(window: Seq<(u64, bool)>, len: u64, end: int) -> Seq<(u64, bool)>
    decreases window.len(),
{
    if window.len() > 0 && window[0].0 + len <= end {
        recent(window.drop_first(), len, end)
    } else {
        window
    }
}

/// The last frames of a list.
pub open spec fn latest(quiet: Seq<(u64, i32)>) -> Seq<(u64, i32)> {
    if quiet.len() > QUIET_FRAMES {
        quiet.skip(quiet.len() - QUIET_FRAMES)
    } else {
        quiet
    }
}

/// The quietest frame that ends behind `after`, the first of several.
pub open spec fn quietest(quiet: Seq<(u64, i32)>, after: int) -> Option<(u64, i32)>
    decreases quiet.len(),
{
    if quiet.len() == 0 {
        None
    } else {
        let earlier = quietest(quiet.drop_last(), after);
        let last = quiet.last();
        if last.0 <= after {
            earlier
        } else {
            match earlier {
                Some(best) => if last.1 < best.1 {
                    Some(last)
                } else {
                    earlier
                },
                None => Some(last),
            }
        }
    }
}

/// The lesser of two numbers.
pub open spec fn lesser(a: int, b: int) -> int {
    if a < b {
        a
    } else {
        b
    }
}

/// The greater of two numbers.
pub open spec fn greater(a: int, b: int) -> int {
    if a > b {
        a
    } else {
        b
    }
}

impl<T> Hearing<T> {
    /// Nothing has been heard yet.
    pub open spec fn empty() -> Hearing<T> {
        Hearing {
            audio: Seq::empty(),
            pending_start: 0,
            analyzed: 0,
            speech_end: 0,
            voiced: false,
            window: Seq::empty(),
            quiet: Seq::empty(),
            meeting: None,
        }
    }

    /// Where the first speech in the start window began.
    pub open spec fn first_speech(self, l: Limits) -> Option<int> {
        match first_voiced(self.window) {
            Some(end) => Some(greater(end - l.frame, 0)),
            None => None,
        }
    }

    /// `at`, but neither before what is pending nor behind what the level gate has
    /// looked at.
    pub open spec fn clamped(self, at: int) -> int {
        if at < self.pending_start {
            self.pending_start
        } else if at > self.analyzed {
            self.analyzed
        } else {
            at
        }
    }

    /// What is pending up to `end` is handed over.
    pub open spec fn cut(self, end: int) -> (Hearing<T>, Seq<Happening<T>>) {
        let to = self.clamped(end);
        if to == self.pending_start {
            (self, Seq::empty())
        } else {
            (
                Hearing { pending_start: to, ..self },
                seq![Happening::Chunk(self.audio.subrange(self.pending_start, to))],
            )
        }
    }

    /// Audio before `at` is thrown away.
    pub open spec fn dropped(self, at: int) -> Hearing<T> {
        Hearing { pending_start: self.clamped(at), ..self }
    }

    /// Between meetings, only enough audio to serve as pre-roll is kept, and any
    /// speech still inside the start window — it may yet grow into a meeting.
    pub open spec fn trimmed(self, l: Limits) -> Hearing<T> {
        if self.meeting is Some {
            self
        } else {
            let from = match self.first_speech(l) {
                Some(first) => first,
                None => self.analyzed,
            };
            self.dropped(greater(from - l.preroll, 0))
        }
    }

    /// Where a meeting that is over ends: a little behind its last word.
    pub open spec fn meeting_end(self, l: Limits) -> int {
        lesser(self.speech_end + l.tail, self.analyzed)
    }

    /// The meeting is over. Whatever silence followed is only pre-roll for the
    /// next meeting.
    pub open spec fn ended(self, l: Limits) -> (Hearing<T>, Seq<Happening<T>>) {
        match self.meeting {
            Some(meeting) => {
                let end = self.meeting_end(l);
                let (rest, chunk) = self.cut(end);
                (
                    Hearing { meeting: None, ..rest }.trimmed(l),
                    chunk.push(
                        Happening::Ended {
                            len: greater(self.speech_end - meeting.first, 0) as u64,
                            speech: meeting.speech,
                            keep: meeting.speech >= l.min_meeting,
                        },
                    ),
                )
            },
            None => (self, Seq::empty()),
        }
    }

    /// Where a meeting starts that the speech in the start window makes: just
    /// before its first word, as far as the audio is still there.
    pub open spec fn meeting_start(self, l: Limits, first: int) -> int {
        greater(greater(first - l.preroll, 0), self.pending_start)
    }

    /// What the frames so far add up to.
    pub open spec fn step(self, l: Limits) -> (Hearing<T>, Seq<Happening<T>>) {
        match self.meeting {
            None => {
                let speech = voiced_count(self.window) * l.frame;
                match self.first_speech(l) {
                    Some(first) => if speech >= l.start {
                        let start = self.meeting_start(l, first);
                        (
                            Hearing {
                                meeting: Some(
                                    Meeting {
                                        start: start as u64,
                                        first: first as u64,
                                        speech: speech as u64,
                                    },
                                ),
                                ..self.dropped(start)
                            },
                            seq![Happening::Started],
                        )
                    } else {
                        (self, Seq::empty())
                    },
                    None => (self, Seq::empty()),
                }
            },
            Some(_) => {
                let silence = self.analyzed - self.speech_end;
                let pending = self.analyzed - self.pending_start;
                if silence >= l.gap {
                    self.ended(l)
                } else if self.speech_end <= self.pending_start {
                    // Nothing but silence since the last chunk: there is nothing
                    // to decode, however much of it piles up.
                    (self, Seq::empty())
                } else if pending >= l.chunk && silence >= l.pause {
                    self.cut(self.meeting_end(l))
                } else if pending >= l.max_chunk {
                    // No pause in sight: the quietest recent frame is the least
                    // bad place to split a sentence.
                    self.cut(
                        match quietest(self.quiet, self.pending_start) {
                            Some((at, _)) => at as int,
                            None => self.analyzed,
                        },
                    )
                } else {
                    (self, Seq::empty())
                }
            },
        }
    }

    /// The level gate has looked at one more frame.
    pub open spec fn noted(self, l: Limits, frame: Frame) -> Hearing<T> {
        let end = self.analyzed + l.frame;
        Hearing {
            analyzed: end,
            quiet: latest(self.quiet.push((end as u64, frame.level))),
            window: recent(self.window.push((end as u64, frame.voiced)), l.start_window, end),
            voiced: frame.voiced,
            speech_end: if frame.voiced {
                end
            } else {
                self.speech_end
            },
            meeting: match self.meeting {
                Some(meeting) => if frame.voiced {
                    Some(
                        Meeting {
                            speech: (meeting.speech + l.frame) as u64,
                            ..meeting
                        },
                    )
                } else {
                    self.meeting
                },
                None => None,
            },
            ..self
        }
    }

    /// The level gate has looked at some more frames.
    pub open spec fn judged(self, l: Limits, frames: Seq<Frame>) -> (
        Hearing<T>,
        Seq<Happening<T>>,
    )
        decreases frames.len(),
    {
        if frames.len() == 0 {
            (self, Seq::empty())
        } else {
            let (before, events) = self.judged(l, frames.drop_last());
            let (after, more) = before.noted(l, frames.last()).step(l);
            (after, events + more)
        }
    }

    /// One more block of audio has arrived, and the level gate has looked at the frames
    /// that it completes.
    pub open spec fn pushed(self, l: Limits, block: Seq<T>, frames: Seq<Frame>) -> (
        Hearing<T>,
        Seq<Happening<T>>,
    ) {
        let (after, events) = Hearing { audio: self.audio + block, ..self }.judged(l, frames);
        (after.trimmed(l), events)
    }

    /// The input stops: any meeting in progress is finished rather than lost.
    /// Everything captured counts as analyzed, even a partial trailing frame —
    /// and if the last one was mid-sentence, that sentence counts as speech to
    /// the very end.
    pub open spec fn finished(self, l: Limits) -> (Hearing<T>, Seq<Happening<T>>) {
        let all = self.audio.len() as int;
        if self.meeting is Some {
            Hearing {
                analyzed: all,
                speech_end: if self.voiced {
                    all
                } else {
                    self.speech_end
                },
                ..self
            }.ended(l)
        } else {
            (self, Seq::empty())
        }
    }

    /// What holds at all times. Cuts are measured against what was analyzed, so
    /// drift here would corrupt positions.
    pub open spec fn safe(self, l: Limits) -> bool {
        &&& l.frame > 0
        &&& 0 <= self.pending_start <= self.analyzed <= self.audio.len() <= u64::MAX
        &&& 0 <= self.speech_end <= self.analyzed
        &&& forall|k: int| 0 <= k < self.window.len() ==> (#[trigger] self.window[k]).0
            <= self.analyzed
        &&& voiced_count(self.window) * l.frame <= self.analyzed
        &&& self.meeting matches Some(meeting) ==> meeting.start <= self.pending_start
            && meeting.speech <= self.analyzed
    }
}

/// Groups a live input into meetings.
pub struct Segmenter<T> {
    limits: Limits,
    gate: SpeechGate<T>,
    /// Audio not yet handed to the transcriber.
    pending: Vec<T>,
    /// Position of `pending[0]` in the stream.
    pending_start: u64,
    analyzed: u64,
    speech_end: u64,
    voiced_now: bool,
    window: VecDeque<(u64, bool)>,
    quiet: VecDeque<(u64, i32)>,
    meeting: Option<Meeting>,
    audio: Ghost<Seq<T>>,
}

impl<T: Copy> Segmenter<T> {
    /// What has been heard and what was made of it.
    pub closed spec fn hearing(self) -> Hearing<T> {
        Hearing {
            audio: self.audio@,
            pending_start: self.pending_start as int,
            analyzed: self.analyzed as int,
            speech_end: self.speech_end as int,
            voiced: self.voiced_now,
            window: self.window@,
            quiet: self.quiet@,
            meeting: self.meeting,
        }
    }

    /// The config in samples.
    pub closed spec fn limits(self) -> Limits {
        self.limits
    }

    /// Samples that wait for the rest of their frame.
    pub closed spec fn held(self) -> Seq<T> {
        self.gate.held()
    }

    /// What is pending is the end of all audio.
    spec fn whole(self) -> bool {
        &&& self.hearing().safe(self.limits)
        &&& self.pending@ == self.audio@.skip(self.pending_start as int)
        &&& self.gate.wf()
        &&& self.gate.len() == self.limits.frame
    }

    /// What holds at all times.
    pub closed spec fn wf(self) -> bool {
        self.whole()
    }

    /// What holds at all times of what has been heard.
    pub proof fn lemma_wf(self)
        requires
            self.wf(),
        ensures
            self.hearing().safe(self.limits()),
    {
    }

    /// Whether the level gate holds what it has not looked at yet. It always does until
    /// a meeting is finished in the middle of a frame.
    pub open spec fn in_step(self) -> bool {
        self.held() == self.hearing().audio.skip(self.hearing().analyzed)
    }

    pub fn new(rate: u32, cfg: Config) -> (r: Segmenter<T>)
        ensures
            r.wf(),
            r.in_step(),
            r.limits() == Limits::of(cfg, rate),
            r.hearing() == Hearing::<T>::empty(),
    {
        let r = Segmenter {
            limits: Limits::new(cfg, rate),
            gate: SpeechGate::new(rate),
            pending: Vec::new(),
            pending_start: 0,
            analyzed: 0,
            speech_end: 0,
            voiced_now: false,
            window: VecDeque::new(),
            quiet: VecDeque::new(),
            meeting: None,
            audio: Ghost(Seq::empty()),
        };
        proof {
            assert(r.pending@ =~= r.audio@.skip(0));
            assert(r.held() =~= r.audio@.skip(0));
            assert(r.hearing().window =~= Seq::empty());
            assert(voiced_count(r.window@) == 0);
            assert(0 * r.limits.frame == 0);
            assert(r.hearing().quiet =~= Seq::empty());
        }
        r
    }

    /// Total samples seen, including what has been handed out already.
    fn total(&self) -> (r: u64)
        requires
            self.whole(),
        ensures
            r == self.hearing().audio.len(),
    {
        self.pending_start + self.pending.len() as u64
    }

    pub fn in_meeting(&self) -> (r: bool)
        ensures
            r == (self.hearing().meeting is Some),
    {
        self.meeting.is_some()
    }

    /// Samples of the meeting so far (0 when none is running).
    pub fn meeting_samples(&self) -> (r: u64)
        requires
            self.wf(),
        ensures
            r == match self.hearing().meeting {
                Some(meeting) => self.hearing().audio.len() - meeting.start,
                None => 0,
            },
    {
        match self.meeting {
            Some(meeting) => self.total() - meeting.start,
            None => 0,
        }
    }

    /// Samples since anyone last spoke.
    pub fn silence_samples(&self) -> (r: u64)
        requires
            self.wf(),
        ensures
            r == self.hearing().audio.len() - self.hearing().speech_end,
    {
        self.total() - self.speech_end
    }

    /// Whether the last frame was voiced — what the UI's talking light shows.
    pub fn voiced(&self) -> (r: bool)
        ensures
            r == self.hearing().voiced,
    {
        self.voiced_now
    }

    /// How many samples are held that have not been handed over.
    pub fn pending_samples(&self) -> (r: usize)
        requires
            self.wf(),
        ensures
            r == self.hearing().audio.len() - self.hearing().pending_start,
    {
        self.pending.len()
    }

    /// How far the level gate has looked, and how much audio has arrived.
    pub fn progress(&self) -> (r: (u64, u64))
        requires
            self.wf(),
        ensures
            r.0 == self.hearing().analyzed,
            r.1 == self.hearing().audio.len(),
            r.0 <= r.1,
    {
        (self.analyzed, self.total())
    }

    /// Speech in the start window, and where the first of it began.
    fn window_speech(&self) -> (r: (u64, Option<u64>))
        requires
            self.whole(),
        ensures
            r.0 == voiced_count(self.window@) * self.limits.frame,
            match self.hearing().first_speech(self.limits) {
                Some(first) => r.1 matches Some(x) && x == first,
                None => r.1 is None,
            },
    {
        let n = self.window.len();
        let mut count: u64 = 0;
        let mut i: usize = 0;
        proof {
            assert(self.window@.take(0) =~= Seq::<(u64, bool)>::empty());
        }
        while i < n
            invariant
                i <= n,
                n == self.window@.len(),
                count <= i,
                count == voiced_count(self.window@.take(i as int)),
            decreases n - i,
        {
            proof {
                assert(self.window@.take(i + 1).drop_last() == self.window@.take(i as int));
            }
            if self.window[i].1 {
                count += 1;
            }
            i += 1;
        }
        proof {
            assert(self.window@.take(i as int) == self.window@);
        }
        let speech: u64 = count * self.limits.frame;
        let mut first: Option<u64> = None;
        let mut k: usize = 0;
        proof {
            assert(self.window@.skip(0) == self.window@);
        }
        while k < n && first.is_none()
            invariant
                k <= n,
                n == self.window@.len(),
                first is None ==> first_voiced(self.window@.skip(k as int)) == first_voiced(
                    self.window@,
                ),
                first matches Some(x) ==> (first_voiced(self.window@) matches Some(end) && x
                    == greater(end - self.limits.frame, 0)),
            decreases n - k + (if first is None {
                1int
            } else {
                0
            }),
        {
            proof {
                assert(self.window@.skip(k as int).drop_first() == self.window@.skip(k + 1));
                assert(self.window@.skip(k as int)[0] == self.window@[k as int]);
            }
            if self.window[k].1 {
                first = Some(self.window[k].0.saturating_sub(self.limits.frame));
            } else {
                k += 1;
            }
        }
        proof {
            if first is None {
                assert(self.window@.skip(k as int) =~= Seq::<(u64, bool)>::empty());
            }
        }
        (speech, first)
    }

    /// `at`, but neither before what is pending nor behind what the level gate has
    /// looked at.
    fn clamp(&self, at: u64) -> (r: u64)
        ensures
            r == self.hearing().clamped(at as int),
    {
        if at < self.pending_start {
            self.pending_start
        } else if at > self.analyzed {
            self.analyzed
        } else {
            at
        }
    }

    /// Takes what is pending before `to`.
    fn take_pending(&mut self, to: u64) -> (r: Vec<T>)
        requires
            old(self).whole(),
            old(self).pending_start <= to <= old(self).analyzed,
        ensures
            *final(self) == (Segmenter {
                pending: final(self).pending,
                pending_start: to,
                ..*old(self)
            }),
            final(self).whole(),
            r@ == old(self).audio@.subrange(old(self).pending_start as int, to as int),
    {
        proof {
            assert(to - self.pending_start <= self.pending.len());
        }
        let take: usize = (to - self.pending_start) as usize;
        let ghost before = self.pending@;
        let mut rest = self.pending.split_off(take);
        let mut chunk: Vec<T> = Vec::new();
        chunk.append(&mut self.pending);
        self.pending.append(&mut rest);
        self.pending_start = to;
        proof {
            assert(self.pending@ =~= self.audio@.skip(to as int));
            assert(chunk@ =~= self.audio@.subrange(old(self).pending_start as int, to as int));
        }
        chunk
    }

    /// Hand `pending` up to `end` to the transcriber. Never past what the level gate
    /// has looked at.
    fn cut(&mut self, end: u64, out: &mut Vec<Event<T>>)
        requires
            old(self).whole(),
        ensures
            final(self).whole(),
            final(self).limits == old(self).limits,
            final(self).gate == old(self).gate,
            final(self).hearing() == old(self).hearing().cut(end as int).0,
            happenings(final(out)@) == happenings(old(out)@) + old(self).hearing().cut(end as int).1,
    {
        let to = self.clamp(end);
        if to == self.pending_start {
            proof {
                assert(happenings(out@) + Seq::<Happening<T>>::empty() =~= happenings(out@));
            }
            return ;
        }
        let ghost before = happenings(out@);
        let chunk = self.take_pending(to);
        out.push(Event::Chunk(chunk));
        proof {
            assert(happenings(out@) =~= before + seq![out@.last()@]);
        }
    }

    /// Throw away audio before `at` (never anything the level gate hasn't seen).
    fn drop_before(&mut self, at: u64)
        requires
            old(self).whole(),
        ensures
            final(self).whole(),
            final(self).limits == old(self).limits,
            final(self).gate == old(self).gate,
            final(self).hearing() == old(self).hearing().dropped(at as int),
    {
        let to = self.clamp(at);
        if to > self.pending_start {
            let _gone = self.take_pending(to);
        }
    }

    /// Between meetings, keep only enough audio to serve as pre-roll.
    fn trim_idle(&mut self)
        requires
            old(self).whole(),
        ensures
            final(self).whole(),
            final(self).limits == old(self).limits,
            final(self).gate == old(self).gate,
            final(self).hearing() == old(self).hearing().trimmed(old(self).limits),
    {
        if self.meeting.is_some() {
            return ;
        }
        let (_, first) = self.window_speech();
        let from: u64 = match first {
            Some(at) => at,
            None => self.analyzed,
        };
        let keep: u64 = from.saturating_sub(self.limits.preroll);
        self.drop_before(keep);
    }

    /// Where a meeting that is over ends.
    fn meeting_end(&self) -> (r: u64)
        ensures
            r == self.hearing().meeting_end(self.limits),
    {
        let end: u64 = self.speech_end.saturating_add(self.limits.tail);
        if end < self.analyzed {
            end
        } else {
            self.analyzed
        }
    }

    fn end_meeting(&mut self, out: &mut Vec<Event<T>>)
        requires
            old(self).whole(),
        ensures
            final(self).whole(),
            final(self).limits == old(self).limits,
            final(self).gate == old(self).gate,
            final(self).hearing() == old(self).hearing().ended(old(self).limits).0,
            happenings(final(out)@) == happenings(old(out)@) + old(self).hearing().ended(
                old(self).limits,
            ).1,
    {
        let ghost before = happenings(out@);
        match self.meeting {
            Some(meeting) => {
                let end = self.meeting_end();
                self.cut(end, out);
                self.meeting = None;
                let ghost with_chunk = happenings(out@);
                let len: u64 = self.speech_end.saturating_sub(meeting.first);
                out.push(
                    Event::MeetingEnded {
                        len,
                        speech: meeting.speech,
                        keep: meeting.speech as u128 >= self.limits.min_meeting,
                    },
                );
                proof {
                    assert(happenings(out@) =~= with_chunk.push(out@.last()@));
                    assert(with_chunk.push(out@.last()@) =~= before + old(self).hearing().ended(
                        old(self).limits,
                    ).1);
                }
                self.trim_idle();
            },
            None => {
                proof {
                    assert(before + Seq::<Happening<T>>::empty() =~= before);
                }
            },
        }
    }

    /// The least bad place to split a sentence.
    fn quiet_spot(&self) -> (r: u64)
        ensures
            r == match quietest(self.quiet@, self.pending_start as int) {
                Some((at, _)) => at,
                None => self.analyzed,
            },
    {
        let n = self.quiet.len();
        let mut best: Option<(u64, i32)> = None;
        let mut i: usize = 0;
        proof {
            assert(self.quiet@.take(0) =~= Seq::<(u64, i32)>::empty());
        }
        while i < n
            invariant
                i <= n,
                n == self.quiet@.len(),
                best == quietest(self.quiet@.take(i as int), self.pending_start as int),
            decreases n - i,
        {
            proof {
                assert(self.quiet@.take(i + 1).drop_last() == self.quiet@.take(i as int));
            }
            let (at, level) = self.quiet[i];
            if at > self.pending_start {
                match best {
                    Some((_, least)) => {
                        if level < least {
                            best = Some((at, level));
                        }
                    },
                    None => {
                        best = Some((at, level));
                    },
                }
            }
            i += 1;
        }
        proof {
            assert(self.quiet@.take(i as int) == self.quiet@);
        }
        match best {
            Some((at, _)) => at,
            None => self.analyzed,
        }
    }

    /// Decide what the frames so far add up to.
    fn step(&mut self, out: &mut Vec<Event<T>>)
        requires
            old(self).whole(),
        ensures
            final(self).whole(),
            final(self).limits == old(self).limits,
            final(self).gate == old(self).gate,
            final(self).hearing() == old(self).hearing().step(old(self).limits).0,
            happenings(final(out)@) == happenings(old(out)@) + old(self).hearing().step(
                old(self).limits,
            ).1,
    {
        let ghost before = happenings(out@);
        proof {
            assert(before + Seq::<Happening<T>>::empty() =~= before);
        }
        match self.meeting {
            None => {
                let (speech, first) = self.window_speech();
                if speech < self.limits.start {
                    return ;
                }
                match first {
                    Some(at) => {
                        let early: u64 = at.saturating_sub(self.limits.preroll);
                        let start: u64 = if early > self.pending_start {
                            early
                        } else {
                            self.pending_start
                        };
                        proof {
                            lemma_first_voiced(self.window@, self.analyzed as int);
                        }
                        self.drop_before(start);
                        self.meeting = Some(Meeting { start, first: at, speech });
                        out.push(Event::MeetingStarted);
                        proof {
                            assert(happenings(out@) =~= before + seq![Happening::Started]);
                        }
                    },
                    None => {},
                }
            },
            Some(_) => {
                let silence: u64 = self.analyzed - self.speech_end;
                if silence >= self.limits.gap {
                    self.end_meeting(out);
                    return ;
                }
                let pending: u64 = self.analyzed - self.pending_start;
                if self.speech_end <= self.pending_start {
                    return ;
                }
                if pending >= self.limits.chunk && silence >= self.limits.pause {
                    let end = self.meeting_end();
                    self.cut(end, out);
                } else if pending >= self.limits.max_chunk {
                    let end = self.quiet_spot();
                    self.cut(end, out);
                }
            },
        }
    }

    /// Note one more frame that the level gate has looked at.
    fn note(&mut self, frame: Frame)
        requires
            old(self).whole(),
            old(self).analyzed + old(self).limits.frame <= old(self).audio@.len(),
        ensures
            final(self).whole(),
            final(self).limits == old(self).limits,
            final(self).gate == old(self).gate,
            final(self).hearing() == old(self).hearing().noted(old(self).limits, frame),
    {
        let ghost hearing = self.hearing();
        let ghost l = self.limits;
        let end: u64 = self.analyzed + self.limits.frame;
        self.analyzed = end;
        self.quiet.push_back((end, frame.level));
        let ghost quiet = self.quiet@;
        while self.quiet.len() > QUIET_FRAMES
            invariant
                latest(self.quiet@) == latest(quiet),
                self.limits == l,
                self.gate == old(self).gate,
                self.pending == old(self).pending,
                self.pending_start == old(self).pending_start,
                self.analyzed == end,
                self.speech_end == old(self).speech_end,
                self.window == old(self).window,
                self.meeting == old(self).meeting,
                self.audio == old(self).audio,
            decreases self.quiet@.len(),
        {
            let ghost longer = self.quiet@;
            let _old = self.quiet.pop_front();
            proof {
                assert(latest(self.quiet@) =~= latest(longer));
            }
        }
        self.window.push_back((end, frame.voiced));
        let ghost window = self.window@;
        proof {
            assert(window == hearing.window.push((end, frame.voiced)));
            lemma_count_push(hearing.window, (end, frame.voiced));
            let count = voiced_count(hearing.window);
            assert((count + 1) * l.frame == count * l.frame + l.frame) by (nonlinear_arith);
            assert(voiced_count(window) * l.frame <= (count + 1) * l.frame) by (nonlinear_arith)
                requires
                    voiced_count(window) <= count + 1,
            ;
        }
        while self.window.len() > 0 && end - self.window[0].0 >= self.limits.start_window
            invariant
                recent(self.window@, l.start_window, end as int) == recent(
                    window,
                    l.start_window,
                    end as int,
                ),
                forall|k: int| 0 <= k < self.window@.len() ==> (#[trigger] self.window@[k]).0 <= end,
                voiced_count(self.window@) * l.frame <= end,
                self.limits == l,
                self.gate == old(self).gate,
                self.pending == old(self).pending,
                self.pending_start == old(self).pending_start,
                self.analyzed == end,
                self.speech_end == old(self).speech_end,
                self.quiet@ == latest(quiet),
                self.meeting == old(self).meeting,
                self.audio == old(self).audio,
            decreases self.window@.len(),
        {
            let ghost longer = self.window@;
            let _old = self.window.pop_front();
            proof {
                assert(self.window@ =~= longer.drop_first());
                lemma_count_drop_first(longer);
                assert(voiced_count(self.window@) * l.frame <= voiced_count(longer) * l.frame)
                    by (nonlinear_arith)
                    requires
                        voiced_count(self.window@) <= voiced_count(longer),
                ;
                assert forall|k: int| 0 <= k < self.window@.len() implies (
                #[trigger] self.window@[k]).0 <= end by {
                    assert(self.window@[k] == longer[k + 1]);
                }
            }
        }
        self.voiced_now = frame.voiced;
        if frame.voiced {
            self.speech_end = end;
            match self.meeting {
                Some(meeting) => {
                    self.meeting = Some(
                        Meeting {
                            speech: meeting.speech + self.limits.frame,
                            ..meeting
                        },
                    );
                },
                None => {},
            }
        }
        proof {
            assert(self.hearing() == hearing.noted(l, frame));
        }
    }

    /// The frames that a block completes: the level gate says of each of them whether
    /// anyone talks in it.
    pub fn frames(&self, block: &[T]) -> (r: Vec<Vec<T>>)
        requires
            self.wf(),
            self.in_step(),
        ensures
            frames_view(r@) == whole_frames(
                (self.hearing().audio + block@).skip(self.hearing().analyzed),
                self.limits().frame as int,
            ),
    {
        proof {
            assert(self.held() + block@ =~= (self.audio@ + block@).skip(self.analyzed as int));
        }
        self.gate.frames(block)
    }

    /// Puts a block at the end of what is pending.
    fn append(&mut self, block: &[T])
        requires
            old(self).whole(),
            old(self).audio@.len() + block@.len() <= u64::MAX,
        ensures
            final(self).whole(),
            final(self).limits == old(self).limits,
            final(self).gate == old(self).gate,
            final(self).hearing() == (Hearing {
                audio: old(self).hearing().audio + block@,
                ..old(self).hearing()
            }),
    {
        let ghost before = self.pending@;
        let mut i: usize = 0;
        while i < block.len()
            invariant
                i <= block@.len(),
                *self == (Segmenter { pending: self.pending, ..*old(self) }),
                self.pending@ == before + block@.take(i as int),
            decreases block.len() - i,
        {
            self.pending.push(block[i]);
            i += 1;
            proof {
                assert(block@.take(i as int) == block@.take(i - 1).push(block@[i - 1]));
            }
        }
        self.audio = Ghost(self.audio@ + block@);
        proof {
            assert(block@.take(i as int) == block@);
            assert(self.pending@ =~= self.audio@.skip(self.pending_start as int));
        }
    }

    /// Feed the next block of captured audio, with what the level gate says of each of
    /// the [`Segmenter::frames`] that it completes.
    pub fn push(&mut self, block: &[T], verdicts: &[Frame], out: &mut Vec<Event<T>>)
        requires
            old(self).wf(),
            old(self).in_step(),
            old(self).hearing().audio.len() + block@.len() <= u64::MAX,
            verdicts@.len() == whole_frames(
                (old(self).hearing().audio + block@).skip(old(self).hearing().analyzed),
                old(self).limits().frame as int,
            ).len(),
        ensures
            final(self).wf(),
            final(self).in_step(),
            final(self).limits() == old(self).limits(),
            final(self).hearing() == old(self).hearing().pushed(
                old(self).limits(),
                block@,
                verdicts@,
            ).0,
            happenings(final(out)@) == happenings(old(out)@) + old(self).hearing().pushed(
                old(self).limits(),
                block@,
                verdicts@,
            ).1,
    {
        let ghost l = self.limits;
        let ghost before = happenings(out@);
        let ghost held = self.held() + block@;
        let mut frames: Vec<Vec<T>> = Vec::new();
        self.gate.push(block, &mut frames);
        let ghost gate = self.gate;
        self.append(block);
        let ghost opened = self.hearing();
        let ghost from = self.analyzed as int;
        proof {
            assert(held =~= opened.audio.skip(from));
            assert(verdicts@.take(0) =~= Seq::<Frame>::empty());
            assert(before + Seq::<Happening<T>>::empty() =~= before);
        }
        let mut i: usize = 0;
        while i < verdicts.len()
            invariant
                i <= verdicts@.len(),
                self.whole(),
                self.limits == l,
                self.gate == gate,
                opened.safe(l),
                opened.analyzed == from,
                held == opened.audio.skip(from),
                verdicts@.len() == held.len() as int / l.frame as int,
                self.hearing() == opened.judged(l, verdicts@.take(i as int)).0,
                happenings(out@) == before + opened.judged(l, verdicts@.take(i as int)).1,
            decreases verdicts.len() - i,
        {
            let ghost events = happenings(out@);
            proof {
                lemma_judged_place(opened, l, verdicts@.take(i as int));
                lemma_frame_fits(held.len() as int, l.frame as int, i as int);
                assert(verdicts@.take(i + 1).drop_last() == verdicts@.take(i as int));
                assert(verdicts@.take(i + 1).last() == verdicts@[i as int]);
            }
            self.note(verdicts[i]);
            self.step(out);
            i += 1;
            proof {
                let (then, so_far) = opened.judged(l, verdicts@.take(i - 1));
                let more = then.noted(l, verdicts@[i - 1]).step(l).1;
                assert(happenings(out@) == events + more);
                assert(before + so_far + more =~= before + (so_far + more));
            }
        }
        proof {
            assert(verdicts@.take(i as int) == verdicts@);
            lemma_judged_place(opened, l, verdicts@);
        }
        self.trim_idle();
        proof {
            let n = held.len() as int / l.frame as int;
            lemma_frame_fits(held.len() as int, l.frame as int, n);
            assert(self.held() =~= self.hearing().audio.skip(self.hearing().analyzed));
        }
    }

    /// Stopping: finish any meeting in progress rather than losing it.
    pub fn finish(&mut self, out: &mut Vec<Event<T>>)
        requires
            old(self).wf(),
        ensures
            final(self).wf(),
            final(self).limits() == old(self).limits(),
            final(self).hearing() == old(self).hearing().finished(old(self).limits()).0,
            happenings(final(out)@) == happenings(old(out)@) + old(self).hearing().finished(
                old(self).limits(),
            ).1,
    {
        if self.meeting.is_some() {
            self.analyzed = self.total();
            if self.voiced_now {
                self.speech_end = self.analyzed;
            }
            self.end_meeting(out);
        } else {
            proof {
                assert(happenings(out@) + Seq::<Happening<T>>::empty() =~= happenings(out@));
            }
        }
    }
}

/// How far the level gate has looked after some more frames.
proof fn lemma_judged_place<T>(hearing: Hearing<T>, l: Limits, frames: Seq<Frame>)
    ensures
        hearing.judged(l, frames).0.audio == hearing.audio,
        hearing.judged(l, frames).0.analyzed == hearing.analyzed + frames.len() * l.frame,
    decreases frames.len(),
{
    if frames.len() > 0 {
        lemma_judged_place(hearing, l, frames.drop_last());
        let n = frames.len() as int;
        assert(n * l.frame == (n - 1) * l.frame + l.frame) by (nonlinear_arith);
    } else {
        assert(0 * l.frame == 0);
    }
}

/// Whole frames fit into what there is.
proof fn lemma_frame_fits(len: int, frame: int, i: int)
    requires
        len >= 0,
        frame > 0,
        0 <= i <= len / frame,
    ensures
        i * frame <= len,
        i < len / frame ==> i * frame + frame <= len,
{
    assert(i * frame <= len) by (nonlinear_arith)
        requires
            len >= 0,
            frame > 0,
            0 <= i <= len / frame,
    ;
    if i < len / frame {
        assert(i * frame + frame <= len) by (nonlinear_arith)
            requires
                len >= 0,
                frame > 0,
                0 <= i < len / frame,
        ;
    }
}

/// The first voiced frame is one of the window.
proof fn lemma_first_voiced(window: Seq<(u64, bool)>, limit: int)
    requires
        forall|k: int| 0 <= k < window.len() ==> (#[trigger] window[k]).0 <= limit,
    ensures
        first_voiced(window) matches Some(end) ==> end <= limit,
    decreases window.len(),
{
    if window.len() > 0 && !window[0].1 {
        let rest = window.drop_first();
        assert forall|k: int| 0 <= k < rest.len() implies (#[trigger] rest[k]).0 <= limit by {
            assert(rest[k] == window[k + 1]);
        }
        lemma_first_voiced(rest, limit);
    }
}

/// One more frame is at most one more voiced frame.
proof fn lemma_count_push(window: Seq<(u64, bool)>, frame: (u64, bool))
    ensures
        voiced_count(window.push(frame)) == voiced_count(window) + if frame.1 {
            1nat
        } else {
            0nat
        },
{
    assert(window.push(frame).drop_last() == window);
}

/// A frame less is at most one voiced frame less.
proof fn lemma_count_drop_first(window: Seq<(u64, bool)>)
    requires
        window.len() > 0,
    ensures
        voiced_count(window) == voiced_count(window.drop_first()) + if window[0].1 {
            1nat
        } else {
            0nat
        },
    decreases window.len(),
{
    let rest = window.drop_first();
    if rest.len() > 0 {
        lemma_count_drop_first(window.drop_last());
        assert(window.drop_last().drop_first() == rest.drop_last());
        assert(window.drop_last()[0] == window[0]);
        assert(window.last() == rest.last());
    } else {
        assert(window.drop_last() =~= Seq::<(u64, bool)>::empty());
        assert(voiced_count(window.drop_last()) == 0);
        assert(voiced_count(rest) == 0);
        assert(window.last() == window[0]);
    }
}

} // verus!
