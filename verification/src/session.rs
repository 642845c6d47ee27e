//! Unattended capture: what is done with the meetings that are heard. Finished
//! ones are named and filed away, the rest is thrown away.

use chrono::{Datelike, Timelike};
use vstd::prelude::*;

use crate::numerals::{
    decimal, law_numbers_read_back, lemma_digit_bound, padded, power_of_ten, push_number, push_padded,
    push_signed_padded, signed_padded, value,
};
use crate::options::Options;
use crate::segmenter::{Config, Event, Segmenter};
use crate::summarize::{full_lines, Label};
use crate::text::{
    chars_of, join, law_trimming_takes_both_ends, lemma_join_push, push_slice, texts, trim, trim_of,
    white, Class,
};
use crate::transcripts::{Header, Meta};

verus! {

/// What auto mode is doing, for the UI to read each frame.
#[derive(Debug, Clone, Copy, PartialEq, Eq, Structural)]
pub enum Phase {
    /// Waiting for someone to start talking.
    Listening,
    /// A meeting is running.
    Recording,
    /// Catching up on a chunk of it.
    Transcribing,
    /// Titling and filing a finished meeting.
    Saving,
    /// The worker is gone; nothing is being captured.
    Stopped,
}

/// Shared between the auto worker and the UI thread.
#[derive(Debug)]
pub struct Status {
    pub phase: Phase,
    /// Length of the meeting in progress, in samples.
    pub meeting: u64,
    /// How long the room has been quiet, in samples.
    pub silence: u64,
    /// Whether the level gate hears speech right now.
    pub voiced: bool,
    /// Transcript of the meeting in progress, as far as it is decoded.
    pub transcript: String,
    /// Meetings filed this session, newest last.
    pub saved: Vec<String>,
    /// One line about what just happened.
    pub note: String,
    /// Set when the worker gave up; auto mode switches itself off.
    pub error: Option<String>,
}

/// A status as mathematical values.
pub struct Shown {
    pub phase: Phase,
    pub meeting: u64,
    pub silence: u64,
    pub voiced: bool,
    pub transcript: Seq<char>,
    pub saved: Seq<Seq<char>>,
    pub note: Seq<char>,
    pub error: Option<Seq<char>>,
}

impl View for Status {
    type V = Shown;

    open spec fn view(&self) -> Shown {
        Shown {
            phase: self.phase,
            meeting: self.meeting,
            silence: self.silence,
            voiced: self.voiced,
            transcript: self.transcript@,
            saved: texts(self.saved@),
            note: self.note@,
            error: match self.error {
                Some(error) => Some(error@),
                None => None,
            },
        }
    }
}

impl Default for Status {
    fn default() -> (r: Self)
        ensures
            r@ == (Shown {
                phase: Phase::Listening,
                meeting: 0,
                silence: 0,
                voiced: false,
                transcript: Seq::empty(),
                saved: Seq::empty(),
                note: Seq::empty(),
                error: None,
            }),
    {
        let r = Status {
            phase: Phase::Listening,
            meeting: 0,
            silence: 0,
            voiced: false,
            transcript: String::new(),
            saved: Vec::new(),
            note: String::new(),
            error: None,
        };
        proof {
            assert(r.transcript@ =~= Seq::<char>::empty());
            assert(r.note@ =~= Seq::<char>::empty());
            assert(texts(r.saved@) =~= Seq::<Seq<char>>::empty());
        }
        r
    }
}

impl Status {
    /// Shows what the segmenter hears.
    pub fn observe<T: Copy>(&mut self, segmenter: &Segmenter<T>)
        requires
            segmenter.wf(),
        ensures
            final(self)@ == (Shown {
                phase: if old(self)@.phase == Phase::Stopped {
                    Phase::Stopped
                } else if segmenter.hearing().meeting is Some {
                    Phase::Recording
                } else {
                    Phase::Listening
                },
                meeting: match segmenter.hearing().meeting {
                    Some(meeting) => (segmenter.hearing().audio.len() - meeting.start) as u64,
                    None => 0,
                },
                silence: (segmenter.hearing().audio.len() - segmenter.hearing().speech_end) as u64,
                voiced: segmenter.hearing().voiced,
                ..old(self)@
            }),
    {
        self.meeting = segmenter.meeting_samples();
        self.silence = segmenter.silence_samples();
        self.voiced = segmenter.voiced();
        match self.phase {
            Phase::Stopped => {},
            _ => {
                self.phase = if segmenter.in_meeting() {
                    Phase::Recording
                } else {
                    Phase::Listening
                };
            },
        }
    }

    /// The worker is gone.
    pub fn stop(&mut self)
        ensures
            final(self)@ == (Shown { phase: Phase::Stopped, meeting: 0, ..old(self)@ }),
    {
        self.phase = Phase::Stopped;
        self.meeting = 0;
    }

    /// Shows a line about what just happened.
    pub fn tell(&mut self, note: String)
        ensures
            final(self)@ == (Shown { note: note@, ..old(self)@ }),
    {
        self.note = note;
    }
}

/// Everything the worker needs to transcribe and file what it hears.
pub struct Settings {
    pub cfg: Config,
    /// Speech model, VAD model, prompt — as for a manual transcription.
    pub model: String,
    pub vad_model: Option<String>,
    pub language: String,
    pub prompt: String,
    pub context: String,
    /// Chat model that titles and summarizes a finished meeting. Without it,
    /// meetings are filed under their date alone.
    pub summary_model: Option<String>,
    pub vocabulary: String,
    /// Where finished meetings are written.
    pub dir: String,
}

impl Settings {
    /// How a chunk is transcribed. Speaker detection would have to re-cluster
    /// every chunk against every other one; a finished transcript can still be
    /// diarized by hand.
    pub fn chunk_options<E>(&self) -> (r: Options<E>)
        ensures
            r.model@ == self.model@,
            r.vad_model is Some <==> self.vad_model is Some,
            r.vad_model matches Some(path) ==> path@ == self.vad_model->Some_0@,
            r.language@ == self.language@,
            r.prompt@ == self.prompt@,
            r.context@ == self.context@,
            r.diarize is None,
            !r.timestamps,
            r.beam_size is None,
            !r.translate,
            r.threads is None,
            r.known_speakers@.len() == 0,
    {
        let mut r: Options<E> = Options::default();
        r.model = self.model.clone();
        r.vad_model = match &self.vad_model {
            Some(path) => Some(path.clone()),
            None => None,
        };
        r.language = self.language.clone();
        r.prompt = self.prompt.clone();
        r.context = self.context.clone();
        r
    }
}

/// A local date and time, to the minute.
#[derive(Debug, Clone, Copy)]
pub struct Minute {
    pub year: i32,
    pub month: u32,
    pub day: u32,
    pub hour: u32,
    pub minute: u32,
}

impl Minute {
    /// Whether the parts are what a calendar and a clock can show.
    pub open spec fn wf(self) -> bool {
        &&& 1 <= self.month <= 12
        &&& 1 <= self.day <= 31
        &&& self.hour <= 23
        &&& self.minute <= 59
    }
}

/// A year in four digits, with a sign where four digits do not hold it.
pub open spec fn year_text(year: int) -> Seq<char> {
    if year < 0 {
        "-"@ + padded((-year) as nat, 4)
    } else if year > 9_999 {
        "+"@ + padded(year as nat, 4)
    } else {
        padded(year as nat, 4)
    }
}

/// A date and time as `YYYY-MM-DD HH:MM`.
pub open spec fn minute_text(at: Minute) -> Seq<char> {
    year_text(at.year as int) + "-"@ + padded(at.month as nat, 2) + "-"@ + padded(at.day as nat, 2)
        + " "@ + padded(at.hour as nat, 2) + ":"@ + padded(at.minute as nat, 2)
}

/// A date and time as `YYYY-MM-DD HH:MM`.
pub fn format_minute(at: Minute) -> (r: String)
    ensures
        r@ == minute_text(at),
{
    let mut out = String::new();
    let year: i64 = at.year as i64;
    if year < 0 {
        out.push_str("-");
        push_padded(&mut out, (-year) as u64, 4);
    } else {
        if year > 9_999 {
            out.push_str("+");
        }
        push_padded(&mut out, year as u64, 4);
    }
    proof {
        assert(out@ =~= year_text(at.year as int));
    }
    out.push_str("-");
    push_padded(&mut out, at.month as u64, 2);
    out.push_str("-");
    push_padded(&mut out, at.day as u64, 2);
    out.push_str(" ");
    push_padded(&mut out, at.hour as u64, 2);
    out.push_str(":");
    push_padded(&mut out, at.minute as u64, 2);
    out
}

/// `chrono::Local::now`, read with `Datelike` and `Timelike`: the local date and
/// time. Claimed are the ranges that those traits document. Which time it is
/// depends on the clock and on the machine's time zone.
#[verifier::external_body]
fn local_minute() -> (r: Minute)
    ensures
        r.wf(),
{
    let t = chrono::Local::now();
    Minute { year: t.year(), month: t.month(), day: t.day(), hour: t.hour(), minute: t.minute() }
}

/// Whether a text is a date and time as `YYYY-MM-DD HH:MM`.
pub open spec fn is_stamp(text: Seq<char>) -> bool {
    exists|at: Minute| at.wf() && text == #[trigger] minute_text(at)
}

/// The local date and time, `YYYY-MM-DD HH:MM`.
fn now() -> (r: String)
    ensures
        is_stamp(r@),
{
    format_minute(local_minute())
}

/// Whole seconds as `H:MM:SS`, or `MM:SS` below an hour.
pub open spec fn duration_text(secs: nat) -> Seq<char> {
    let clock = padded((secs / 60) % 60, 2) + ":"@ + padded(secs % 60, 2);
    if secs >= 3600 {
        decimal(secs / 3600) + ":"@ + clock
    } else {
        clock
    }
}

/// Whole seconds as `H:MM:SS`, or `MM:SS` below an hour.
pub fn format_duration(secs: u64) -> (r: String)
    ensures
        r@ == duration_text(secs as nat),
{
    let mut out = String::new();
    if secs >= 3600 {
        push_number(&mut out, secs / 3600);
        out.push_str(":");
    }
    push_padded(&mut out, (secs / 60) % 60, 2);
    out.push_str(":");
    push_padded(&mut out, secs % 60, 2);
    proof {
        assert(out@ =~= duration_text(secs as nat));
    }
    out
}

/// Samples as seconds, to the nearest one, half a second up.
pub open spec fn nearest_secs(len: u64, rate: u32) -> int {
    (2 * len + rate) / (2 * rate as int)
}

/// What has to be done about an event.
pub enum Action<T> {
    Nothing,
    /// Transcribe this audio, and hand the text to [`Session::transcribed`].
    Transcribe(Vec<T>),
    /// Name this meeting and file it, and hand the outcome to
    /// [`Session::filed`].
    File { meta: Meta, transcript: String },
}

/// The meeting that is being transcribed.
pub struct Session {
    transcript: String,
    started: String,
}

impl Session {
    /// What has been said, as far as it is decoded.
    pub closed spec fn said(self) -> Seq<char> {
        self.transcript@
    }

    /// When it started.
    pub closed spec fn start_time(self) -> Seq<char> {
        self.started@
    }

    pub fn new() -> (r: Session)
        ensures
            r.said() == Seq::<char>::empty(),
            r.start_time() == Seq::<char>::empty(),
    {
        let r = Session { transcript: String::new(), started: String::new() };
        proof {
            assert(r.said() =~= Seq::<char>::empty());
            assert(r.start_time() =~= Seq::<char>::empty());
        }
        r
    }

    /// A meeting started at `time`.
    pub fn begin(&mut self, time: String, status: &mut Status)
        ensures
            final(self).said() == Seq::<char>::empty(),
            final(self).start_time() == time@,
            final(status)@ == (Shown {
                transcript: Seq::empty(),
                note: "meeting started"@,
                ..old(status)@
            }),
    {
        self.transcript = String::new();
        self.started = time;
        status.transcript = String::new();
        status.note = "meeting started".to_owned();
        proof {
            assert(self.transcript@ =~= Seq::<char>::empty());
            assert(status.transcript@ =~= Seq::<char>::empty());
        }
    }

    /// Decide what has to be done about an event. A meeting that starts is
    /// stamped with the local time; which time that is depends on the clock, and
    /// [`Session::begin`] says what is done with it.
    pub fn handle<T>(&mut self, event: Event<T>, rate: u32, status: &mut Status) -> (r: Action<T>)
        requires
            rate > 0,
        ensures
            match event {
                Event::MeetingStarted => {
                    &&& r is Nothing
                    &&& final(self).said() == Seq::<char>::empty()
                    &&& is_stamp(final(self).start_time())
                    &&& final(status)@ == (Shown {
                        transcript: Seq::empty(),
                        note: "meeting started"@,
                        ..old(status)@
                    })
                },
                Event::Chunk(chunk) => {
                    &&& r matches Action::Transcribe(audio) && audio@ == chunk@
                    &&& *final(self) == *old(self)
                    &&& final(status)@ == (Shown { phase: Phase::Transcribing, ..old(status)@ })
                },
                Event::MeetingEnded { len, speech, keep } => {
                    if keep && trim(old(self).said(), Class::White).len() > 0 {
                        &&& r matches Action::File { meta, transcript } && meta@ == (Header {
                            date: old(self).start_time(),
                            duration: duration_text((len / rate as u64) as nat),
                            ..Header::blank()
                        }) && transcript@ == old(self).said()
                        &&& *final(self) == *old(self)
                        &&& final(status)@ == (Shown { phase: Phase::Saving, ..old(status)@ })
                    } else {
                        &&& r is Nothing
                        &&& final(self).said() == Seq::<char>::empty()
                        &&& final(self).start_time() == old(self).start_time()
                        &&& final(status)@ == (Shown {
                            transcript: Seq::empty(),
                            note: "ignored "@ + decimal(nearest_secs(len, rate) as nat)
                                + "s of noise"@,
                            ..old(status)@
                        })
                    }
                },
            },
    {
        match event {
            Event::MeetingStarted => {
                self.begin(now(), status);
                Action::Nothing
            },
            Event::Chunk(chunk) => {
                status.phase = Phase::Transcribing;
                Action::Transcribe(chunk)
            },
            Event::MeetingEnded { len, speech: _, keep } => {
                let chars = chars_of(self.transcript.as_str());
                if keep && trim_of(&chars, Class::White).len() > 0 {
                    status.phase = Phase::Saving;
                    let mut meta = Meta::default();
                    meta.date = self.started.clone();
                    meta.duration = format_duration(len / rate as u64);
                    Action::File { meta, transcript: self.transcript.clone() }
                } else {
                    let secs: u128 = (2 * len as u128 + rate as u128) / (2 * rate as u128);
                    proof {
                        assert(secs == nearest_secs(len, rate));
                        assert(secs <= u64::MAX) by (nonlinear_arith)
                            requires
                                secs == (2 * len + rate) / (2 * rate as int),
                                rate >= 1,
                                len <= u64::MAX,
                        ;
                    }
                    let mut note = "ignored ".to_owned();
                    push_number(&mut note, secs as u64);
                    note.push_str("s of noise");
                    status.note = note;
                    self.transcript = String::new();
                    status.transcript = String::new();
                    proof {
                        assert(self.transcript@ =~= Seq::<char>::empty());
                        assert(status.transcript@ =~= Seq::<char>::empty());
                    }
                    Action::Nothing
                }
            },
        }
    }

    /// A chunk has been transcribed, or has failed to be.
    pub fn transcribed(&mut self, result: Result<String, String>, status: &mut Status)
        ensures
            final(self).start_time() == old(self).start_time(),
            match result {
                Ok(text) => {
                    &&& final(self).said() == with_chunk(old(self).said(), text@)
                    &&& final(status)@ == if trim(text@, Class::White).len() == 0 {
                        old(status)@
                    } else {
                        Shown { transcript: final(self).said(), ..old(status)@ }
                    }
                },
                Err(error) => final(self).said() == old(self).said() && final(status)@ == (Shown {
                    note: "error: "@ + error@,
                    ..old(status)@
                }),
            },
    {
        match result {
            Ok(text) => {
                let chars = chars_of(text.as_str());
                let more = trim_of(&chars, Class::White);
                if more.len() > 0 {
                    if chars_of(self.transcript.as_str()).len() > 0 {
                        self.transcript.push_str("\n");
                    }
                    push_slice(&mut self.transcript, more);
                    status.transcript = self.transcript.clone();
                    proof {
                        if old(self).said().len() == 0 {
                            assert(self.transcript@ =~= more@);
                        }
                    }
                }
            },
            Err(error) => {
                let mut note = "error: ".to_owned();
                note.push_str(error.as_str());
                status.note = note;
            },
        }
    }

    /// A meeting has been filed under a path, or has failed to be.
    pub fn filed(&mut self, title: &str, result: Result<String, String>, status: &mut Status)
        ensures
            final(self).said() == Seq::<char>::empty(),
            final(self).start_time() == old(self).start_time(),
            final(status)@ == match result {
                Ok(path) => Shown {
                    transcript: Seq::empty(),
                    note: "saved \""@ + title@ + "\""@,
                    saved: old(status)@.saved.push(path@),
                    ..old(status)@
                },
                Err(error) => Shown {
                    transcript: Seq::empty(),
                    note: "error: saving failed: "@ + error@,
                    ..old(status)@
                },
            },
    {
        match result {
            Ok(path) => {
                let mut note = "saved \"".to_owned();
                note.push_str(title);
                note.push_str("\"");
                status.note = note;
                let ghost before = texts(status.saved@);
                status.saved.push(path);
                proof {
                    assert(texts(status.saved@) =~= before.push(path@));
                }
            },
            Err(error) => {
                let mut note = "error: saving failed: ".to_owned();
                note.push_str(error.as_str());
                status.note = note;
            },
        }
        self.transcript = String::new();
        status.transcript = String::new();
        proof {
            assert(self.transcript@ =~= Seq::<char>::empty());
            assert(status.transcript@ =~= Seq::<char>::empty());
        }
    }
}

/// What has been said once one more chunk has been decoded.
pub open spec fn with_chunk(said: Seq<char>, text: Seq<char>) -> Seq<char> {
    let more = trim(text, Class::White);
    if more.len() == 0 {
        said
    } else if said.len() > 0 {
        said + "\n"@ + more
    } else {
        more
    }
}

/// What has been said in a meeting whose chunks read like this.
pub open spec fn with_chunks(chunks: Seq<Seq<char>>) -> Seq<char>
    decreases chunks.len(),
{
    if chunks.len() == 0 {
        Seq::empty()
    } else {
        with_chunk(with_chunks(chunks.drop_last()), chunks.last())
    }
}

/// The transcript of a meeting is the text of its chunks, those without text
/// passed over, each on a line of its own.
pub proof fn law_a_transcript_is_its_chunks(chunks: Seq<Seq<char>>)
    ensures
        with_chunks(chunks) == join(full_lines(chunks), "\n"@),
        full_lines(chunks).len() > 0 <==> with_chunks(chunks).len() > 0,
    decreases chunks.len(),
{
    if chunks.len() > 0 {
        let before = chunks.drop_last();
        law_a_transcript_is_its_chunks(before);
        lemma_join_push(full_lines(before), trim(chunks.last(), Class::White), "\n"@);
    }
}

/// Title and summarize a finished meeting. Without a summary model — or if it
/// fails — the meeting still gets filed, under its date alone.
pub fn describe(meta: Meta, label: Option<Label>) -> (r: Meta)
    ensures
        r@ == match label {
            Some(label) => Header { title: label.title@, summary: label.summary@, ..meta@ },
            None => meta@,
        },
{
    match label {
        Some(label) => {
            let mut named = meta;
            named.title = label.title;
            named.summary = label.summary;
            named
        },
        None => meta,
    }
}

/// Samples at 16 kHz as seconds, to the nearest one, half a second to the even
/// one.
pub open spec fn even_secs(len: nat) -> nat {
    let whole = len / 16_000;
    let rest = len % 16_000;
    if rest > 8_000 || (rest == 8_000 && whole % 2 == 1) {
        whole + 1
    } else {
        whole
    }
}

/// What is shown while a chunk is transcribed.
pub fn chunk_note(len: usize, percent: i32) -> (r: String)
    ensures
        r@ == "transcribing the last "@ + decimal(even_secs(len as nat)) + "s ("@ + signed_padded(
            percent as int,
            1,
        ) + "%)"@,
{
    let whole: usize = len / 16_000;
    let rest: usize = len % 16_000;
    let secs: usize = if rest > 8_000 || (rest == 8_000 && whole % 2 == 1) {
        whole + 1
    } else {
        whole
    };
    let mut out = "transcribing the last ".to_owned();
    push_number(&mut out, secs as u64);
    out.push_str("s (");
    push_signed_padded(&mut out, percent as i64, 1);
    out.push_str("%)");
    out
}

/// A duration is told in hours, minutes and seconds that add up to it, without the
/// hours below one.
pub proof fn law_durations_add_up(secs: nat) -> (r: (nat, nat, nat))
    ensures
        r.0 * 3_600 + r.1 * 60 + r.2 == secs,
        r.1 < 60,
        r.2 < 60,
        r.0 == 0 ==> duration_text(secs) == padded(r.1, 2) + ":"@ + padded(r.2, 2),
        r.0 > 0 ==> duration_text(secs) == decimal(r.0) + ":"@ + (padded(r.1, 2) + ":"@ + padded(
            r.2,
            2,
        )),
{
    let (h, m, s) = (secs / 3600, (secs / 60) % 60, secs % 60);
    assert(secs / 60 / 60 == secs / 3600);
    assert(secs == (secs / 60) * 60 + secs % 60);
    assert(secs / 60 == (secs / 60 / 60) * 60 + (secs / 60) % 60);
    (h, m, s)
}

/// Seconds that are told of samples are the nearest to them.
pub proof fn law_seconds_are_the_nearest(len: u64, rate: u32, samples: nat)
    requires
        rate > 0,
    ensures
        -rate <= 2 * (len - nearest_secs(len, rate) * rate) < rate,
        -8_000 <= samples - even_secs(samples) * 16_000 <= 8_000,
        samples - even_secs(samples) * 16_000 == 8_000 || samples - even_secs(samples) * 16_000
            == -8_000 ==> even_secs(samples) % 2 == 0,
{
    let q = nearest_secs(len, rate);
    let d = 2 * rate as int;
    let n = 2 * len + rate;
    assert(q * d <= n && n < q * d + d) by (nonlinear_arith)
        requires
            q == n / d,
            d > 0,
    ;
    assert(q * d == 2 * (q * rate)) by (nonlinear_arith)
        requires
            d == 2 * rate,
    ;
}

/// What is said in one more chunk comes behind what was said, on a line of its own
/// and without the blanks around it; a chunk that says nothing changes nothing.
pub proof fn law_a_chunk_comes_behind(said: Seq<char>, text: Seq<char>)
    ensures
        (forall|i: int| 0 <= i < text.len() ==> white(#[trigger] text[i])) ==> with_chunk(said, text)
            == said,
        (exists|i: int| 0 <= i < text.len() && !white(#[trigger] text[i])) ==> exists|
            a: int,
            b: int,
        |
            {
                &&& 0 <= a < b <= text.len()
                &&& !white(text[a]) && !white(text[b - 1])
                &&& forall|i: int| 0 <= i < a || b <= i < text.len() ==> white(#[trigger] text[i])
                &&& with_chunk(said, text) == (if said.len() > 0 {
                    said + "\n"@
                } else {
                    Seq::empty()
                }) + #[trigger] text.subrange(a, b)
            },
{
    law_trimming_takes_both_ends(text, Class::White);
    let (a, b) = choose|a: int, b: int|
        {
            &&& 0 <= a <= b <= text.len()
            &&& trim(text, Class::White) == #[trigger] text.subrange(a, b)
            &&& forall|i: int|
                0 <= i < a || b <= i < text.len() ==> Class::White.has(#[trigger] text[i])
            &&& a < b ==> !Class::White.has(text[a]) && !Class::White.has(text[b - 1])
        };
    if a < b {
        assert(!white(text[a]));
        let front = if said.len() > 0 {
            said + "\n"@
        } else {
            Seq::empty()
        };
        assert(with_chunk(said, text) =~= front + text.subrange(a, b));
        assert forall|i: int| 0 <= i < a || b <= i < text.len() implies white(#[trigger] text[i]) by {
            assert(Class::White.has(text[i]));
        }
    } else {
        assert forall|i: int| 0 <= i < text.len() implies white(#[trigger] text[i]) by {
            assert(Class::White.has(text[i]));
        }
    }
}

/// What is written of a date and time is sixteen characters long, and each part of
/// it can be read where it stands.
pub proof fn law_a_written_minute_can_be_read(at: Minute)
    requires
        at.wf(),
        0 <= at.year <= 9_999,
    ensures
        ({
            let text = minute_text(at);
            &&& text.len() == 16
            &&& value(text.subrange(0, 4)) == at.year
            &&& text[4] == '-'
            &&& value(text.subrange(5, 7)) == at.month
            &&& text[7] == '-'
            &&& value(text.subrange(8, 10)) == at.day
            &&& text[10] == ' '
            &&& value(text.subrange(11, 13)) == at.hour
            &&& text[13] == ':'
            &&& value(text.subrange(14, 16)) == at.minute
        }),
{
    reveal_strlit("-");
    reveal_strlit(" ");
    reveal_strlit(":");
    reveal_with_fuel(power_of_ten, 5);
    let year = padded(at.year as nat, 4);
    let month = padded(at.month as nat, 2);
    let day = padded(at.day as nat, 2);
    let hour = padded(at.hour as nat, 2);
    let minute = padded(at.minute as nat, 2);
    lemma_digit_bound(at.year as nat, 4);
    lemma_digit_bound(at.month as nat, 2);
    lemma_digit_bound(at.day as nat, 2);
    lemma_digit_bound(at.hour as nat, 2);
    lemma_digit_bound(at.minute as nat, 2);
    law_numbers_read_back(at.year as nat, 4);
    law_numbers_read_back(at.month as nat, 2);
    law_numbers_read_back(at.day as nat, 2);
    law_numbers_read_back(at.hour as nat, 2);
    law_numbers_read_back(at.minute as nat, 2);
    let text = minute_text(at);
    assert(text.subrange(0, 4) =~= year);
    assert(text.subrange(5, 7) =~= month);
    assert(text.subrange(8, 10) =~= day);
    assert(text.subrange(11, 13) =~= hour);
    assert(text.subrange(14, 16) =~= minute);
}

} // verus!
