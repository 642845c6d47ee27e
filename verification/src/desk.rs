//! The window's state: the transcript on it and what its status line says, as
//! work in the background starts, goes on and ends.

use vstd::prelude::*;

use crate::assembly::{voices_view, SpeakerVoice, Transcript};
use crate::download::SpeechModel;
use crate::numerals::{decimal, push_number};
use crate::panel::{after_download, done_status, done_text, format_mmss, mmss, AfterDownload};
use crate::session::even_secs;
use crate::speakers::{
    all_renamed, apply_renames, labels, names_applied, rename_status, rename_status_of, renames,
};
use crate::text::{byte_len, chars_of, texts, trim, trimmed_text, Class};

verus! {

/// Pipeline milestones of a transcription. Times are in milliseconds.
#[derive(Debug)]
pub enum Progress {
    /// The audio has been decoded to this many samples at 16 kHz.
    Decoded { samples: usize, took_ms: u64 },
    DetectingSpeakers,
    Diarized { segments: usize, took_ms: u64 },
    Transcribing { percent: i32 },
    /// A segment whisper just finalized, streamed as decoding progresses. Raw text
    /// — the finished [`Transcript`] is the authoritative version (speaker labels,
    /// prefix stripping, loop collapsing).
    Segment { text: String },
    Transcribed { samples: usize, took_ms: u64 },
}

/// A transcription that runs in the background, as the window shows it.
pub struct Job {
    pub status: String,
    pub percent: Option<i32>,
    /// Whether decoding has started — from then on the remaining time can be
    /// told.
    pub started: bool,
    /// Segments streamed while whisper is still decoding; replaced by the
    /// authoritative formatted transcript when the job finishes.
    pub live: String,
}

/// A job as mathematical values.
pub struct JobView {
    pub status: Seq<char>,
    pub percent: Option<i32>,
    pub started: bool,
    pub live: Seq<char>,
}

impl View for Job {
    type V = JobView;

    open spec fn view(&self) -> JobView {
        JobView {
            status: self.status@,
            percent: self.percent,
            started: self.started,
            live: self.live@,
        }
    }
}

impl Job {
    /// A job on a file, which has to be decoded first, or on a recording.
    pub fn new(from_file: bool) -> (r: Job)
        ensures
            r@ == (JobView {
                status: if from_file {
                    "decoding ..."@
                } else {
                    "transcribing ..."@
                },
                percent: None,
                started: false,
                live: Seq::empty(),
            }),
    {
        let r = Job {
            status: if from_file {
                "decoding ...".to_owned()
            } else {
                "transcribing ...".to_owned()
            },
            percent: None,
            started: false,
            live: String::new(),
        };
        proof {
            assert(r.live@ =~= Seq::<char>::empty());
        }
        r
    }

    /// The voice activity model is being fetched first.
    pub fn fetching_vad(&mut self)
        ensures
            final(self)@ == (JobView {
                status: "downloading voice activity model ..."@,
                ..old(self)@
            }),
    {
        self.status = "downloading voice activity model ...".to_owned();
    }

    /// Take in how far the job has come.
    pub fn note(&mut self, progress: Progress)
        ensures
            final(self)@ == match progress {
                Progress::Decoded { samples, .. } => JobView {
                    status: "decoded "@ + decimal(even_secs(samples as nat)) + "s of audio"@,
                    ..old(self)@
                },
                Progress::DetectingSpeakers => JobView {
                    status: "detecting speakers ..."@,
                    ..old(self)@
                },
                Progress::Diarized { segments, .. } => JobView {
                    status: "diarized "@ + decimal(segments as nat) + " speech segments"@,
                    ..old(self)@
                },
                Progress::Transcribing { percent } => JobView {
                    status: "transcribing ..."@,
                    percent: Some(percent),
                    started: true,
                    ..old(self)@
                },
                Progress::Segment { text } => JobView {
                    live: old(self)@.live + text@ + "\n"@,
                    ..old(self)@
                },
                Progress::Transcribed { .. } => JobView { percent: Some(100), ..old(self)@ },
            },
    {
        match progress {
            Progress::Decoded { samples, .. } => {
                let whole: usize = samples / 16_000;
                let rest: usize = samples % 16_000;
                let secs: usize = if rest > 8_000 || (rest == 8_000 && whole % 2 == 1) {
                    whole + 1
                } else {
                    whole
                };
                let mut status = "decoded ".to_owned();
                push_number(&mut status, secs as u64);
                status.push_str("s of audio");
                self.status = status;
            },
            Progress::DetectingSpeakers => {
                self.status = "detecting speakers ...".to_owned();
            },
            Progress::Diarized { segments, .. } => {
                let mut status = "diarized ".to_owned();
                push_number(&mut status, segments as u64);
                status.push_str(" speech segments");
                self.status = status;
            },
            Progress::Transcribing { percent } => {
                self.status = "transcribing ...".to_owned();
                self.percent = Some(percent);
                self.started = true;
            },
            Progress::Segment { text } => {
                self.live.push_str(text.as_str());
                self.live.push_str("\n");
            },
            Progress::Transcribed { .. } => {
                self.percent = Some(100);
            },
        }
    }
}

/// What the window works on.
pub struct Desk<E> {
    pub transcript: String,
    pub status: String,
    /// The voices in the transcript.
    pub voices: Vec<SpeakerVoice<E>>,
    /// What is typed beside each of them.
    pub rename_inputs: Vec<String>,
    pub show_rename: bool,
    /// Who is to be enrolled, and from which part of a file.
    pub enroll_name: String,
    pub enroll_from: String,
    pub enroll_to: String,
    pub summary: String,
    pub show_summary: bool,
    /// Summarize as soon as the summary model has been downloaded.
    pub summarize_pending: bool,
}

/// A desk as mathematical values.
pub struct Board<E> {
    pub transcript: Seq<char>,
    pub status: Seq<char>,
    pub voices: Seq<(Seq<char>, E)>,
    pub rename_inputs: Seq<Seq<char>>,
    pub show_rename: bool,
    pub enroll_name: Seq<char>,
    pub enroll_from: Seq<char>,
    pub enroll_to: Seq<char>,
    pub summary: Seq<char>,
    pub show_summary: bool,
    pub summarize_pending: bool,
}

impl<E> View for Desk<E> {
    type V = Board<E>;

    open spec fn view(&self) -> Board<E> {
        Board {
            transcript: self.transcript@,
            status: self.status@,
            voices: voices_view(self.voices@),
            rename_inputs: texts(self.rename_inputs@),
            show_rename: self.show_rename,
            enroll_name: self.enroll_name@,
            enroll_from: self.enroll_from@,
            enroll_to: self.enroll_to@,
            summary: self.summary@,
            show_summary: self.show_summary,
            summarize_pending: self.summarize_pending,
        }
    }
}

/// Nothing is written.
fn nothing() -> (r: String)
    ensures
        r@ == Seq::<char>::empty(),
{
    let r = String::new();
    proof {
        assert(r@ =~= Seq::<char>::empty());
    }
    r
}

/// Two texts one after the other.
fn text_with(start: &str, end: &str) -> (r: String)
    ensures
        r@ == start@ + end@,
{
    let mut r = start.to_owned();
    r.push_str(end);
    r
}

/// The status of a window that has just been opened, given whether the models
/// directory was found and the picked model is in it.
pub fn opening_status(has_models_dir: bool, model_ready: bool) -> (r: String)
    ensures
        r@ == if !has_models_dir {
            "error: models/ directory not found — run the download scripts and keep the app inside the repo (or put a models/ folder next to it)"@
        } else if !model_ready {
            "no speech model downloaded yet — pick one from the model dropdown"@
        } else {
            Seq::empty()
        },
{
    if !has_models_dir {
        "error: models/ directory not found — run the download scripts and keep the app inside the repo (or put a models/ folder next to it)".to_owned()
    } else if !model_ready {
        "no speech model downloaded yet — pick one from the model dropdown".to_owned()
    } else {
        nothing()
    }
}

/// What a recording without a signal is refused with.
pub const NO_SIGNAL: &'static str = "error: the recording contains no audio signal — check that the input device isn't muted and that this app has microphone access (System Settings → Privacy & Security → Microphone)";

/// What a voice was enrolled from.
#[derive(Debug, Clone, Copy)]
pub enum Sample {
    /// A part of an audio file.
    File,
    /// A recording made for it.
    Recording,
}

/// How an enrollment ended.
pub enum Enrolled {
    /// The voice is stored.
    Stored(Sample),
    /// There is a voice, but storing it failed.
    NotStored(String),
    /// There is no voice.
    Failed(String),
}

impl<E> Desk<E> {
    /// An empty desk.
    pub fn new() -> (r: Desk<E>)
        ensures
            r@ == (Board::<E> {
                transcript: Seq::empty(),
                status: Seq::empty(),
                voices: Seq::empty(),
                rename_inputs: Seq::empty(),
                show_rename: false,
                enroll_name: Seq::empty(),
                enroll_from: Seq::empty(),
                enroll_to: Seq::empty(),
                summary: Seq::empty(),
                show_summary: false,
                summarize_pending: false,
            }),
    {
        let r = Desk {
            transcript: nothing(),
            status: nothing(),
            voices: Vec::new(),
            rename_inputs: Vec::new(),
            show_rename: false,
            enroll_name: nothing(),
            enroll_from: nothing(),
            enroll_to: nothing(),
            summary: nothing(),
            show_summary: false,
            summarize_pending: false,
        };
        proof {
            assert(voices_view(r.voices@) =~= Seq::<(Seq<char>, E)>::empty());
            assert(texts(r.rename_inputs@) =~= Seq::<Seq<char>>::empty());
        }
        r
    }

    /// Says what failed.
    pub fn fail(&mut self, error: &str)
        ensures
            final(self)@ == (Board { status: "error: "@ + error@, ..old(self)@ }),
    {
        self.status = text_with("error: ", error);
    }

    /// Other audio is loaded or recorded: the transcript goes.
    pub fn clear(&mut self)
        ensures
            final(self)@ == (Board {
                transcript: Seq::empty(),
                status: Seq::empty(),
                ..old(self)@
            }),
    {
        self.transcript = nothing();
        self.status = nothing();
    }

    /// A transcription starts: the transcript goes, and with it its voices.
    pub fn begin_transcription(&mut self)
        ensures
            final(self)@ == (Board {
                transcript: Seq::empty(),
                status: Seq::empty(),
                voices: Seq::empty(),
                rename_inputs: Seq::empty(),
                show_rename: false,
                ..old(self)@
            }),
    {
        self.transcript = nothing();
        self.status = nothing();
        self.voices = Vec::new();
        self.rename_inputs = Vec::new();
        self.show_rename = false;
        proof {
            assert(voices_view(self.voices@) =~= Seq::<(Seq<char>, E)>::empty());
            assert(texts(self.rename_inputs@) =~= Seq::<Seq<char>>::empty());
        }
    }

    /// Mirrors streamed segments into the transcript view, where they are not the
    /// same length already.
    pub fn mirror(&mut self, live: &str)
        ensures
            final(self)@ == (Board {
                transcript: if byte_len(old(self)@.transcript) != byte_len(live@) {
                    live@
                } else {
                    old(self)@.transcript
                },
                ..old(self)@
            }),
    {
        let have: usize = self.transcript.as_str().as_bytes().len();
        let come: usize = live.as_bytes().len();
        proof {
            assert(have == byte_len(self.transcript@));
            assert(come == byte_len(live@));
        }
        if have != come {
            self.transcript = live.to_owned();
        }
    }

    /// A transcription ended. `recognized` and `weak` are the names in the
    /// transcript's matches, with their similarities, for people to read.
    pub fn transcribed(
        &mut self,
        result: Result<Transcript<E>, String>,
        recognized: &Vec<String>,
        weak: &Vec<String>,
    )
        ensures
            final(self)@ == match result {
                Ok(transcript) => Board {
                    transcript: transcript.text@,
                    voices: voices_view(transcript.speaker_voices@),
                    rename_inputs: Seq::new(
                        transcript.speaker_voices@.len(),
                        |i: int| Seq::<char>::empty(),
                    ),
                    status: done_text(
                        match transcript.speakers {
                            Some(n) => Some(n as nat),
                            None => None,
                        },
                        texts(recognized@),
                        texts(weak@),
                    ),
                    ..old(self)@
                },
                Err(error) => Board { status: "error: "@ + error@, ..old(self)@ },
            },
    {
        match result {
            Ok(transcript) => {
                self.status = done_status(transcript.speakers, recognized, weak);
                self.transcript = transcript.text;
                let count = transcript.speaker_voices.len();
                let mut inputs: Vec<String> = Vec::new();
                while inputs.len() < count
                    invariant
                        inputs@.len() <= count,
                        texts(inputs@) == Seq::new(inputs@.len(), |i: int| Seq::<char>::empty()),
                    decreases count - inputs.len(),
                {
                    let ghost before = texts(inputs@);
                    inputs.push(nothing());
                    proof {
                        assert(texts(inputs@) =~= before.push(Seq::<char>::empty()));
                    }
                }
                self.voices = transcript.speaker_voices;
                self.rename_inputs = inputs;
            },
            Err(error) => {
                self.fail(error.as_str());
            },
        }
    }

    /// The input device failed.
    pub fn recording_failed(&mut self, error: &str)
        ensures
            final(self)@ == (Board {
                status: "error: recording failed: "@ + error@,
                ..old(self)@
            }),
    {
        self.status = text_with("error: recording failed: ", error);
    }

    /// A recording of so many seconds has been stopped; whether it can be
    /// transcribed. Whisper hallucinates phrases like "Thank you." on silence, so
    /// a recording with no signal in it is refused.
    pub fn recorded(&mut self, result: Result<bool, String>, secs: u64) -> (r: bool)
        ensures
            r == (result == Ok::<bool, String>(false)),
            final(self)@ == match result {
                Ok(true) => Board { status: NO_SIGNAL@, ..old(self)@ },
                Ok(false) => Board { status: "recorded "@ + mmss(secs as nat), ..old(self)@ },
                Err(error) => Board { status: "error: "@ + error@, ..old(self)@ },
            },
    {
        match result {
            Ok(silent) => {
                if silent {
                    self.status = NO_SIGNAL.to_owned();
                } else {
                    self.status = text_with("recorded ", format_mmss(secs).as_str());
                }
                !silent
            },
            Err(error) => {
                self.fail(error.as_str());
                false
            },
        }
    }

    /// A download ended; what follows it.
    pub fn downloaded(
        &mut self,
        what: &str,
        error: Option<String>,
        diarize: bool,
        summary_model_ready: bool,
    ) -> (r: AfterDownload)
        ensures
            r.fetch_diarization == (error is None && diarize),
            r.summarize == (error is None && old(self)@.summarize_pending && summary_model_ready),
            r.summarize_pending == final(self)@.summarize_pending,
            final(self)@ == (Board {
                status: match error {
                    None => what@ + " downloaded"@,
                    Some(error) => "error: downloading "@ + what@ + " failed: "@ + error@,
                },
                summarize_pending: error is None && old(self)@.summarize_pending
                    && !summary_model_ready,
                ..old(self)@
            }),
    {
        let next = after_download(
            error.is_none(),
            diarize,
            self.summarize_pending,
            summary_model_ready,
        );
        self.status = match &error {
            None => text_with(what, " downloaded"),
            Some(error) => {
                let mut status = text_with("error: downloading ", what);
                status.push_str(" failed: ");
                status.push_str(error.as_str());
                status
            },
        };
        self.summarize_pending = next.summarize_pending;
        next
    }

    /// A summary is asked for; whether it can be written now. Otherwise its model
    /// has to be downloaded first.
    pub fn begin_summary(&mut self, model_ready: bool) -> (r: bool)
        ensures
            r == model_ready,
            final(self)@ == if model_ready {
                Board { summary: Seq::empty(), show_summary: true, ..old(self)@ }
            } else {
                Board { summarize_pending: true, ..old(self)@ }
            },
    {
        if model_ready {
            self.summary = nothing();
            self.show_summary = true;
        } else {
            self.summarize_pending = true;
        }
        model_ready
    }

    /// More of a summary has been written.
    pub fn summary_so_far(&mut self, live: &str)
        ensures
            final(self)@ == (Board { summary: live@, ..old(self)@ }),
    {
        self.summary = live.to_owned();
    }

    /// A summary has been written, or has failed to be.
    pub fn summarized(&mut self, result: Result<String, String>)
        ensures
            final(self)@ == match result {
                Ok(summary) => Board {
                    summary: summary@,
                    status: "summary ready"@,
                    ..old(self)@
                },
                Err(error) => Board {
                    status: "error: summarization failed: "@ + error@,
                    ..old(self)@
                },
            },
    {
        match result {
            Ok(summary) => {
                self.summary = summary;
                self.status = "summary ready".to_owned();
            },
            Err(error) => {
                self.status = text_with("error: summarization failed: ", error.as_str());
            },
        }
    }

    /// The name to enroll a voice under.
    pub fn name_to_enroll(&self) -> (r: String)
        ensures
            r@ == trim(self@.enroll_name, Class::White),
    {
        trimmed_text(self.enroll_name.as_str())
    }

    /// An enrollment under a name ended. Once the voice is stored, the name for
    /// the next one is empty; so are the times, where they were used.
    pub fn enrolled(&mut self, name: &str, outcome: Enrolled)
        ensures
            final(self)@ == match outcome {
                Enrolled::Stored(Sample::Recording) => Board {
                    status: "enrolled "@ + name@,
                    enroll_name: Seq::empty(),
                    ..old(self)@
                },
                Enrolled::Stored(Sample::File) => Board {
                    status: "enrolled "@ + name@,
                    enroll_name: Seq::empty(),
                    enroll_from: Seq::empty(),
                    enroll_to: Seq::empty(),
                    ..old(self)@
                },
                Enrolled::NotStored(error) => Board {
                    status: "error: "@ + error@,
                    ..old(self)@
                },
                Enrolled::Failed(error) => Board {
                    status: "error: enrollment failed: "@ + error@,
                    ..old(self)@
                },
            },
    {
        match outcome {
            Enrolled::Stored(sample) => {
                self.status = text_with("enrolled ", name);
                self.enroll_name = nothing();
                match sample {
                    Sample::File => {
                        self.enroll_from = nothing();
                        self.enroll_to = nothing();
                    },
                    Sample::Recording => {},
                }
            },
            Enrolled::NotStored(error) => {
                self.fail(error.as_str());
            },
            Enrolled::Failed(error) => {
                self.status = text_with("error: enrollment failed: ", error.as_str());
            },
        }
    }

    /// A time to enroll from or to cannot be read.
    pub fn bad_time(&mut self, which: &str, input: &str)
        ensures
            final(self)@ == (Board {
                status: "error: can't parse "@ + which@ + " time \""@ + input@
                    + "\" — use mm:ss"@,
                ..old(self)@
            }),
    {
        let mut status = text_with("error: can't parse ", which);
        status.push_str(" time \"");
        status.push_str(input);
        status.push_str("\" — use mm:ss");
        self.status = status;
    }

    /// Gives voices the names that were typed beside their labels; the positions
    /// of those that have another name now.
    pub fn rename(&mut self) -> (r: Vec<usize>)
        requires
            old(self)@.voices.len() == old(self)@.rename_inputs.len(),
        ensures
            r@ == renames(
                labels(old(self).voices@),
                old(self)@.rename_inputs,
                old(self)@.voices.len() as int,
            ),
            final(self)@ == (Board {
                transcript: all_renamed(
                    old(self)@.transcript,
                    labels(old(self).voices@),
                    old(self)@.rename_inputs,
                    old(self)@.voices.len() as int,
                ),
                voices: final(self)@.voices,
                rename_inputs: final(self)@.rename_inputs,
                ..old(self)@
            }),
            names_applied(
                final(self).voices@,
                final(self).rename_inputs@,
                old(self).voices@,
                old(self).rename_inputs@,
                old(self).voices@.len() as int,
            ),
    {
        let (text, changed) = apply_renames(
            self.transcript.clone(),
            &mut self.voices,
            &mut self.rename_inputs,
        );
        self.transcript = text;
        changed
    }

    /// Labels have been renamed. Where the voices were to be enrolled, `enrolled`
    /// holds the error of that, if there was one.
    pub fn renamed(&mut self, count: usize, enrolled: Option<Option<String>>)
        ensures
            final(self)@ == (Board {
                status: rename_status_of(
                    count as nat,
                    match enrolled {
                        Some(Some(error)) => Some(Some(error@)),
                        Some(None) => Some(None),
                        None => None,
                    },
                ),
                ..old(self)@
            }),
    {
        self.status = rename_status(count, enrolled);
    }
}

/// What the model picker says of a model below its name.
pub fn model_detail(model: &SpeechModel) -> (r: String)
    ensures
        r@ == if model.note@.len() == 0 {
            model.size@
        } else {
            model.size@ + " · "@ + model.note@
        },
{
    let mut out = model.size.to_owned();
    if chars_of(model.note).len() > 0 {
        out.push_str(" · ");
        out.push_str(model.note);
    }
    out
}

/// Why a model leaves vocabulary and context alone.
pub fn no_prompt_reason(model: &str) -> (r: String)
    ensures
        r@ == model@
            + " takes no prompt, so vocabulary and context are ignored — they only apply to Whisper models"@,
{
    text_with(
        model,
        " takes no prompt, so vocabulary and context are ignored — they only apply to Whisper models",
    )
}

/// What is loaded, when that is a recording of so many seconds.
pub fn recording_label(secs: u64) -> (r: String)
    ensures
        r@ == "recording ("@ + mmss(secs as nat) + ")"@,
{
    let mut out = text_with("recording (", format_mmss(secs).as_str());
    out.push_str(")");
    out
}

} // verus!
