//! What the window shows, and what can be clicked in it.

use vstd::prelude::*;
use vstd::utf8::encode_utf8;

use crate::numerals::{decimal, padded, push_number, push_padded};
use crate::text::{
    chars_of, contains, join, join_strings, lemma_holds_itself, lemma_holds_middle, lemma_join_holds,
    texts, trim, trim_of, Class,
};

verus! {

/// What is going on in the app.
#[derive(Debug, Clone, Copy)]
pub struct Panel {
    /// A transcription runs.
    pub running: bool,
    /// Audio is being recorded.
    pub recording: bool,
    /// An enrollment sample is being recorded.
    pub enroll_recording: bool,
    /// A voice is being enrolled from a file.
    pub enrolling: bool,
    /// A model is being downloaded.
    pub downloading: bool,
    /// A summary is being written.
    pub summarizing: bool,
    /// There is audio to transcribe.
    pub has_source: bool,
    /// The models directory was found.
    pub has_models_dir: bool,
    /// The picked speech model is on disk.
    pub model_ready: bool,
    /// Speakers are to be told apart.
    pub diarize: bool,
    /// The speaker-detection models are on disk.
    pub diarization_ready: bool,
}

impl Panel {
    /// Whether a transcription or a recording is going on.
    pub open spec fn is_busy(self) -> bool {
        self.running || self.recording
    }

    /// Whether a transcription or a recording is going on.
    pub fn busy(&self) -> (r: bool)
        ensures
            r == self.is_busy(),
    {
        self.running || self.recording
    }

    /// Whether the window has to be drawn again soon: anything in it moves.
    pub fn moves(&self) -> (r: bool)
        ensures
            r == (self.running || self.downloading || self.enrolling || self.summarizing
                || self.recording || self.enroll_recording),
    {
        self.running || self.downloading || self.enrolling || self.summarizing || self.recording
            || self.enroll_recording
    }

    /// Whether recording can be started or stopped.
    pub fn can_record(&self) -> (r: bool)
        ensures
            r == (!self.running && !self.enroll_recording),
    {
        !self.running && !self.enroll_recording
    }

    /// Whether another speech model can be picked.
    pub fn can_pick_model(&self) -> (r: bool)
        ensures
            r == (self.has_models_dir && !self.running && !self.downloading),
    {
        self.has_models_dir && !self.running && !self.downloading
    }

    /// Whether transcription can start.
    pub fn can_transcribe(&self) -> (r: bool)
        ensures
            r == (self.has_source && !self.is_busy() && !self.downloading && self.model_ready && (
            !self.diarize || self.diarization_ready)),
    {
        self.has_source && !self.busy() && !self.downloading && self.model_ready && (!self.diarize
            || self.diarization_ready)
    }

    /// Whether the transcript can be summarized.
    pub fn can_summarize(&self, transcript: &str) -> (r: bool)
        ensures
            r == (trim(transcript@, Class::White).len() > 0 && !self.is_busy() && !self.summarizing
                && !self.downloading && self.has_models_dir),
    {
        let chars = chars_of(transcript);
        trim_of(&chars, Class::White).len() > 0 && !self.busy() && !self.summarizing
            && !self.downloading && self.has_models_dir
    }

    /// Whether a voice can be enrolled under a name.
    pub fn can_enroll(&self, name: &str) -> (r: bool)
        ensures
            r == (self.diarization_ready && trim(name@, Class::White).len() > 0 && !self.recording
                && !self.enrolling),
    {
        let chars = chars_of(name);
        self.diarization_ready && trim_of(&chars, Class::White).len() > 0 && !self.recording
            && !self.enrolling
    }
}

/// What follows a download.
#[derive(Debug, Clone, Copy, PartialEq, Eq, Structural)]
pub struct AfterDownload {
    /// Fetch the speaker-detection models that are missing: a request for them
    /// was passed over while this download ran (one download at a time).
    pub fetch_diarization: bool,
    /// Write the summary that waited for its model.
    pub summarize: bool,
    /// Whether a summary still waits for its model.
    pub summarize_pending: bool,
}

/// What follows a download that succeeded or failed.
pub fn after_download(
    succeeded: bool,
    diarize: bool,
    summarize_pending: bool,
    summary_model_ready: bool,
) -> (r: AfterDownload)
    ensures
        r.fetch_diarization == (succeeded && diarize),
        r.summarize == (succeeded && summarize_pending && summary_model_ready),
        r.summarize_pending == (succeeded && summarize_pending && !summary_model_ready),
{
    AfterDownload {
        fetch_diarization: succeeded && diarize,
        summarize: succeeded && summarize_pending && summary_model_ready,
        summarize_pending: succeeded && summarize_pending && !summary_model_ready,
    }
}

/// Seconds as minutes and seconds.
pub open spec fn mmss(secs: nat) -> Seq<char> {
    padded(secs / 60, 2) + ":"@ + padded(secs % 60, 2)
}

/// Whole seconds as `MM:SS`.
pub fn format_mmss(secs: u64) -> (r: String)
    ensures
        r@ == mmss(secs as nat),
{
    let mut out = String::new();
    push_padded(&mut out, secs / 60, 2);
    out.push_str(":");
    push_padded(&mut out, secs % 60, 2);
    proof {
        assert(out@ =~= mmss(secs as nat));
    }
    out
}

/// A count with its unit: "1 minute", "2 minutes".
pub open spec fn counted(n: nat, unit: Seq<char>) -> Seq<char> {
    if n == 1 {
        decimal(n) + " "@ + unit
    } else {
        decimal(n) + " "@ + unit + "s"@
    }
}

/// A remaining time in its two largest units.
pub open spec fn remaining(secs: nat) -> Seq<char> {
    if secs >= 3600 {
        counted(secs / 3600, "hour"@) + " "@ + counted((secs % 3600) / 60, "minute"@)
            + " remaining"@
    } else if secs >= 60 {
        counted(secs / 60, "minute"@) + " "@ + counted(secs % 60, "second"@) + " remaining"@
    } else {
        counted(secs, "second"@) + " remaining"@
    }
}

/// Puts a count with its unit at the end of `out`.
fn push_counted(out: &mut String, n: u64, unit: &str)
    ensures
        final(out)@ == old(out)@ + counted(n as nat, unit@),
{
    push_number(out, n);
    out.push_str(" ");
    out.push_str(unit);
    if n != 1 {
        out.push_str("s");
    }
    proof {
        assert(out@ =~= old(out)@ + counted(n as nat, unit@));
    }
}

/// "1 minute 2 seconds remaining" from an estimated remaining number of seconds.
pub fn format_eta(secs: u64) -> (r: String)
    ensures
        r@ == remaining(secs as nat),
{
    let mut out = String::new();
    if secs >= 3600 {
        push_counted(&mut out, secs / 3600, "hour");
        out.push_str(" ");
        push_counted(&mut out, (secs % 3600) / 60, "minute");
    } else if secs >= 60 {
        push_counted(&mut out, secs / 60, "minute");
        out.push_str(" ");
        push_counted(&mut out, secs % 60, "second");
    } else {
        push_counted(&mut out, secs, "second");
    }
    out.push_str(" remaining");
    proof {
        assert(out@ =~= remaining(secs as nat));
    }
    out
}

/// How many seconds are left when `done` of `total` took `elapsed` milliseconds,
/// rounded up. None at the start, when it is too early to tell, and at the end.
pub open spec fn seconds_left(elapsed: int, done: int, total: int) -> Option<int> {
    if elapsed < 2_000 || done * 100 < total || done >= total {
        None
    } else {
        Some((elapsed * (total - done) + done * 1_000 - 1) / (done * 1_000))
    }
}

/// Remaining time extrapolated from the elapsed milliseconds and from how much of
/// the total is done.
pub fn eta(elapsed: u64, done: u64, total: u64) -> (r: Option<String>)
    ensures
        r is Some <==> seconds_left(elapsed as int, done as int, total as int) is Some,
        r matches Some(text) ==> text@ == remaining(
            seconds_left(elapsed as int, done as int, total as int)->Some_0 as nat,
        ),
{
    if elapsed < 2_000 || (done as u128) * 100 < total as u128 || done >= total {
        return None;
    }
    proof {
        lemma_seconds_left(elapsed as int, done as int, total as int);
    }
    let left: u128 = elapsed as u128 * (total - done) as u128;
    let step: u128 = done as u128 * 1_000;
    let secs: u128 = (left + step - 1) / step;
    Some(format_eta(secs as u64))
}

/// Less time is left than a hundred times what went by.
proof fn lemma_seconds_left(elapsed: int, done: int, total: int)
    requires
        2_000 <= elapsed <= u64::MAX,
        total <= done * 100,
        0 <= done < total <= u64::MAX,
    ensures
        0 <= elapsed * (total - done),
        elapsed * (total - done) + done * 1_000 <= u64::MAX * u64::MAX,
        0 <= (elapsed * (total - done) + done * 1_000 - 1) / (done * 1_000) <= elapsed,
{
    let left = elapsed * (total - done);
    let step = done * 1_000;
    assert(0 <= left) by (nonlinear_arith)
        requires
            left == elapsed * (total - done),
            0 <= elapsed,
            0 <= total - done,
    ;
    assert(left + step <= elapsed * total) by (nonlinear_arith)
        requires
            left == elapsed * (total - done),
            step == done * 1_000,
            1_000 <= elapsed,
            0 <= done,
    ;
    assert(elapsed * total <= u64::MAX * u64::MAX) by (nonlinear_arith)
        requires
            0 <= elapsed <= u64::MAX,
            0 <= total <= u64::MAX,
    ;
    assert(left <= elapsed * (99 * done)) by (nonlinear_arith)
        requires
            left == elapsed * (total - done),
            0 <= elapsed,
            total - done <= 99 * done,
    ;
    assert(left + step - 1 < elapsed * step + step) by (nonlinear_arith)
        requires
            left <= elapsed * (99 * done),
            step == done * 1_000,
            elapsed >= 0,
            done >= 1,
    ;
    let q = (left + step - 1) / step;
    assert(0 <= q <= elapsed) by (nonlinear_arith)
        requires
            q == (left + step - 1) / step,
            0 <= left,
            left + step - 1 < elapsed * step + step,
            step >= 1,
    ;
}

/// What the status line says of a finished transcription.
pub open spec fn done_text(
    speakers: Option<nat>,
    recognized: Seq<Seq<char>>,
    weak: Seq<Seq<char>>,
) -> Seq<char> {
    let done = match speakers {
        Some(n) => "done — "@ + decimal(n) + " speaker(s) detected"@,
        None => "done"@,
    };
    let known = if recognized.len() > 0 {
        ", recognized: "@ + join(recognized, ", "@)
    } else {
        Seq::empty()
    };
    let unsure = if weak.len() > 0 {
        " — "@ + join(weak, ", "@)
            + " matched too weakly and stayed numbered; consider re-enrolling"@
    } else {
        Seq::empty()
    };
    done + known + unsure
}

/// What the status line says of a finished transcription: how many speakers
/// there were, and which names matched a voice well or too weakly.
pub fn done_status(speakers: Option<usize>, recognized: &Vec<String>, weak: &Vec<String>) -> (r:
    String)
    ensures
        r@ == done_text(
            match speakers {
                Some(n) => Some(n as nat),
                None => None,
            },
            texts(recognized@),
            texts(weak@),
        ),
{
    let mut out = String::new();
    match speakers {
        Some(n) => {
            out.push_str("done — ");
            push_number(&mut out, n as u64);
            out.push_str(" speaker(s) detected");
        },
        None => {
            out.push_str("done");
        },
    }
    proof {
        assert(texts(recognized@).len() == recognized@.len());
        assert(texts(weak@).len() == weak@.len());
    }
    if recognized.len() > 0 {
        out.push_str(", recognized: ");
        out.push_str(join_strings(recognized, ", ").as_str());
    }
    if weak.len() > 0 {
        out.push_str(" — ");
        out.push_str(join_strings(weak, ", ").as_str());
        out.push_str(" matched too weakly and stayed numbered; consider re-enrolling");
    }
    proof {
        assert(out@ =~= done_text(
            match speakers {
                Some(n) => Some(n as nat),
                None => None,
            },
            texts(recognized@),
            texts(weak@),
        ));
    }
    out
}

/// What the status line says while something is downloaded: how many megabytes
/// have come.
pub fn download_status(what: &str, bytes: u64) -> (r: String)
    ensures
        r@ == "downloading "@ + what@ + " — "@ + decimal((bytes / 1_048_576) as nat) + " MB"@,
{
    let mut out = "downloading ".to_owned();
    out.push_str(what);
    out.push_str(" — ");
    push_number(&mut out, bytes / 1_048_576);
    out.push_str(" MB");
    out
}

/// The key that an app bundle must have to use the microphone.
pub const MICROPHONE_KEY: &'static str = "NSMicrophoneUsageDescription";

/// Whether `key` stands in `bytes` at `i`.
pub open spec fn bytes_at(bytes: Seq<u8>, key: Seq<u8>, i: int) -> bool {
    0 <= i <= bytes.len() - key.len() && bytes.subrange(i, i + key.len()) == key
}

/// Whether `key` stands in `bytes` at `i`.
fn has_bytes_at(bytes: &[u8], key: &[u8], i: usize) -> (r: bool)
    requires
        i <= bytes@.len(),
    ensures
        r == bytes_at(bytes@, key@, i as int),
{
    if bytes.len() - i < key.len() {
        return false;
    }
    let mut k: usize = 0;
    while k < key.len()
        invariant
            k <= key@.len(),
            i + key@.len() <= bytes@.len(),
            forall|j: int| 0 <= j < k ==> bytes@[i + j] == #[trigger] key@[j],
        decreases key.len() - k,
    {
        proof {
            assert(i + k < bytes.len());
        }
        if bytes[i + k] != key[k] {
            proof {
                assert(bytes@.subrange(i as int, i + key@.len())[k as int] == bytes@[i + k]);
            }
            return false;
        }
        k += 1;
    }
    proof {
        assert(bytes@.subrange(i as int, i + key@.len()) =~= key@);
    }
    true
}

/// Whether an app bundle's property list declares that it uses the microphone.
/// The key name appears as plain ASCII in both XML and binary plists.
pub fn declares_microphone(plist: &[u8]) -> (r: bool)
    ensures
        r == exists|i: int| #[trigger] bytes_at(plist@, encode_utf8(MICROPHONE_KEY@), i),
{
    let key = MICROPHONE_KEY.as_bytes();
    let mut i: usize = 0;
    while i < plist.len()
        invariant
            i <= plist@.len(),
            key@ == encode_utf8(MICROPHONE_KEY@),
            forall|j: int| 0 <= j < i ==> !#[trigger] bytes_at(plist@, key@, j),
        decreases plist.len() - i,
    {
        if has_bytes_at(plist, key, i) {
            return true;
        }
        i += 1;
    }
    has_bytes_at(plist, key, i)
}

/// A time is shown in whole minutes and the seconds that are left of them.
pub proof fn law_minutes_and_seconds_add_up(secs: nat) -> (r: (nat, nat))
    ensures
        mmss(secs) == padded(r.0, 2) + ":"@ + padded(r.1, 2),
        60 * r.0 + r.1 == secs,
        r.1 < 60,
{
    (secs / 60, secs % 60)
}

/// What remains is extrapolated from what went by: where it can be told at all,
/// that is after two seconds, one hundredth and before the end, the seconds left
/// are the fewest in which the rest is done at the pace so far.
pub proof fn law_what_remains_goes_at_the_same_pace(elapsed: int, done: int, total: int)
    requires
        0 <= elapsed,
        0 <= done,
        0 <= total,
    ensures
        seconds_left(elapsed, done, total) is Some <==> elapsed >= 2_000 && done * 100 >= total
            && done < total,
        seconds_left(elapsed, done, total) matches Some(secs) ==> (secs - 1) * (done * 1_000)
            < elapsed * (total - done) <= secs * (done * 1_000),
{
    if elapsed >= 2_000 && done * 100 >= total && done < total {
        let left = elapsed * (total - done);
        let step = done * 1_000;
        let q = (left + step - 1) / step;
        assert(q * step <= left + step - 1 && left + step - 1 < q * step + step) by (nonlinear_arith)
            requires
                q == (left + step - 1) / step,
                step > 0,
        ;
        assert((q - 1) * step == q * step - step) by (nonlinear_arith);
    }
}

/// What remains is told in its two largest units, and they add up to it, but for
/// the seconds of an hour and more.
pub proof fn law_remaining_time_adds_up(secs: nat) -> (r: (nat, nat))
    ensures
        secs < 60 ==> remaining(secs) == counted(secs, "second"@) + " remaining"@,
        60 <= secs < 3_600 ==> {
            &&& remaining(secs) == counted(r.0, "minute"@) + " "@ + counted(r.1, "second"@)
                + " remaining"@
            &&& 60 * r.0 + r.1 == secs && r.1 < 60
        },
        secs >= 3_600 ==> {
            &&& remaining(secs) == counted(r.0, "hour"@) + " "@ + counted(r.1, "minute"@)
                + " remaining"@
            &&& 3_600 * r.0 + 60 * r.1 <= secs < 3_600 * r.0 + 60 * r.1 + 60 && r.1 < 60
        },
{
    if secs >= 3_600 {
        (secs / 3600, (secs % 3600) / 60)
    } else {
        (secs / 60, secs % 60)
    }
}

/// What is said of a finished transcription names everyone who was recognized and
/// everyone who was not for sure, and how many speakers there are.
pub proof fn law_everyone_recognized_is_named(
    speakers: Option<nat>,
    recognized: Seq<Seq<char>>,
    weak: Seq<Seq<char>>,
    i: int,
)
    ensures
        0 <= i < recognized.len() ==> contains(
            done_text(speakers, recognized, weak),
            recognized[i],
        ),
        0 <= i < weak.len() ==> contains(done_text(speakers, recognized, weak), weak[i]),
        speakers matches Some(n) ==> contains(done_text(speakers, recognized, weak), decimal(n)),
{
    let none = Seq::<char>::empty();
    let all = done_text(speakers, recognized, weak);
    let done = match speakers {
        Some(n) => "done — "@ + decimal(n) + " speaker(s) detected"@,
        None => "done"@,
    };
    let known = if recognized.len() > 0 {
        ", recognized: "@ + join(recognized, ", "@)
    } else {
        Seq::empty()
    };
    let unsure = if weak.len() > 0 {
        " — "@ + join(weak, ", "@)
            + " matched too weakly and stayed numbered; consider re-enrolling"@
    } else {
        Seq::empty()
    };
    if 0 <= i < recognized.len() {
        assert(contains(known, recognized[i])) by {
            lemma_join_holds(recognized, ", "@, i);
            lemma_holds_middle(", recognized: "@, join(recognized, ", "@), none, recognized[i]);
            assert(", recognized: "@ + join(recognized, ", "@) + none =~= known);
        }
        assert(contains(all, recognized[i])) by {
            lemma_holds_middle(done, known, unsure, recognized[i]);
        }
    }
    if 0 <= i < weak.len() {
        assert(contains(unsure, weak[i])) by {
            lemma_join_holds(weak, ", "@, i);
            lemma_holds_middle(
                " — "@,
                join(weak, ", "@),
                " matched too weakly and stayed numbered; consider re-enrolling"@,
                weak[i],
            );
        }
        assert(contains(all, weak[i])) by {
            lemma_holds_middle(done + known, unsure, none, weak[i]);
            assert(done + known + unsure + none =~= all);
        }
    }
    if speakers is Some {
        let n = speakers->Some_0;
        assert(contains(done, decimal(n))) by {
            lemma_holds_itself(decimal(n));
            lemma_holds_middle("done — "@, decimal(n), " speaker(s) detected"@, decimal(n));
        }
        assert(contains(all, decimal(n))) by {
            lemma_holds_middle(none, done, known + unsure, decimal(n));
            assert(none + done + (known + unsure) =~= all);
        }
    }
}

} // verus!
