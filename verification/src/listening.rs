//! What the segmenter promises over a whole session.

use vstd::prelude::*;

use crate::gate::Frame;
use crate::segmenter::{
    first_voiced, greater, lesser, quietest, recent, samples_in, voiced_count, Config, Happening,
    Hearing, Limits, Meeting, Segmenter, QUIET_FRAMES,
};

verus! {

/// The audio of the running meeting that has been handed over, if a meeting
/// runs.
pub open spec fn running<T>(hearing: Hearing<T>) -> Option<Seq<T>> {
    match hearing.meeting {
        Some(meeting) => Some(
            hearing.audio.subrange(meeting.start as int, hearing.pending_start),
        ),
        None => None,
    }
}

/// What whoever follows the events knows of the running meeting: its chunks in
/// one piece. None where the events make no sense: a meeting that starts in
/// another, or a chunk or an end without a meeting.
pub open spec fn told<T>(known: Option<Seq<T>>, events: Seq<Happening<T>>) -> Option<
    Option<Seq<T>>,
>
    decreases events.len(),
{
    if events.len() == 0 {
        Some(known)
    } else {
        match told(known, events.drop_last()) {
            Some(so_far) => match events.last() {
                Happening::Started => match so_far {
                    Some(_) => None,
                    None => Some(Some(Seq::empty())),
                },
                Happening::Chunk(chunk) => match so_far {
                    Some(audio) => Some(Some(audio + chunk)),
                    None => None,
                },
                Happening::Ended { .. } => match so_far {
                    Some(_) => Some(None),
                    None => None,
                },
            },
            None => None,
        }
    }
}

/// Following some events and then some more.
proof fn lemma_told_on<T>(
    known: Option<Seq<T>>,
    then: Option<Seq<T>>,
    a: Seq<Happening<T>>,
    b: Seq<Happening<T>>,
)
    requires
        told(known, a) == Some(then),
    ensures
        told(known, a + b) == told(then, b),
    decreases b.len(),
{
    if b.len() == 0 {
        assert(a + b =~= a);
    } else {
        lemma_told_on(known, then, a, b.drop_last());
        assert((a + b).drop_last() =~= a + b.drop_last());
        assert((a + b).last() == b.last());
    }
}

/// Following one event.
proof fn lemma_told_one<T>(known: Option<Seq<T>>, event: Happening<T>)
    ensures
        told(known, seq![event]) == match event {
            Happening::Started => match known {
                Some(_) => None,
                None => Some(Some(Seq::empty())),
            },
            Happening::Chunk(chunk) => match known {
                Some(audio) => Some(Some(audio + chunk)),
                None => None,
            },
            Happening::Ended { .. } => match known {
                Some(_) => Some(None),
                None => None,
            },
        },
{
    assert(seq![event].drop_last() =~= Seq::<Happening<T>>::empty());
    assert(told(known, Seq::<Happening<T>>::empty()) == Some(known));
}

/// A chunk continues the running meeting.
proof fn lemma_cut_told<T>(hearing: Hearing<T>, l: Limits, end: int)
    requires
        hearing.safe(l),
        hearing.meeting is Some,
    ensures
        told(running(hearing), hearing.cut(end).1) == Some(running(hearing.cut(end).0)),
        hearing.cut(end).0.safe(l),
        hearing.cut(end).0.meeting == hearing.meeting,
{
    let to = hearing.clamped(end);
    if to != hearing.pending_start {
        let chunk = hearing.audio.subrange(hearing.pending_start, to);
        lemma_told_one(running(hearing), Happening::Chunk(chunk));
        let start = hearing.meeting->Some_0.start as int;
        assert(hearing.audio.subrange(start, to) =~= hearing.audio.subrange(
            start,
            hearing.pending_start,
        ) + chunk);
    }
}

/// The end of a meeting ends what is known of it.
proof fn lemma_ended_told<T>(hearing: Hearing<T>, l: Limits)
    requires
        hearing.safe(l),
    ensures
        told(running(hearing), hearing.ended(l).1) == Some(running(hearing.ended(l).0)),
        hearing.ended(l).0.safe(l),
        hearing.ended(l).0.meeting is None,
{
    match hearing.meeting {
        Some(_) => {
            let end = hearing.meeting_end(l);
            lemma_cut_told(hearing, l, end);
            let (rest, chunk) = hearing.cut(end);
            let events = hearing.ended(l).1;
            assert(events.drop_last() =~= chunk);
        },
        None => {},
    }
}

/// What the events of one step tell is what happened.
proof fn lemma_step_told<T>(hearing: Hearing<T>, l: Limits)
    requires
        hearing.safe(l),
    ensures
        told(running(hearing), hearing.step(l).1) == Some(running(hearing.step(l).0)),
        hearing.step(l).0.safe(l),
{
    match hearing.meeting {
        None => {
            let (after, events) = hearing.step(l);
            if after.meeting is Some {
                lemma_told_one(running(hearing), Happening::<T>::Started);
                lemma_first_in_window(hearing.window, hearing.analyzed);
                let start = after.meeting->Some_0.start as int;
                assert(start == after.pending_start);
                assert(after.audio.subrange(start, start) =~= Seq::<T>::empty());
            }
        },
        Some(_) => {
            let silence = hearing.analyzed - hearing.speech_end;
            if silence >= l.gap {
                lemma_ended_told(hearing, l);
            } else {
                lemma_cut_told(hearing, l, hearing.meeting_end(l));
                lemma_cut_told(
                    hearing,
                    l,
                    match quietest(hearing.quiet, hearing.pending_start) {
                        Some((at, _)) => at as int,
                        None => hearing.analyzed,
                    },
                );
            }
        },
    }
}

/// The first voiced frame is one of the window.
proof fn lemma_first_in_window(window: Seq<(u64, bool)>, limit: int)
    requires
        forall|k: int| 0 <= k < window.len() ==> (#[trigger] window[k]).0 <= limit,
    ensures
        first_voiced(window) matches Some(end) ==> end <= limit,
    decreases window.len(),
{
    if window.len() > 0 && !window[0].1 {
        let rest = window.drop_first();
        assert forall|k: int| 0 <= k < rest.len() implies (#[trigger] rest[k]).0 <= limit by {
            assert(rest[k] == window[k + 1]);
        }
        lemma_first_in_window(rest, limit);
    }
}

/// Frames that leave the window take nothing else with them.
proof fn lemma_recent(window: Seq<(u64, bool)>, len: u64, end: int)
    ensures
        exists|n: int|
            0 <= n <= window.len() && recent(window, len, end) == #[trigger] window.skip(n) && (
            forall|k: int| 0 <= k < n ==> (#[trigger] window[k]).0 + len <= end),
        recent(window, len, end).len() > 0 ==> recent(window, len, end)[0].0 + len > end,
        voiced_count(recent(window, len, end)) <= voiced_count(window),
    decreases window.len(),
{
    if window.len() > 0 && window[0].0 + len <= end {
        let rest = window.drop_first();
        lemma_recent(rest, len, end);
        let m = choose|m: int|
            0 <= m <= rest.len() && recent(rest, len, end) == #[trigger] rest.skip(m) && (forall|
                k: int,
            |
                0 <= k < m ==> (#[trigger] rest[k]).0 + len <= end);
        assert(rest.skip(m) =~= window.skip(m + 1));
        assert forall|k: int| 0 <= k < m + 1 implies (#[trigger] window[k]).0 + len <= end by {
            if k > 0 {
                assert(rest[k - 1] == window[k]);
            }
        }
        lemma_count_first(window);
    } else {
        assert(window.skip(0) =~= window);
    }
}

/// A frame less is no voiced frame more.
proof fn lemma_count_first(window: Seq<(u64, bool)>)
    requires
        window.len() > 0,
    ensures
        voiced_count(window.drop_first()) <= voiced_count(window),
    decreases window.len(),
{
    let rest = window.drop_first();
    if rest.len() > 0 {
        lemma_count_first(window.drop_last());
        assert(window.drop_last().drop_first() =~= rest.drop_last());
        assert(window.last() == rest.last());
    } else {
        assert(voiced_count(rest) == 0);
    }
}

/// What holds at all times still does after one more frame.
proof fn lemma_noted_safe<T>(hearing: Hearing<T>, l: Limits, frame: Frame)
    requires
        hearing.safe(l),
        hearing.analyzed + l.frame <= hearing.audio.len(),
    ensures
        hearing.noted(l, frame).safe(l),
        running(hearing.noted(l, frame)) == running(hearing),
{
    let end = hearing.analyzed + l.frame;
    let longer = hearing.window.push((end as u64, frame.voiced));
    let now = hearing.noted(l, frame);
    lemma_recent(longer, l.start_window, end);
    let n = choose|n: int|
        0 <= n <= longer.len() && recent(longer, l.start_window, end) == #[trigger] longer.skip(n)
            && (forall|k: int| 0 <= k < n ==> (#[trigger] longer[k]).0 + l.start_window <= end);
    assert forall|k: int| 0 <= k < now.window.len() implies (#[trigger] now.window[k]).0
        <= now.analyzed by {
        assert(now.window[k] == longer[n + k]);
        if n + k < hearing.window.len() {
            assert(longer[n + k] == hearing.window[n + k]);
        }
    }
    assert(longer.drop_last() =~= hearing.window);
    let count = voiced_count(hearing.window);
    assert((count + 1) * l.frame == count * l.frame + l.frame) by (nonlinear_arith);
    assert(voiced_count(now.window) * l.frame <= (count + 1) * l.frame) by (nonlinear_arith)
        requires
            voiced_count(now.window) <= count + 1,
    ;
}

/// What the events of some frames tell is what happened.
proof fn lemma_judged_told<T>(hearing: Hearing<T>, l: Limits, frames: Seq<Frame>)
    requires
        hearing.safe(l),
        hearing.analyzed + frames.len() * l.frame <= hearing.audio.len(),
    ensures
        told(running(hearing), hearing.judged(l, frames).1) == Some(
            running(hearing.judged(l, frames).0),
        ),
        hearing.judged(l, frames).0.safe(l),
        hearing.judged(l, frames).0.audio == hearing.audio,
        hearing.judged(l, frames).0.analyzed == hearing.analyzed + frames.len() * l.frame,
    decreases frames.len(),
{
    if frames.len() > 0 {
        let n = frames.len() as int;
        assert(n * l.frame == (n - 1) * l.frame + l.frame) by (nonlinear_arith);
        let shorter = frames.drop_last();
        lemma_judged_told(hearing, l, shorter);
        let (before, events) = hearing.judged(l, shorter);
        lemma_noted_safe(before, l, frames.last());
        let noted = before.noted(l, frames.last());
        lemma_step_told(noted, l);
        lemma_told_on(running(hearing), running(before), events, noted.step(l).1);
    } else {
        assert(0 * l.frame == 0);
    }
}

/// Meetings start and end in turn, chunks come only while one runs, and the
/// chunks of a meeting are its audio in one piece, without a gap or an overlap:
/// whoever follows the events knows what has been handed over of the meeting
/// that runs.
pub proof fn law_chunks_are_the_meeting<T>(
    hearing: Hearing<T>,
    l: Limits,
    block: Seq<T>,
    frames: Seq<Frame>,
)
    requires
        hearing.safe(l),
        hearing.audio.len() + block.len() <= u64::MAX,
        hearing.analyzed + frames.len() * l.frame <= hearing.audio.len() + block.len(),
    ensures
        told(running(hearing), hearing.pushed(l, block, frames).1) == Some(
            running(hearing.pushed(l, block, frames).0),
        ),
        hearing.pushed(l, block, frames).0.safe(l),
{
    let opened = Hearing { audio: hearing.audio + block, ..hearing };
    match hearing.meeting {
        Some(meeting) => {
            assert(opened.audio.subrange(meeting.start as int, opened.pending_start)
                =~= hearing.audio.subrange(meeting.start as int, hearing.pending_start));
        },
        None => {},
    }
    lemma_judged_told(opened, l, frames);
}

/// Stopping tells the end of the meeting that runs, after what is left of it.
pub proof fn law_finishing_ends_the_meeting<T>(hearing: Hearing<T>, l: Limits)
    requires
        hearing.safe(l),
    ensures
        told(running(hearing), hearing.finished(l).1) == Some(None::<Seq<T>>),
        hearing.finished(l).0.safe(l),
        hearing.finished(l).0.meeting is None,
{
    if hearing.meeting is Some {
        let all = hearing.audio.len() as int;
        let caught_up = Hearing {
            analyzed: all,
            speech_end: if hearing.voiced {
                all
            } else {
                hearing.speech_end
            },
            ..hearing
        };
        lemma_ended_told(caught_up, l);
    }
}

/// Stopping in the middle of a sentence hands over everything that was captured.
pub proof fn law_finishing_keeps_what_was_said<T>(hearing: Hearing<T>, l: Limits)
    requires
        hearing.safe(l),
        hearing.meeting is Some,
        hearing.voiced,
    ensures
        hearing.pending_start < hearing.audio.len() ==> hearing.finished(l).1[0]
            == Happening::Chunk(hearing.audio.skip(hearing.pending_start)),
{
    let all = hearing.audio.len() as int;
    assert(hearing.audio.subrange(hearing.pending_start, all) =~= hearing.audio.skip(
        hearing.pending_start,
    ));
}

/// A meeting ends at the frame at which the silence reaches the gap, and at no
/// other: a shorter pause does not split it.
pub proof fn law_only_a_long_silence_ends_a_meeting<T>(
    hearing: Hearing<T>,
    l: Limits,
    frame: Frame,
)
    requires
        hearing.safe(l),
        hearing.meeting is Some,
        hearing.analyzed + l.frame <= hearing.audio.len(),
    ensures
        hearing.noted(l, frame).step(l).0.meeting is None <==> hearing.noted(l, frame).analyzed
            - hearing.noted(l, frame).speech_end >= l.gap,
{
    lemma_noted_safe(hearing, l, frame);
    lemma_ended_told(hearing.noted(l, frame), l);
}

/// A meeting starts at the frame at which the start window holds enough speech,
/// and at no other: a cough never starts one.
pub proof fn law_only_enough_speech_starts_a_meeting<T>(
    hearing: Hearing<T>,
    l: Limits,
    frame: Frame,
)
    requires
        hearing.safe(l),
        hearing.meeting is None,
    ensures
        hearing.noted(l, frame).step(l).0.meeting is Some <==> voiced_count(
            hearing.noted(l, frame).window,
        ) * l.frame >= l.start && first_voiced(hearing.noted(l, frame).window) is Some,
{
}

/// The read position never runs away: what was handed over lies before what the
/// gate has looked at, and that before what has arrived.
pub proof fn law_counters_stay_in_order<T: Copy>(segmenter: Segmenter<T>)
    requires
        segmenter.wf(),
    ensures
        segmenter.hearing().safe(segmenter.limits()),
        0 <= segmenter.hearing().pending_start <= segmenter.hearing().analyzed
            <= segmenter.hearing().audio.len(),
{
    segmenter.lemma_wf();
}

/// Whether the start window holds frames as they came: in order, no older than
/// the window is long, and voiced ones no later than the last speech.
pub open spec fn window_kept<T>(hearing: Hearing<T>, l: Limits) -> bool {
    let window = hearing.window;
    &&& forall|j: int, k: int|
        0 <= j < k < window.len() ==> (#[trigger] window[j]).0 + l.frame <= (
        #[trigger] window[k]).0
    &&& forall|k: int|
        0 <= k < window.len() ==> {
            &&& l.frame <= (#[trigger] window[k]).0
            &&& window[k].0 + l.start_window > hearing.analyzed
            &&& window[k].1 ==> window[k].0 <= hearing.speech_end
        }
}

/// Whether the last frames stand one behind the other.
pub open spec fn quiet_kept<T>(hearing: Hearing<T>, l: Limits) -> bool {
    let quiet = hearing.quiet;
    &&& quiet.len() <= QUIET_FRAMES
    &&& forall|k: int|
        0 <= k < quiet.len() ==> (#[trigger] quiet[k]).0 + (quiet.len() - 1 - k) * l.frame
            == hearing.analyzed
}

/// Whether the audio of all speech in the start window is still there.
pub open spec fn speech_kept<T>(hearing: Hearing<T>, l: Limits) -> bool {
    l.gap >= l.start_window && hearing.meeting is None ==> forall|k: int|
        0 <= k < hearing.window.len() && (#[trigger] hearing.window[k]).1 ==> hearing.pending_start
            + l.frame <= hearing.window[k].0
}

/// No more than this is held while a meeting runs.
pub open spec fn most_held(l: Limits) -> int {
    greater(
        greater(l.gap as int, l.max_chunk as int),
        greater(QUIET_FRAMES * l.frame, l.preroll + l.start_window + l.frame),
    )
}

/// Whether all speech of the running meeting lies between its first and its last
/// word.
pub open spec fn speech_within<T>(hearing: Hearing<T>) -> bool {
    hearing.meeting matches Some(meeting) ==> meeting.first + meeting.speech <= hearing.speech_end
}

/// What holds of a session that has not been stopped.
pub open spec fn kept<T>(hearing: Hearing<T>, l: Limits) -> bool {
    &&& hearing.safe(l)
    &&& speech_within(hearing)
    &&& window_kept(hearing, l)
    &&& quiet_kept(hearing, l)
    &&& speech_kept(hearing, l)
}

/// Whether little enough is held for the meeting that runs.
pub open spec fn meeting_bounded<T>(hearing: Hearing<T>, l: Limits) -> bool {
    hearing.meeting is Some ==> hearing.analyzed - hearing.pending_start < most_held(l)
}

/// The first voiced frame, where it stands.
proof fn lemma_first_voiced_at(window: Seq<(u64, bool)>)
    ensures
        match first_voiced(window) {
            Some(end) => exists|k: int|
                0 <= k < window.len() && #[trigger] window[k] == (end, true) && forall|j: int|
                    0 <= j < k ==> !(#[trigger] window[j]).1,
            None => forall|j: int| 0 <= j < window.len() ==> !(#[trigger] window[j]).1,
        },
    decreases window.len(),
{
    if window.len() > 0 {
        if window[0].1 {
            assert(window[0] == (window[0].0, true));
        } else {
            let rest = window.drop_first();
            lemma_first_voiced_at(rest);
            match first_voiced(rest) {
                Some(end) => {
                    let k = choose|k: int|
                        0 <= k < rest.len() && #[trigger] rest[k] == (end, true) && forall|j: int|
                            0 <= j < k ==> !(#[trigger] rest[j]).1;
                    assert(window[k + 1] == (end, true));
                    assert forall|j: int| 0 <= j < k + 1 implies !(#[trigger] window[j]).1 by {
                        if j > 0 {
                            assert(rest[j - 1] == window[j]);
                        }
                    }
                },
                None => {
                    assert forall|j: int| 0 <= j < window.len() implies !(#[trigger] window[j]).1 by {
                        if j > 0 {
                            assert(rest[j - 1] == window[j]);
                        }
                    }
                },
            }
        }
    }
}

/// All speech in a window lies between its first and its last voiced frame.
proof fn lemma_window_speech(window: Seq<(u64, bool)>, frame: int, speech_end: int)
    requires
        frame > 0,
        forall|j: int, k: int|
            0 <= j < k < window.len() ==> (#[trigger] window[j]).0 + frame <= (
            #[trigger] window[k]).0,
        forall|k: int|
            0 <= k < window.len() && (#[trigger] window[k]).1 ==> window[k].0 <= speech_end,
    ensures
        match first_voiced(window) {
            Some(end) => end - frame + voiced_count(window) * frame <= speech_end,
            None => voiced_count(window) == 0,
        },
    decreases window.len(),
{
    if window.len() > 0 {
        let shorter = window.drop_last();
        let last = window.last();
        assert(last == window[window.len() - 1]);
        assert(forall|k: int| 0 <= k < shorter.len() ==> #[trigger] shorter[k] == window[k]);
        lemma_first_voiced_last(window);
        let count = voiced_count(shorter) as int;
        assert((count + 1) * frame == count * frame + frame) by (nonlinear_arith);
        assert(0 * frame == 0);
        lemma_window_speech(shorter, frame, if last.1 {
            last.0 - frame
        } else {
            speech_end
        });
    }
}

/// The first voiced frame is found before the last frame, or is the last one.
proof fn lemma_first_voiced_last(window: Seq<(u64, bool)>)
    requires
        window.len() > 0,
    ensures
        first_voiced(window) == match first_voiced(window.drop_last()) {
            Some(end) => Some(end),
            None => if window.last().1 {
                Some(window.last().0)
            } else {
                None
            },
        },
    decreases window.len(),
{
    let shorter = window.drop_last();
    if window.len() == 1 {
        assert(first_voiced(shorter) is None);
        assert(first_voiced(window.drop_first()) is None);
    } else if !window[0].1 {
        let rest = window.drop_first();
        lemma_first_voiced_last(rest);
        assert(rest.drop_last() =~= shorter.drop_first());
        assert(shorter[0] == window[0]);
    } else {
        assert(shorter[0] == window[0]);
    }
}

/// One more frame keeps the session in order.
proof fn lemma_noted_kept<T>(hearing: Hearing<T>, l: Limits, frame: Frame)
    requires
        kept(hearing, l),
        hearing.analyzed + l.frame <= hearing.audio.len(),
    ensures
        kept(hearing.noted(l, frame), l),
{
    lemma_noted_safe(hearing, l, frame);
    let end = hearing.analyzed + l.frame;
    let longer = hearing.window.push((end as u64, frame.voiced));
    let now = hearing.noted(l, frame);
    lemma_recent(longer, l.start_window, end);
    let n = choose|n: int|
        0 <= n <= longer.len() && recent(longer, l.start_window, end) == #[trigger] longer.skip(n)
            && (forall|k: int| 0 <= k < n ==> (#[trigger] longer[k]).0 + l.start_window <= end);
    assert forall|j: int, k: int| 0 <= j < k < longer.len() implies (#[trigger] longer[j]).0
        + l.frame <= (#[trigger] longer[k]).0 by {
        assert(longer[j] == hearing.window[j]);
        if k < hearing.window.len() {
            assert(longer[k] == hearing.window[k]);
        }
    }
    assert forall|k: int| 0 <= k < now.window.len() implies {
        &&& l.frame <= (#[trigger] now.window[k]).0
        &&& now.window[k].0 + l.start_window > now.analyzed
        &&& now.window[k].1 ==> now.window[k].0 <= now.speech_end
    } by {
        assert(now.window[k] == longer[n + k]);
        assert(now.window[0] == longer[n]);
        if k > 0 {
            assert(longer[n].0 < longer[n + k].0);
        }
        if n + k < hearing.window.len() {
            assert(longer[n + k] == hearing.window[n + k]);
        }
    }
    assert forall|j: int, k: int| 0 <= j < k < now.window.len() implies (
    #[trigger] now.window[j]).0 + l.frame <= (#[trigger] now.window[k]).0 by {
        assert(now.window[j] == longer[n + j] && now.window[k] == longer[n + k]);
    }
    assert(speech_kept(now, l)) by {
        if l.gap >= l.start_window && now.meeting is None {
            assert forall|k: int| 0 <= k < now.window.len() && (
            #[trigger] now.window[k]).1 implies now.pending_start + l.frame <= now.window[k].0 by {
                assert(now.window[k] == longer[n + k]);
                if n + k < hearing.window.len() {
                    assert(longer[n + k] == hearing.window[n + k]);
                }
            }
        }
    }
    let more = hearing.quiet.push((end as u64, frame.level));
    let shift = if more.len() > QUIET_FRAMES {
        more.len() - QUIET_FRAMES
    } else {
        0
    };
    assert forall|k: int| 0 <= k < now.quiet.len() implies (#[trigger] now.quiet[k]).0 + (
    now.quiet.len() - 1 - k) * l.frame == now.analyzed by {
        let at = k + shift;
        assert(now.quiet[k] == more[at]);
        assert(now.quiet.len() - 1 - k == more.len() - 1 - at);
        if at < hearing.quiet.len() {
            let behind = hearing.quiet.len() - 1 - at;
            assert(more[at] == hearing.quiet[at]);
            assert((behind + 1) * l.frame == behind * l.frame + l.frame) by (nonlinear_arith);
            assert(more.len() - 1 - at == behind + 1);
        } else {
            assert(0 * l.frame == 0);
        }
    }
}

/// Trimming keeps the session in order, and leaves little.
proof fn lemma_trimmed_kept<T>(hearing: Hearing<T>, l: Limits)
    requires
        kept(hearing, l),
    ensures
        kept(hearing.trimmed(l), l),
        hearing.meeting is None ==> hearing.analyzed - hearing.trimmed(l).pending_start <= l.preroll
            + l.start_window + l.frame,
{
    let now = hearing.trimmed(l);
    if hearing.meeting is None {
        lemma_first_voiced_at(hearing.window);
        match first_voiced(hearing.window) {
            Some(end) => {
                let at = choose|k: int|
                    0 <= k < hearing.window.len() && #[trigger] hearing.window[k] == (end, true)
                        && forall|j: int| 0 <= j < k ==> !(#[trigger] hearing.window[j]).1;
                assert(hearing.window[at].0 + l.start_window > hearing.analyzed);
                assert(l.frame <= hearing.window[at].0);
                assert forall|k: int| 0 <= k < now.window.len() && (
                #[trigger] now.window[k]).1 && l.gap >= l.start_window implies now.pending_start
                    + l.frame <= now.window[k].0 by {
                    assert(k >= at);
                    if k > at {
                        assert(hearing.window[at].0 < hearing.window[k].0);
                    }
                }
            },
            None => {},
        }
        assert(speech_kept(now, l));
    }
}

/// The quietest frame is one of those behind `after`, if there is one.
proof fn lemma_quietest(quiet: Seq<(u64, i32)>, after: int)
    ensures
        match quietest(quiet, after) {
            Some(best) => best.0 > after && exists|k: int|
                0 <= k < quiet.len() && #[trigger] quiet[k] == best,
            None => forall|k: int| 0 <= k < quiet.len() ==> (#[trigger] quiet[k]).0 <= after,
        },
    decreases quiet.len(),
{
    if quiet.len() > 0 {
        let shorter = quiet.drop_last();
        lemma_quietest(shorter, after);
        match quietest(shorter, after) {
            Some(best) => {
                let k = choose|k: int| 0 <= k < shorter.len() && #[trigger] shorter[k] == best;
                assert(quiet[k] == best);
            },
            None => {
                assert forall|k: int| 0 <= k < shorter.len() implies (#[trigger] quiet[k]).0
                    <= after by {
                    assert(shorter[k] == quiet[k]);
                }
            },
        }
        assert(quiet[quiet.len() - 1] == quiet.last());
    }
}

/// A step keeps the session in order, and leaves little for the meeting that
/// runs.
proof fn lemma_step_kept<T>(hearing: Hearing<T>, l: Limits)
    requires
        kept(hearing, l),
        hearing.quiet.len() > 0,
    ensures
        kept(hearing.step(l).0, l),
        meeting_bounded(hearing.step(l).0, l),
{
    lemma_step_told(hearing, l);
    let now = hearing.step(l).0;
    match hearing.meeting {
        None => {
            if now.meeting is Some {
                lemma_first_voiced_at(hearing.window);
                let end = first_voiced(hearing.window)->Some_0;
                let at = choose|k: int|
                    0 <= k < hearing.window.len() && #[trigger] hearing.window[k] == (end, true)
                        && forall|j: int| 0 <= j < k ==> !(#[trigger] hearing.window[j]).1;
                assert(hearing.window[at].0 + l.start_window > hearing.analyzed);
                assert(l.frame <= hearing.window[at].0);
                lemma_window_speech(hearing.window, l.frame as int, hearing.speech_end);
            }
        },
        Some(_) => {
            let silence = hearing.analyzed - hearing.speech_end;
            if silence >= l.gap {
                let (rest, _) = hearing.cut(hearing.meeting_end(l));
                let over = Hearing { meeting: None, ..rest };
                lemma_ended_told(hearing, l);
                lemma_cut_told(hearing, l, hearing.meeting_end(l));
                assert(speech_kept(over, l)) by {
                    if l.gap >= l.start_window {
                        assert forall|k: int| 0 <= k < over.window.len() && (
                        #[trigger] over.window[k]).1 implies over.pending_start + l.frame
                            <= over.window[k].0 by {
                            assert(hearing.window[k].0 + l.start_window > hearing.analyzed);
                        }
                    }
                }
                lemma_trimmed_kept(over, l);
            } else if hearing.speech_end > hearing.pending_start {
                lemma_quietest(hearing.quiet, hearing.pending_start);
                let last = hearing.quiet.len() - 1;
                assert(0 * l.frame == 0);
                assert(hearing.quiet[last].0 + (hearing.quiet.len() - 1 - last) * l.frame
                    == hearing.analyzed);
                match quietest(hearing.quiet, hearing.pending_start) {
                    Some(best) => {
                        let k = choose|k: int|
                            0 <= k < hearing.quiet.len() && #[trigger] hearing.quiet[k] == best;
                        let behind = hearing.quiet.len() - 1 - k;
                        assert(behind * l.frame < QUIET_FRAMES * l.frame) by (nonlinear_arith)
                            requires
                                0 <= behind < QUIET_FRAMES,
                                l.frame > 0,
                        ;
                        assert(0 <= behind * l.frame) by (nonlinear_arith)
                            requires
                                0 <= behind,
                                l.frame > 0,
                        ;
                    },
                    None => {},
                }
            }
        },
    }
}

/// Some frames keep the session in order.
proof fn lemma_judged_kept<T>(hearing: Hearing<T>, l: Limits, frames: Seq<Frame>)
    requires
        kept(hearing, l),
        meeting_bounded(hearing, l),
        hearing.analyzed + frames.len() * l.frame <= hearing.audio.len(),
    ensures
        kept(hearing.judged(l, frames).0, l),
        meeting_bounded(hearing.judged(l, frames).0, l),
    decreases frames.len(),
{
    lemma_judged_told(hearing, l, frames);
    if frames.len() > 0 {
        let n = frames.len() as int;
        assert(n * l.frame == (n - 1) * l.frame + l.frame) by (nonlinear_arith);
        let shorter = frames.drop_last();
        lemma_judged_told(hearing, l, shorter);
        lemma_judged_kept(hearing, l, shorter);
        let before = hearing.judged(l, shorter).0;
        lemma_noted_kept(before, l, frames.last());
        lemma_step_kept(before.noted(l, frames.last()), l);
    }
}

/// A session starts in order.
pub proof fn law_a_session_starts_in_order<T>(l: Limits)
    requires
        l.frame > 0,
    ensures
        kept(Hearing::<T>::empty(), l),
        meeting_bounded(Hearing::<T>::empty(), l),
{
    assert(voiced_count(Hearing::<T>::empty().window) == 0);
    assert(0 * l.frame == 0);
}

/// Memory stays bounded however long a session lasts. Between meetings only the
/// pre-roll, the start window and two frames are held; while a meeting runs no
/// more than [`most_held`] and a frame.
pub proof fn law_memory_is_bounded<T>(
    hearing: Hearing<T>,
    l: Limits,
    block: Seq<T>,
    frames: Seq<Frame>,
)
    requires
        kept(hearing, l),
        meeting_bounded(hearing, l),
        hearing.audio.len() + block.len() <= u64::MAX,
        frames.len() == (hearing.audio.len() + block.len() - hearing.analyzed) / l.frame as int,
    ensures
        ({
            let now = hearing.pushed(l, block, frames).0;
            let held = now.audio.len() - now.pending_start;
            &&& kept(now, l)
            &&& meeting_bounded(now, l)
            &&& now.meeting is None ==> held < l.preroll + l.start_window + 2 * l.frame
            &&& now.meeting is Some ==> held < most_held(l) + l.frame
        }),
{
    let opened = Hearing { audio: hearing.audio + block, ..hearing };
    let room = opened.audio.len() - opened.analyzed;
    let f = l.frame as int;
    let n = frames.len() as int;
    assert(n * f <= room && room < n * f + f) by (nonlinear_arith)
        requires
            n == room / f,
            f > 0,
            room >= 0,
    ;
    assert(kept(opened, l));
    lemma_judged_told(opened, l, frames);
    lemma_judged_kept(opened, l, frames);
    lemma_trimmed_kept(opened.judged(l, frames).0, l);
}

/// Whether a meeting that ends is told with no more speech than lies between its
/// first and its last word.
pub open spec fn told_in_full<T>(meeting: Meeting, speech_end: int, event: Happening<T>) -> bool {
    event matches Happening::Ended { len, speech, .. } && {
        &&& meeting.first + len == speech_end
        &&& meeting.speech == speech
        &&& speech <= len
    }
}

/// The length of a meeting is what lies between the beginning of its first word
/// and the end of its last one, and no more than that was speech; also where the
/// session is stopped in the middle of it.
pub proof fn law_a_meeting_lasts_from_word_to_word<T>(hearing: Hearing<T>, l: Limits)
    requires
        kept(hearing, l),
        hearing.meeting is Some,
    ensures
        told_in_full(hearing.meeting->Some_0, hearing.speech_end, hearing.ended(l).1.last()),
        told_in_full(
            hearing.meeting->Some_0,
            if hearing.voiced {
                hearing.audio.len() as int
            } else {
                hearing.speech_end
            },
            hearing.finished(l).1.last(),
        ),
{
}

/// A meeting has the audio of its first word: it starts no later than the first
/// speech in the start window began, and everything from its start on is still
/// there to be handed over.
pub proof fn law_a_meeting_has_its_first_word<T>(hearing: Hearing<T>, l: Limits)
    requires
        kept(hearing, l),
        l.gap >= l.start_window,
        hearing.meeting is None,
        hearing.step(l).0.meeting is Some,
    ensures
        ({
            let now = hearing.step(l).0;
            let start = now.meeting->Some_0.start;
            &&& hearing.first_speech(l) matches Some(first) && start <= first
            &&& now.pending_start == start
        }),
{
    lemma_first_voiced_at(hearing.window);
    let end = first_voiced(hearing.window)->Some_0;
    let at = choose|k: int|
        0 <= k < hearing.window.len() && #[trigger] hearing.window[k] == (end, true) && forall|
            j: int,
        |
            0 <= j < k ==> !(#[trigger] hearing.window[j]).1;
    assert(hearing.pending_start + l.frame <= hearing.window[at].0);
    assert(hearing.window[at].0 <= hearing.analyzed);
}

/// From where on audio is kept between meetings, if it is still there.
spec fn idle_from<T>(hearing: Hearing<T>, l: Limits) -> int {
    let from = match hearing.first_speech(l) {
        Some(first) => first,
        None => hearing.analyzed,
    };
    greater(from - l.preroll, 0)
}

/// Whether two sessions differ at most in how much of the silence before the next
/// meeting they still hold.
spec fn alike<T>(a: Hearing<T>, b: Hearing<T>, l: Limits) -> bool {
    &&& b == Hearing { pending_start: b.pending_start, ..a }
    &&& a.meeting is Some ==> a.pending_start == b.pending_start
    &&& a.pending_start <= b.pending_start <= greater(a.pending_start, idle_from(a, l))
}

/// Trimming changes nothing else.
proof fn lemma_trimmed_alike<T>(hearing: Hearing<T>, l: Limits)
    requires
        kept(hearing, l),
    ensures
        alike(hearing, hearing.trimmed(l), l),
{
    lemma_first_in_window(hearing.window, hearing.analyzed);
}

/// Sessions that are alike are the same once trimmed.
proof fn lemma_alike_trimmed<T>(a: Hearing<T>, b: Hearing<T>, l: Limits)
    requires
        kept(a, l),
        alike(a, b, l),
    ensures
        a.trimmed(l) == b.trimmed(l),
{
    lemma_first_in_window(a.window, a.analyzed);
}

/// Speech in the start window never begins earlier than it did.
proof fn lemma_idle_grows<T>(hearing: Hearing<T>, l: Limits, frame: Frame)
    requires
        kept(hearing, l),
        hearing.analyzed + l.frame <= hearing.audio.len(),
    ensures
        idle_from(hearing, l) <= idle_from(hearing.noted(l, frame), l),
{
    let now = hearing.noted(l, frame);
    lemma_noted_kept(hearing, l, frame);
    lemma_first_voiced_at(hearing.window);
    lemma_first_voiced_at(now.window);
    lemma_first_in_window(hearing.window, hearing.analyzed);
    let end = hearing.analyzed + l.frame;
    let longer = hearing.window.push((end as u64, frame.voiced));
    lemma_recent(longer, l.start_window, end);
    let n = choose|n: int|
        0 <= n <= longer.len() && recent(longer, l.start_window, end) == #[trigger] longer.skip(n)
            && (forall|k: int| 0 <= k < n ==> (#[trigger] longer[k]).0 + l.start_window <= end);
    match first_voiced(now.window) {
        Some(after) => {
            let at = choose|k: int|
                0 <= k < now.window.len() && #[trigger] now.window[k] == (after, true) && forall|
                    j: int,
                | 0 <= j < k ==> !(#[trigger] now.window[j]).1;
            assert(now.window[at] == longer[n + at]);
            if n + at < hearing.window.len() {
                assert(longer[n + at] == hearing.window[n + at]);
                assert(first_voiced(hearing.window) is Some);
                let before = first_voiced(hearing.window)->Some_0;
                let first = choose|k: int|
                    0 <= k < hearing.window.len() && #[trigger] hearing.window[k] == (before, true)
                        && forall|j: int| 0 <= j < k ==> !(#[trigger] hearing.window[j]).1;
                if first < n + at {
                    assert(hearing.window[first].0 < hearing.window[n + at].0);
                }
            }
        },
        None => {},
    }
}

/// A frame leaves sessions alike.
proof fn lemma_noted_alike<T>(a: Hearing<T>, b: Hearing<T>, l: Limits, frame: Frame)
    requires
        kept(a, l),
        alike(a, b, l),
        a.analyzed + l.frame <= a.audio.len(),
    ensures
        alike(a.noted(l, frame), b.noted(l, frame), l),
{
    lemma_idle_grows(a, l, frame);
}

/// Sessions that are alike tell the same and stay alike.
proof fn lemma_step_alike<T>(a: Hearing<T>, b: Hearing<T>, l: Limits)
    requires
        kept(a, l),
        alike(a, b, l),
    ensures
        alike(a.step(l).0, b.step(l).0, l),
        a.step(l).1 == b.step(l).1,
{
    match a.meeting {
        None => {
            lemma_first_in_window(a.window, a.analyzed);
        },
        Some(_) => {
            assert(a == b);
        },
    }
}

/// Some frames leave sessions alike.
proof fn lemma_judged_alike<T>(a: Hearing<T>, b: Hearing<T>, l: Limits, frames: Seq<Frame>)
    requires
        kept(a, l),
        meeting_bounded(a, l),
        alike(a, b, l),
        a.analyzed + frames.len() * l.frame <= a.audio.len(),
    ensures
        alike(a.judged(l, frames).0, b.judged(l, frames).0, l),
        a.judged(l, frames).1 == b.judged(l, frames).1,
    decreases frames.len(),
{
    if frames.len() > 0 {
        let n = frames.len() as int;
        assert(n * l.frame == (n - 1) * l.frame + l.frame) by (nonlinear_arith);
        let shorter = frames.drop_last();
        lemma_judged_alike(a, b, l, shorter);
        lemma_judged_told(a, l, shorter);
        lemma_judged_kept(a, l, shorter);
        let x = a.judged(l, shorter).0;
        let y = b.judged(l, shorter).0;
        lemma_noted_alike(x, y, l, frames.last());
        lemma_noted_kept(x, l, frames.last());
        lemma_step_alike(x.noted(l, frames.last()), y.noted(l, frames.last()), l);
    }
}

/// The same session with more audio to come.
spec fn with_more<T>(hearing: Hearing<T>, more: Seq<T>) -> Hearing<T> {
    Hearing { audio: hearing.audio + more, ..hearing }
}

/// Audio that has not been looked at changes nothing.
proof fn lemma_judged_with_more<T>(
    hearing: Hearing<T>,
    l: Limits,
    frames: Seq<Frame>,
    more: Seq<T>,
)
    requires
        kept(hearing, l),
        meeting_bounded(hearing, l),
        hearing.analyzed + frames.len() * l.frame <= hearing.audio.len(),
    ensures
        with_more(hearing, more).judged(l, frames) == (
            with_more(hearing.judged(l, frames).0, more),
            hearing.judged(l, frames).1,
        ),
    decreases frames.len(),
{
    if frames.len() > 0 {
        let n = frames.len() as int;
        assert(n * l.frame == (n - 1) * l.frame + l.frame) by (nonlinear_arith);
        let shorter = frames.drop_last();
        lemma_judged_with_more(hearing, l, shorter, more);
        lemma_judged_told(hearing, l, shorter);
        lemma_judged_kept(hearing, l, shorter);
        let x = hearing.judged(l, shorter).0;
        lemma_noted_kept(x, l, frames.last());
        lemma_step_with_more(x.noted(l, frames.last()), l, more);
    }
}

/// Audio that has not been looked at does not change a step.
proof fn lemma_step_with_more<T>(hearing: Hearing<T>, l: Limits, more: Seq<T>)
    requires
        hearing.safe(l),
    ensures
        with_more(hearing, more).step(l) == (
            with_more(hearing.step(l).0, more),
            hearing.step(l).1,
        ),
{
    let longer = with_more(hearing, more);
    assert forall|end: int| #[trigger] longer.cut(end) == (
        with_more(hearing.cut(end).0, more),
        hearing.cut(end).1,
    ) by {
        let to = hearing.clamped(end);
        assert(longer.audio.subrange(hearing.pending_start, to) =~= hearing.audio.subrange(
            hearing.pending_start,
            to,
        ));
    }
}

/// Frames one after another.
proof fn lemma_judged_on<T>(hearing: Hearing<T>, l: Limits, a: Seq<Frame>, b: Seq<Frame>)
    ensures
        hearing.judged(l, a + b) == (
            hearing.judged(l, a).0.judged(l, b).0,
            hearing.judged(l, a).1 + hearing.judged(l, a).0.judged(l, b).1,
        ),
    decreases b.len(),
{
    if b.len() == 0 {
        assert(a + b =~= a);
        assert(hearing.judged(l, a).1 + Seq::<Happening<T>>::empty() =~= hearing.judged(l, a).1);
    } else {
        lemma_judged_on(hearing, l, a, b.drop_last());
        assert((a + b).drop_last() =~= a + b.drop_last());
        assert((a + b).last() == b.last());
        let start = hearing.judged(l, a);
        let (before, events) = start.0.judged(l, b.drop_last());
        let more = before.noted(l, b.last()).step(l).1;
        assert(start.1 + events + more =~= start.1 + (events + more));
    }
}

/// A capture device delivers whatever block size it likes: audio that comes in
/// two blocks makes the same events as in one, and leaves the session in the same
/// state.
pub proof fn law_block_sizes_make_no_difference<T>(
    hearing: Hearing<T>,
    l: Limits,
    a: Seq<T>,
    first: Seq<Frame>,
    b: Seq<T>,
    second: Seq<Frame>,
)
    requires
        kept(hearing, l),
        meeting_bounded(hearing, l),
        hearing.audio.len() + a.len() + b.len() <= u64::MAX,
        hearing.analyzed + first.len() * l.frame <= hearing.audio.len() + a.len(),
        hearing.analyzed + (first.len() + second.len()) * l.frame <= hearing.audio.len() + a.len()
            + b.len(),
    ensures
        ({
            let (then, events) = hearing.pushed(l, a, first);
            let (now, more) = then.pushed(l, b, second);
            hearing.pushed(l, a + b, first + second) == (now, events + more)
        }),
{
    let n = first.len() as int;
    let m = second.len() as int;
    assert((n + m) * l.frame == n * l.frame + m * l.frame) by (nonlinear_arith);
    let opened = with_more(hearing, a);
    assert(kept(opened, l));
    let whole = with_more(hearing, a + b);
    assert(hearing.audio + (a + b) =~= hearing.audio + a + b);
    assert(whole == with_more(opened, b));
    // The first block.
    lemma_judged_with_more(opened, l, first, b);
    lemma_judged_told(opened, l, first);
    lemma_judged_kept(opened, l, first);
    let mid = opened.judged(l, first).0;
    // The second one, with what was trimmed between them and without.
    let x = with_more(mid, b);
    let y = with_more(mid.trimmed(l), b);
    lemma_trimmed_alike(mid, l);
    assert(alike(x, y, l));
    assert(kept(x, l));
    lemma_judged_alike(x, y, l, second);
    lemma_judged_kept(x, l, second);
    lemma_alike_trimmed(x.judged(l, second).0, y.judged(l, second).0, l);
    lemma_judged_on(whole, l, first, second);
}

/// The audio of each meeting that some events tell of: its chunks in one piece.
pub open spec fn meetings<T>(events: Seq<Happening<T>>) -> Seq<Seq<T>>
    decreases events.len(),
{
    if events.len() == 0 {
        Seq::empty()
    } else {
        let before = meetings(events.drop_last());
        match events.last() {
            Happening::Started => before.push(Seq::empty()),
            Happening::Chunk(chunk) => if before.len() > 0 {
                before.drop_last().push(before.last() + chunk)
            } else {
                before
            },
            Happening::Ended { .. } => before,
        }
    }
}

/// Whether the meetings stand in the audio at `spans`: each is one piece of what
/// has been handed over, and none begins before the one ahead of it has ended.
/// The meeting that runs is the last one.
pub open spec fn laid_out<T>(
    hearing: Hearing<T>,
    list: Seq<Seq<T>>,
    spans: Seq<(int, int)>,
) -> bool {
    &&& spans.len() == list.len()
    &&& forall|k: int|
        0 <= k < spans.len() ==> {
            &&& 0 <= (#[trigger] spans[k]).0 <= spans[k].1 <= hearing.pending_start
            &&& list[k] == hearing.audio.subrange(spans[k].0, spans[k].1)
        }
    &&& forall|j: int, k: int|
        0 <= j < k < spans.len() ==> (#[trigger] spans[j]).1 <= (#[trigger] spans[k]).0
    &&& hearing.meeting matches Some(meeting) ==> spans.len() > 0 && spans.last() == (
        meeting.start as int,
        hearing.pending_start,
    )
}

/// Handing over a chunk grows the last meeting.
proof fn lemma_cut_laid_out<T>(
    hearing: Hearing<T>,
    l: Limits,
    end: int,
    events: Seq<Happening<T>>,
    spans: Seq<(int, int)>,
) -> (r: Seq<(int, int)>)
    requires
        hearing.safe(l),
        hearing.meeting is Some,
        laid_out(hearing, meetings(events), spans),
    ensures
        laid_out(hearing.cut(end).0, meetings(events + hearing.cut(end).1), r),
{
    let to = hearing.clamped(end);
    if to == hearing.pending_start {
        assert(events + hearing.cut(end).1 =~= events);
        spans
    } else {
        let start = hearing.meeting->Some_0.start as int;
        let chunk = hearing.audio.subrange(hearing.pending_start, to);
        let all = events + hearing.cut(end).1;
        assert(all.drop_last() =~= events);
        assert(all.last() == Happening::Chunk(chunk));
        let last = spans.len() - 1;
        assert(meetings(events)[last] == hearing.audio.subrange(spans[last].0, spans[last].1));
        assert(hearing.audio.subrange(start, to) =~= meetings(events).last() + chunk);
        spans.drop_last().push((start, to))
    }
}

/// Throwing away audio between meetings moves none of them.
proof fn lemma_trimmed_laid_out<T>(
    hearing: Hearing<T>,
    l: Limits,
    list: Seq<Seq<T>>,
    spans: Seq<(int, int)>,
)
    requires
        hearing.safe(l),
        laid_out(hearing, list, spans),
    ensures
        laid_out(hearing.trimmed(l), list, spans),
{
}

/// The end of a meeting leaves it where it is.
proof fn lemma_ended_laid_out<T>(
    hearing: Hearing<T>,
    l: Limits,
    events: Seq<Happening<T>>,
    spans: Seq<(int, int)>,
) -> (r: Seq<(int, int)>)
    requires
        hearing.safe(l),
        hearing.meeting is Some,
        laid_out(hearing, meetings(events), spans),
    ensures
        laid_out(hearing.ended(l).0, meetings(events + hearing.ended(l).1), r),
{
    let end = hearing.meeting_end(l);
    let r = lemma_cut_laid_out(hearing, l, end, events, spans);
    lemma_cut_told(hearing, l, end);
    let (rest, chunk) = hearing.cut(end);
    let all = events + hearing.ended(l).1;
    assert(all.drop_last() =~= events + chunk);
    lemma_trimmed_laid_out(Hearing { meeting: None, ..rest }, l, meetings(events + chunk), r);
    r
}

/// A step leaves the meetings in order.
proof fn lemma_step_laid_out<T>(
    hearing: Hearing<T>,
    l: Limits,
    events: Seq<Happening<T>>,
    spans: Seq<(int, int)>,
) -> (r: Seq<(int, int)>)
    requires
        hearing.safe(l),
        laid_out(hearing, meetings(events), spans),
    ensures
        laid_out(hearing.step(l).0, meetings(events + hearing.step(l).1), r),
{
    let (after, more) = hearing.step(l);
    let all = events + more;
    assert(events + Seq::<Happening<T>>::empty() =~= events);
    match hearing.meeting {
        None => {
            if after.meeting is Some {
                lemma_first_in_window(hearing.window, hearing.analyzed);
                assert(all.drop_last() =~= events);
                let start = after.pending_start;
                assert(after.audio.subrange(start, start) =~= Seq::<T>::empty());
                spans.push((start, start))
            } else {
                spans
            }
        },
        Some(_) => {
            let silence = hearing.analyzed - hearing.speech_end;
            let pending = hearing.analyzed - hearing.pending_start;
            if silence >= l.gap {
                lemma_ended_laid_out(hearing, l, events, spans)
            } else if hearing.speech_end <= hearing.pending_start {
                spans
            } else if pending >= l.chunk && silence >= l.pause {
                lemma_cut_laid_out(hearing, l, hearing.meeting_end(l), events, spans)
            } else if pending >= l.max_chunk {
                lemma_cut_laid_out(
                    hearing,
                    l,
                    match quietest(hearing.quiet, hearing.pending_start) {
                        Some((at, _)) => at as int,
                        None => hearing.analyzed,
                    },
                    events,
                    spans,
                )
            } else {
                spans
            }
        },
    }
}

/// Some frames leave the meetings in order.
proof fn lemma_judged_laid_out<T>(
    hearing: Hearing<T>,
    l: Limits,
    frames: Seq<Frame>,
    events: Seq<Happening<T>>,
    spans: Seq<(int, int)>,
) -> (r: Seq<(int, int)>)
    requires
        hearing.safe(l),
        hearing.analyzed + frames.len() * l.frame <= hearing.audio.len(),
        laid_out(hearing, meetings(events), spans),
    ensures
        laid_out(hearing.judged(l, frames).0, meetings(events + hearing.judged(l, frames).1), r),
    decreases frames.len(),
{
    if frames.len() > 0 {
        let n = frames.len() as int;
        assert(n * l.frame == (n - 1) * l.frame + l.frame) by (nonlinear_arith);
        let shorter = frames.drop_last();
        let mid = lemma_judged_laid_out(hearing, l, shorter, events, spans);
        lemma_judged_told(hearing, l, shorter);
        let (before, so_far) = hearing.judged(l, shorter);
        lemma_noted_safe(before, l, frames.last());
        let noted = before.noted(l, frames.last());
        assert(laid_out(noted, meetings(events + so_far), mid));
        let r = lemma_step_laid_out(noted, l, events + so_far, mid);
        assert(events + so_far + noted.step(l).1 =~= events + (so_far + noted.step(l).1));
        r
    } else {
        assert(events + Seq::<Happening<T>>::empty() =~= events);
        spans
    }
}

/// A session: what has been heard and told after some blocks of audio, each with
/// what the level gate says of the frames that it completes.
pub open spec fn session<T>(l: Limits, blocks: Seq<(Seq<T>, Seq<Frame>)>) -> (
    Hearing<T>,
    Seq<Happening<T>>,
)
    decreases blocks.len(),
{
    if blocks.len() == 0 {
        (Hearing::empty(), Seq::empty())
    } else {
        let (before, events) = session(l, blocks.drop_last());
        let (after, more) = before.pushed(l, blocks.last().0, blocks.last().1);
        (after, events + more)
    }
}

/// The blocks one behind the other.
pub open spec fn stream<T>(blocks: Seq<(Seq<T>, Seq<Frame>)>) -> Seq<T>
    decreases blocks.len(),
{
    if blocks.len() == 0 {
        Seq::empty()
    } else {
        stream(blocks.drop_last()) + blocks.last().0
    }
}

/// Whether the level gate has looked at no more than had arrived, all through a
/// session.
pub open spec fn gated<T>(l: Limits, blocks: Seq<(Seq<T>, Seq<Frame>)>) -> bool
    decreases blocks.len(),
{
    blocks.len() > 0 ==> {
        let shorter = blocks.drop_last();
        &&& gated(l, shorter)
        &&& stream(blocks).len() <= u64::MAX
        &&& session(l, shorter).0.analyzed + blocks.last().1.len() * l.frame <= stream(blocks).len()
    }
}

/// A session so far, with where its meetings stand.
proof fn lemma_session_laid_out<T>(l: Limits, blocks: Seq<(Seq<T>, Seq<Frame>)>) -> (r: Seq<
    (int, int),
>)
    requires
        l.frame > 0,
        gated(l, blocks),
    ensures
        session(l, blocks).0.safe(l),
        session(l, blocks).0.audio == stream(blocks),
        laid_out(session(l, blocks).0, meetings(session(l, blocks).1), r),
    decreases blocks.len(),
{
    if blocks.len() == 0 {
        law_a_session_starts_in_order::<T>(l);
        Seq::empty()
    } else {
        let (block, frames) = blocks.last();
        let mid = lemma_session_laid_out(l, blocks.drop_last());
        let (before, events) = session(l, blocks.drop_last());
        let opened = Hearing { audio: before.audio + block, ..before };
        assert forall|k: int| 0 <= k < mid.len() implies meetings(events)[k]
            == opened.audio.subrange((#[trigger] mid[k]).0, mid[k].1) by {
            assert(opened.audio.subrange(mid[k].0, mid[k].1) =~= before.audio.subrange(
                mid[k].0,
                mid[k].1,
            ));
        }
        assert(laid_out(opened, meetings(events), mid));
        let r = lemma_judged_laid_out(opened, l, frames, events, mid);
        lemma_judged_told(opened, l, frames);
        let (after, more) = opened.judged(l, frames);
        lemma_trimmed_laid_out(after, l, meetings(events + more), r);
        r
    }
}

/// In a session of any number of meetings, whatever the blocks that the audio
/// comes in, each meeting is one piece of the audio, without a gap or an overlap
/// between its chunks; and the pieces are disjoint and stand in the order of the
/// meetings. That stays so when the session is stopped.
pub proof fn law_meetings_follow_one_another<T>(l: Limits, blocks: Seq<(Seq<T>, Seq<Frame>)>)
    requires
        l.frame > 0,
        gated(l, blocks),
    ensures
        ({
            let (now, events) = session(l, blocks);
            let (stopped, more) = now.finished(l);
            &&& now.audio == stream(blocks)
            &&& stopped.audio == stream(blocks)
            &&& exists|spans: Seq<(int, int)>| #[trigger] laid_out(now, meetings(events), spans)
            &&& exists|spans: Seq<(int, int)>| #[trigger]
                laid_out(stopped, meetings(events + more), spans)
        }),
{
    let spans = lemma_session_laid_out(l, blocks);
    let (now, events) = session(l, blocks);
    if now.meeting is Some {
        let all = now.audio.len() as int;
        let caught_up = Hearing {
            analyzed: all,
            speech_end: if now.voiced {
                all
            } else {
                now.speech_end
            },
            ..now
        };
        assert(laid_out(caught_up, meetings(events), spans));
        let r = lemma_ended_laid_out(caught_up, l, events, spans);
        assert(laid_out(now.finished(l).0, meetings(events + now.finished(l).1), r));
    } else {
        assert(events + Seq::<Happening<T>>::empty() =~= events);
        assert(laid_out(now.finished(l).0, meetings(events + now.finished(l).1), spans));
    }
}

/// The audio that some events hand over, in one piece.
pub open spec fn handed<T>(events: Seq<Happening<T>>) -> Seq<T>
    decreases events.len(),
{
    if events.len() == 0 {
        Seq::empty()
    } else {
        match events.last() {
            Happening::Chunk(chunk) => handed(events.drop_last()) + chunk,
            _ => handed(events.drop_last()),
        }
    }
}

/// What a cut hands over is the audio up to where it is made.
proof fn lemma_cut_handed<T>(hearing: Hearing<T>, l: Limits, end: int)
    requires
        hearing.safe(l),
    ensures
        ({
            let to = hearing.clamped(end);
            &&& hearing.cut(end).0 == Hearing { pending_start: to, ..hearing }
            &&& handed(hearing.cut(end).1) == hearing.audio.subrange(hearing.pending_start, to)
        }),
{
    let to = hearing.clamped(end);
    let events = hearing.cut(end).1;
    if to == hearing.pending_start {
        assert(handed(events) =~= hearing.audio.subrange(to, to));
    } else {
        assert(events.drop_last() =~= Seq::<Happening<T>>::empty());
        assert(handed(events.drop_last()) =~= Seq::<T>::empty());
        assert(handed(events) =~= hearing.audio.subrange(hearing.pending_start, to));
    }
}

/// Whether a meeting that started at `start` has been told to its end: with what
/// was handed over of it before, the events hand over all its audio up to `most`,
/// and at least up to `least`, without a gap; and they end it.
pub open spec fn told_to_the_end<T>(
    hearing: Hearing<T>,
    events: Seq<Happening<T>>,
    least: int,
    most: int,
) -> bool {
    &&& events.len() > 0 && events.last() is Ended
    &&& exists|to: int|
        {
            &&& least <= to <= most
            &&& hearing.pending_start <= to
            &&& hearing.audio.subrange(
                hearing.meeting->Some_0.start as int,
                hearing.pending_start,
            ) + handed(events) == #[trigger] hearing.audio.subrange(
                hearing.meeting->Some_0.start as int,
                to,
            )
        }
}

/// A meeting that ends has been handed over in full.
proof fn lemma_ended_in_full<T>(hearing: Hearing<T>, l: Limits)
    requires
        hearing.safe(l),
        hearing.meeting is Some,
    ensures
        told_to_the_end(
            hearing,
            hearing.ended(l).1,
            lesser(hearing.speech_end + l.tail, hearing.analyzed),
            hearing.analyzed,
        ),
        hearing.ended(l).0.meeting is None,
        hearing.ended(l).0.audio == hearing.audio,
{
    let end = hearing.meeting_end(l);
    lemma_ended_told(hearing, l);
    lemma_cut_handed(hearing, l, end);
    let to = hearing.clamped(end);
    let (rest, chunk) = hearing.cut(end);
    let events = hearing.ended(l).1;
    assert(events.drop_last() =~= chunk);
    let start = hearing.meeting->Some_0.start as int;
    assert(hearing.audio.subrange(start, hearing.pending_start) + handed(events)
        =~= hearing.audio.subrange(start, to));
}

/// Nothing that was said is lost. When a meeting ends, because the room stayed
/// silent or because the input is stopped, whether or not anyone was talking just
/// then, all its audio has been handed over up to its last word and the tail
/// behind it, as far as that was heard.
pub proof fn law_nothing_said_is_lost<T>(hearing: Hearing<T>, l: Limits)
    requires
        hearing.safe(l),
        hearing.meeting is Some,
    ensures
        hearing.step(l).0.meeting is None ==> told_to_the_end(
            hearing,
            hearing.step(l).1,
            if hearing.speech_end + l.tail < hearing.analyzed {
                hearing.speech_end + l.tail
            } else {
                hearing.analyzed
            },
            hearing.analyzed,
        ),
        hearing.finished(l).0.meeting is None,
        told_to_the_end(
            hearing,
            hearing.finished(l).1,
            if hearing.voiced || hearing.speech_end + l.tail >= hearing.audio.len() {
                hearing.audio.len() as int
            } else {
                hearing.speech_end + l.tail
            },
            hearing.audio.len() as int,
        ),
{
    if hearing.step(l).0.meeting is None {
        let silence = hearing.analyzed - hearing.speech_end;
        if silence >= l.gap {
            lemma_ended_in_full(hearing, l);
        } else {
            lemma_cut_told(hearing, l, hearing.meeting_end(l));
            lemma_cut_told(
                hearing,
                l,
                match quietest(hearing.quiet, hearing.pending_start) {
                    Some((at, _)) => at as int,
                    None => hearing.analyzed,
                },
            );
        }
    }
    let all = hearing.audio.len() as int;
    let caught_up = Hearing {
        analyzed: all,
        speech_end: if hearing.voiced {
            all
        } else {
            hearing.speech_end
        },
        ..hearing
    };
    lemma_ended_in_full(caught_up, l);
    let start = hearing.meeting->Some_0.start as int;
    let to = choose|to: int|
        {
            &&& lesser(caught_up.speech_end + l.tail, all) <= to <= all
            &&& caught_up.pending_start <= to
            &&& caught_up.audio.subrange(start, caught_up.pending_start) + handed(
                caught_up.ended(l).1,
            ) == #[trigger] caught_up.audio.subrange(start, to)
        };
    assert(hearing.audio.subrange(start, hearing.pending_start) + handed(hearing.finished(l).1)
        == hearing.audio.subrange(start, to));
}

/// A meeting that goes on is handed over only in time. Once a chunk is worth it
/// and there is a pause, everything said so far is handed over; without a pause,
/// a chunk that has reached the limit is cut behind the quietest of the last
/// frames; otherwise, and while there is nothing but silence since the last
/// chunk, nothing is handed over.
pub proof fn law_chunks_are_cut_in_time<T>(hearing: Hearing<T>, l: Limits)
    requires
        kept(hearing, l),
        hearing.quiet.len() > 0,
        hearing.meeting is Some,
        hearing.analyzed - hearing.speech_end < l.gap,
    ensures
        ({
            let (now, events) = hearing.step(l);
            let pending = hearing.analyzed - hearing.pending_start;
            let said = hearing.speech_end > hearing.pending_start;
            let pause = hearing.analyzed - hearing.speech_end >= l.pause;
            &&& now.meeting == hearing.meeting
            &&& handed(events) == hearing.audio.subrange(hearing.pending_start, now.pending_start)
            &&& hearing.pending_start <= now.pending_start <= hearing.analyzed
            &&& said && pending >= l.chunk && pause ==> {
                &&& now.pending_start >= hearing.speech_end
                &&& now.pending_start == hearing.analyzed || now.pending_start == hearing.speech_end
                    + l.tail
            }
            &&& said && pending >= l.max_chunk && !(pending >= l.chunk && pause) ==> {
                &&& now.pending_start > hearing.pending_start
                &&& exists|k: int|
                    {
                        &&& 0 <= k < hearing.quiet.len()
                        &&& (#[trigger] hearing.quiet[k]).0 == now.pending_start
                        &&& forall|j: int|
                            0 <= j < hearing.quiet.len() && (#[trigger] hearing.quiet[j]).0
                                > hearing.pending_start ==> hearing.quiet[k].1 <= hearing.quiet[j].1
                                && (j < k ==> hearing.quiet[k].1 < hearing.quiet[j].1)
                    }
            }
            &&& !said || pending < l.max_chunk && !(pending >= l.chunk && pause)
                ==> now.pending_start == hearing.pending_start
        }),
{
    let pending = hearing.analyzed - hearing.pending_start;
    let pause = hearing.analyzed - hearing.speech_end >= l.pause;
    lemma_cut_handed(hearing, l, hearing.pending_start);
    if hearing.speech_end > hearing.pending_start {
        if pending >= l.chunk && pause {
            lemma_cut_handed(hearing, l, hearing.meeting_end(l));
        } else if pending >= l.max_chunk {
            lemma_quietest(hearing.quiet, hearing.pending_start);
            lemma_quietest_least(hearing.quiet, hearing.pending_start);
            let last = hearing.quiet.len() - 1;
            assert(0 * l.frame == 0);
            assert(hearing.quiet[last].0 + (hearing.quiet.len() - 1 - last) * l.frame
                == hearing.analyzed);
            assert(hearing.quiet[last].0 > hearing.pending_start);
            let best = quietest(hearing.quiet, hearing.pending_start)->Some_0;
            let k = choose|k: int|
                {
                    &&& 0 <= k < hearing.quiet.len()
                    &&& #[trigger] hearing.quiet[k] == best
                    &&& forall|j: int|
                        0 <= j < hearing.quiet.len() && (#[trigger] hearing.quiet[j]).0
                            > hearing.pending_start ==> best.1 <= hearing.quiet[j].1 && (j < k
                            ==> best.1 < hearing.quiet[j].1)
                };
            let behind = hearing.quiet.len() - 1 - k;
            assert(0 <= behind * l.frame) by (nonlinear_arith)
                requires
                    0 <= behind,
                    l.frame > 0,
            ;
            assert(hearing.quiet[k].0 + behind * l.frame == hearing.analyzed);
            lemma_cut_handed(hearing, l, best.0 as int);
        } else {
            assert(handed(hearing.step(l).1) =~= hearing.audio.subrange(
                hearing.pending_start,
                hearing.pending_start,
            ));
        }
    } else {
        assert(handed(hearing.step(l).1) =~= hearing.audio.subrange(
            hearing.pending_start,
            hearing.pending_start,
        ));
    }
}

/// No frame behind `after` is quieter than the quietest, and none before it as
/// quiet.
proof fn lemma_quietest_least(quiet: Seq<(u64, i32)>, after: int)
    ensures
        quietest(quiet, after) matches Some(best) ==> exists|k: int|
            {
                &&& 0 <= k < quiet.len()
                &&& #[trigger] quiet[k] == best
                &&& forall|j: int|
                    0 <= j < quiet.len() && (#[trigger] quiet[j]).0 > after ==> best.1 <= quiet[j].1
                        && (j < k ==> best.1 < quiet[j].1)
            },
    decreases quiet.len(),
{
    if quiet.len() > 0 {
        let shorter = quiet.drop_last();
        let n = shorter.len() as int;
        lemma_quietest_least(shorter, after);
        lemma_quietest(shorter, after);
        assert(forall|j: int| 0 <= j < n ==> #[trigger] quiet[j] == shorter[j]);
        match quietest(shorter, after) {
            Some(best) => {
                let k = choose|k: int|
                    {
                        &&& 0 <= k < shorter.len()
                        &&& #[trigger] shorter[k] == best
                        &&& forall|j: int|
                            0 <= j < shorter.len() && (#[trigger] shorter[j]).0 > after ==> best.1
                                <= shorter[j].1 && (j < k ==> best.1 < shorter[j].1)
                    };
                if quiet.last().0 > after && quiet.last().1 < best.1 {
                    assert(quiet[n] == quiet.last());
                } else {
                    assert(quiet[k] == best);
                }
            },
            None => {
                if quiet.last().0 > after {
                    assert(quiet[n] == quiet.last());
                }
            },
        }
    }
}

/// The verdicts of a session one after another.
pub open spec fn verdicts<T>(blocks: Seq<(Seq<T>, Seq<Frame>)>) -> Seq<Frame>
    decreases blocks.len(),
{
    if blocks.len() == 0 {
        Seq::empty()
    } else {
        verdicts(blocks.drop_last()) + blocks.last().1
    }
}

/// Whether what has been heard is what `frames` say: the level gate has looked at
/// that many frames; the last word ends with the last voiced one; the start window
/// holds the frames of its last samples, and the list of quiet spots the last two
/// seconds.
pub open spec fn as_heard<T>(hearing: Hearing<T>, l: Limits, frames: Seq<Frame>) -> bool {
    let n = frames.len() as int;
    &&& hearing.analyzed == n * l.frame
    &&& hearing.voiced == (n > 0 && frames[n - 1].voiced)
    &&& {
        ||| hearing.speech_end == 0 && forall|k: int|
            0 <= k < n ==> !(#[trigger] frames[k]).voiced
        ||| exists|k: int|
            {
                &&& 0 <= k < n
                &&& (#[trigger] frames[k]).voiced
                &&& hearing.speech_end == (k + 1) * l.frame
                &&& forall|j: int| k < j < n ==> !(#[trigger] frames[j]).voiced
            }
    }
    &&& hearing.window.len() <= n
    &&& forall|j: int|
        0 <= j < hearing.window.len() ==> {
            let k = n - hearing.window.len() + j;
            &&& (#[trigger] hearing.window[j]).0 == (k + 1) * l.frame
            &&& hearing.window[j].1 == frames[k].voiced
            &&& hearing.window[j].0 + l.start_window > hearing.analyzed
        }
    &&& hearing.window.len() < n ==> (n - hearing.window.len()) * l.frame + l.start_window
        <= hearing.analyzed
    &&& hearing.quiet.len() == if n < 100 {
        n
    } else {
        100
    }
    &&& forall|j: int|
        0 <= j < hearing.quiet.len() ==> {
            let k = n - hearing.quiet.len() + j;
            &&& (#[trigger] hearing.quiet[j]).0 == (k + 1) * l.frame
            &&& hearing.quiet[j].1 == frames[k].level
        }
}

/// One more frame is heard as it is.
proof fn lemma_noted_as_heard<T>(hearing: Hearing<T>, l: Limits, frames: Seq<Frame>, frame: Frame)
    requires
        hearing.safe(l),
        as_heard(hearing, l, frames),
        hearing.analyzed + l.frame <= hearing.audio.len(),
    ensures
        as_heard(hearing.noted(l, frame), l, frames.push(frame)),
{
    let n = frames.len() as int;
    let all = frames.push(frame);
    let end = hearing.analyzed + l.frame;
    let now = hearing.noted(l, frame);
    let longer = hearing.window.push((end as u64, frame.voiced));
    let w = hearing.window.len() as int;
    assert((n + 1) * l.frame == n * l.frame + l.frame) by (nonlinear_arith);
    lemma_recent(longer, l.start_window, end);
    let d = choose|d: int|
        0 <= d <= longer.len() && recent(longer, l.start_window, end) == #[trigger] longer.skip(d)
            && (forall|k: int| 0 <= k < d ==> (#[trigger] longer[k]).0 + l.start_window <= end);
    assert forall|j: int| 0 <= j < now.window.len() implies {
        let k = n + 1 - now.window.len() + j;
        &&& (#[trigger] now.window[j]).0 == (k + 1) * l.frame
        &&& now.window[j].1 == all[k].voiced
        &&& now.window[j].0 + l.start_window > now.analyzed
    } by {
        let k = n + 1 - now.window.len() + j;
        assert(now.window[j] == longer[d + j]);
        assert(now.window[0] == longer[d]);
        if d + j < w {
            assert(longer[d + j] == hearing.window[d + j]);
            assert(n - w + (d + j) == k);
        }
        if j > 0 {
            if d < w {
                assert(longer[d] == hearing.window[d]);
            }
            let first = n - w + d;
            assert((first + 1) * l.frame <= (k + 1) * l.frame) by (nonlinear_arith)
                requires
                    first <= k,
                    l.frame > 0,
            ;
        }
    }
    if now.window.len() < n + 1 {
        if d > 0 {
            assert(longer[d - 1].0 + l.start_window <= end);
            if d - 1 < w {
                assert(longer[d - 1] == hearing.window[d - 1]);
            }
        } else {
            assert((n - w) * l.frame + l.start_window <= hearing.analyzed);
        }
    }
    let more = hearing.quiet.push((end as u64, frame.level));
    let shift = if more.len() > QUIET_FRAMES {
        more.len() - QUIET_FRAMES
    } else {
        0
    };
    assert forall|j: int| 0 <= j < now.quiet.len() implies {
        let k = n + 1 - now.quiet.len() + j;
        &&& (#[trigger] now.quiet[j]).0 == (k + 1) * l.frame
        &&& now.quiet[j].1 == all[k].level
    } by {
        assert(now.quiet[j] == more[j + shift]);
        if j + shift < hearing.quiet.len() {
            assert(more[j + shift] == hearing.quiet[j + shift]);
        }
    }
    if frame.voiced {
        assert(all[n].voiced);
    } else if exists|k: int|
        {
            &&& 0 <= k < n
            &&& (#[trigger] frames[k]).voiced
            &&& hearing.speech_end == (k + 1) * l.frame
            &&& forall|j: int| k < j < n ==> !(#[trigger] frames[j]).voiced
        } {
        let k = choose|k: int|
            {
                &&& 0 <= k < n
                &&& (#[trigger] frames[k]).voiced
                &&& hearing.speech_end == (k + 1) * l.frame
                &&& forall|j: int| k < j < n ==> !(#[trigger] frames[j]).voiced
            };
        assert(all[k] == frames[k]);
        assert forall|j: int| k < j < n + 1 implies !(#[trigger] all[j]).voiced by {
            if j < n {
                assert(all[j] == frames[j]);
            }
        }
    } else {
        assert forall|k: int| 0 <= k < n + 1 implies !(#[trigger] all[k]).voiced by {
            if k < n {
                assert(all[k] == frames[k]);
            }
        }
    }
}

/// What is decided changes nothing of what has been heard.
proof fn lemma_step_as_heard<T>(hearing: Hearing<T>, l: Limits, frames: Seq<Frame>)
    requires
        as_heard(hearing, l, frames),
    ensures
        as_heard(hearing.step(l).0, l, frames),
        as_heard(hearing.trimmed(l), l, frames),
{
    let now = hearing.step(l).0;
    assert(now == (Hearing { pending_start: now.pending_start, meeting: now.meeting, ..hearing }));
    let idle = hearing.trimmed(l);
    assert(idle == (Hearing { pending_start: idle.pending_start, ..hearing }));
}

/// Some frames are heard as they are.
proof fn lemma_judged_as_heard<T>(
    hearing: Hearing<T>,
    l: Limits,
    frames: Seq<Frame>,
    more: Seq<Frame>,
)
    requires
        hearing.safe(l),
        as_heard(hearing, l, frames),
        hearing.analyzed + more.len() * l.frame <= hearing.audio.len(),
    ensures
        as_heard(hearing.judged(l, more).0, l, frames + more),
    decreases more.len(),
{
    if more.len() > 0 {
        let n = more.len() as int;
        assert(n * l.frame == (n - 1) * l.frame + l.frame) by (nonlinear_arith);
        let shorter = more.drop_last();
        lemma_judged_as_heard(hearing, l, frames, shorter);
        lemma_judged_told(hearing, l, shorter);
        let before = hearing.judged(l, shorter).0;
        lemma_noted_as_heard(before, l, frames + shorter, more.last());
        assert((frames + shorter).push(more.last()) =~= frames + more);
        lemma_step_as_heard(before.noted(l, more.last()), l, frames + more);
    } else {
        assert(frames + more =~= frames);
    }
}

/// All through a session, what has been heard is what the level gate said of each
/// frame, in order.
pub proof fn law_frames_are_heard_as_they_are<T>(l: Limits, blocks: Seq<(Seq<T>, Seq<Frame>)>)
    requires
        l.frame > 0,
        gated(l, blocks),
    ensures
        as_heard(session(l, blocks).0, l, verdicts(blocks)),
    decreases blocks.len(),
{
    if blocks.len() == 0 {
        assert(0 * l.frame == 0);
    } else {
        let (block, frames) = blocks.last();
        law_frames_are_heard_as_they_are(l, blocks.drop_last());
        let _ = lemma_session_laid_out(l, blocks.drop_last());
        let before = session(l, blocks.drop_last()).0;
        let opened = Hearing { audio: before.audio + block, ..before };
        assert(as_heard(opened, l, verdicts(blocks.drop_last())));
        lemma_judged_as_heard(opened, l, verdicts(blocks.drop_last()), frames);
        lemma_step_as_heard(opened.judged(l, frames).0, l, verdicts(blocks));
    }
}

/// How many frames of a window are voiced, counted one by one.
proof fn lemma_voiced_count(window: Seq<(u64, bool)>)
    ensures
        voiced_count(window) == window.filter(|f: (u64, bool)| f.1).len(),
    decreases window.len(),
{
    reveal(Seq::filter);
    if window.len() > 0 {
        lemma_voiced_count(window.drop_last());
    }
}

/// A meeting starts with the frame that makes the speech in the start window
/// enough, and with no other. Its first word is the first voiced frame of the
/// window; its audio starts the pre-roll before that, or where audio is still
/// there; and all speech of the window counts.
pub proof fn law_a_meeting_starts_before_its_first_word<T>(hearing: Hearing<T>, l: Limits)
    requires
        kept(hearing, l),
        hearing.meeting is None,
    ensures
        ({
            let (now, events) = hearing.step(l);
            let voiced = hearing.window.filter(|f: (u64, bool)| f.1);
            let enough = voiced.len() > 0 && voiced.len() * l.frame >= l.start;
            &&& handed(events).len() == 0
            &&& !enough ==> now == hearing && events.len() == 0
            &&& enough ==> {
                &&& events == seq![Happening::<T>::Started]
                &&& now.meeting matches Some(meeting) && {
                    &&& meeting.first == voiced[0].0 - l.frame
                    &&& meeting.speech == voiced.len() * l.frame
                    &&& meeting.start == now.pending_start
                    &&& meeting.start >= hearing.pending_start
                    &&& meeting.start == hearing.pending_start || meeting.start + l.preroll
                        == meeting.first
                    &&& meeting.start + l.preroll >= meeting.first
                }
            }
        }),
{
    let window = hearing.window;
    let voiced = window.filter(|f: (u64, bool)| f.1);
    lemma_voiced_count(window);
    lemma_first_voiced_filter(window);
    lemma_first_voiced_at(window);
    lemma_window_speech(window, l.frame as int, hearing.speech_end);
    let (now, events) = hearing.step(l);
    match first_voiced(window) {
        Some(end) => {
            let at = choose|k: int|
                0 <= k < window.len() && #[trigger] window[k] == (end, true) && forall|j: int|
                    0 <= j < k ==> !(#[trigger] window[j]).1;
            assert(l.frame <= window[at].0 <= hearing.analyzed);
            assert(voiced.len() * l.frame <= hearing.analyzed);
            let first = end - l.frame;
            assert(hearing.first_speech(l) == Some(first));
            if voiced.len() * l.frame >= l.start {
                let start = hearing.meeting_start(l, first);
                assert(events =~= seq![Happening::<T>::Started]);
                assert(events.drop_last() =~= Seq::<Happening<T>>::empty());
                assert(handed(events.drop_last()).len() == 0);
                assert(hearing.clamped(start) == start);
                assert(now.meeting->Some_0.speech == voiced.len() * l.frame);
            } else {
                assert(events.len() == 0);
                assert(handed(events).len() == 0);
            }
        },
        None => {
            assert(events.len() == 0);
            assert(handed(events).len() == 0);
        },
    }
}

/// The first voiced frame is the first of those that are.
proof fn lemma_first_voiced_filter(window: Seq<(u64, bool)>)
    ensures
        match first_voiced(window) {
            Some(end) => window.filter(|f: (u64, bool)| f.1).len() > 0 && window.filter(
                |f: (u64, bool)| f.1,
            )[0].0 == end,
            None => window.filter(|f: (u64, bool)| f.1).len() == 0,
        },
    decreases window.len(),
{
    reveal(Seq::filter);
    if window.len() > 0 {
        lemma_first_voiced_filter(window.drop_last());
        lemma_first_voiced_last(window);
    }
}

/// Between meetings audio is thrown away only as far as no meeting can need it:
/// the pre-roll before the first voiced frame of the start window stays, or,
/// without one, before where the level gate has looked.
pub proof fn law_the_preroll_is_kept<T>(hearing: Hearing<T>, l: Limits)
    requires
        kept(hearing, l),
        hearing.meeting is None,
    ensures
        ({
            let now = hearing.trimmed(l);
            let voiced = hearing.window.filter(|f: (u64, bool)| f.1);
            &&& now == (Hearing { pending_start: now.pending_start, ..hearing })
            &&& hearing.pending_start <= now.pending_start
            &&& now.pending_start == hearing.pending_start || now.pending_start + l.preroll
                <= if voiced.len() > 0 {
                voiced[0].0 - l.frame
            } else {
                hearing.analyzed
            }
        }),
{
    lemma_first_voiced_filter(hearing.window);
    lemma_first_in_window(hearing.window, hearing.analyzed);
}

/// A meeting is kept where it holds enough speech, and told with how much it was.
pub proof fn law_enough_speech_is_kept<T>(hearing: Hearing<T>, l: Limits)
    requires
        hearing.meeting is Some,
    ensures
        hearing.ended(l).1.last() matches Happening::Ended { speech, keep, .. } && speech
            == hearing.meeting->Some_0.speech && keep == (speech >= l.min_meeting),
        hearing.finished(l).1.last() matches Happening::Ended { speech, keep, .. } && speech
            == hearing.meeting->Some_0.speech && keep == (speech >= l.min_meeting),
{
}

/// Every limit is the whole samples of its time, and a meeting needs at least the
/// time that is asked for.
pub proof fn law_limits_are_times(cfg: Config, rate: u32)
    requires
        rate > 0,
        cfg.gap * rate < 0x1_0000_0000_0000_0000 * 1_000_000,
        cfg.start * rate < 0x1_0000_0000_0000_0000 * 1_000_000,
        cfg.start_window * rate < 0x1_0000_0000_0000_0000 * 1_000_000,
        cfg.chunk * rate < 0x1_0000_0000_0000_0000 * 1_000_000,
        cfg.max_chunk * rate < 0x1_0000_0000_0000_0000 * 1_000_000,
        cfg.pause * rate < 0x1_0000_0000_0000_0000 * 1_000_000,
        cfg.preroll * rate < 0x1_0000_0000_0000_0000 * 1_000_000,
        cfg.tail * rate < 0x1_0000_0000_0000_0000 * 1_000_000,
    ensures
        ({
            let l = Limits::of(cfg, rate);
            &&& l.gap * 1_000_000 <= cfg.gap * rate < (l.gap + 1) * 1_000_000
            &&& l.start * 1_000_000 <= cfg.start * rate < (l.start + 1) * 1_000_000
            &&& l.start_window * 1_000_000 <= cfg.start_window * rate < (l.start_window + 1)
                * 1_000_000
            &&& l.chunk * 1_000_000 <= cfg.chunk * rate < (l.chunk + 1) * 1_000_000
            &&& l.max_chunk * 1_000_000 <= cfg.max_chunk * rate < (l.max_chunk + 1) * 1_000_000
            &&& l.pause * 1_000_000 <= cfg.pause * rate < (l.pause + 1) * 1_000_000
            &&& l.preroll * 1_000_000 <= cfg.preroll * rate < (l.preroll + 1) * 1_000_000
            &&& l.tail * 1_000_000 <= cfg.tail * rate < (l.tail + 1) * 1_000_000
            &&& (l.min_meeting - 1) * 1_000_000 < cfg.min_meeting * rate <= l.min_meeting
                * 1_000_000
            &&& l.frame >= 1
            &&& rate >= 50 ==> -25 <= l.frame * 50 - rate <= 25
        }),
{
    assert(0 <= cfg.min_meeting * rate <= u64::MAX * u32::MAX) by (nonlinear_arith)
        requires
            0 <= cfg.min_meeting <= u64::MAX,
            0 <= rate <= u32::MAX,
    ;
    lemma_samples_in(cfg.gap, rate);
    lemma_samples_in(cfg.start, rate);
    lemma_samples_in(cfg.start_window, rate);
    lemma_samples_in(cfg.chunk, rate);
    lemma_samples_in(cfg.max_chunk, rate);
    lemma_samples_in(cfg.pause, rate);
    lemma_samples_in(cfg.preroll, rate);
    lemma_samples_in(cfg.tail, rate);
}

/// A time that fits is turned into whole samples.
proof fn lemma_samples_in(time: u64, rate: u32)
    requires
        time * rate < 0x1_0000_0000_0000_0000 * 1_000_000,
    ensures
        samples_in(time, rate) * 1_000_000 <= time * rate,
        time * rate < (samples_in(time, rate) + 1) * 1_000_000,
{
    assert(0 <= time * rate) by (nonlinear_arith)
        requires
            0 <= time,
            0 <= rate,
    ;
}

/// Every frame is weighed when it comes: it is noted, what is heard by then is acted
/// on, and what no meeting can need is thrown away.
pub proof fn law_every_frame_is_weighed<T>(
    hearing: Hearing<T>,
    l: Limits,
    block: Seq<T>,
    frame: Frame,
)
    ensures
        ({
            let heard = Hearing { audio: hearing.audio + block, ..hearing }.noted(l, frame);
            let (now, events) = hearing.pushed(l, block, seq![frame]);
            &&& events == heard.step(l).1
            &&& now == heard.step(l).0.trimmed(l)
        }),
        hearing.pushed(l, block, Seq::<Frame>::empty()) == (
            (Hearing { audio: hearing.audio + block, ..hearing }).trimmed(l),
            Seq::<Happening<T>>::empty(),
        ),
{
    let heard = Hearing { audio: hearing.audio + block, ..hearing };
    let none = Seq::<Happening<T>>::empty();
    assert(seq![frame].drop_last() =~= Seq::<Frame>::empty());
    assert(heard.judged(l, seq![frame].drop_last()) == (heard, none));
    assert(none + heard.noted(l, frame).step(l).1 =~= heard.noted(l, frame).step(l).1);
}

} // verus!
