//! Speech turns from the frame scores of a segmentation model.
//!
//! The model looks at windows of ten seconds. For each frame it scores classes:
//! silence, one of up to three local speakers, or overlaps thereof, so unlike
//! plain voice activity detection a turn also ends when the speaker changes with
//! no silence in between. Which local speaker is which differs from window to
//! window.

use vstd::prelude::*;

use crate::ranking::{index_of_last_max, last_max, law_last_max_is_greatest};

verus! {

/// Samples from one frame to the next, at 16 kHz.
pub const FRAME_SIZE: usize = 270;

/// Where the first frame stands, at 16 kHz.
pub const FRAME_START: usize = 721;

/// Seconds of a window.
pub const WINDOW_SECS: usize = 10;

/// How many samples the windows of a recording of `len` samples hold: the last
/// one is filled up with silence.
pub open spec fn padded(len: int, window: int) -> int {
    if len % window == 0 {
        len
    } else {
        len - len % window + window
    }
}

/// How many samples the windows of a recording of `len` samples hold: the last
/// one is filled up with silence.
pub fn padded_len(len: usize, sample_rate: u32) -> (r: usize)
    requires
        sample_rate > 0,
        len + WINDOW_SECS * sample_rate <= usize::MAX,
    ensures
        r == padded(len as int, WINDOW_SECS * sample_rate),
{
    let window: usize = WINDOW_SECS * sample_rate as usize;
    let rest: usize = len % window;
    proof {
        vstd::arithmetic::div_mod::lemma_mod_decreases(len as nat, window as nat);
    }
    if rest == 0 {
        len
    } else {
        len - rest + window
    }
}

/// The local speakers that a class stands for. The seven classes are silence,
/// one of three speakers, or a pair of them speaking at once; of an unknown
/// layout every class but the first is a speaker of its own.
pub open spec fn active(class: int, classes: int) -> Seq<int> {
    if classes == 7 {
        if class <= 0 {
            Seq::empty()
        } else if class <= 3 {
            seq![class]
        } else if class == 4 {
            seq![1, 2]
        } else if class == 5 {
            seq![1, 3]
        } else {
            seq![2, 3]
        }
    } else if class <= 0 {
        Seq::empty()
    } else if class <= 9 {
        seq![class]
    } else {
        seq![9]
    }
}

/// The local speakers that a class stands for.
fn active_speakers(class: usize, classes: usize) -> (r: Vec<usize>)
    ensures
        r@.map_values(|x: usize| x as int) == active(class as int, classes as int),
{
    let mut out: Vec<usize> = Vec::new();
    if classes == 7 {
        if class == 0 {
        } else if class <= 3 {
            out.push(class);
        } else if class == 4 {
            out.push(1);
            out.push(2);
        } else if class == 5 {
            out.push(1);
            out.push(3);
        } else {
            out.push(2);
            out.push(3);
        }
    } else if class == 0 {
    } else if class <= 9 {
        out.push(class);
    } else {
        out.push(9);
    }
    out
}

/// A speaker's own score: the class with the speaker's number, or the last one.
pub open spec fn own_score(scores: Seq<i32>, speaker: int) -> i32 {
    if speaker < scores.len() {
        scores[speaker]
    } else {
        scores.last()
    }
}

/// The best scored of the speakers, 0 for nobody.
pub open spec fn favorite(speakers: Seq<int>, scores: Seq<i32>) -> int {
    if speakers.len() == 0 {
        0
    } else {
        speakers[last_max(Seq::new(speakers.len(), |i: int| own_score(scores, speakers[i])))]
    }
}

/// Who speaks in a frame, given who spoke before it. A backchannel overlapping
/// whoever holds the floor doesn't end their turn; only losing the floor
/// entirely does. Then it goes to the active speaker with the best score.
pub open spec fn holder(speaking: int, scores: Seq<i32>) -> int {
    let now = active(last_max(scores), scores.len() as int);
    if now.contains(speaking) {
        speaking
    } else {
        favorite(now, scores)
    }
}

/// Who speaks in a frame, given who spoke before it.
fn next_holder(speaking: usize, scores: &[i32]) -> (r: usize)
    requires
        scores@.len() > 0,
    ensures
        r == holder(speaking as int, scores@),
{
    let class = index_of_last_max(scores);
    let now = active_speakers(class, scores.len());
    let ghost model = active(class as int, scores@.len() as int);
    let mut best: Vec<i32> = Vec::new();
    let mut i: usize = 0;
    while i < now.len()
        invariant
            i <= now.len(),
            scores@.len() > 0,
            model == now@.map_values(|x: usize| x as int),
            model == active(last_max(scores@), scores@.len() as int),
            best@.len() == i,
            best@ == Seq::new(i as nat, |k: int| own_score(scores@, model[k])),
            forall|k: int| 0 <= k < i ==> model[k] != speaking,
        decreases now.len() - i,
    {
        let speaker = now[i];
        proof {
            assert(model[i as int] == speaker);
        }
        if speaker == speaking {
            proof {
                assert(model.contains(speaking as int));
            }
            return speaking;
        }
        best.push(
            if speaker < scores.len() {
                scores[speaker]
            } else {
                scores[scores.len() - 1]
            },
        );
        i += 1;
    }
    proof {
        assert(!model.contains(speaking as int));
        assert(best@ == Seq::new(model.len(), |k: int| own_score(scores@, model[k])));
    }
    if now.len() == 0 {
        0
    } else {
        let at = index_of_last_max(&best);
        proof {
            assert(model[at as int] == now@[at as int]);
        }
        now[at]
    }
}

/// Who holds the floor while the frames go by.
pub struct Floor {
    /// Where the next frame stands.
    pub offset: int,
    /// The local speaker holding the floor, 0 for nobody.
    pub speaking: int,
    /// Where their turn started.
    pub turn_start: int,
    /// The turns that are over.
    pub turns: Seq<(usize, usize)>,
}

/// A position, no further than the end of the recording.
pub open spec fn within(at: int, len: usize) -> int {
    if at < len {
        at
    } else {
        len as int
    }
}

impl Floor {
    /// Nobody has spoken yet.
    pub open spec fn empty() -> Floor {
        Floor { offset: FRAME_START as int, speaking: 0, turn_start: 0, turns: Seq::empty() }
    }

    /// The turns once the one that is on ends at `t`.
    pub open spec fn ended(self, t: int) -> Seq<(usize, usize)> {
        if self.speaking != 0 && t > self.turn_start {
            self.turns.push((self.turn_start as usize, t as usize))
        } else {
            self.turns
        }
    }

    /// A new window starts. Classes are local to a window, so a turn must not
    /// continue across the boundary: the same class may stand for a different
    /// person in the next window.
    pub open spec fn next_window(self, len: usize) -> Floor {
        Floor { turns: self.ended(within(self.offset, len)), speaking: 0, ..self }
    }

    /// A frame goes by.
    pub open spec fn next_frame(self, scores: Seq<i32>, len: usize) -> Floor {
        let now = holder(self.speaking, scores);
        let t = within(self.offset, len);
        if now == self.speaking {
            Floor { offset: self.offset + FRAME_SIZE, ..self }
        } else {
            Floor {
                offset: self.offset + FRAME_SIZE,
                speaking: now,
                turn_start: t,
                turns: self.ended(t),
            }
        }
    }
}

/// The floor after the frames of one window.
pub open spec fn after_frames(floor: Floor, frames: Seq<Vec<i32>>, len: usize) -> Floor
    decreases frames.len(),
{
    if frames.len() == 0 {
        floor
    } else {
        after_frames(floor, frames.drop_last(), len).next_frame(frames.last()@, len)
    }
}

/// The floor after some windows.
pub open spec fn after_windows(windows: Seq<Vec<Vec<i32>>>, len: usize) -> Floor
    decreases windows.len(),
{
    if windows.len() == 0 {
        Floor::empty()
    } else {
        after_frames(
            after_windows(windows.drop_last(), len).next_window(len),
            windows.last()@,
            len,
        )
    }
}

/// The speech turns in a recording of `len` samples.
pub open spec fn turns_of(windows: Seq<Vec<Vec<i32>>>, len: usize) -> Seq<(usize, usize)> {
    after_windows(windows, len).ended(len as int)
}

/// Whether every frame has scores.
pub open spec fn all_scored(windows: Seq<Vec<Vec<i32>>>) -> bool {
    forall|w: int, f: int|
        0 <= w < windows.len() && 0 <= f < windows[w]@.len() ==> (#[trigger] windows[w]@[f])@.len()
            > 0
}

/// The floor while the frames go by. The offset stops at the largest number.
struct Tracker {
    offset: usize,
    speaking: usize,
    turn_start: usize,
    turns: Vec<(usize, usize)>,
}

impl Tracker {
    spec fn shows(self, floor: Floor) -> bool {
        &&& self.offset == within(floor.offset, usize::MAX)
        &&& self.speaking == floor.speaking
        &&& self.turn_start == floor.turn_start
        &&& self.turns@ == floor.turns
    }

    /// Ends the turn that is on at `t`.
    fn end_turn(&mut self, t: usize, Ghost(floor): Ghost<Floor>)
        requires
            old(self).shows(floor),
        ensures
            *final(self) == (Tracker { turns: final(self).turns, ..*old(self) }),
            final(self).turns@ == floor.ended(t as int),
    {
        if self.speaking != 0 && t > self.turn_start {
            self.turns.push((self.turn_start, t));
        }
    }

    /// Where the next frame stands, no further than the end.
    fn now(&self, len: usize, Ghost(floor): Ghost<Floor>) -> (r: usize)
        requires
            self.shows(floor),
        ensures
            r == within(floor.offset, len),
    {
        if self.offset < len {
            self.offset
        } else {
            len
        }
    }

    fn next_window(&mut self, len: usize, Ghost(floor): Ghost<Floor>)
        requires
            old(self).shows(floor),
        ensures
            final(self).shows(floor.next_window(len)),
    {
        let t = self.now(len, Ghost(floor));
        self.end_turn(t, Ghost(floor));
        self.speaking = 0;
    }

    fn next_frame(&mut self, scores: &[i32], len: usize, Ghost(floor): Ghost<Floor>)
        requires
            old(self).shows(floor),
            scores@.len() > 0,
        ensures
            final(self).shows(floor.next_frame(scores@, len)),
    {
        let now = next_holder(self.speaking, scores);
        if now != self.speaking {
            let t = self.now(len, Ghost(floor));
            self.end_turn(t, Ghost(floor));
            self.turn_start = t;
            self.speaking = now;
        }
        self.offset = self.offset.saturating_add(FRAME_SIZE);
    }
}

/// Speech turns as sample ranges, from the scores that the segmentation model
/// gave every class in every frame of every window of a recording of `len`
/// samples.
pub fn speech_turns(windows: &[Vec<Vec<i32>>], len: usize) -> (r: Vec<(usize, usize)>)
    requires
        all_scored(windows@),
    ensures
        r@ == turns_of(windows@, len),
{
    let mut tracker = Tracker {
        offset: FRAME_START,
        speaking: 0,
        turn_start: 0,
        turns: Vec::new(),
    };
    let mut w: usize = 0;
    while w < windows.len()
        invariant
            w <= windows.len(),
            all_scored(windows@),
            tracker.shows(after_windows(windows@.take(w as int), len)),
        decreases windows.len() - w,
    {
        let ghost before = after_windows(windows@.take(w as int), len);
        tracker.next_window(len, Ghost(before));
        let ghost opened = before.next_window(len);
        let frames = &windows[w];
        let mut f: usize = 0;
        proof {
            assert(frames@.take(0) == Seq::<Vec<i32>>::empty());
        }
        while f < frames.len()
            invariant
                w < windows.len(),
                f <= frames.len(),
                *frames == windows@[w as int],
                all_scored(windows@),
                tracker.shows(after_frames(opened, frames@.take(f as int), len)),
            decreases frames.len() - f,
        {
            proof {
                assert(windows@[w as int]@[f as int]@.len() > 0);
                assert(frames@.take(f + 1).drop_last() == frames@.take(f as int));
            }
            tracker.next_frame(
                &frames[f],
                len,
                Ghost(after_frames(opened, frames@.take(f as int), len)),
            );
            f += 1;
        }
        proof {
            assert(frames@.take(f as int) == frames@);
            assert(windows@.take(w + 1).drop_last() == windows@.take(w as int));
        }
        w += 1;
    }
    proof {
        assert(windows@.take(w as int) == windows@);
    }
    tracker.end_turn(len, Ghost(after_windows(windows@, len)));
    tracker.turns
}

/// Whether the turns are not empty, follow one another, and end by `limit`.
pub open spec fn in_turn(turns: Seq<(usize, usize)>, limit: int) -> bool {
    &&& forall|i: int|
        0 <= i < turns.len() ==> (#[trigger] turns[i]).0 < turns[i].1 && turns[i].1 <= limit
    &&& forall|i: int, j: int|
        0 <= i < j < turns.len() ==> (#[trigger] turns[i]).1 <= (#[trigger] turns[j]).0
}

/// Whether the turns stay on one side of a position.
pub open spec fn beside(turns: Seq<(usize, usize)>, at: int) -> bool {
    forall|i: int| 0 <= i < turns.len() ==> (#[trigger] turns[i]).1 <= at || turns[i].0 >= at
}

/// What holds of the floor at all times, once the window that started at `from`
/// is on.
spec fn sound(floor: Floor, from: int, len: usize) -> bool {
    &&& 0 <= from <= floor.offset
    &&& 0 <= floor.turn_start <= within(floor.offset, len)
    &&& in_turn(floor.turns, within(floor.offset, len))
    &&& floor.speaking != 0 ==> in_turn(floor.turns, floor.turn_start) && floor.turn_start
        >= within(from, len)
}

/// A turn that ends keeps the turns in order, and beside what they were beside.
proof fn lemma_ended(floor: Floor, from: int, len: usize, t: int, at: int)
    requires
        sound(floor, from, len),
        within(floor.offset, len) <= t <= len,
    ensures
        in_turn(floor.ended(t), t),
        beside(floor.turns, at) && (at <= within(from, len) || t <= at) ==> beside(
            floor.ended(t),
            at,
        ),
{
    let turns = floor.ended(t);
    if floor.speaking != 0 && t > floor.turn_start {
        assert forall|i: int, j: int| 0 <= i < j < turns.len() implies (#[trigger] turns[i]).1 <= (
        #[trigger] turns[j]).0 by {
            assert(turns[i] == floor.turns[i]);
            if j < floor.turns.len() {
                assert(turns[j] == floor.turns[j]);
            }
        }
        assert forall|i: int| 0 <= i < turns.len() implies (#[trigger] turns[i]).0 < turns[i].1
            && turns[i].1 <= t by {
            if i < floor.turns.len() {
                assert(turns[i] == floor.turns[i]);
            }
        }
        if beside(floor.turns, at) && (at <= within(from, len) || t <= at) {
            assert forall|i: int| 0 <= i < turns.len() implies (#[trigger] turns[i]).1 <= at
                || turns[i].0 >= at by {
                if i < floor.turns.len() {
                    assert(turns[i] == floor.turns[i]);
                }
            }
        }
    }
}

/// What holds of the floor still does after some frames.
proof fn lemma_frames_sound(floor: Floor, frames: Seq<Vec<i32>>, from: int, len: usize, at: int)
    requires
        sound(floor, from, len),
    ensures
        sound(after_frames(floor, frames, len), from, len),
        after_frames(floor, frames, len).offset == floor.offset + FRAME_SIZE * frames.len(),
        beside(floor.turns, at) && at <= within(from, len) ==> beside(
            after_frames(floor, frames, len).turns,
            at,
        ),
    decreases frames.len(),
{
    if frames.len() > 0 {
        let before = after_frames(floor, frames.drop_last(), len);
        lemma_frames_sound(floor, frames.drop_last(), from, len, at);
        let t = within(before.offset, len);
        lemma_ended(before, from, len, t, at);
        let now = before.next_frame(frames.last()@, len);
        lemma_later(before.turns, t, within(now.offset, len));
        lemma_later(before.ended(t), t, within(now.offset, len));
    }
}

/// Turns that end by some position end by a later one.
proof fn lemma_later(turns: Seq<(usize, usize)>, limit: int, later: int)
    requires
        limit <= later,
    ensures
        in_turn(turns, limit) ==> in_turn(turns, later),
{
}

/// Where the window after the first `n` windows starts.
pub open spec fn window_start(windows: Seq<Vec<Vec<i32>>>, n: int) -> int
    decreases n,
{
    if n <= 0 {
        FRAME_START as int
    } else {
        window_start(windows, n - 1) + FRAME_SIZE * windows[n - 1]@.len()
    }
}

/// What holds of the floor after some windows.
proof fn lemma_windows_sound(windows: Seq<Vec<Vec<i32>>>, n: int, len: usize, at: int)
    requires
        0 <= n <= windows.len(),
    ensures
        after_windows(windows.take(n), len).offset == window_start(windows, n),
        sound(
            after_windows(windows.take(n), len),
            window_start(
                windows,
                if n > 0 {
                    n - 1
                } else {
                    0
                },
            ),
            len,
        ),
        0 <= at < n ==> beside(
            after_windows(windows.take(n), len).turns,
            within(window_start(windows, at), len),
        ),
    decreases n,
{
    if n > 0 {
        lemma_windows_sound(windows, n - 1, len, at);
        assert(windows.take(n).drop_last() == windows.take(n - 1));
        let before = after_windows(windows.take(n - 1), len);
        let from = before.offset;
        let t = within(from, len);
        let edge = within(window_start(windows, at), len);
        let last = window_start(
            windows,
            if n > 1 {
                n - 2
            } else {
                0
            },
        );
        if 0 <= at < n - 1 {
            lemma_start_grows(windows, at, n - 2);
        }
        lemma_ended(before, last, len, t, edge);
        let opened = before.next_window(len);
        if at == n - 1 {
            assert(in_turn(opened.turns, t));
            assert(beside(opened.turns, edge));
        }
        if 0 <= at < n {
            lemma_start_grows(windows, at, n - 1);
        }
        lemma_frames_sound(opened, windows.take(n).last()@, from, len, edge);
    }
}

/// Later windows start later.
proof fn lemma_start_grows(windows: Seq<Vec<Vec<i32>>>, i: int, j: int)
    requires
        0 <= i <= j,
    ensures
        window_start(windows, i) <= window_start(windows, j),
    decreases j,
{
    if i < j {
        lemma_start_grows(windows, i, j - 1);
    }
}

/// Turns are not empty, follow one another and lie in the recording.
pub proof fn law_turns_follow_one_another(windows: Seq<Vec<Vec<i32>>>, len: usize)
    ensures
        in_turn(turns_of(windows, len), len as int),
{
    let n = windows.len() as int;
    lemma_windows_sound(windows, n, len, -1);
    assert(windows.take(n) == windows);
    lemma_ended(
        after_windows(windows, len),
        window_start(
            windows,
            if n > 0 {
                n - 1
            } else {
                0
            },
        ),
        len,
        len as int,
        0,
    );
}

/// No turn continues across the start of a window.
pub proof fn law_turns_stay_in_their_window(windows: Seq<Vec<Vec<i32>>>, len: usize, w: int)
    requires
        0 <= w < windows.len(),
    ensures
        beside(turns_of(windows, len), within(window_start(windows, w), len)),
{
    let n = windows.len() as int;
    lemma_windows_sound(windows, n, len, w);
    lemma_start_grows(windows, w, n - 1);
    assert(windows.take(n) == windows);
    lemma_ended(
        after_windows(windows, len),
        window_start(windows, n - 1),
        len,
        len as int,
        within(window_start(windows, w), len),
    );
}

/// As long as the model hears whoever holds the floor, alone or with others,
/// their turn goes on.
pub proof fn law_overlap_keeps_the_floor(floor: Floor, scores: Seq<i32>, len: usize)
    requires
        active(last_max(scores), scores.len() as int).contains(floor.speaking),
    ensures
        floor.next_frame(scores, len).speaking == floor.speaking,
        floor.next_frame(scores, len).turn_start == floor.turn_start,
        floor.next_frame(scores, len).turns == floor.turns,
{
}

/// Whether a turn of the floor holds position `t`, one that is over or the one
/// that is on.
pub open spec fn spoken_at(floor: Floor, t: int) -> bool {
    ||| exists|i: int|
        0 <= i < floor.turns.len() && (#[trigger] floor.turns[i]).0 <= t < floor.turns[i].1
    ||| floor.speaking != 0 && floor.turn_start <= t
}

/// Whether a turn holds position `t`.
pub open spec fn in_a_turn(turns: Seq<(usize, usize)>, t: int) -> bool {
    exists|i: int| 0 <= i < turns.len() && (#[trigger] turns[i]).0 <= t < turns[i].1
}

/// What a turn that ends at `end` makes of the positions in the turns.
proof fn lemma_ended_at(floor: Floor, end: int, t: int)
    requires
        0 <= floor.turn_start <= end <= usize::MAX,
    ensures
        in_a_turn(floor.ended(end), t) <==> in_a_turn(floor.turns, t) || floor.speaking != 0
            && floor.turn_start <= t < end,
{
    let turns = floor.ended(end);
    if floor.speaking != 0 && end > floor.turn_start {
        let n = floor.turns.len() as int;
        assert(turns[n] == (floor.turn_start as usize, end as usize));
        assert(forall|i: int| 0 <= i < n ==> #[trigger] turns[i] == floor.turns[i]);
        if in_a_turn(floor.turns, t) {
            let i = choose|i: int|
                0 <= i < n && (#[trigger] floor.turns[i]).0 <= t < floor.turns[i].1;
            assert(turns[i] == floor.turns[i]);
        }
        if in_a_turn(turns, t) {
            let i = choose|i: int|
                0 <= i < turns.len() && (#[trigger] turns[i]).0 <= t < turns[i].1;
            if i < n {
                assert(floor.turns[i] == turns[i]);
            }
        }
    }
}

/// A frame decides of its own 270 samples and of nothing before them: from where
/// it stands on, it is a turn of whoever speaks in it, and what came before stays.
/// Where the speaker changes, the turn that was on ends there, and another one
/// starts.
pub proof fn law_a_frame_decides_of_its_samples(
    floor: Floor,
    scores: Seq<i32>,
    len: usize,
    t: int,
)
    requires
        0 <= floor.turn_start <= floor.offset,
        floor.turn_start <= len,
        forall|i: int|
            0 <= i < floor.turns.len() ==> (#[trigger] floor.turns[i]).1 <= floor.offset,
        0 <= t < len,
    ensures
        ({
            let next = floor.next_frame(scores, len);
            &&& next.offset == floor.offset + 270
            &&& t < floor.offset ==> spoken_at(next, t) == spoken_at(floor, t)
            &&& t >= floor.offset ==> spoken_at(next, t) == (next.speaking != 0)
            &&& next.speaking != floor.speaking && floor.offset < len ==> next.turn_start
                == floor.offset && (floor.speaking != 0 && floor.turn_start < floor.offset
                ==> next.turns == floor.turns.push(
                (floor.turn_start as usize, floor.offset as usize),
            ))
            &&& next.speaking == floor.speaking ==> next.turns == floor.turns && next.turn_start
                == floor.turn_start
        }),
{
    let next = floor.next_frame(scores, len);
    let end = within(floor.offset, len);
    if t >= floor.offset && in_a_turn(floor.turns, t) {
        let i = choose|i: int|
            0 <= i < floor.turns.len() && (#[trigger] floor.turns[i]).0 <= t < floor.turns[i].1;
        assert(floor.turns[i].1 <= floor.offset);
    }
    if next.speaking != floor.speaking {
        lemma_ended_at(floor, end, t);
        assert(spoken_at(next, t) == (in_a_turn(next.turns, t) || next.speaking != 0
            && next.turn_start <= t));
    }
    assert(spoken_at(floor, t) == (in_a_turn(floor.turns, t) || floor.speaking != 0
        && floor.turn_start <= t));
    assert(spoken_at(next, t) == (in_a_turn(next.turns, t) || next.speaking != 0
        && next.turn_start <= t));
}

/// A new window ends the turn that is on where the window starts, and nobody has
/// the floor; before that nothing changes.
pub proof fn law_a_window_ends_the_turn(floor: Floor, len: usize, t: int)
    requires
        0 <= floor.turn_start <= floor.offset,
        floor.turn_start <= len,
        forall|i: int|
            0 <= i < floor.turns.len() ==> (#[trigger] floor.turns[i]).1 <= floor.offset,
        0 <= t < len,
    ensures
        ({
            let next = floor.next_window(len);
            &&& next.offset == floor.offset
            &&& next.speaking == 0
            &&& spoken_at(next, t) == (t < floor.offset && spoken_at(floor, t))
        }),
{
    lemma_ended_at(floor, within(floor.offset, len), t);
    let next = floor.next_window(len);
    assert(spoken_at(next, t) == in_a_turn(next.turns, t));
    assert(spoken_at(floor, t) == (in_a_turn(floor.turns, t) || floor.speaking != 0
        && floor.turn_start <= t));
}

/// The windows start with nobody on the floor at sample 721, each is one new
/// window and its frames in order, and the turns of a recording hold what was
/// spoken by its end.
pub proof fn law_turns_are_what_was_spoken(windows: Seq<Vec<Vec<i32>>>, len: usize, t: int)
    requires
        0 <= t < len,
    ensures
        in_a_turn(turns_of(windows, len), t) == spoken_at(after_windows(windows, len), t),
        windows.len() == 0 ==> after_windows(windows, len) == (Floor {
            offset: 721,
            speaking: 0,
            turn_start: 0,
            turns: Seq::empty(),
        }),
{
    let n = windows.len() as int;
    lemma_windows_sound(windows, n, len, -1);
    assert(windows.take(n) =~= windows);
    let floor = after_windows(windows, len);
    lemma_ended_at(floor, len as int, t);
    assert(spoken_at(floor, t) == (in_a_turn(floor.turns, t) || floor.speaking != 0
        && floor.turn_start <= t));
}

/// The floor after a frame more, and after a window more.
pub proof fn law_frames_go_by_in_order(
    floor: Floor,
    frames: Seq<Vec<i32>>,
    windows: Seq<Vec<Vec<i32>>>,
    len: usize,
)
    ensures
        frames.len() == 0 ==> after_frames(floor, frames, len) == floor,
        frames.len() > 0 ==> after_frames(floor, frames, len) == after_frames(
            floor,
            frames.drop_last(),
            len,
        ).next_frame(frames.last()@, len),
        windows.len() > 0 ==> after_windows(windows, len) == after_frames(
            after_windows(windows.drop_last(), len).next_window(len),
            windows.last()@,
            len,
        ),
{
}

/// Whether local speaker `s` is among those that class `c` of seven stands for:
/// none for silence, then each of three alone, then each pair of them.
pub open spec fn heard_in(c: int, s: int) -> bool {
    ||| 1 <= c <= 3 && s == c
    ||| c == 4 && (s == 1 || s == 2)
    ||| c == 5 && (s == 1 || s == 3)
    ||| c == 6 && (s == 2 || s == 3)
}

/// With seven classes, the one that scores highest says who is heard, the last of
/// several. Whoever has the floor and is heard keeps it; else it goes to the one
/// of those heard who scores highest alone, or to nobody where nobody is heard.
pub proof fn law_the_floor_goes_to_who_is_heard(speaking: int, scores: Seq<i32>, c: int)
    requires
        scores.len() == 7,
        0 <= c < 7,
        forall|i: int| 0 <= i < 7 ==> #[trigger] scores[i] <= scores[c] && (i > c ==> scores[i]
            < scores[c]),
    ensures
        heard_in(c, speaking) ==> holder(speaking, scores) == speaking,
        !heard_in(c, speaking) && c == 0 ==> holder(speaking, scores) == 0,
        !heard_in(c, speaking) && c > 0 ==> {
            let now = holder(speaking, scores);
            &&& heard_in(c, now)
            &&& forall|s: int| #[trigger] heard_in(c, s) ==> scores[s] <= scores[now]
        },
{
    law_last_max_is_greatest(scores);
    let best = last_max(scores);
    assert(best == c) by {
        if best < c {
            assert(scores[c] <= scores[best]);
            assert(scores[best] <= scores[c]);
        }
        if best > c {
            assert(scores[best] < scores[c]);
        }
    }
    let now = active(c, 7);
    assert(now.contains(speaking) == heard_in(c, speaking)) by {
        if c == 0 {
        } else if c <= 3 {
            assert(now[0] == c);
        } else {
            assert(now.len() == 2);
            assert(now.contains(now[0]) && now.contains(now[1]));
        }
    }
    if !heard_in(c, speaking) && c > 0 {
        let own = Seq::new(now.len(), |i: int| own_score(scores, now[i]));
        law_last_max_is_greatest(own);
        assert forall|s: int| #[trigger] heard_in(c, s) implies scores[s] <= scores[favorite(
            now,
            scores,
        )] by {
            let i: int = if s == now[0] {
                0
            } else {
                1
            };
            assert(now[i] == s);
            assert(own[i] <= own[last_max(own)]);
        }
    }
}

/// With another number of classes each but the first is a speaker, the tenth and
/// later ones the same: the class that scores highest has the floor.
pub proof fn law_other_classes_are_speakers(speaking: int, scores: Seq<i32>, c: int)
    requires
        scores.len() != 7,
        0 <= c < scores.len(),
        forall|i: int|
            0 <= i < scores.len() ==> #[trigger] scores[i] <= scores[c] && (i > c ==> scores[i]
                < scores[c]),
    ensures
        holder(speaking, scores) == if c < 9 {
            c
        } else {
            9
        },
{
    law_last_max_is_greatest(scores);
    let best = last_max(scores);
    assert(best == c) by {
        if best < c {
            assert(scores[c] <= scores[best]);
            assert(scores[best] <= scores[c]);
        }
        if best > c {
            assert(scores[best] < scores[c]);
        }
    }
    let now = active(c, scores.len() as int);
    if now.len() > 0 {
        let own = Seq::new(now.len(), |i: int| own_score(scores, now[i]));
        law_last_max_is_greatest(own);
        assert(now.len() == 1);
        assert(now.contains(now[0]));
    }
}

/// The windows of a recording hold all of it and less than a window more, in whole
/// windows.
pub proof fn law_windows_hold_the_recording(len: int, window: int)
    requires
        0 <= len,
        0 < window,
    ensures
        len <= padded(len, window) < len + window,
        padded(len, window) % window == 0,
{
    vstd::arithmetic::div_mod::lemma_mod_division_less_than_divisor(len, window);
    let q = len / window;
    assert(len == q * window + len % window) by (nonlinear_arith)
        requires
            q == len / window,
            window > 0,
    ;
    vstd::arithmetic::div_mod::lemma_mod_multiples_basic(q, window);
    vstd::arithmetic::div_mod::lemma_mod_multiples_basic(q + 1, window);
    assert((q + 1) * window == q * window + window) by (nonlinear_arith);
}

} // verus!
