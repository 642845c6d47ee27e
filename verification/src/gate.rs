//! Live audio cut into frames for the level gate.

use vstd::prelude::*;

verus! {

/// Cuts a live input into frames of 20 ms: short enough to place a pause
/// precisely, long enough that one loud click can't open the level gate on its own.
pub struct SpeechGate<T> {
    frame: usize,
    /// Samples of the last, incomplete frame of the previous block.
    carry: Vec<T>,
}

/// One gated frame of audio: whether anyone talks in it, and how loud it is, as
/// an integer that orders as the level does.
#[derive(Debug, Clone, Copy)]
pub struct Frame {
    pub voiced: bool,
    pub level: i32,
}

/// Samples in a frame of 20 ms, to the nearest one, and at least one.
pub open spec fn frame_size(rate: u32) -> int {
    let nearest = (rate + 25) / 50;
    if nearest < 1 {
        1
    } else {
        nearest
    }
}

/// The whole frames of `len` samples in some audio.
pub open spec fn whole_frames<T>(audio: Seq<T>, len: int) -> Seq<Seq<T>> {
    Seq::new((audio.len() / len as nat) as nat, |k: int| audio.subrange(k * len, k * len + len))
}

/// What follows the last whole frame.
pub open spec fn after_frames<T>(audio: Seq<T>, len: int) -> Seq<T> {
    audio.skip((audio.len() as int / len) * len)
}

/// The frames of a list as sequences.
pub open spec fn frames_view<T>(v: Seq<Vec<T>>) -> Seq<Seq<T>> {
    Seq::new(v.len(), |i: int| v[i]@)
}

/// One frame at the front of the audio.
proof fn lemma_first_frame<T>(audio: Seq<T>, len: int)
    requires
        len > 0,
        audio.len() >= len,
    ensures
        whole_frames(audio, len) == seq![audio.take(len)] + whole_frames(audio.skip(len), len),
        after_frames(audio, len) == after_frames(audio.skip(len), len),
{
    let n = audio.len() as int;
    let rest = audio.skip(len);
    assert(n / len == (n - len) / len + 1) by (nonlinear_arith)
        requires
            len > 0,
            n >= len,
    ;
    let all = whole_frames(audio, len);
    let more = whole_frames(rest, len);
    assert(n - len >= ((n - len) / len) * len) by (nonlinear_arith)
        requires
            len > 0,
            n >= len,
    ;
    assert forall|k: int| 0 <= k < all.len() implies all[k] == (seq![audio.take(len)] + more)[k] by {
        if k == 0 {
            assert(audio.subrange(0, len) == audio.take(len));
        } else {
            assert((k - 1) * len + len == k * len) by (nonlinear_arith);
            assert(k * len + len <= n) by (nonlinear_arith)
                requires
                    len > 0,
                    0 <= k < n / len,
                    n >= len,
            ;
            assert(0 <= (k - 1) * len) by (nonlinear_arith)
                requires
                    k >= 1,
                    len > 0,
            ;
            assert(rest.subrange((k - 1) * len, (k - 1) * len + len) == audio.subrange(
                k * len,
                k * len + len,
            ));
        }
    }
    assert(all =~= seq![audio.take(len)] + more);
    assert((n / len) * len == ((n - len) / len) * len + len) by (nonlinear_arith)
        requires
            n / len == (n - len) / len + 1,
    ;
    assert(after_frames(audio, len) =~= after_frames(rest, len));
}

/// Too little audio for a frame.
proof fn lemma_no_frame<T>(audio: Seq<T>, len: int)
    requires
        len > 0,
        audio.len() < len,
    ensures
        whole_frames(audio, len) == Seq::<Seq<T>>::empty(),
        after_frames(audio, len) == audio,
{
    let n = audio.len() as int;
    assert(n / len == 0) by (nonlinear_arith)
        requires
            0 <= n < len,
    ;
    assert(whole_frames(audio, len) =~= Seq::<Seq<T>>::empty());
    assert(after_frames(audio, len) =~= audio);
}

/// Frames never drift: audio that comes in two blocks makes the frames that it
/// makes in one.
pub proof fn law_frames_never_drift<T>(a: Seq<T>, b: Seq<T>, len: int)
    requires
        len > 0,
    ensures
        whole_frames(a + b, len) == whole_frames(a, len) + whole_frames(
            after_frames(a, len) + b,
            len,
        ),
        after_frames(a + b, len) == after_frames(after_frames(a, len) + b, len),
    decreases a.len(),
{
    if a.len() < len {
        lemma_no_frame(a, len);
        assert(Seq::<Seq<T>>::empty() + whole_frames(a + b, len) =~= whole_frames(a + b, len));
    } else {
        lemma_first_frame(a, len);
        lemma_first_frame(a + b, len);
        assert((a + b).take(len) =~= a.take(len));
        assert((a + b).skip(len) =~= a.skip(len) + b);
        law_frames_never_drift(a.skip(len), b, len);
        let first = seq![a.take(len)];
        let more = whole_frames(a.skip(len), len);
        let rest = whole_frames(after_frames(a.skip(len), len) + b, len);
        assert(first + (more + rest) =~= first + more + rest);
    }
}

impl<T: Copy> SpeechGate<T> {
    /// Samples in a frame.
    pub closed spec fn len(self) -> int {
        self.frame as int
    }

    /// Samples that wait for the rest of their frame.
    pub closed spec fn held(self) -> Seq<T> {
        self.carry@
    }

    /// Less than a frame is held.
    pub open spec fn wf(self) -> bool {
        self.len() > 0 && self.held().len() < self.len()
    }

    pub fn new(rate: u32) -> (r: SpeechGate<T>)
        ensures
            r.wf(),
            r.len() == frame_size(rate),
            r.held() == Seq::<T>::empty(),
    {
        let nearest: u64 = (rate as u64 + 25) / 50;
        SpeechGate {
            frame: if nearest < 1 {
                1
            } else {
                nearest as usize
            },
            carry: Vec::new(),
        }
    }

    pub fn frame_len(&self) -> (r: usize)
        ensures
            r == self.len(),
    {
        self.frame
    }

    /// Cut one block, appending every whole frame it completes. Leftover samples
    /// are held for the next call, so frames never drift.
    pub fn push(&mut self, block: &[T], out: &mut Vec<Vec<T>>)
        requires
            old(self).wf(),
        ensures
            final(self).wf(),
            final(self).len() == old(self).len(),
            frames_view(final(out)@) == frames_view(old(out)@) + whole_frames(
                old(self).held() + block@,
                old(self).len(),
            ),
            final(self).held() == after_frames(old(self).held() + block@, old(self).len()),
    {
        let ghost all = self.held() + block@;
        let ghost len = self.len();
        let ghost frames = whole_frames(all, len);
        let ghost before = frames_view(out@);
        let mut at: usize = 0;
        proof {
            assert(block@.skip(0) == block@);
            assert(frames_view(out@) + whole_frames(self.carry@ + block@.skip(0), len) =~= before
                + frames);
        }
        while at < block.len()
            invariant
                self.wf(),
                self.len() == len,
                self.frame == len,
                at <= block@.len(),
                frames_view(out@) + whole_frames(self.carry@ + block@.skip(at as int), len)
                    == before + frames,
                after_frames(self.carry@ + block@.skip(at as int), len) == after_frames(all, len),
            decreases block.len() - at,
        {
            let ghost waiting = self.carry@ + block@.skip(at as int);
            let want: usize = self.frame - self.carry.len();
            let left: usize = block.len() - at;
            let take: usize = if want < left {
                want
            } else {
                left
            };
            let ghost carried = self.carry@;
            self.extend_carry(block, at, take);
            at += take;
            proof {
                assert(waiting == self.carry@ + block@.skip(at as int));
            }
            if self.carry.len() < self.frame {
                proof {
                    assert(at == block@.len());
                }
            } else {
                let ghost so_far = frames_view(out@);
                let mut whole: Vec<T> = Vec::new();
                whole.append(&mut self.carry);
                let ghost frame = whole@;
                out.push(whole);
                proof {
                    assert(frame == waiting.take(len));
                    assert(waiting.skip(len) == self.carry@ + block@.skip(at as int));
                    lemma_first_frame(waiting, len);
                    assert(frames_view(out@) == so_far.push(frame));
                    assert(so_far.push(frame) + whole_frames(waiting.skip(len), len) =~= so_far + (
                    seq![frame] + whole_frames(waiting.skip(len), len)));
                }
            }
        }
        proof {
            assert(self.carry@ + block@.skip(at as int) == self.carry@);
            lemma_no_frame(self.carry@, len);
            assert(frames_view(out@) + Seq::<Seq<T>>::empty() =~= frames_view(out@));
        }
    }

    /// Puts `take` samples of a block at the end of what is held.
    fn extend_carry(&mut self, block: &[T], at: usize, take: usize)
        requires
            at + take <= block@.len(),
        ensures
            final(self).carry@ == old(self).carry@ + block@.subrange(at as int, at + take),
            final(self).frame == old(self).frame,
    {
        let ghost before = self.carry@;
        let mut i: usize = 0;
        while i < take
            invariant
                i <= take,
                at + take <= block@.len(),
                self.frame == old(self).frame,
                self.carry@ == before + block@.subrange(at as int, at + i),
            decreases take - i,
        {
            proof {
                assert(at + i < block.len());
            }
            self.carry.push(block[at + i]);
            i += 1;
            proof {
                assert(block@.subrange(at as int, at + i) == block@.subrange(
                    at as int,
                    at + i - 1,
                ).push(block@[at + i - 1]));
            }
        }
    }

    /// The whole frames that a block would complete.
    pub fn frames(&self, block: &[T]) -> (r: Vec<Vec<T>>)
        requires
            self.wf(),
        ensures
            frames_view(r@) == whole_frames(self.held() + block@, self.len()),
    {
        let mut copy: SpeechGate<T> = SpeechGate { frame: self.frame, carry: Vec::new() };
        copy.extend_carry(&self.carry, 0, self.carry.len());
        let mut out: Vec<Vec<T>> = Vec::new();
        proof {
            assert(copy.carry@ == self.carry@);
        }
        copy.push(block, &mut out);
        proof {
            assert(frames_view(out@) == Seq::<Seq<T>>::empty() + whole_frames(
                self.held() + block@,
                self.len(),
            ));
            assert(frames_view(out@) =~= whole_frames(self.held() + block@, self.len()));
        }
        out
    }
}

/// Which way the noise floor follows the level of a frame.
#[derive(Debug, Clone, Copy, PartialEq, Eq, Structural)]
pub enum FloorMove {
    /// Down, fast, so that a quieter room is noticed at once.
    Fall,
    /// Up, slowly.
    Rise,
    /// Not at all.
    Hold,
}

/// Level gate: is anyone talking right now?
///
/// The floor tracks background noise — falling fast so a quieter room is noticed
/// at once, rising only while nobody is talking so a monologue can't raise the
/// bar on itself. Speech opens this gate well above the floor and holds it open
/// lower down, so the quiet tail of a sentence doesn't clip. Levels are integers
/// that order as the levels do.
pub struct LevelGate {
    open: bool,
}

impl LevelGate {
    /// Whether anyone talks.
    pub closed spec fn is_open(self) -> bool {
        self.open
    }

    pub fn new() -> (r: LevelGate)
        ensures
            !r.is_open(),
    {
        LevelGate { open: false }
    }

    /// Which way the floor follows a frame of this level.
    pub fn floor_move(&self, level: i32, floor: i32) -> (r: FloorMove)
        ensures
            r == if level < floor {
                FloorMove::Fall
            } else if self.is_open() {
                FloorMove::Hold
            } else {
                FloorMove::Rise
            },
    {
        if level < floor {
            FloorMove::Fall
        } else if self.open {
            FloorMove::Hold
        } else {
            FloorMove::Rise
        }
    }

    /// Whether anyone talks in a frame of this level, given the levels above which
    /// this gate opens and stays open.
    pub fn decide(&mut self, level: i32, open_at: i32, close_at: i32) -> (r: Frame)
        ensures
            final(self).is_open() == (level > if old(self).is_open() {
                close_at
            } else {
                open_at
            }),
            r == (Frame { voiced: final(self).is_open(), level }),
    {
        self.open = if self.open {
            level > close_at
        } else {
            level > open_at
        };
        Frame { voiced: self.open, level }
    }
}

/// Every sample is in one place: the first ones in whole frames, in order and
/// `len` to a frame, and fewer than a frame behind them.
pub proof fn law_frames_hold_every_sample<T>(audio: Seq<T>, len: int)
    requires
        len > 0,
    ensures
        ({
            let frames = whole_frames(audio, len);
            let rest = after_frames(audio, len);
            &&& audio.len() == frames.len() * len + rest.len()
            &&& rest.len() < len
            &&& forall|k: int| 0 <= k < frames.len() ==> (#[trigger] frames[k]).len() == len
            &&& forall|k: int, i: int|
                0 <= k < frames.len() && 0 <= i < len ==> #[trigger] frames[k][i] == audio[k * len
                    + i]
            &&& forall|i: int|
                0 <= i < rest.len() ==> #[trigger] rest[i] == audio[frames.len() * len + i]
        }),
{
    let n = audio.len() as int;
    let q = n / len;
    assert(q * len <= n && n < q * len + len && 0 <= q) by (nonlinear_arith)
        requires
            q == n / len,
            len > 0,
            n >= 0,
    ;
    let frames = whole_frames(audio, len);
    assert forall|k: int| 0 <= k < q implies 0 <= k * len && #[trigger] (k * len) + len <= n by {
        assert(k * len + len <= q * len) by (nonlinear_arith)
            requires
                k + 1 <= q,
                len > 0,
        ;
        assert(0 <= k * len) by (nonlinear_arith)
            requires
                0 <= k,
                len > 0,
        ;
    }
    assert forall|k: int| 0 <= k < frames.len() implies (#[trigger] frames[k]).len() == len by {
        assert(k * len + len <= n);
    }
    assert forall|k: int, i: int| 0 <= k < frames.len() && 0 <= i < len implies #[trigger] frames[k][i]
        == audio[k * len + i] by {
        assert(k * len + len <= n);
    }
}

} // verus!
