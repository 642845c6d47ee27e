//! Stretches of speech as sample ranges: padding what a voice activity
//! detector found, and joining it into chunks a speech model can take.

use vstd::prelude::*;

use crate::WHISPER_SAMPLE_RATE;

verus! {

/// Audio kept on either side of detected speech, so that no word is clipped:
/// a quarter of a second.
pub const SPEECH_PAD: usize = 4_000;

/// Longest stretch handed to a word-aligned model in one call, in samples
/// (240 seconds). Its encoder attends over the whole input, so memory grows
/// quadratically.
pub const ALIGNED_CHUNK: usize = 3_840_000;

/// Longest stretch handed to a model without timestamps, in samples (20
/// seconds). Each decoded stretch becomes one transcript segment, so it has
/// to stay short enough for speaker labels and timestamps to be useful.
pub const UTTERANCE_MAX: usize = 320_000;

/// Widest silence that such a stretch may hold, in samples (0.6 seconds).
pub const UTTERANCE_GAP: usize = 9_600;

/// `a` divided by `b`, rounded up.
pub open spec fn ceil_div(a: int, b: int) -> int {
    (a + b - 1) / b
}

/// `a` less `b`, or nothing where `b` is more.
pub open spec fn less(a: int, b: int) -> int {
    if a > b {
        a - b
    } else {
        0
    }
}

/// Whether the span `next` joins `chunk`: together they are no longer than
/// `max_len`, and the silence between them is no wider than `max_gap`.
pub open spec fn joins(
    chunk: (usize, usize),
    next: (usize, usize),
    max_len: usize,
    max_gap: usize,
) -> bool {
    less(next.1 as int, chunk.0 as int) <= max_len && less(next.0 as int, chunk.1 as int) <= max_gap
}

/// Consecutive spans joined as far as [`joins`] allows: a chunk covers
/// everything from its first span's start to its last span's end.
pub open spec fn joined(
    spans: Seq<(usize, usize)>,
    max_len: usize,
    max_gap: usize,
) -> Seq<(usize, usize)>
    decreases spans.len(),
{
    if spans.len() == 0 {
        Seq::empty()
    } else {
        let done = joined(spans.drop_last(), max_len, max_gap);
        let next = spans.last();
        if done.len() > 0 && joins(done.last(), next, max_len, max_gap) {
            done.drop_last().push((done.last().0, next.1))
        } else {
            done.push(next)
        }
    }
}

/// How many pieces a chunk of `n` samples is cut into.
pub open spec fn piece_count(n: int, max_len: int) -> int {
    if n <= 0 {
        1
    } else {
        ceil_div(n, max_len)
    }
}

/// `chunk` in the fewest equal pieces of at most `max_len` samples; nothing
/// for an empty chunk.
pub open spec fn cut(chunk: (usize, usize), max_len: usize) -> Seq<(usize, usize)> {
    let n = chunk.1 - chunk.0;
    let count = piece_count(n, max_len as int);
    let len = ceil_div(n, count);
    if n <= 0 {
        Seq::empty()
    } else {
        Seq::new(
            count as nat,
            |i: int|
                (
                    (chunk.0 + i * len) as usize,
                    (if chunk.0 + i * len + len < chunk.1 {
                        chunk.0 + i * len + len
                    } else {
                        chunk.1 as int
                    }) as usize,
                ),
        )
    }
}

/// Every chunk cut, one behind the other.
pub open spec fn cut_all(chunks: Seq<(usize, usize)>, max_len: usize) -> Seq<(usize, usize)>
    decreases chunks.len(),
{
    if chunks.len() == 0 {
        Seq::empty()
    } else {
        cut_all(chunks.drop_last(), max_len) + cut(chunks.last(), max_len)
    }
}

/// The chunks that [`merge_spans`] makes of `spans`.
pub open spec fn merged(
    spans: Seq<(usize, usize)>,
    max_len: usize,
    max_gap: usize,
) -> Seq<(usize, usize)> {
    cut_all(joined(spans, max_len, max_gap), max_len)
}

/// Whether no range ends before it starts.
pub open spec fn upright(ranges: Seq<(usize, usize)>) -> bool {
    forall|i: int| 0 <= i < ranges.len() ==> (#[trigger] ranges[i]).0 <= ranges[i].1
}

/// The pieces of a chunk are within it, nonempty and no longer than allowed.
pub proof fn lemma_piece_bounds(n: int, max_len: int, i: int)
    requires
        n > 0,
        max_len > 0,
        0 <= i < piece_count(n, max_len),
    ensures
        0 < ceil_div(n, piece_count(n, max_len)) <= max_len,
        0 <= i * ceil_div(n, piece_count(n, max_len)) < n,
        i == piece_count(n, max_len) - 1 ==> i * ceil_div(n, piece_count(n, max_len)) + ceil_div(
            n,
            piece_count(n, max_len),
        ) >= n,
        i < piece_count(n, max_len) - 1 ==> i * ceil_div(n, piece_count(n, max_len)) + ceil_div(
            n,
            piece_count(n, max_len),
        ) < n,
{
    let count = piece_count(n, max_len);
    let len = ceil_div(n, count);
    lemma_ceil_div(n, max_len);
    lemma_ceil_div(n, count);
    assert(len <= max_len) by (nonlinear_arith)
        requires
            (len - 1) * count < n,
            n <= count * max_len,
            count > 0,
    ;
    assert((count - 1) * len <= (count - 1) * max_len) by (nonlinear_arith)
        requires
            len <= max_len,
            count >= 1,
    ;
    assert((count - 1) * max_len < n) by (nonlinear_arith)
        requires
            (count - 1) * max_len < n,
    ;
    assert(i * len <= (count - 1) * len) by (nonlinear_arith)
        requires
            0 <= i <= count - 1,
            len > 0,
    ;
    assert(i * len >= 0) by (nonlinear_arith)
        requires
            0 <= i,
            len > 0,
    ;
    if i == count - 1 {
        assert(i * len + len == count * len) by (nonlinear_arith)
            requires
                i == count - 1,
        ;
    } else {
        assert(i * len + len <= (count - 1) * len) by (nonlinear_arith)
            requires
                0 <= i <= count - 2,
                len > 0,
        ;
    }
}

/// What rounding up means.
proof fn lemma_ceil_div(a: int, b: int)
    requires
        a > 0,
        b > 0,
    ensures
        ceil_div(a, b) > 0,
        (ceil_div(a, b) - 1) * b < a,
        a <= ceil_div(a, b) * b,
{
    let q = ceil_div(a, b);
    assert(q * b <= a + b - 1 && a + b - 1 < q * b + b) by (nonlinear_arith)
        requires
            q == (a + b - 1) / b,
            b > 0,
    ;
    assert((q - 1) * b == q * b - b) by (nonlinear_arith);
    assert(q > 0) by (nonlinear_arith)
        requires
            a > 0,
            b > 0,
            a <= q * b,
    ;
}

/// The spans joined, and nothing cut yet.
fn join_spans(spans: &[(usize, usize)], max_len: usize, max_gap: usize) -> (r: Vec<(usize, usize)>)
    ensures
        r@ == joined(spans@, max_len, max_gap),
{
    let mut chunks: Vec<(usize, usize)> = Vec::new();
    let mut k: usize = 0;
    while k < spans.len()
        invariant
            k <= spans.len(),
            chunks@ == joined(spans@.take(k as int), max_len, max_gap),
        decreases spans.len() - k,
    {
        let (start, end) = spans[k];
        proof {
            assert(spans@.take(k + 1).drop_last() == spans@.take(k as int));
            assert(spans@.take(k + 1).last() == spans@[k as int]);
        }
        match chunks.pop() {
            Some((cs, ce)) => {
                if end.saturating_sub(cs) <= max_len && start.saturating_sub(ce) <= max_gap {
                    chunks.push((cs, end));
                } else {
                    chunks.push((cs, ce));
                    chunks.push((start, end));
                }
            },
            None => {
                chunks.push((start, end));
            },
        }
        k += 1;
    }
    proof {
        assert(spans@.take(spans.len() as int) == spans@);
    }
    chunks
}

/// Whether [`merge_spans`] takes these spans: no chunk would end before it
/// starts.
pub fn can_merge(spans: &[(usize, usize)], max_len: usize, max_gap: usize) -> (r: bool)
    ensures
        r == upright(joined(spans@, max_len, max_gap)),
{
    let chunks = join_spans(spans, max_len, max_gap);
    let mut i: usize = 0;
    while i < chunks.len()
        invariant
            i <= chunks.len(),
            chunks@ == joined(spans@, max_len, max_gap),
            forall|k: int| 0 <= k < i ==> (#[trigger] chunks@[k]).0 <= chunks@[k].1,
        decreases chunks.len() - i,
    {
        if chunks[i].0 > chunks[i].1 {
            return false;
        }
        i += 1;
    }
    true
}

/// Join consecutive spans into chunks no longer than `max_len` samples (a
/// chunk covers everything from its first span's start to its last span's end,
/// silence included), never joining across a gap wider than `max_gap`. A single
/// span longer than `max_len` is cut into equal pieces.
pub fn merge_spans(spans: &[(usize, usize)], max_len: usize, max_gap: usize) -> (r: Vec<
    (usize, usize),
>)
    requires
        max_len > 0,
        upright(joined(spans@, max_len, max_gap)),
    ensures
        r@ == merged(spans@, max_len, max_gap),
{
    let chunks = join_spans(spans, max_len, max_gap);
    let mut out: Vec<(usize, usize)> = Vec::new();
    let mut c: usize = 0;
    while c < chunks.len()
        invariant
            c <= chunks.len(),
            max_len > 0,
            upright(chunks@),
            out@ == cut_all(chunks@.take(c as int), max_len),
        decreases chunks.len() - c,
    {
        let (start, end) = chunks[c];
        let ghost before = out@;
        proof {
            assert(chunks@[c as int].0 <= chunks@[c as int].1);
            assert(chunks@.take(c + 1).drop_last() == chunks@.take(c as int));
        }
        push_pieces(&mut out, start, end, max_len);
        c += 1;
    }
    proof {
        assert(chunks@.take(chunks.len() as int) == chunks@);
    }
    out
}

/// Puts the pieces of the chunk from `start` to `end` at the end of `out`.
fn push_pieces(out: &mut Vec<(usize, usize)>, start: usize, end: usize, max_len: usize)
    requires
        max_len > 0,
        start <= end,
    ensures
        final(out)@ == old(out)@ + cut((start, end), max_len),
{
    let n: usize = end - start;
    if n == 0 {
        proof {
            assert(out@ + cut((start, end), max_len) == out@);
        }
        return ;
    }
    let count: usize = (n - 1) / max_len + 1;
    let len: usize = (n - 1) / count + 1;
    proof {
        lemma_round_up(n as int, max_len as int);
        lemma_round_up(n as int, count as int);
    }
    let ghost want = cut((start, end), max_len);
    let mut i: usize = 0;
    let mut s: usize = start;
    while i < count
        invariant
            i <= count,
            max_len > 0,
            start < end,
            n == end - start,
            count == piece_count(n as int, max_len as int),
            len == ceil_div(n as int, count as int),
            want == cut((start, end), max_len),
            i < count ==> s == start + i * len,
            out@ == old(out)@ + want.take(i as int),
        decreases count - i,
    {
        proof {
            lemma_piece_bounds(n as int, max_len as int, i as int);
        }
        let ghost before = out@;
        let e: usize = if end - s > len {
            s + len
        } else {
            end
        };
        out.push((s, e));
        proof {
            assert(want[i as int] == (s, e));
            assert(want.take(i + 1) == want.take(i as int).push((s, e)));
            assert((i + 1) * len == i * len + len) by (nonlinear_arith);
        }
        s = e;
        i += 1;
    }
    proof {
        assert(want.take(count as int) == want);
    }
}

/// Another way to round a quotient up.
proof fn lemma_round_up(a: int, b: int)
    requires
        a > 0,
        b > 0,
    ensures
        (a - 1) / b + 1 == ceil_div(a, b),
{
    assert((a - 1) / b + 1 == (a + b - 1) / b) by (nonlinear_arith)
        requires
            b > 0,
    ;
}

/// The ranges within `len` samples: ends cut off there, empty ranges left out.
pub open spec fn clipped(ranges: Seq<(usize, usize)>, len: usize) -> Seq<(usize, usize)>
    decreases ranges.len(),
{
    if ranges.len() == 0 {
        Seq::empty()
    } else {
        let done = clipped(ranges.drop_last(), len);
        let (start, end) = ranges.last();
        let end = if end < len {
            end
        } else {
            len
        };
        if end > start {
            done.push((start, end))
        } else {
            done
        }
    }
}

/// The detected ranges that lie within `len` samples.
pub fn clip_spans(ranges: &[(usize, usize)], len: usize) -> (r: Vec<(usize, usize)>)
    ensures
        r@ == clipped(ranges@, len),
{
    let mut out: Vec<(usize, usize)> = Vec::new();
    let mut i: usize = 0;
    while i < ranges.len()
        invariant
            i <= ranges.len(),
            out@ == clipped(ranges@.take(i as int), len),
        decreases ranges.len() - i,
    {
        let (start, end) = ranges[i];
        proof {
            assert(ranges@.take(i + 1).drop_last() == ranges@.take(i as int));
        }
        let end: usize = if end < len {
            end
        } else {
            len
        };
        if end > start {
            out.push((start, end));
        }
        i += 1;
    }
    proof {
        assert(ranges@.take(ranges.len() as int) == ranges@);
    }
    out
}

/// A range with [`SPEECH_PAD`] samples more on either side, as far as there
/// are `len`.
pub open spec fn padded_span(range: (usize, usize), len: usize) -> (usize, usize) {
    (
        less(range.0 as int, SPEECH_PAD as int) as usize,
        (if range.1 + SPEECH_PAD < len {
            range.1 + SPEECH_PAD
        } else {
            len as int
        }) as usize,
    )
}

/// Stretches of speech in `len` samples: what the detector found, padded a
/// little so no word is clipped, or the whole input as one span where there was
/// no detector or it failed; [`merge_spans`] then cuts fixed windows.
pub fn speech_spans(found: Option<Vec<(usize, usize)>>, len: usize) -> (r: Vec<(usize, usize)>)
    ensures
        match found {
            Some(spans) => r@ == Seq::new(spans@.len(), |i: int| padded_span(spans@[i], len)),
            None => r@ == seq![(0usize, len)],
        },
{
    match found {
        Some(spans) => {
            let mut out: Vec<(usize, usize)> = Vec::new();
            let mut i: usize = 0;
            while i < spans.len()
                invariant
                    i <= spans.len(),
                    out@ == Seq::new(i as nat, |k: int| padded_span(spans@[k], len)),
                decreases spans.len() - i,
            {
                let (start, end) = spans[i];
                let to: usize = if end < len && len - end > SPEECH_PAD {
                    end + SPEECH_PAD
                } else {
                    len
                };
                out.push((start.saturating_sub(SPEECH_PAD), to));
                i += 1;
            }
            out
        },
        None => {
            let mut out: Vec<(usize, usize)> = Vec::new();
            out.push((0, len));
            out
        },
    }
}

/// Whether the speech at `spans` can be cut into chunks.
pub open spec fn decodable(spans: Seq<(usize, usize)>, word_timed: bool) -> bool {
    if word_timed {
        upright(joined(spans, ALIGNED_CHUNK, usize::MAX))
    } else {
        upright(joined(spans, UTTERANCE_MAX, UTTERANCE_GAP))
    }
}

/// Whether [`decoding_chunks`] takes these spans.
pub fn can_decode(spans: &[(usize, usize)], word_timed: bool) -> (r: bool)
    ensures
        r == decodable(spans@, word_timed),
{
    if word_timed {
        can_merge(spans, ALIGNED_CHUNK, usize::MAX)
    } else {
        can_merge(spans, UTTERANCE_MAX, UTTERANCE_GAP)
    }
}

/// The chunks to decode one by one: up to [`ALIGNED_CHUNK`] for models that
/// time their words, single utterances for the others.
pub fn decoding_chunks(spans: &[(usize, usize)], word_timed: bool) -> (r: Vec<(usize, usize)>)
    requires
        decodable(spans@, word_timed),
    ensures
        r@ == if word_timed {
            merged(spans@, ALIGNED_CHUNK, usize::MAX)
        } else {
            merged(spans@, UTTERANCE_MAX, UTTERANCE_GAP)
        },
{
    if word_timed {
        merge_spans(spans, ALIGNED_CHUNK, usize::MAX)
    } else {
        merge_spans(spans, UTTERANCE_MAX, UTTERANCE_GAP)
    }
}

/// How far decoding has come when it reaches sample `start` of `len`, in
/// percent.
pub fn percent_done(start: usize, len: usize) -> (r: i32)
    requires
        start <= len,
    ensures
        r == if len == 0 {
            0
        } else {
            start * 100 / len as int
        },
        0 <= r <= 100,
{
    if len == 0 {
        return 0;
    }
    let done: u128 = start as u128 * 100 / len as u128;
    proof {
        assert(0 <= start * 100 / len as int <= 100) by (nonlinear_arith)
            requires
                0 <= start <= len,
                len > 0,
        ;
    }
    done as i32
}

/// The samples of one chunk, with silence behind them up to one second.
pub fn chunk_samples<T: Copy>(samples: &[T], start: usize, end: usize, silence: T) -> (r: Vec<T>)
    requires
        start <= end <= samples.len(),
    ensures
        r@ == samples@.subrange(start as int, end as int) + Seq::new(
            less(WHISPER_SAMPLE_RATE as int, end - start) as nat,
            |i: int| silence,
        ),
{
    let mut out: Vec<T> = Vec::new();
    let mut i: usize = start;
    while i < end
        invariant
            start <= i <= end <= samples.len(),
            out@ == samples@.subrange(start as int, i as int),
        decreases end - i,
    {
        out.push(samples[i]);
        i += 1;
        proof {
            assert(samples@.subrange(start as int, i as int) == samples@.subrange(
                start as int,
                i - 1,
            ).push(samples@[i - 1]));
        }
    }
    let ghost body = out@;
    while out.len() < WHISPER_SAMPLE_RATE
        invariant
            body.len() <= out.len(),
            out.len() <= WHISPER_SAMPLE_RATE || out.len() == body.len(),
            out@ == body + Seq::new((out.len() - body.len()) as nat, |k: int| silence),
        decreases WHISPER_SAMPLE_RATE - out.len(),
    {
        out.push(silence);
    }
    out
}

/// Samples that a speech model takes at least: whisper.cpp rejects inputs
/// shorter than about a second.
pub const MIN_INPUT: usize = 17_600;

/// `samples` with silence behind them up to [`MIN_INPUT`].
pub fn pad_input<T: Copy>(samples: Vec<T>, silence: T) -> (r: Vec<T>)
    ensures
        r@ == samples@ + Seq::new(
            less(MIN_INPUT as int, samples@.len() as int) as nat,
            |i: int| silence,
        ),
{
    let ghost body = samples@;
    let mut out = samples;
    while out.len() < MIN_INPUT
        invariant
            body.len() <= out.len(),
            out.len() <= MIN_INPUT || out.len() == body.len(),
            out@ == body + Seq::new((out.len() - body.len()) as nat, |k: int| silence),
        decreases MIN_INPUT - out.len(),
    {
        out.push(silence);
    }
    out
}

/// Whether the ranges follow one another: none ends before it starts, and
/// neither starts nor ends go back.
pub open spec fn ordered(ranges: Seq<(usize, usize)>) -> bool {
    &&& upright(ranges)
    &&& forall|i: int, j: int|
        0 <= i <= j < ranges.len() ==> (#[trigger] ranges[i]).0 <= (#[trigger] ranges[j]).0
            && ranges[i].1 <= ranges[j].1
}

/// Detected speech that follows one another still does when it is padded.
pub proof fn law_padding_keeps_order(spans: Seq<(usize, usize)>, len: usize)
    requires
        ordered(spans),
        forall|i: int| 0 <= i < spans.len() ==> (#[trigger] spans[i]).1 <= len,
    ensures
        ordered(Seq::new(spans.len(), |i: int| padded_span(spans[i], len))),
{
    let all = Seq::new(spans.len(), |i: int| padded_span(spans[i], len));
    assert forall|i: int, j: int| 0 <= i <= j < all.len() implies (#[trigger] all[i]).0 <= (
    #[trigger] all[j]).0 && all[i].1 <= all[j].1 by {
        assert(spans[i].0 <= spans[j].0 && spans[i].1 <= spans[j].1);
    }
    assert forall|i: int| 0 <= i < all.len() implies (#[trigger] all[i]).0 <= all[i].1 by {
        assert(spans[i].0 <= spans[i].1 && spans[i].1 <= len);
    }
}

/// Whether some range holds the sample `t`.
pub open spec fn covers(ranges: Seq<(usize, usize)>, t: int) -> bool {
    exists|i: int| 0 <= i < ranges.len() && (#[trigger] ranges[i]).0 <= t < ranges[i].1
}

/// Whether every range stands on one side of the gap from `from` to `to`.
pub open spec fn apart(ranges: Seq<(usize, usize)>, from: int, to: int) -> bool {
    forall|i: int| 0 <= i < ranges.len() ==> (#[trigger] ranges[i]).1 <= from || ranges[i].0 >= to
}

/// What joining ordered spans gives: ordered chunks that end where the spans
/// end, hold every sample the spans hold, and leave out the wide gaps.
pub proof fn lemma_joined(spans: Seq<(usize, usize)>, max_len: usize, max_gap: usize)
    requires
        ordered(spans),
    ensures
        ordered(joined(spans, max_len, max_gap)),
        spans.len() > 0 ==> joined(spans, max_len, max_gap).len() > 0,
        spans.len() > 0 ==> joined(spans, max_len, max_gap).last().1 == spans.last().1,
        spans.len() > 0 ==> joined(spans, max_len, max_gap).last().0 <= spans.last().0,
        forall|t: int| #[trigger] covers(spans, t) ==> covers(joined(spans, max_len, max_gap), t),
        forall|k: int|
            0 <= k < spans.len() - 1 && spans[k + 1].0 - spans[k].1 > max_gap ==> apart(
                joined(spans, max_len, max_gap),
                (#[trigger] spans[k]).1 as int,
                spans[k + 1].0 as int,
            ),
    decreases spans.len(),
{
    let all = joined(spans, max_len, max_gap);
    if spans.len() > 0 {
        let shorter = spans.drop_last();
        assert(ordered(shorter)) by {
            assert forall|i: int, j: int| 0 <= i <= j < shorter.len() implies (
            #[trigger] shorter[i]).0 <= (#[trigger] shorter[j]).0 && shorter[i].1
                <= shorter[j].1 by {
                assert(shorter[i] == spans[i] && shorter[j] == spans[j]);
            }
        }
        lemma_joined(shorter, max_len, max_gap);
        let done = joined(shorter, max_len, max_gap);
        let next = spans.last();
        if shorter.len() > 0 {
            assert(shorter.last() == spans[spans.len() - 2]);
            assert(shorter.last().0 <= next.0 && shorter.last().1 <= next.1);
        }
        let merges = done.len() > 0 && joins(done.last(), next, max_len, max_gap);
        if done.len() > 0 {
            assert(shorter.len() > 0);
        }
        assert forall|i: int, j: int| 0 <= i <= j < all.len() implies (#[trigger] all[i]).0 <= (
        #[trigger] all[j]).0 && all[i].1 <= all[j].1 by {
            if i < done.len() {
                assert(done[i].0 <= done[done.len() - 1].0 && done[i].1 <= done[done.len() - 1].1);
            }
            if j < done.len() {
                assert(done[i].0 <= done[j].0);
            }
        }
        assert forall|t: int| #[trigger] covers(spans, t) implies covers(all, t) by {
            let k = choose|k: int|
                0 <= k < spans.len() && (#[trigger] spans[k]).0 <= t < spans[k].1;
            let last = all.len() - 1;
            if k < shorter.len() {
                assert(shorter[k] == spans[k]);
                assert(covers(shorter, t));
                let c = choose|c: int|
                    0 <= c < done.len() && (#[trigger] done[c]).0 <= t < done[c].1;
                assert(all[c].0 <= t < all[c].1);
            } else {
                assert(all[last].0 <= t < all[last].1);
            }
        }
        assert forall|k: int|
            0 <= k < spans.len() - 1 && spans[k + 1].0 - spans[k].1 > max_gap implies apart(
            all,
            (#[trigger] spans[k]).1 as int,
            spans[k + 1].0 as int,
        ) by {
            let from = spans[k].1 as int;
            let to = spans[k + 1].0 as int;
            if k + 1 < shorter.len() {
                assert(shorter[k] == spans[k] && shorter[k + 1] == spans[k + 1]);
                assert(apart(done, from, to));
                assert forall|i: int| 0 <= i < all.len() implies (#[trigger] all[i]).1 <= from
                    || all[i].0 >= to by {
                    if i < done.len() {
                        assert(done[i].1 <= from || done[i].0 >= to);
                        if i == done.len() - 1 && merges {
                            assert(done[i].1 == shorter.last().1);
                            assert(spans[k + 1].1 <= shorter.last().1);
                            assert(spans[k + 1].0 <= spans[k + 1].1);
                        }
                    } else {
                        assert(spans[k + 1].0 <= next.0);
                    }
                }
            } else {
                assert(shorter.last() == spans[k]);
                assert(done.last().1 == from);
                assert(!merges);
                assert forall|i: int| 0 <= i < all.len() implies (#[trigger] all[i]).1 <= from
                    || all[i].0 >= to by {
                    if i < done.len() {
                        assert(done[i].1 <= done[done.len() - 1].1);
                    }
                }
            }
        }
    }
}

/// What cutting chunks gives: nonempty pieces of bounded length, each within
/// a chunk, that hold every sample the chunks hold.
pub proof fn lemma_cut_all(chunks: Seq<(usize, usize)>, max_len: usize)
    requires
        upright(chunks),
        max_len > 0,
    ensures
        forall|i: int|
            0 <= i < cut_all(chunks, max_len).len() ==> {
                let piece = #[trigger] cut_all(chunks, max_len)[i];
                &&& piece.0 < piece.1
                &&& piece.1 - piece.0 <= max_len
                &&& exists|c: int|
                    0 <= c < chunks.len() && (#[trigger] chunks[c]).0 <= piece.0 && piece.1
                        <= chunks[c].1
            },
        forall|t: int| #[trigger] covers(chunks, t) ==> covers(cut_all(chunks, max_len), t),
    decreases chunks.len(),
{
    let all = cut_all(chunks, max_len);
    if chunks.len() > 0 {
        let shorter = chunks.drop_last();
        assert(upright(shorter)) by {
            assert forall|i: int| 0 <= i < shorter.len() implies (#[trigger] shorter[i]).0
                <= shorter[i].1 by {
                assert(shorter[i] == chunks[i]);
            }
        }
        lemma_cut_all(shorter, max_len);
        let done = cut_all(shorter, max_len);
        let chunk = chunks.last();
        let pieces = cut(chunk, max_len);
        let n = chunk.1 - chunk.0;
        let count = piece_count(n, max_len as int);
        let len = ceil_div(n, count);
        assert(chunks[chunks.len() - 1].0 <= chunks[chunks.len() - 1].1);
        assert forall|i: int| 0 <= i < all.len() implies {
            let piece = #[trigger] all[i];
            &&& piece.0 < piece.1
            &&& piece.1 - piece.0 <= max_len
            &&& exists|c: int|
                0 <= c < chunks.len() && (#[trigger] chunks[c]).0 <= piece.0 && piece.1
                    <= chunks[c].1
        } by {
            if i < done.len() {
                assert(all[i] == done[i]);
                let c = choose|c: int|
                    0 <= c < shorter.len() && (#[trigger] shorter[c]).0 <= done[i].0 && done[i].1
                        <= shorter[c].1;
                assert(chunks[c] == shorter[c]);
            } else {
                lemma_piece_bounds(n, max_len as int, i - done.len());
                assert(all[i] == pieces[i - done.len()]);
                assert(chunks[chunks.len() - 1] == chunk);
            }
        }
        assert forall|t: int| #[trigger] covers(chunks, t) implies covers(all, t) by {
            let k = choose|k: int|
                0 <= k < chunks.len() && (#[trigger] chunks[k]).0 <= t < chunks[k].1;
            if k < shorter.len() {
                assert(shorter[k] == chunks[k]);
                assert(covers(shorter, t));
                let c = choose|c: int|
                    0 <= c < done.len() && (#[trigger] done[c]).0 <= t < done[c].1;
                assert(all[c] == done[c]);
            } else {
                lemma_piece_holding(n, max_len as int, t - chunk.0);
                let i = (t - chunk.0) / len;
                assert(all[done.len() + i] == pieces[i]);
                assert(pieces[i].0 <= t < pieces[i].1);
            }
        }
    }
}

/// Which piece holds the sample `t` of a chunk of `n` samples.
proof fn lemma_piece_holding(n: int, max_len: int, t: int)
    requires
        0 <= t < n,
        max_len > 0,
    ensures
        ({
            let len = ceil_div(n, piece_count(n, max_len));
            let i = t / len;
            0 <= i < piece_count(n, max_len) && i * len <= t < i * len + len && i * len + len <= n
                + len && 0 <= i * len
        }),
{
    let count = piece_count(n, max_len);
    let len = ceil_div(n, count);
    lemma_ceil_div(n, max_len);
    lemma_ceil_div(n, count);
    let i = t / len;
    assert(0 <= i && i * len <= t < i * len + len) by (nonlinear_arith)
        requires
            i == t / len,
            len > 0,
            t >= 0,
    ;
    assert(i < count) by (nonlinear_arith)
        requires
            i * len <= t,
            t < n,
            n <= len * count,
            len > 0,
    ;
    assert(0 <= i * len) by (nonlinear_arith)
        requires
            0 <= i,
            len > 0,
    ;
}

/// Chunks are nonempty and never longer than asked for.
pub proof fn law_chunks_are_bounded(spans: Seq<(usize, usize)>, max_len: usize, max_gap: usize)
    requires
        max_len > 0,
        upright(joined(spans, max_len, max_gap)),
    ensures
        forall|i: int|
            0 <= i < merged(spans, max_len, max_gap).len() ==> {
                let chunk = #[trigger] merged(spans, max_len, max_gap)[i];
                chunk.0 < chunk.1 && chunk.1 - chunk.0 <= max_len
            },
{
    lemma_cut_all(joined(spans, max_len, max_gap), max_len);
}

/// Spans that follow one another can be merged, and no sample of speech is
/// lost: what a span holds, a chunk holds.
pub proof fn law_chunks_hold_all_speech(spans: Seq<(usize, usize)>, max_len: usize, max_gap: usize)
    requires
        max_len > 0,
        ordered(spans),
    ensures
        upright(joined(spans, max_len, max_gap)),
        forall|t: int| #[trigger] covers(spans, t) ==> covers(merged(spans, max_len, max_gap), t),
{
    lemma_joined(spans, max_len, max_gap);
    lemma_cut_all(joined(spans, max_len, max_gap), max_len);
    assert forall|t: int| #[trigger] covers(spans, t) implies covers(
        merged(spans, max_len, max_gap),
        t,
    ) by {
        assert(covers(joined(spans, max_len, max_gap), t));
    }
}

/// No chunk reaches across a silence wider than `max_gap`.
pub proof fn law_chunks_stop_at_wide_gaps(
    spans: Seq<(usize, usize)>,
    max_len: usize,
    max_gap: usize,
    k: int,
)
    requires
        max_len > 0,
        ordered(spans),
        0 <= k < spans.len() - 1,
        spans[k + 1].0 - spans[k].1 > max_gap,
    ensures
        apart(merged(spans, max_len, max_gap), spans[k].1 as int, spans[k + 1].0 as int),
{
    lemma_joined(spans, max_len, max_gap);
    let chunks = joined(spans, max_len, max_gap);
    lemma_cut_all(chunks, max_len);
    let all = merged(spans, max_len, max_gap);
    let from = spans[k].1 as int;
    let to = spans[k + 1].0 as int;
    assert(apart(chunks, from, to));
    assert forall|i: int| 0 <= i < all.len() implies (#[trigger] all[i]).1 <= from || all[i].0
        >= to by {
        let c = choose|c: int|
            0 <= c < chunks.len() && (#[trigger] chunks[c]).0 <= all[i].0 && all[i].1
                <= chunks[c].1;
        assert(chunks[c].1 <= from || chunks[c].0 >= to);
    }
}

/// Whether two stretches of speech may be one chunk: it would be no longer than
/// `max_len` samples, and the silence between them is no wider than `max_gap`.
pub open spec fn may_be_one(
    chunk: (usize, usize),
    next: (usize, usize),
    max_len: usize,
    max_gap: usize,
) -> bool {
    next.1 - chunk.0 <= max_len && next.0 - chunk.1 <= max_gap
}

/// Whether the span at `k` may be one chunk with those before it, from `a` on.
pub open spec fn goes_on(
    spans: Seq<(usize, usize)>,
    a: int,
    k: int,
    max_len: usize,
    max_gap: usize,
) -> bool {
    may_be_one((spans[a].0, spans[k - 1].1), spans[k], max_len, max_gap)
}

/// Whether chunk `i` goes from the start of the span at `cuts[i]` to the end of the
/// one before `cuts[i + 1]`, each of which may be one chunk with those before it,
/// while the first may not be with the chunk before.
pub open spec fn rightly_joined_at(
    spans: Seq<(usize, usize)>,
    chunks: Seq<(usize, usize)>,
    max_len: usize,
    max_gap: usize,
    cuts: Seq<int>,
    i: int,
) -> bool {
    &&& 0 <= cuts[i] < cuts[i + 1] <= spans.len()
    &&& chunks[i] == (spans[cuts[i]].0, spans[cuts[i + 1] - 1].1)
    &&& i > 0 ==> !may_be_one(chunks[i - 1], spans[cuts[i]], max_len, max_gap)
    &&& forall|k: int|
        cuts[i] < k < cuts[i + 1] ==> #[trigger] goes_on(spans, cuts[i], k, max_len, max_gap)
}

/// Whether spans are joined into chunks at `cuts`, and rightly there.
pub open spec fn rightly_joined(
    spans: Seq<(usize, usize)>,
    chunks: Seq<(usize, usize)>,
    max_len: usize,
    max_gap: usize,
    cuts: Seq<int>,
) -> bool {
    &&& cuts.len() == chunks.len() + 1
    &&& cuts[0] == 0
    &&& cuts.last() == spans.len()
    &&& forall|i: int|
        0 <= i < chunks.len() ==> #[trigger] rightly_joined_at(
            spans,
            chunks,
            max_len,
            max_gap,
            cuts,
            i,
        )
}

/// One more span leaves the chunks before it as they are.
proof fn lemma_join_stays(
    spans: Seq<(usize, usize)>,
    done: Seq<(usize, usize)>,
    all: Seq<(usize, usize)>,
    max_len: usize,
    max_gap: usize,
    before: Seq<int>,
    cuts: Seq<int>,
    i: int,
)
    requires
        spans.len() > 0,
        0 <= i,
        rightly_joined_at(spans.drop_last(), done, max_len, max_gap, before, i),
        all[i] == done[i],
        i > 0 ==> all[i - 1] == done[i - 1],
        cuts[i] == before[i],
        cuts[i + 1] == before[i + 1],
    ensures
        rightly_joined_at(spans, all, max_len, max_gap, cuts, i),
{
    let shorter = spans.drop_last();
    let (a, b) = (cuts[i], cuts[i + 1]);
    assert(shorter[a] == spans[a] && shorter[b - 1] == spans[b - 1]);
    assert forall|k: int| a < k < b implies #[trigger] goes_on(spans, a, k, max_len, max_gap) by {
        assert(goes_on(shorter, a, k, max_len, max_gap));
        assert(shorter[k] == spans[k] && shorter[k - 1] == spans[k - 1]);
    }
}

/// One more span in the last chunk.
proof fn lemma_join_grows(
    spans: Seq<(usize, usize)>,
    done: Seq<(usize, usize)>,
    all: Seq<(usize, usize)>,
    max_len: usize,
    max_gap: usize,
    before: Seq<int>,
    cuts: Seq<int>,
    i: int,
)
    requires
        spans.len() > 0,
        0 <= i,
        rightly_joined_at(spans.drop_last(), done, max_len, max_gap, before, i),
        before[i + 1] == spans.len() - 1,
        may_be_one(done[i], spans.last(), max_len, max_gap),
        all[i] == (done[i].0, spans.last().1),
        i > 0 ==> all[i - 1] == done[i - 1],
        cuts[i] == before[i],
        cuts[i + 1] == spans.len(),
    ensures
        rightly_joined_at(spans, all, max_len, max_gap, cuts, i),
{
    let shorter = spans.drop_last();
    let n = shorter.len() as int;
    let a = cuts[i];
    assert(shorter[a] == spans[a] && shorter[n - 1] == spans[n - 1]);
    assert(spans[n] == spans.last());
    assert(done[i] == (spans[a].0, spans[n - 1].1));
    assert forall|k: int| a < k < n + 1 implies #[trigger] goes_on(
        spans,
        a,
        k,
        max_len,
        max_gap,
    ) by {
        if k < n {
            assert(goes_on(shorter, a, k, max_len, max_gap));
            assert(shorter[k] == spans[k] && shorter[k - 1] == spans[k - 1]);
        }
    }
}

/// Stretches of speech are joined as far as they may be one chunk, and no further:
/// before a long one is cut, each chunk is some of them in a row, from the start of
/// the first to the end of the last.
pub proof fn law_speech_is_joined_as_far_as_it_may(
    spans: Seq<(usize, usize)>,
    max_len: usize,
    max_gap: usize,
) -> (cuts: Seq<int>)
    ensures
        rightly_joined(spans, joined(spans, max_len, max_gap), max_len, max_gap, cuts),
    decreases spans.len(),
{
    if spans.len() == 0 {
        seq![0]
    } else {
        let shorter = spans.drop_last();
        let n = shorter.len() as int;
        let before = law_speech_is_joined_as_far_as_it_may(shorter, max_len, max_gap);
        let done = joined(shorter, max_len, max_gap);
        let all = joined(spans, max_len, max_gap);
        let next = spans.last();
        let m = done.len() as int;
        let grows = m > 0 && joins(done.last(), next, max_len, max_gap);
        let cuts = if grows {
            before.drop_last().push(n + 1)
        } else {
            before.push(n + 1)
        };
        assert(m > 0 ==> joins(done.last(), next, max_len, max_gap) == may_be_one(
            done.last(),
            next,
            max_len,
            max_gap,
        ));
        assert forall|i: int| 0 <= i < all.len() implies #[trigger] rightly_joined_at(
            spans,
            all,
            max_len,
            max_gap,
            cuts,
            i,
        ) by {
            if i < m {
                assert(rightly_joined_at(shorter, done, max_len, max_gap, before, i));
                if grows && i == m - 1 {
                    lemma_join_grows(spans, done, all, max_len, max_gap, before, cuts, i);
                } else {
                    lemma_join_stays(spans, done, all, max_len, max_gap, before, cuts, i);
                }
            } else {
                assert(all[i] == spans[n]);
            }
        }
        cuts
    }
}

/// A chunk is cut into the fewest pieces that are short enough: they follow one
/// another without a gap from its start to its end, and all but the last are
/// equally long.
pub proof fn law_long_chunks_are_cut_evenly(chunk: (usize, usize), max_len: usize)
    requires
        0 < max_len,
    ensures
        chunk.0 >= chunk.1 ==> cut(chunk, max_len).len() == 0,
        chunk.0 < chunk.1 ==> {
            let all = cut(chunk, max_len);
            let n = all.len() as int;
            &&& 0 < n
            &&& (n - 1) * max_len < chunk.1 - chunk.0 <= n * max_len
            &&& all[0].0 == chunk.0
            &&& all[n - 1].1 == chunk.1
            &&& forall|i: int|
                0 <= i < n - 1 ==> (#[trigger] all[i]).1 == all[i + 1].0 && all[i].1 - all[i].0
                    == all[0].1 - all[0].0
            &&& all[n - 1].1 - all[n - 1].0 <= all[0].1 - all[0].0
            &&& forall|i: int| 0 <= i < n ==> 0 < (#[trigger] all[i]).1 - all[i].0 <= max_len
        },
{
    if chunk.0 < chunk.1 {
        let n = chunk.1 - chunk.0;
        let count = piece_count(n, max_len as int);
        let len = ceil_div(n, count);
        lemma_ceil_div(n, max_len as int);
        lemma_ceil_div(n, count);
        let all = cut(chunk, max_len);
        assert((0int) * len == 0);
        lemma_piece_bounds(n, max_len as int, 0);
        assert forall|i: int| 0 <= i < count implies {
            &&& chunk.0 <= (#[trigger] all[i]).0 == chunk.0 + i * len
            &&& i < count - 1 ==> all[i].1 == chunk.0 + i * len + len
            &&& i == count - 1 ==> all[i].1 == chunk.1
            &&& 0 < all[i].1 - all[i].0 <= len
        } by {
            lemma_piece_bounds(n, max_len as int, i);
        }
        assert forall|i: int| 0 <= i < count - 1 implies (#[trigger] all[i]).1 == all[i + 1].0
            && all[i].1 - all[i].0 == all[0].1 - all[0].0 by {
            assert((i + 1) * len == i * len + len) by (nonlinear_arith);
            assert(all[i + 1].0 == chunk.0 + (i + 1) * len);
            assert(all[0].0 == chunk.0);
        }
        assert(all[0].0 == chunk.0);
        assert(all[count - 1].1 == chunk.1);
        if count == 1 {
            assert(all[0].1 == chunk.1);
        } else {
            assert(all[0].1 == chunk.0 + len);
            assert(all[count - 1].1 - all[count - 1].0 <= len);
        }
    }
}

/// The pieces of all chunks come in the order of the chunks.
pub proof fn law_chunks_are_cut_one_by_one(chunks: Seq<(usize, usize)>, max_len: usize)
    requires
        chunks.len() > 0,
    ensures
        cut_all(chunks, max_len) == cut_all(chunks.drop_last(), max_len) + cut(
            chunks.last(),
            max_len,
        ),
        cut_all(chunks.take(0), max_len).len() == 0,
{
}

/// What a detector found is padded by a quarter of a second on either side, but
/// not beyond the recording: it is all still in it.
pub proof fn law_padding_is_a_quarter_second(range: (usize, usize), len: usize)
    requires
        range.0 <= range.1 <= len,
    ensures
        ({
            let r = padded_span(range, len);
            &&& r.0 <= range.0 && range.1 <= r.1 <= len
            &&& range.0 - r.0 <= 4_000 && r.1 - range.1 <= 4_000
            &&& range.0 - r.0 == 4_000 || r.0 == 0
            &&& r.1 - range.1 == 4_000 || r.1 == len
        }),
{
}

/// Ranges are clipped to the recording: a sample of it is in one of them exactly
/// where it was before, none is empty or reaches beyond, and none of those that
/// fit is changed.
pub proof fn law_clipping_keeps_what_is_there(ranges: Seq<(usize, usize)>, len: usize, t: int)
    requires
        0 <= t,
    ensures
        covers(clipped(ranges, len), t) <==> covers(ranges, t) && t < len,
        forall|i: int|
            0 <= i < clipped(ranges, len).len() ==> (#[trigger] clipped(ranges, len)[i]).0
                < clipped(ranges, len)[i].1 <= len,
        (forall|i: int|
            0 <= i < ranges.len() ==> (#[trigger] ranges[i]).0 < ranges[i].1 <= len) ==> clipped(
            ranges,
            len,
        ) == ranges,
    decreases ranges.len(),
{
    if ranges.len() > 0 {
        let shorter = ranges.drop_last();
        let done = clipped(shorter, len);
        let all = clipped(ranges, len);
        law_clipping_keeps_what_is_there(shorter, len, t);
        let n = shorter.len() as int;
        assert(ranges[n] == ranges.last());
        assert(forall|i: int| 0 <= i < n ==> #[trigger] ranges[i] == shorter[i]);
        assert(forall|i: int| 0 <= i < done.len() ==> #[trigger] all[i] == done[i]);
        if covers(shorter, t) {
            let i = choose|i: int| 0 <= i < n && (#[trigger] shorter[i]).0 <= t < shorter[i].1;
            assert(ranges[i] == shorter[i]);
        }
        if covers(done, t) {
            let i = choose|i: int| 0 <= i < done.len() && (#[trigger] done[i]).0 <= t < done[i].1;
            assert(all[i] == done[i]);
        }
        if covers(ranges, t) && !covers(shorter, t) {
            let i = choose|i: int| 0 <= i < ranges.len() && (#[trigger] ranges[i]).0 <= t
                < ranges[i].1;
            assert(i == n) by {
                if i < n {
                    assert(shorter[i] == ranges[i]);
                }
            }
            if t < len {
                assert(all[done.len() as int].0 <= t < all[done.len() as int].1);
            }
        }
        if covers(all, t) && !covers(done, t) {
            let i = choose|i: int| 0 <= i < all.len() && (#[trigger] all[i]).0 <= t < all[i].1;
            assert(i == done.len()) by {
                if i < done.len() {
                    assert(done[i] == all[i]);
                }
            }
            assert(ranges[n].0 <= t < ranges[n].1);
        }
        if forall|i: int| 0 <= i < ranges.len() ==> (#[trigger] ranges[i]).0 < ranges[i].1 <= len {
            assert forall|i: int| 0 <= i < n implies (#[trigger] shorter[i]).0 < shorter[i].1
                <= len by {
                assert(ranges[i] == shorter[i]);
            }
            assert(all =~= ranges);
        }
    }
}

/// Words are decoded in chunks of up to 240 seconds, whatever the silence between
/// them; what has no timed words in stretches of up to 20 seconds with at most 0.6
/// of silence inside; a second is 16_000 samples.
pub proof fn law_chunks_have_these_lengths()
    ensures
        ALIGNED_CHUNK == 240 * 16_000,
        UTTERANCE_MAX == 20 * 16_000,
        UTTERANCE_GAP * 10 == 6 * 16_000,
        SPEECH_PAD * 4 == 16_000,
        MIN_INPUT * 10 == 11 * 16_000,
        WHISPER_SAMPLE_RATE == 16_000,
{
}

/// What is missing is what makes up the greater of two numbers.
pub proof fn law_padding_fills_up(want: int, have: int)
    ensures
        less(want, have) >= 0,
        have >= want ==> less(want, have) == 0,
        have < want ==> have + less(want, have) == want,
{
}

} // verus!
