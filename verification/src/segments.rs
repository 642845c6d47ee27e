//! Decoded speech as timed text: what a speech model returned, regrouped into
//! transcript segments.

use vstd::prelude::*;

use crate::spans::{decodable, decoding_chunks, merged, percent_done};
use crate::spans::{ALIGNED_CHUNK, UTTERANCE_GAP, UTTERANCE_MAX};
use crate::text::{
    chars_of, ends_in, ends_with_class, join, law_trimming_takes_both_ends, lemma_join_push, text_of,
    trim, trim_of, trimmed_text, white, Class,
};

verus! {

/// One decoded segment: start and end in centiseconds, and its text.
pub type RawSegment = (i64, i64, String);

/// The segments with their texts as characters.
pub open spec fn timed(v: Seq<(i64, i64, String)>) -> Seq<(i64, i64, Seq<char>)> {
    Seq::new(v.len(), |i: int| (v[i].0, v[i].1, v[i].2@))
}

/// A pause of more than this many milliseconds starts a new segment.
pub const PAUSE_MS: i64 = 1_000;

/// A sentence end closes a segment of at least this many milliseconds.
pub const SENTENCE_MIN_MS: i64 = 4_000;

/// A segment grows no longer than this many milliseconds.
pub const MAX_MS: i64 = 20_000;

/// What ends a sentence.
pub open spec fn sentence_end() -> Class {
    Class::Three('.', '?', '!')
}

/// Whether `word` starts a segment of its own behind `group`: after a pause,
/// after a sentence end once the segment has some length, or when the segment
/// would get too long.
pub open spec fn breaks(group: (i64, i64, Seq<char>), word: (i64, i64, Seq<char>)) -> bool {
    ||| word.0 - group.1 > PAUSE_MS
    ||| ends_in(group.2, sentence_end()) && group.1 - group.0 >= SENTENCE_MIN_MS
    ||| word.1 - group.0 > MAX_MS
}

/// `group` with `word` behind it.
pub open spec fn extended(
    group: (i64, i64, Seq<char>),
    word: (i64, i64, Seq<char>),
) -> (i64, i64, Seq<char>) {
    (
        group.0,
        if word.1 > group.1 {
            word.1
        } else {
            group.1
        },
        group.2 + " "@ + word.2,
    )
}

/// Timed words in groups, in milliseconds.
pub open spec fn groups(words: Seq<(i64, i64, Seq<char>)>) -> Seq<(i64, i64, Seq<char>)>
    decreases words.len(),
{
    if words.len() == 0 {
        Seq::empty()
    } else {
        let done = groups(words.drop_last());
        let word = words.last();
        if done.len() > 0 && !breaks(done.last(), word) {
            done.drop_last().push(extended(done.last(), word))
        } else {
            done.push(word)
        }
    }
}

/// A tenth, rounded toward zero.
pub open spec fn tenth(n: i64) -> i64 {
    if n < 0 {
        (-((-n) / 10)) as i64
    } else {
        (n / 10) as i64
    }
}

/// Milliseconds turned into centiseconds.
pub open spec fn in_centiseconds(v: Seq<(i64, i64, Seq<char>)>) -> Seq<(i64, i64, Seq<char>)> {
    Seq::new(v.len(), |i: int| (tenth(v[i].0), tenth(v[i].1), v[i].2))
}

/// Regroup timed words (milliseconds) into transcript segments: a new one
/// starts after a pause of over a second, after a sentence end once the segment
/// has some length, or when the segment gets long. Times are returned in
/// centiseconds like whisper's.
pub fn group_words(words: &[(i64, i64, String)]) -> (r: Vec<RawSegment>)
    ensures
        timed(r@) == in_centiseconds(groups(timed(words@))),
{
    let mut done: Vec<(i64, i64, String)> = Vec::new();
    let ghost all = timed(words@);
    let mut i: usize = 0;
    while i < words.len()
        invariant
            i <= words.len(),
            all == timed(words@),
            timed(done@) == groups(all.take(i as int)),
        decreases words.len() - i,
    {
        let start: i64 = words[i].0;
        let end: i64 = words[i].1;
        let word: &String = &words[i].2;
        let ghost before = timed(done@);
        proof {
            assert(all.take(i + 1).drop_last() == all.take(i as int));
            assert(all.take(i + 1).last() == all[i as int]);
            assert(all[i as int] == (start, end, word@));
        }
        match done.pop() {
            Some((seg_start, seg_end, text)) => {
                let ghost group = (seg_start, seg_end, text@);
                let ghost kept = timed(done@);
                proof {
                    assert(before.last() == group);
                    assert(kept == before.drop_last());
                }
                let chars = chars_of(text.as_str());
                let ended = ends_with_class(&chars, Class::Three('.', '?', '!'));
                let pause: i128 = start as i128 - seg_end as i128;
                let have: i128 = seg_end as i128 - seg_start as i128;
                let would: i128 = end as i128 - seg_start as i128;
                if pause > PAUSE_MS as i128 || (ended && have >= SENTENCE_MIN_MS as i128) || would
                    > MAX_MS as i128 {
                    done.push((seg_start, seg_end, text));
                    done.push((start, end, word.clone()));
                    proof {
                        assert(timed(done@) == before.push(all[i as int]));
                    }
                } else {
                    let mut longer = text;
                    longer.push_str(" ");
                    longer.push_str(word.as_str());
                    let to: i64 = if end > seg_end {
                        end
                    } else {
                        seg_end
                    };
                    done.push((seg_start, to, longer));
                    proof {
                        assert(timed(done@) == kept.push(extended(group, all[i as int])));
                    }
                }
            },
            None => {
                done.push((start, end, word.clone()));
                proof {
                    assert(before.len() == 0);
                    assert(timed(done@) == before.push(all[i as int]));
                }
            },
        }
        i += 1;
    }
    proof {
        assert(all.take(words.len() as int) == all);
    }
    to_centiseconds(done)
}

/// The same texts with their times in centiseconds.
pub fn to_centiseconds(pieces: Vec<(i64, i64, String)>) -> (r: Vec<RawSegment>)
    ensures
        timed(r@) == in_centiseconds(timed(pieces@)),
{
    let mut out: Vec<RawSegment> = Vec::new();
    let mut i: usize = 0;
    while i < pieces.len()
        invariant
            i <= pieces.len(),
            timed(out@) == in_centiseconds(timed(pieces@)).take(i as int),
        decreases pieces.len() - i,
    {
        let ghost before = timed(out@);
        out.push((pieces[i].0 / 10, pieces[i].1 / 10, pieces[i].2.clone()));
        i += 1;
        proof {
            let want = in_centiseconds(timed(pieces@));
            assert(timed(out@) == before.push(timed(out@).last()));
            assert(timed(out@).last() == want[i - 1]);
            assert(want.take(i as int) == want.take(i - 1).push(want[i - 1]));
        }
    }
    out
}

/// The texts of timed pieces, without their times.
pub open spec fn spoken(v: Seq<(i64, i64, Seq<char>)>) -> Seq<Seq<char>> {
    Seq::new(v.len(), |i: int| v[i].2)
}

/// Grouping loses and reorders nothing: the segments read one after another
/// are the words read one after another.
pub proof fn law_grouping_keeps_every_word(words: Seq<(i64, i64, Seq<char>)>)
    ensures
        join(spoken(groups(words)), " "@) == join(spoken(words), " "@),
        words.len() > 0 ==> groups(words).len() > 0,
    decreases words.len(),
{
    let sep = " "@;
    if words.len() > 0 {
        let shorter = words.drop_last();
        law_grouping_keeps_every_word(shorter);
        let done = groups(shorter);
        let word = words.last();
        assert(spoken(words) == spoken(shorter).push(word.2));
        lemma_join_push(spoken(shorter), word.2, sep);
        if done.len() > 0 && !breaks(done.last(), word) {
            let front = spoken(done.drop_last());
            assert(spoken(done) == front.push(done.last().2));
            lemma_join_push(front, done.last().2, sep);
            lemma_join_push(front, done.last().2 + sep + word.2, sep);
            assert(spoken(groups(words)) == front.push(done.last().2 + sep + word.2));
            assert(join(spoken(groups(words)), sep) == join(spoken(done), sep) + sep + word.2);
            assert(shorter.len() > 0) by {
                if shorter.len() == 0 {
                    assert(done.len() == 0);
                }
            }
        } else {
            assert(spoken(groups(words)) == spoken(done).push(word.2));
            lemma_join_push(spoken(done), word.2, sep);
            if shorter.len() == 0 {
                assert(done.len() == 0);
            }
        }
    }
}

/// The words from `a` to before `b` as one segment: from the start of the first to
/// the latest end, with their texts one after another.
pub open spec fn as_one(words: Seq<(i64, i64, Seq<char>)>, a: int, b: int) -> (i64, i64, Seq<char>)
    decreases b - a,
{
    if b <= a + 1 {
        words[a]
    } else {
        let before = as_one(words, a, b - 1);
        (
            before.0,
            if words[b - 1].1 > before.1 {
                words[b - 1].1
            } else {
                before.1
            },
            before.2 + " "@ + words[b - 1].2,
        )
    }
}

/// Whether there is a cause to part a word from the segment before it: a pause of
/// over a second, a sentence that ended a segment of at least four seconds, or a
/// segment that would last over twenty.
pub open spec fn cause_to_part(
    group: (i64, i64, Seq<char>),
    word: (i64, i64, Seq<char>),
) -> bool {
    ||| word.0 - group.1 > 1_000
    ||| {
        &&& group.1 - group.0 >= 4_000
        &&& group.2.len() > 0
        &&& group.2.last() == '.' || group.2.last() == '?' || group.2.last() == '!'
    }
    ||| word.1 - group.0 > 20_000
}

/// Whether segment `i` is the words between two cuts, with a cause to part at the
/// first of them, unless that is the start, and none before the second.
pub open spec fn rightly_cut_at(
    words: Seq<(i64, i64, Seq<char>)>,
    segments: Seq<(i64, i64, Seq<char>)>,
    cuts: Seq<int>,
    i: int,
) -> bool {
    &&& 0 <= cuts[i] < cuts[i + 1] <= words.len()
    &&& segments[i] == as_one(words, cuts[i], cuts[i + 1])
    &&& i > 0 ==> cause_to_part(segments[i - 1], words[cuts[i]])
    &&& forall|k: int|
        cuts[i] < k < cuts[i + 1] ==> !cause_to_part(as_one(words, cuts[i], k), #[trigger] words[k])
}

/// Whether words are cut into segments at `cuts`, and rightly there.
pub open spec fn rightly_cut(
    words: Seq<(i64, i64, Seq<char>)>,
    segments: Seq<(i64, i64, Seq<char>)>,
    cuts: Seq<int>,
) -> bool {
    &&& cuts.len() == segments.len() + 1
    &&& cuts[0] == 0
    &&& cuts.last() == words.len()
    &&& forall|i: int|
        0 <= i < segments.len() ==> #[trigger] rightly_cut_at(words, segments, cuts, i)
}

/// One more word leaves the segments before it as they are.
proof fn lemma_cut_stays(
    words: Seq<(i64, i64, Seq<char>)>,
    done: Seq<(i64, i64, Seq<char>)>,
    before: Seq<int>,
    all: Seq<(i64, i64, Seq<char>)>,
    cuts: Seq<int>,
    i: int,
)
    requires
        words.len() > 0,
        rightly_cut_at(words.drop_last(), done, before, i),
        0 <= i,
        all[i] == done[i],
        i > 0 ==> all[i - 1] == done[i - 1],
        cuts[i] == before[i],
        cuts[i + 1] == before[i + 1],
    ensures
        rightly_cut_at(words, all, cuts, i),
{
    let shorter = words.drop_last();
    lemma_as_one_front(words, cuts[i], cuts[i + 1]);
    assert(shorter[cuts[i]] == words[cuts[i]]);
    assert forall|k: int| cuts[i] < k < cuts[i + 1] implies !cause_to_part(
        as_one(words, cuts[i], k),
        #[trigger] words[k],
    ) by {
        lemma_as_one_front(words, cuts[i], k);
        assert(shorter[k] == words[k]);
    }
}

/// One more word behind the last segment.
proof fn lemma_cut_grows(
    words: Seq<(i64, i64, Seq<char>)>,
    done: Seq<(i64, i64, Seq<char>)>,
    before: Seq<int>,
    all: Seq<(i64, i64, Seq<char>)>,
    cuts: Seq<int>,
    i: int,
)
    requires
        words.len() > 0,
        rightly_cut_at(words.drop_last(), done, before, i),
        0 <= i,
        before[i + 1] == words.len() - 1,
        !cause_to_part(done[i], words.last()),
        all[i] == extended(done[i], words.last()),
        i > 0 ==> all[i - 1] == done[i - 1],
        cuts[i] == before[i],
        cuts[i + 1] == words.len(),
    ensures
        rightly_cut_at(words, all, cuts, i),
{
    let shorter = words.drop_last();
    let n = shorter.len() as int;
    let a = cuts[i];
    lemma_as_one_front(words, a, n);
    assert(as_one(words, a, n) == done[i]);
    assert(as_one(words, a, n + 1) == extended(done[i], words[n])) by {
        reveal_with_fuel(as_one, 1);
    }
    assert(shorter[a] == words[a]);
    assert forall|k: int| a < k < n + 1 implies !cause_to_part(
        as_one(words, a, k),
        #[trigger] words[k],
    ) by {
        if k < n {
            lemma_as_one_front(words, a, k);
            assert(shorter[k] == words[k]);
        }
    }
}

/// Words are parted where there is a cause to, and only there.
pub proof fn law_segments_are_rightly_cut(words: Seq<(i64, i64, Seq<char>)>) -> (cuts: Seq<int>)
    ensures
        rightly_cut(words, groups(words), cuts),
    decreases words.len(),
{
    if words.len() == 0 {
        seq![0]
    } else {
        let shorter = words.drop_last();
        let n = shorter.len() as int;
        let before = law_segments_are_rightly_cut(shorter);
        let done = groups(shorter);
        let all = groups(words);
        let word = words.last();
        let m = done.len() as int;
        let joins = m > 0 && !breaks(done.last(), word);
        let cuts = if joins {
            before.drop_last().push(n + 1)
        } else {
            before.push(n + 1)
        };
        if m > 0 {
            assert(breaks(done.last(), word) == cause_to_part(done.last(), word));
            assert(rightly_cut_at(shorter, done, before, m - 1));
        }
        assert forall|i: int| 0 <= i < all.len() implies #[trigger] rightly_cut_at(
            words,
            all,
            cuts,
            i,
        ) by {
            if i < m {
                assert(rightly_cut_at(shorter, done, before, i));
                if joins && i == m - 1 {
                    lemma_cut_grows(words, done, before, all, cuts, i);
                } else {
                    lemma_cut_stays(words, done, before, all, cuts, i);
                }
            } else {
                assert(all[i] == words[n]);
            }
        }
        cuts
    }
}

/// What follows is no part of a segment.
proof fn lemma_as_one_front(words: Seq<(i64, i64, Seq<char>)>, a: int, b: int)
    requires
        0 <= a < b <= words.len() - 1,
    ensures
        as_one(words, a, b) == as_one(words.drop_last(), a, b),
    decreases b - a,
{
    if b > a + 1 {
        lemma_as_one_front(words, a, b - 1);
    }
}

/// Times are turned into centiseconds by leaving off the last digit.
pub proof fn law_centiseconds_lose_a_digit(v: Seq<(i64, i64, Seq<char>)>, i: int)
    requires
        0 <= i < v.len(),
    ensures
        in_centiseconds(v).len() == v.len(),
        in_centiseconds(v)[i].2 == v[i].2,
        -10 < v[i].0 - in_centiseconds(v)[i].0 * 10 < 10,
        v[i].0 >= 0 ==> 0 <= in_centiseconds(v)[i].0 * 10 <= v[i].0,
        v[i].0 <= 0 ==> 0 >= in_centiseconds(v)[i].0 * 10 >= v[i].0,
        -10 < v[i].1 - in_centiseconds(v)[i].1 * 10 < 10,
        v[i].1 >= 0 ==> 0 <= in_centiseconds(v)[i].1 * 10 <= v[i].1,
        v[i].1 <= 0 ==> 0 >= in_centiseconds(v)[i].1 * 10 >= v[i].1,
{
}

/// The words end one after another.
pub open spec fn ends_in_order(words: Seq<(i64, i64, Seq<char>)>) -> bool {
    forall|i: int, j: int|
        0 <= i <= j < words.len() ==> (#[trigger] words[i]).1 <= (#[trigger] words[j]).1
}

/// Of words that end one after another, each segment is a single word or no
/// longer than [`MAX_MS`].
pub proof fn law_groups_stay_short(words: Seq<(i64, i64, Seq<char>)>, i: int)
    requires
        ends_in_order(words),
        0 <= i < groups(words).len(),
    ensures
        words.contains(groups(words)[i]) || groups(words)[i].1 - groups(words)[i].0 <= MAX_MS,
    decreases words.len(),
{
    let shorter = words.drop_last();
    let done = groups(shorter);
    let word = words.last();
    assert(ends_in_order(shorter)) by {
        assert forall|k: int, j: int| 0 <= k <= j < shorter.len() implies (
        #[trigger] shorter[k]).1 <= (#[trigger] shorter[j]).1 by {
            assert(shorter[k] == words[k] && shorter[j] == words[j]);
        }
    }
    if done.len() > 0 && !breaks(done.last(), word) && i == done.len() - 1 {
        lemma_last_end(shorter);
        assert(words[shorter.len() - 1] == shorter.last());
        assert(words[words.len() - 1] == word);
        assert(done.last().1 <= word.1);
    } else if i < done.len() {
        law_groups_stay_short(shorter, i);
        assert(groups(words)[i] == done[i]);
        lemma_contained(words, done[i]);
    } else {
        assert(groups(words)[i] == word);
        assert(words[words.len() - 1] == word);
    }
}

/// The last group of such words ends where the last word does.
proof fn lemma_last_end(words: Seq<(i64, i64, Seq<char>)>)
    requires
        ends_in_order(words),
        groups(words).len() > 0,
    ensures
        words.len() > 0,
        groups(words).last().1 == words.last().1,
    decreases words.len(),
{
    let shorter = words.drop_last();
    assert forall|k: int, j: int| 0 <= k <= j < shorter.len() implies (#[trigger] shorter[k]).1
        <= (#[trigger] shorter[j]).1 by {
        assert(shorter[k] == words[k] && shorter[j] == words[j]);
    }
    if groups(shorter).len() > 0 {
        lemma_last_end(shorter);
        assert(words[shorter.len() - 1] == shorter.last());
        assert(words[words.len() - 1] == words.last());
    }
}

/// What the front of a list holds, the list holds.
proof fn lemma_contained(words: Seq<(i64, i64, Seq<char>)>, word: (i64, i64, Seq<char>))
    requires
        words.len() > 0,
    ensures
        words.drop_last().contains(word) ==> words.contains(word),
{
    if words.drop_last().contains(word) {
        let k = choose|k: int|
            0 <= k < words.drop_last().len() && #[trigger] words.drop_last()[k] == word;
        assert(words[k] == word);
    }
}

/// A word as an aligned model heard it, timed from the start of its chunk.
pub struct Word {
    pub t0_ms: i64,
    pub t1_ms: i64,
    pub text: String,
}

/// What a model made of one chunk.
pub struct Decoded {
    pub text: String,
    pub words: Vec<Word>,
}

/// A sample's time in milliseconds, at 16 kHz.
pub open spec fn in_ms(sample: usize) -> i64 {
    (sample / 16) as i64
}

/// The words that are not blank, moved by `offset` milliseconds.
pub open spec fn moved_words(words: Seq<Word>, offset: i64) -> Seq<(i64, i64, Seq<char>)>
    decreases words.len(),
{
    if words.len() == 0 {
        Seq::empty()
    } else {
        let done = moved_words(words.drop_last(), offset);
        let word = words.last();
        let text = trim(word.text@, Class::White);
        if text.len() > 0 {
            done.push(((word.t0_ms + offset) as i64, (word.t1_ms + offset) as i64, text))
        } else {
            done
        }
    }
}

/// The pieces heard in the chunk from sample `start` to sample `end`: its words
/// where the model times them, else one piece timed by the chunk itself.
pub open spec fn heard(
    decoded: Decoded,
    start: usize,
    end: usize,
    word_timed: bool,
) -> Seq<(i64, i64, Seq<char>)> {
    if word_timed && decoded.words@.len() > 0 {
        moved_words(decoded.words@, in_ms(start))
    } else {
        let text = trim(decoded.text@, Class::White);
        if text.len() > 0 {
            seq![(in_ms(start), in_ms(end), text)]
        } else {
            Seq::empty()
        }
    }
}

/// Whether a text is more than white space.
pub open spec fn says_anything(text: Seq<char>) -> bool {
    exists|i: int| 0 <= i < text.len() && !white(#[trigger] text[i])
}

/// A text is trimmed to nothing where it is nothing but white space.
proof fn lemma_says_anything(text: Seq<char>)
    ensures
        trim(text, Class::White).len() > 0 <==> says_anything(text),
{
    law_trimming_takes_both_ends(text, Class::White);
    let (a, b) = choose|a: int, b: int|
        {
            &&& 0 <= a <= b <= text.len()
            &&& trim(text, Class::White) == #[trigger] text.subrange(a, b)
            &&& forall|i: int|
                0 <= i < a || b <= i < text.len() ==> Class::White.has(#[trigger] text[i])
            &&& a < b ==> !Class::White.has(text[a]) && !Class::White.has(text[b - 1])
        };
    if says_anything(text) && a == b {
        let i = choose|i: int| 0 <= i < text.len() && !white(#[trigger] text[i]);
        assert(Class::White.has(text[i]));
    }
}

/// The words of a chunk are timed in the recording: of those that are not blank
/// each is kept, in order, with both its times later by the milliseconds at which
/// the chunk starts.
pub proof fn law_words_are_timed_in_the_recording(decoded: Decoded, start: usize, end: usize)
    requires
        decoded.words@.len() > 0,
        forall|i: int|
            0 <= i < decoded.words@.len() ==> (#[trigger] decoded.words@[i]).t0_ms + start as int / 16
                <= i64::MAX && decoded.words@[i].t1_ms + start as int / 16 <= i64::MAX,
    ensures
        ({
            let said = decoded.words@.filter(|w: Word| says_anything(w.text@));
            let r = heard(decoded, start, end, true);
            &&& r.len() == said.len()
            &&& forall|i: int|
                0 <= i < r.len() ==> {
                    &&& (#[trigger] r[i]).0 == said[i].t0_ms + start as int / 16
                    &&& r[i].1 == said[i].t1_ms + start as int / 16
                    &&& r[i].2 == trim(said[i].text@, Class::White)
                }
        }),
{
    lemma_moved_words(decoded.words@, in_ms(start));
}

/// The words that are moved are those that are not blank.
proof fn lemma_moved_words(words: Seq<Word>, offset: i64)
    requires
        0 <= offset,
        forall|i: int|
            0 <= i < words.len() ==> (#[trigger] words[i]).t0_ms + offset <= i64::MAX
                && words[i].t1_ms + offset <= i64::MAX,
    ensures
        ({
            let said = words.filter(|w: Word| says_anything(w.text@));
            let r = moved_words(words, offset);
            &&& r.len() == said.len()
            &&& forall|i: int|
                0 <= i < r.len() ==> {
                    &&& (#[trigger] r[i]).0 == said[i].t0_ms + offset
                    &&& r[i].1 == said[i].t1_ms + offset
                    &&& r[i].2 == trim(said[i].text@, Class::White)
                }
        }),
    decreases words.len(),
{
    reveal(Seq::filter);
    if words.len() > 0 {
        let shorter = words.drop_last();
        assert forall|i: int| 0 <= i < shorter.len() implies (#[trigger] shorter[i]).t0_ms + offset
            <= i64::MAX && shorter[i].t1_ms + offset <= i64::MAX by {
            assert(shorter[i] == words[i]);
        }
        assert(words.last() == words[words.len() - 1]);
        lemma_moved_words(shorter, offset);
        lemma_says_anything(words.last().text@);
    }
}

/// The same words in a chunk that starts `later` milliseconds later are heard
/// that much later.
pub proof fn law_a_later_chunk_is_heard_later(
    decoded: Decoded,
    start: usize,
    end: usize,
    next: usize,
    next_end: usize,
    later: int,
    i: int,
)
    requires
        decoded.words@.len() > 0,
        0 <= later,
        next == start + 16 * later,
        forall|k: int|
            0 <= k < decoded.words@.len() ==> (#[trigger] decoded.words@[k]).t0_ms + next as int / 16
                <= i64::MAX && decoded.words@[k].t1_ms + next as int / 16 <= i64::MAX,
        0 <= i < heard(decoded, start, end, true).len(),
    ensures
        heard(decoded, next, next_end, true).len() == heard(decoded, start, end, true).len(),
        heard(decoded, next, next_end, true)[i].0 == heard(decoded, start, end, true)[i].0 + later,
        heard(decoded, next, next_end, true)[i].1 == heard(decoded, start, end, true)[i].1 + later,
        heard(decoded, next, next_end, true)[i].2 == heard(decoded, start, end, true)[i].2,
{
    law_words_are_timed_in_the_recording(decoded, start, end);
    law_words_are_timed_in_the_recording(decoded, next, next_end);
}

/// A stretch of speech without timed words is one piece, from where the chunk
/// starts to where it ends, and none at all where nothing was said.
pub proof fn law_a_stretch_is_timed_by_its_chunk(
    decoded: Decoded,
    start: usize,
    end: usize,
    word_timed: bool,
)
    requires
        !word_timed || decoded.words@.len() == 0,
    ensures
        says_anything(decoded.text@) ==> heard(decoded, start, end, word_timed) == seq![
            (
                (start as int / 16) as i64,
                (end as int / 16) as i64,
                trim(decoded.text@, Class::White),
            ),
        ],
        !says_anything(decoded.text@) ==> heard(decoded, start, end, word_timed).len() == 0,
{
    lemma_says_anything(decoded.text@);
}

/// Whether the word times still fit when they are moved to the chunk's place.
pub open spec fn times_fit(decoded: Decoded, start: usize) -> bool {
    forall|i: int|
        0 <= i < decoded.words@.len() ==> (#[trigger] decoded.words@[i]).t0_ms + in_ms(start)
            <= i64::MAX && decoded.words@[i].t1_ms + in_ms(start) <= i64::MAX
}

/// Adds what was heard in one chunk to the pieces before it.
fn add_heard(
    pieces: &mut Vec<(i64, i64, String)>,
    decoded: &Decoded,
    start: usize,
    end: usize,
    word_timed: bool,
)
    requires
        word_timed ==> times_fit(*decoded, start),
    ensures
        timed(final(pieces)@) == timed(old(pieces)@) + heard(*decoded, start, end, word_timed),
{
    let offset: i64 = (start / 16) as i64;
    let ghost before = timed(pieces@);
    if !word_timed || decoded.words.len() == 0 {
        let chars = chars_of(decoded.text.as_str());
        let text = trim_of(&chars, Class::White);
        if text.len() > 0 {
            pieces.push((offset, (end / 16) as i64, text_of(text)));
            proof {
                assert(timed(pieces@) == before + seq![(
                    in_ms(start),
                    in_ms(end),
                    trim(decoded.text@, Class::White),
                )]);
            }
        }
        return ;
    }
    let mut i: usize = 0;
    while i < decoded.words.len()
        invariant
            i <= decoded.words.len(),
            offset == in_ms(start),
            times_fit(*decoded, start),
            timed(pieces@) == before + moved_words(decoded.words@.take(i as int), offset),
        decreases decoded.words.len() - i,
    {
        let word = &decoded.words[i];
        let ghost now = timed(pieces@);
        proof {
            assert(decoded.words@.take(i + 1).drop_last() == decoded.words@.take(i as int));
            assert(decoded.words@.take(i + 1).last() == decoded.words@[i as int]);
        }
        let chars = chars_of(word.text.as_str());
        let text = trim_of(&chars, Class::White);
        if text.len() > 0 {
            pieces.push((word.t0_ms + offset, word.t1_ms + offset, text_of(text)));
            proof {
                assert(timed(pieces@) == now.push(timed(pieces@).last()));
            }
        }
        i += 1;
    }
    proof {
        assert(decoded.words@.take(i as int) == decoded.words@);
    }
}

/// A recording that is decoded chunk by chunk with a model that has no prompt.
///
/// Audio is cut at silences, which bounds memory on long recordings and gives
/// progress updates. Models with word alignment get chunks of a few minutes and
/// their words are regrouped into segments at pauses and sentence ends; models
/// without timestamps decode each stretch of speech on its own, timed by its
/// boundaries.
pub struct ChunkedDecoding {
    chunks: Vec<(usize, usize)>,
    done: usize,
    len: usize,
    word_timed: bool,
    pieces: Vec<(i64, i64, String)>,
}

impl ChunkedDecoding {
    /// The ranges that are decoded, in order.
    pub closed spec fn chunks(self) -> Seq<(usize, usize)> {
        self.chunks@
    }

    /// How many of them have been decoded.
    pub closed spec fn done(self) -> nat {
        self.done as nat
    }

    /// The length of the recording in samples.
    pub closed spec fn len(self) -> usize {
        self.len
    }

    /// Whether the model times its words.
    pub closed spec fn word_timed(self) -> bool {
        self.word_timed
    }

    /// What was heard so far.
    pub closed spec fn pieces(self) -> Seq<(i64, i64, Seq<char>)> {
        timed(self.pieces@)
    }

    /// Cut `len` samples with speech at `spans` into chunks.
    pub fn new(spans: &[(usize, usize)], len: usize, word_timed: bool) -> (r: ChunkedDecoding)
        requires
            decodable(spans@, word_timed),
        ensures
            r.chunks() == if word_timed {
                merged(spans@, ALIGNED_CHUNK, usize::MAX)
            } else {
                merged(spans@, UTTERANCE_MAX, UTTERANCE_GAP)
            },
            r.done() == 0,
            r.len() == len,
            r.word_timed() == word_timed,
            r.pieces() == Seq::<(i64, i64, Seq<char>)>::empty(),
    {
        let r = ChunkedDecoding {
            chunks: decoding_chunks(spans, word_timed),
            done: 0,
            len,
            word_timed,
            pieces: Vec::new(),
        };
        proof {
            assert(r.pieces() == Seq::<(i64, i64, Seq<char>)>::empty());
        }
        r
    }

    /// The chunk to decode next, if any is left.
    pub fn next_chunk(&self) -> (r: Option<(usize, usize)>)
        ensures
            r == (if self.done() < self.chunks().len() {
                Some(self.chunks()[self.done() as int])
            } else {
                None
            }),
    {
        if self.done < self.chunks.len() {
            Some(self.chunks[self.done])
        } else {
            None
        }
    }

    /// How far into the recording the next chunk starts, in percent.
    pub fn percent(&self) -> (r: Option<i32>)
        ensures
            r is Some <==> self.done() < self.chunks().len() && self.chunks()[self.done() as int].0
                <= self.len(),
            r matches Some(p) ==> p == if self.len() == 0 {
                0
            } else {
                self.chunks()[self.done() as int].0 * 100 / self.len() as int
            },
    {
        if self.done < self.chunks.len() && self.chunks[self.done].0 <= self.len {
            Some(percent_done(self.chunks[self.done].0, self.len))
        } else {
            None
        }
    }

    /// Whether [`ChunkedDecoding::feed`] takes this: a chunk is left, and its word
    /// times still fit when they are moved to its place.
    pub fn can_feed(&self, decoded: &Decoded) -> (r: bool)
        ensures
            r == (self.done() < self.chunks().len() && (self.word_timed() ==> times_fit(
                *decoded,
                self.chunks()[self.done() as int].0,
            ))),
    {
        if self.done >= self.chunks.len() {
            return false;
        }
        if !self.word_timed {
            return true;
        }
        let start = self.chunks[self.done].0;
        let offset: i64 = (start / 16) as i64;
        let most: i64 = i64::MAX - offset;
        let mut i: usize = 0;
        while i < decoded.words.len()
            invariant
                i <= decoded.words@.len(),
                self.done < self.chunks@.len(),
                self.word_timed,
                start == self.chunks@[self.done as int].0,
                offset == in_ms(start),
                most == i64::MAX - offset,
                forall|k: int|
                    0 <= k < i ==> (#[trigger] decoded.words@[k]).t0_ms + offset <= i64::MAX
                        && decoded.words@[k].t1_ms + offset <= i64::MAX,
            decreases decoded.words.len() - i,
        {
            if decoded.words[i].t0_ms > most || decoded.words[i].t1_ms > most {
                proof {
                    assert(decoded.words@[i as int].t0_ms + in_ms(start) > i64::MAX
                        || decoded.words@[i as int].t1_ms + in_ms(start) > i64::MAX);
                }
                return false;
            }
            i += 1;
        }
        true
    }

    /// Take in what the model made of the next chunk.
    pub fn feed(&mut self, decoded: &Decoded)
        requires
            old(self).done() < old(self).chunks().len(),
            old(self).word_timed() ==> times_fit(
                *decoded,
                old(self).chunks()[old(self).done() as int].0,
            ),
        ensures
            final(self).done() == old(self).done() + 1,
            final(self).chunks() == old(self).chunks(),
            final(self).len() == old(self).len(),
            final(self).word_timed() == old(self).word_timed(),
            final(self).pieces() == old(self).pieces() + heard(
                *decoded,
                old(self).chunks()[old(self).done() as int].0,
                old(self).chunks()[old(self).done() as int].1,
                old(self).word_timed(),
            ),
    {
        let (start, end) = self.chunks[self.done];
        proof {
            assert(self.done < self.chunks.len());
        }
        add_heard(&mut self.pieces, decoded, start, end, self.word_timed);
        self.done = self.done + 1;
    }

    /// The transcript segments of everything that was heard.
    pub fn finish(self) -> (r: Vec<RawSegment>)
        ensures
            timed(r@) == in_centiseconds(
                if self.word_timed() {
                    groups(self.pieces())
                } else {
                    self.pieces()
                },
            ),
    {
        if self.word_timed {
            group_words(&self.pieces)
        } else {
            to_centiseconds(self.pieces)
        }
    }
}

/// The segments with blanks trimmed off their texts.
pub open spec fn trimmed_texts(v: Seq<(i64, i64, Seq<char>)>) -> Seq<(i64, i64, Seq<char>)> {
    Seq::new(v.len(), |i: int| (v[i].0, v[i].1, trim(v[i].2, Class::White)))
}

/// Segments as a model with its own timestamps reports them.
pub fn reported_segments(reported: &[(i64, i64, String)]) -> (r: Vec<RawSegment>)
    ensures
        timed(r@) == trimmed_texts(timed(reported@)),
{
    let mut out: Vec<RawSegment> = Vec::new();
    let mut i: usize = 0;
    while i < reported.len()
        invariant
            i <= reported.len(),
            timed(out@) == trimmed_texts(timed(reported@)).take(i as int),
        decreases reported.len() - i,
    {
        let ghost before = timed(out@);
        out.push((reported[i].0, reported[i].1, trimmed_text(reported[i].2.as_str())));
        i += 1;
        proof {
            let want = trimmed_texts(timed(reported@));
            assert(timed(out@) == before.push(timed(out@).last()));
            assert(timed(out@).last() == want[i - 1]);
            assert(want.take(i as int) == want.take(i - 1).push(want[i - 1]));
        }
    }
    out
}

/// A segment's text as it is streamed while decoding goes on: none for a blank
/// one.
pub fn streamed_text(text: &str) -> (r: Option<String>)
    ensures
        r is Some <==> trim(text@, Class::White).len() > 0,
        r matches Some(t) ==> t@ == trim(text@, Class::White),
{
    let chars = chars_of(text);
    let trimmed = trim_of(&chars, Class::White);
    if trimmed.len() > 0 {
        Some(text_of(trimmed))
    } else {
        None
    }
}

} // verus!
