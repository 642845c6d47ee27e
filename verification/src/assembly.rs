//! The finished transcript: decoded segments as lines of text, with speaker
//! labels and timestamps.

use vstd::prelude::*;

use crate::diarize::{
    named_view, scored_view, speaker_at, speaker_for_range, Diarization, SpeakerSegment,
};
use crate::filing::sorts_before;
use crate::numerals::{
    decimal, digit, padded, push_number, push_signed_padded, quotient, remainder, signed_padded, zeros,
};
use crate::prefixes::{
    behind_colon, called, frequent_prefixes, lemma_behind_colon, line_texts, lowercase, prefix_count,
    strip_hallucinated_prefix, stripped, FREQUENT,
};
use crate::ranking::{law_ranking_sorts, ranking, ranks};
use crate::segments::{timed, RawSegment};
use crate::text::{chars_of, same_text, texts};

verus! {

/// A time in centiseconds as HH:MM:SS.mmm.
pub open spec fn timestamp(centiseconds: int) -> Seq<char> {
    let ms = centiseconds * 10;
    signed_padded(quotient(ms, 3_600_000), 2) + ":"@ + signed_padded(
        remainder(quotient(ms, 60_000), 60),
        2,
    ) + ":"@ + signed_padded(remainder(quotient(ms, 1_000), 60), 2) + "."@ + signed_padded(
        remainder(ms, 1_000),
        3,
    )
}

/// Format a whisper timestamp (centiseconds) as HH:MM:SS.mmm.
pub fn format_timestamp(centiseconds: i64) -> (r: String)
    requires
        i64::MIN <= centiseconds * 10 <= i64::MAX,
    ensures
        r@ == timestamp(centiseconds as int),
{
    let ms: i64 = centiseconds * 10;
    let hours: i64 = ms / 3_600_000;
    let minutes: i64 = (ms / 60_000) % 60;
    let seconds: i64 = (ms / 1_000) % 60;
    let millis: i64 = ms % 1_000;
    let mut out = String::new();
    push_signed_padded(&mut out, hours, 2);
    out.push_str(":");
    push_signed_padded(&mut out, minutes, 2);
    out.push_str(":");
    push_signed_padded(&mut out, seconds, 2);
    out.push_str(".");
    push_signed_padded(&mut out, millis, 3);
    proof {
        assert(hours == quotient(ms as int, 3_600_000));
        assert(minutes == remainder(quotient(ms as int, 60_000), 60));
        assert(seconds == remainder(quotient(ms as int, 1_000), 60));
        assert(millis == remainder(ms as int, 1_000));
        assert(out@ == timestamp(centiseconds as int));
    }
    out
}

/// The parts of a timestamp add up to the time, and minutes, seconds and
/// milliseconds stay below a whole of the next part.
pub proof fn law_timestamp_adds_up(centiseconds: int)
    requires
        centiseconds >= 0,
    ensures
        ({
            let ms = centiseconds * 10;
            let hours = quotient(ms, 3_600_000);
            let minutes = remainder(quotient(ms, 60_000), 60);
            let seconds = remainder(quotient(ms, 1_000), 60);
            let millis = remainder(ms, 1_000);
            &&& hours * 3_600_000 + minutes * 60_000 + seconds * 1_000 + millis == ms
            &&& 0 <= minutes < 60
            &&& 0 <= seconds < 60
            &&& 0 <= millis < 1_000
        }),
{
    let ms = centiseconds * 10;
    let total_seconds = ms / 1_000;
    let total_minutes = ms / 60_000;
    assert(total_minutes == total_seconds / 60);
    assert(ms / 3_600_000 == total_minutes / 60);
    assert(ms == total_seconds * 1_000 + ms % 1_000);
    assert(total_seconds == total_minutes * 60 + total_seconds % 60);
    assert(total_minutes == (total_minutes / 60) * 60 + total_minutes % 60);
}

/// A number below a hundred in two digits.
spec fn two_digits(n: int) -> Seq<char> {
    seq![digit((n / 10) as nat), digit((n % 10) as nat)]
}

/// A number below a hundred is padded to two digits.
proof fn lemma_two_digits(n: int)
    requires
        0 <= n < 100,
    ensures
        signed_padded(n, 2) == two_digits(n),
{
    reveal_with_fuel(decimal, 2);
    let text = decimal(n as nat);
    if n < 10 {
        assert(text =~= seq![digit(n as nat)]);
        assert(signed_padded(n, 2) =~= two_digits(n));
    } else {
        assert(decimal(n as nat / 10) =~= seq![digit(n as nat / 10)]);
        assert(text.len() == 2);
        assert(zeros(0) =~= Seq::<char>::empty());
        assert(signed_padded(n, 2) =~= two_digits(n));
    }
}

/// A number below a thousand is padded to three digits.
proof fn lemma_three_digits(n: int)
    requires
        0 <= n < 1_000,
    ensures
        signed_padded(n, 3) == seq![digit((n / 100) as nat)] + two_digits(n % 100),
{
    reveal_with_fuel(decimal, 3);
    let text = decimal(n as nat);
    let want = seq![digit((n / 100) as nat)] + two_digits(n % 100);
    assert((n % 100) / 10 == (n / 10) % 10);
    assert((n % 100) % 10 == n % 10);
    if n < 10 {
        assert(text =~= seq![digit(n as nat)]);
    } else if n < 100 {
        assert(decimal(n as nat / 10) =~= seq![digit(n as nat / 10)]);
        assert(text.len() == 2);
    } else {
        assert((n / 10) / 10 == n / 100);
        assert(decimal(n as nat / 100) =~= seq![digit(n as nat / 100)]);
        assert(decimal(n as nat / 10) =~= seq![
            digit(n as nat / 100),
            digit((n as nat / 10) % 10),
        ]);
        assert(text.len() == 3);
        assert(zeros(0) =~= Seq::<char>::empty());
    }
    assert(signed_padded(n, 3) =~= want);
}

/// Hours, minutes, seconds and milliseconds in as many digits as a timestamp
/// has.
spec fn stamp_digits(h: int, m: int, p: int, u: int) -> Seq<char> {
    seq![
        digit((h / 10) as nat),
        digit((h % 10) as nat),
        ':',
        digit((m / 10) as nat),
        digit((m % 10) as nat),
        ':',
        digit((p / 10) as nat),
        digit((p % 10) as nat),
        '.',
        digit((u / 100) as nat),
        digit((u % 100 / 10) as nat),
        digit((u % 100 % 10) as nat),
    ]
}

/// The characters of a timestamp below a hundred hours, given its parts.
proof fn lemma_timestamp_digits(centiseconds: int, h: int, m: int, p: int, u: int)
    requires
        0 <= centiseconds <= 35_999_999,
        h == quotient(centiseconds * 10, 3_600_000),
        m == remainder(quotient(centiseconds * 10, 60_000), 60),
        p == remainder(quotient(centiseconds * 10, 1_000), 60),
        u == remainder(centiseconds * 10, 1_000),
    ensures
        0 <= h < 100,
        timestamp(centiseconds) == stamp_digits(h, m, p, u),
{
    reveal_strlit(":");
    reveal_strlit(".");
    assert(":"@ =~= seq![':']);
    assert("."@ =~= seq!['.']);
    lemma_two_digits(h);
    lemma_two_digits(m);
    lemma_two_digits(p);
    lemma_three_digits(u);
    assert(timestamp(centiseconds) =~= stamp_digits(h, m, p, u));
}

/// Where two numbers in so many digits differ first, the lesser has the lesser
/// digit.
proof fn lemma_digits_order(a: int, b: int)
    requires
        0 <= a < b < 100,
    ensures
        a / 10 < b / 10 || a / 10 == b / 10 && a % 10 < b % 10,
{
}

/// A text that is less where it first differs from another comes before it.
proof fn lemma_sorts_at(a: Seq<char>, b: Seq<char>, k: int)
    requires
        0 <= k < a.len(),
        k < b.len(),
        a.take(k) == b.take(k),
        a[k] < b[k],
    ensures
        sorts_before(a, b),
    decreases k,
{
    if k > 0 {
        assert(a[0] == a.take(k)[0] && b[0] == b.take(k)[0]);
        let (x, y) = (a.drop_first(), b.drop_first());
        assert(x.take(k - 1) =~= a.take(k).drop_first());
        assert(y.take(k - 1) =~= b.take(k).drop_first());
        lemma_sorts_at(x, y, k - 1);
    }
}

/// Whether a text has the form `HH:MM:SS.mmm`, with minutes and seconds below
/// sixty.
pub open spec fn stamp_shaped(s: Seq<char>) -> bool {
    &&& s.len() == 12
    &&& s[2] == ':' && s[5] == ':' && s[8] == '.'
    &&& forall|i: int|
        0 <= i < 12 && i != 2 && i != 5 && i != 8 ==> '0' <= #[trigger] s[i] <= '9'
    &&& s[3] <= '5' && s[6] <= '5'
}

/// The digits of a time have the form of a timestamp.
proof fn lemma_stamp_shaped(h: int, m: int, p: int, u: int)
    requires
        0 <= h < 100,
        0 <= m < 60,
        0 <= p < 60,
        0 <= u < 1_000,
    ensures
        stamp_shaped(stamp_digits(h, m, p, u)),
{
}

/// Times that agree in what stands before it are in the order of the first part
/// in which they differ.
proof fn lemma_stamps_sort(a: (int, int, int, int), b: (int, int, int, int))
    requires
        0 <= a.0 <= b.0 < 100,
        0 <= a.1 < 60 && 0 <= b.1 < 60,
        0 <= a.2 < 60 && 0 <= b.2 < 60,
        0 <= a.3 < 1_000 && 0 <= b.3 < 1_000,
        a.0 == b.0 ==> a.1 <= b.1,
        a.0 == b.0 && a.1 == b.1 ==> a.2 <= b.2,
        a.0 == b.0 && a.1 == b.1 && a.2 == b.2 ==> a.3 < b.3,
    ensures
        sorts_before(stamp_digits(a.0, a.1, a.2, a.3), stamp_digits(b.0, b.1, b.2, b.3)),
{
    let s = stamp_digits(a.0, a.1, a.2, a.3);
    let t = stamp_digits(b.0, b.1, b.2, b.3);
    let k: int = if a.0 != b.0 {
        lemma_digits_order(a.0, b.0);
        if a.0 / 10 != b.0 / 10 {
            0
        } else {
            1
        }
    } else if a.1 != b.1 {
        lemma_digits_order(a.1, b.1);
        if a.1 / 10 != b.1 / 10 {
            3
        } else {
            4
        }
    } else if a.2 != b.2 {
        lemma_digits_order(a.2, b.2);
        if a.2 / 10 != b.2 / 10 {
            6
        } else {
            7
        }
    } else if a.3 / 100 != b.3 / 100 {
        9
    } else {
        lemma_digits_order(a.3 % 100, b.3 % 100);
        if a.3 % 100 / 10 != b.3 % 100 / 10 {
            10
        } else {
            11
        }
    };
    assert(s.take(k) =~= t.take(k));
    lemma_sorts_at(s, t, k);
}

/// Of two times that add up from their parts, the parts of the earlier one come
/// first.
proof fn lemma_parts_order(a: (int, int, int, int), b: (int, int, int, int))
    requires
        a.0 * 3_600_000 + a.1 * 60_000 + a.2 * 1_000 + a.3 < b.0 * 3_600_000 + b.1 * 60_000 + b.2
            * 1_000 + b.3,
        0 <= a.1 < 60 && 0 <= b.1 < 60,
        0 <= a.2 < 60 && 0 <= b.2 < 60,
        0 <= a.3 < 1_000 && 0 <= b.3 < 1_000,
    ensures
        a.0 <= b.0,
        a.0 == b.0 ==> a.1 <= b.1,
        a.0 == b.0 && a.1 == b.1 ==> a.2 <= b.2,
        a.0 == b.0 && a.1 == b.1 && a.2 == b.2 ==> a.3 < b.3,
{
}

/// Hours, minutes, seconds and milliseconds of a time.
spec fn stamp_parts(centiseconds: int) -> (int, int, int, int) {
    let ms = centiseconds * 10;
    (
        quotient(ms, 3_600_000),
        remainder(quotient(ms, 60_000), 60),
        remainder(quotient(ms, 1_000), 60),
        remainder(ms, 1_000),
    )
}

/// A timestamp below a hundred hours is the digits of its parts.
proof fn lemma_stamp_parts(centiseconds: int)
    requires
        0 <= centiseconds <= 35_999_999,
    ensures
        ({
            let t = stamp_parts(centiseconds);
            &&& timestamp(centiseconds) == stamp_digits(t.0, t.1, t.2, t.3)
            &&& t.0 * 3_600_000 + t.1 * 60_000 + t.2 * 1_000 + t.3 == centiseconds * 10
            &&& 0 <= t.0 < 100 && 0 <= t.1 < 60 && 0 <= t.2 < 60 && 0 <= t.3 < 1_000
        }),
{
    let t = stamp_parts(centiseconds);
    law_timestamp_adds_up(centiseconds);
    lemma_timestamp_digits(centiseconds, t.0, t.1, t.2, t.3);
}

/// Below a hundred hours every timestamp has the same form, and an earlier time
/// has the one that comes first in a dictionary: distinct times have distinct
/// timestamps, in their order.
pub proof fn law_timestamps_sort_as_times(a: int, b: int)
    requires
        0 <= a < b <= 35_999_999,
    ensures
        stamp_shaped(timestamp(a)),
        stamp_shaped(timestamp(b)),
        sorts_before(timestamp(a), timestamp(b)),
{
    let (s, t) = (stamp_parts(a), stamp_parts(b));
    lemma_stamp_parts(a);
    lemma_stamp_parts(b);
    lemma_stamp_shaped(s.0, s.1, s.2, s.3);
    lemma_stamp_shaped(t.0, t.1, t.2, t.3);
    lemma_parts_order(s, t);
    lemma_stamps_sort(s, t);
}

/// What the lines of a transcript depend on besides the segments.
pub struct Style {
    /// Enrolled names.
    pub names: Seq<Seq<char>>,
    /// What the prompt was made from, in lower case.
    pub sources: Seq<char>,
    /// Names that many segments start with.
    pub frequent: Seq<Seq<char>>,
    /// Whether every line starts with its time.
    pub timestamps: bool,
    /// Who speaks when, and which speakers have names.
    pub voices: Option<(Seq<SpeakerSegment>, Seq<(usize, (Seq<char>, i32))>)>,
}

/// A transcript while its lines are added.
pub struct Page {
    pub text: Seq<char>,
    /// What the lines say, without speakers and times.
    pub lines: Seq<Seq<char>>,
    /// The speakers without a name, in the order in which they appear.
    pub numbered: Seq<usize>,
    /// All speakers, in the order in which they appear.
    pub seen: Seq<usize>,
    /// How often the last line came in a row.
    pub repeats: nat,
}

/// The name of speaker `id`, if there is one.
pub open spec fn name_for(names: Seq<(usize, (Seq<char>, i32))>, id: usize) -> Option<Seq<char>>
    decreases names.len(),
{
    if names.len() == 0 {
        None
    } else if names.last().0 == id {
        Some(names.last().1.0)
    } else {
        name_for(names.drop_last(), id)
    }
}

/// `list` with `id` at its end, unless it is in it.
pub open spec fn with_id(list: Seq<usize>, id: usize) -> Seq<usize> {
    if list.contains(id) {
        list
    } else {
        list.push(id)
    }
}

/// The number of a speaker without a name: 1 for the first one to appear.
pub open spec fn number_of(numbered: Seq<usize>, id: usize) -> int {
    numbered.index_of(id) + 1
}

/// The label of speaker `id` without its colon.
pub open spec fn label_of(
    names: Seq<(usize, (Seq<char>, i32))>,
    numbered: Seq<usize>,
    id: usize,
) -> Seq<char> {
    match name_for(names, id) {
        Some(name) => name,
        None => "Speaker "@ + decimal(number_of(numbered, id) as nat),
    }
}

impl Page {
    /// Nothing has been written yet.
    pub open spec fn empty() -> Page {
        Page {
            text: Seq::empty(),
            lines: Seq::empty(),
            numbered: Seq::empty(),
            seen: Seq::empty(),
            repeats: 0,
        }
    }

    /// How often `line` comes in a row now.
    pub open spec fn run(self, line: Seq<char>) -> nat {
        if self.lines.len() > 0 && self.lines.last() == line {
            self.repeats + 1
        } else {
            1
        }
    }

    /// The page with the speaker of one more line on it.
    pub open spec fn with_speaker(self, style: Style, segment: (i64, i64, Seq<char>)) -> Page {
        match style.voices {
            Some((segments, names)) => match speaker_at(segments, segment.0, segment.1) {
                Some(id) => Page {
                    seen: with_id(self.seen, id),
                    numbered: if name_for(names, id) is None {
                        with_id(self.numbered, id)
                    } else {
                        self.numbered
                    },
                    ..self
                },
                None => self,
            },
            None => self,
        }
    }

    /// What stands before the text of a line: its time and its speaker.
    pub open spec fn line_head(self, style: Style, segment: (i64, i64, Seq<char>)) -> Seq<char> {
        let time = if style.timestamps {
            "["@ + timestamp(segment.0 as int) + " --> "@ + timestamp(segment.1 as int) + "]  "@
        } else {
            Seq::empty()
        };
        match style.voices {
            Some((segments, names)) => match speaker_at(segments, segment.0, segment.1) {
                Some(id) => time + (label_of(names, self.numbered, id) + ": "@),
                None => time + "Speaker ?: "@,
            },
            None => time,
        }
    }

    /// The page with one more segment on it: without the names that were made
    /// up, and with at most two copies of a line in a row.
    pub open spec fn with_segment(self, style: Style, segment: (i64, i64, Seq<char>)) -> Page {
        let line = stripped(segment.2, style.names, style.sources, style.frequent);
        if line.len() == 0 {
            self
        } else if self.run(line) > 2 {
            Page { repeats: self.run(line), ..self }
        } else {
            let next = self.with_speaker(style, segment);
            Page {
                text: self.text + next.line_head(style, segment) + line + "\n"@,
                lines: self.lines.push(line),
                repeats: self.run(line),
                ..next
            }
        }
    }
}

/// The page with all segments on it.
pub open spec fn page_of(style: Style, segments: Seq<(i64, i64, Seq<char>)>) -> Page
    decreases segments.len(),
{
    if segments.len() == 0 {
        Page::empty()
    } else {
        page_of(style, segments.drop_last()).with_segment(style, segments.last())
    }
}

/// What the lines of a transcript look like.
pub open spec fn is_style<E>(
    style: Style,
    segments: Seq<(i64, i64, String)>,
    known_speakers: Seq<String>,
    sources: Seq<char>,
    timestamps: bool,
    diarization: Option<Diarization<E>>,
) -> bool {
    &&& style.names == texts(known_speakers)
    &&& style.sources == sources
    &&& forall|p: Seq<char>| #[trigger]
        style.frequent.contains(p) <==> prefix_count(line_texts(segments), p) >= FREQUENT
    &&& style.timestamps == timestamps
    &&& style.voices == match diarization {
        Some(d) => Some((d.segments@, named_view(d.names@))),
        None => None,
    }
}

/// Whether every time can be written.
pub open spec fn times_fit(segments: Seq<(i64, i64, Seq<char>)>) -> bool {
    forall|i: int|
        0 <= i < segments.len() ==> i64::MIN <= (#[trigger] segments[i]).0 * 10 <= i64::MAX
            && i64::MIN <= segments[i].1 * 10 <= i64::MAX
}

/// Whether every time can be written.
pub fn can_stamp(segments: &[RawSegment]) -> (r: bool)
    ensures
        r == times_fit(timed(segments@)),
{
    let mut i: usize = 0;
    while i < segments.len()
        invariant
            i <= segments@.len(),
            forall|k: int|
                0 <= k < i ==> i64::MIN <= (#[trigger] segments@[k]).0 * 10 <= i64::MAX && i64::MIN
                    <= segments@[k].1 * 10 <= i64::MAX,
        decreases segments.len() - i,
    {
        let start: i128 = segments[i].0 as i128 * 10;
        let end: i128 = segments[i].1 as i128 * 10;
        let low: i128 = i64::MIN as i128;
        let high: i128 = i64::MAX as i128;
        if start < low || start > high || end < low || end > high {
            proof {
                assert(timed(segments@)[i as int].0 == segments@[i as int].0);
            }
            return false;
        }
        i += 1;
    }
    proof {
        assert forall|k: int| 0 <= k < timed(segments@).len() implies i64::MIN <= (
        #[trigger] timed(segments@)[k]).0 * 10 <= i64::MAX && i64::MIN <= timed(segments@)[k].1 * 10
            <= i64::MAX by {
            assert(segments@[k].0 == timed(segments@)[k].0);
        }
    }
    true
}

/// The lines of a transcript, and who speaks in them.
struct Written {
    text: String,
    /// The speakers without a name, in the order in which they appear.
    numbered: Vec<usize>,
    /// All speakers, in the order in which they appear.
    seen: Vec<usize>,
}

impl Written {
    /// Whether this is what stands on a page.
    spec fn shows(self, page: Page) -> bool {
        &&& self.text@ == page.text
        &&& self.numbered@ == page.numbered
        &&& self.seen@ == page.seen
    }
}

/// Where `id` stands in a list without duplicates.
fn position(list: &Vec<usize>, id: usize) -> (r: Option<usize>)
    requires
        list@.no_duplicates(),
    ensures
        r is Some <==> list@.contains(id),
        r matches Some(k) ==> k < list@.len() && k == list@.index_of(id),
{
    let mut i: usize = 0;
    while i < list.len()
        invariant
            i <= list@.len(),
            list@.no_duplicates(),
            forall|k: int| 0 <= k < i ==> list@[k] != id,
        decreases list.len() - i,
    {
        if list[i] == id {
            proof {
                assert(list@.contains(id));
                let k = list@.index_of(id);
                assert(0 <= k < list@.len() && list@[k] == id);
            }
            return Some(i);
        }
        i += 1;
    }
    None
}

/// Puts `id` at the end of a list, unless it is in it; its place in the list.
fn add_id(list: &mut Vec<usize>, id: usize) -> (r: usize)
    requires
        old(list)@.no_duplicates(),
    ensures
        final(list)@ == with_id(old(list)@, id),
        final(list)@.no_duplicates(),
        r < final(list)@.len(),
        r < usize::MAX,
        r == final(list)@.index_of(id),
{
    match position(list, id) {
        Some(k) => {
            proof {
                assert(k < list.len());
            }
            k
        },
        None => {
            let k = list.len();
            let ghost before = list@;
            list.push(id);
            proof {
                assert forall|i: int, j: int| 0 <= i < list@.len() && 0 <= j < list@.len() && i
                    != j implies list@[i] != list@[j] by {
                    if i < before.len() && j < before.len() {
                        assert(before[i] != before[j]);
                    } else if i < before.len() {
                        assert(before.contains(before[i]));
                    } else {
                        assert(before.contains(before[j]));
                    }
                }
                assert(k < list.len());
                assert(list@[k as int] == id);
                assert(list@.contains(id));
                let at = list@.index_of(id);
                assert(0 <= at < list@.len() && list@[at] == id);
            }
            k
        },
    }
}

/// Where the name of speaker `id` stands, if there is one.
fn name_place(names: &Vec<(usize, (String, i32))>, id: usize) -> (r: Option<usize>)
    ensures
        r is Some <==> name_for(named_view(names@), id) is Some,
        r matches Some(k) ==> k < names@.len() && name_for(named_view(names@), id) == Some(
            names@[k as int].1.0@,
        ),
{
    let ghost all = named_view(names@);
    let mut n: usize = names.len();
    proof {
        assert(all.take(n as int) == all);
    }
    while n > 0
        invariant
            n <= names@.len(),
            all == named_view(names@),
            name_for(all.take(n as int), id) == name_for(all, id),
        decreases n,
    {
        proof {
            assert(all.take(n as int).drop_last() == all.take(n - 1));
            assert(all.take(n as int).last() == all[n - 1]);
        }
        if names[n - 1].0 == id {
            return Some(n - 1);
        }
        n -= 1;
    }
    None
}

/// Puts the label of speaker `id` at the end of `out`.
fn push_label(out: &mut String, names: &Vec<(usize, (String, i32))>, id: usize, number: usize)
    requires
        number < usize::MAX,
    ensures
        final(out)@ == old(out)@ + match name_for(named_view(names@), id) {
            Some(name) => name,
            None => "Speaker "@ + decimal((number + 1) as nat),
        },
{
    match name_place(names, id) {
        Some(k) => {
            out.push_str(names[k].1.0.as_str());
        },
        None => {
            out.push_str("Speaker ");
            push_number(out, (number + 1) as u64);
            proof {
                assert(out@ == old(out)@ + ("Speaker "@ + decimal((number + 1) as nat)));
            }
        },
    }
}

/// Puts the speaker of a segment on the page and their label at the end of
/// `out`.
fn push_speaker<E>(
    out: &mut String,
    numbered: &mut Vec<usize>,
    seen: &mut Vec<usize>,
    diarization: &Option<Diarization<E>>,
    start: i64,
    end: i64,
    Ghost(style): Ghost<Style>,
    Ghost(page): Ghost<Page>,
    Ghost(segment): Ghost<(i64, i64, Seq<char>)>,
)
    requires
        style.voices == (match diarization {
            Some(d) => Some((d.segments@, named_view(d.names@))),
            None => None,
        }),
        segment.0 == start,
        segment.1 == end,
        old(numbered)@ == page.numbered,
        old(seen)@ == page.seen,
        page.numbered.no_duplicates(),
        page.seen.no_duplicates(),
    ensures
        final(numbered)@ == page.with_speaker(style, segment).numbered,
        final(seen)@ == page.with_speaker(style, segment).seen,
        final(numbered)@.no_duplicates(),
        final(seen)@.no_duplicates(),
        final(out)@ == old(out)@ + page.with_speaker(style, segment).line_head(
            Style { timestamps: false, ..style },
            segment,
        ),
{
    let ghost next = page.with_speaker(style, segment);
    let ghost plain = Style { timestamps: false, ..style };
    match diarization {
        Some(d) => {
            let ghost names = named_view(d.names@);
            match speaker_for_range(&d.segments, start, end) {
                Some(id) => {
                    let _place = add_id(seen, id);
                    let number: usize = match name_place(&d.names, id) {
                        Some(_) => 0,
                        None => add_id(numbered, id),
                    };
                    push_label(out, &d.names, id, number);
                    out.push_str(": ");
                    proof {
                        assert(numbered@ == next.numbered);
                        assert(next.line_head(plain, segment) == label_of(names, next.numbered, id)
                            + ": "@);
                        assert(out@ == old(out)@ + next.line_head(plain, segment));
                    }
                },
                None => {
                    out.push_str("Speaker ?: ");
                    proof {
                        assert(next.line_head(plain, segment) == "Speaker ?: "@);
                    }
                },
            }
        },
        None => {
            proof {
                assert(out@ == old(out)@ + next.line_head(plain, segment));
            }
        },
    }
}

/// Puts the time of a line at the end of `out`.
fn push_time(out: &mut String, start: i64, end: i64)
    requires
        i64::MIN <= start * 10 <= i64::MAX,
        i64::MIN <= end * 10 <= i64::MAX,
    ensures
        final(out)@ == old(out)@ + ("["@ + timestamp(start as int) + " --> "@ + timestamp(
            end as int,
        ) + "]  "@),
{
    out.push_str("[");
    out.push_str(format_timestamp(start).as_str());
    out.push_str(" --> ");
    out.push_str(format_timestamp(end).as_str());
    out.push_str("]  ");
    proof {
        assert(out@ == old(out)@ + ("["@ + timestamp(start as int) + " --> "@ + timestamp(
            end as int,
        ) + "]  "@));
    }
}

/// Format decoded segments as lines: without the names that the model made up,
/// with at most two copies of a line in a row (whisper occasionally gets stuck
/// emitting the same line over and over), and with speaker labels where the
/// speakers were told apart. Enrolled speakers keep their name; the rest are
/// numbered so that "Speaker 1" is the first unrecognized voice to appear, and
/// so on.
fn write_lines<E>(
    segments: &[RawSegment],
    known_speakers: &[String],
    sources_lower: &str,
    timestamps: bool,
    diarization: &Option<Diarization<E>>,
) -> (r: Written)
    requires
        timestamps ==> times_fit(timed(segments@)),
    ensures
        exists|style: Style| #[trigger]
            is_style(
                style,
                segments@,
                known_speakers@,
                sources_lower@,
                timestamps,
                *diarization,
            ) && r.shows(page_of(style, timed(segments@))),
{
    let frequent = frequent_prefixes(segments);
    let ghost style = Style {
        names: texts(known_speakers@),
        sources: sources_lower@,
        frequent: texts(frequent@),
        timestamps,
        voices: match diarization {
            Some(d) => Some((d.segments@, named_view(d.names@))),
            None => None,
        },
    };
    let ghost all = timed(segments@);
    let mut text = String::new();
    let mut numbered: Vec<usize> = Vec::new();
    let mut seen: Vec<usize> = Vec::new();
    let mut previous: Vec<char> = Vec::new();
    let mut repeats: usize = 0;
    let mut i: usize = 0;
    while i < segments.len()
        invariant
            i <= segments@.len(),
            all == timed(segments@),
            timestamps ==> times_fit(all),
            style.names == texts(known_speakers@),
            style.sources == sources_lower@,
            style.frequent == texts(frequent@),
            style.timestamps == timestamps,
            style.voices == (match diarization {
                Some(d) => Some((d.segments@, named_view(d.names@))),
                None => None,
            }),
            text@ == page_of(style, all.take(i as int)).text,
            numbered@ == page_of(style, all.take(i as int)).numbered,
            seen@ == page_of(style, all.take(i as int)).seen,
            numbered@.no_duplicates(),
            seen@.no_duplicates(),
            repeats == page_of(style, all.take(i as int)).repeats,
            repeats <= i,
            page_of(style, all.take(i as int)).lines.len() == 0 ==> previous@.len() == 0,
            page_of(style, all.take(i as int)).lines.len() > 0 ==> previous@ == page_of(
                style,
                all.take(i as int),
            ).lines.last(),
        decreases segments.len() - i,
    {
        let ghost page = page_of(style, all.take(i as int));
        let ghost segment = all[i as int];
        proof {
            assert(all.take(i + 1).drop_last() == all.take(i as int));
            assert(all.take(i + 1).last() == segment);
            assert(segment == (segments@[i as int].0, segments@[i as int].1, segments@[i as int].2@));
        }
        let start: i64 = segments[i].0;
        let end: i64 = segments[i].1;
        let line = strip_hallucinated_prefix(
            segments[i].2.as_str(),
            known_speakers,
            sources_lower,
            &frequent,
        );
        let chars = chars_of(line.as_str());
        i += 1;
        if chars.len() == 0 {
            continue ;
        }
        let run: usize = if same_text(&chars, &previous) {
            repeats + 1
        } else {
            1
        };
        repeats = run;
        proof {
            assert(run == page.run(line@));
        }
        if run > 2 {
            continue ;
        }
        previous = chars;
        let ghost next = page.with_speaker(style, segment);
        if timestamps {
            push_time(&mut text, start, end);
        }
        let ghost timed_text = text@;
        push_speaker(
            &mut text,
            &mut numbered,
            &mut seen,
            diarization,
            start,
            end,
            Ghost(style),
            Ghost(page),
            Ghost(segment),
        );
        proof {
            let plain = Style { timestamps: false, ..style };
            lemma_line_head(next, style, segment);
            assert(text@ == page.text + next.line_head(style, segment));
        }
        text.push_str(line.as_str());
        text.push_str("\n");
    }
    proof {
        assert(all.take(i as int) == all);
    }
    let r = Written { text, numbered, seen };
    proof {
        assert(is_style(style, segments@, known_speakers@, sources_lower@, timestamps, *diarization));
        assert(r.shows(page_of(style, timed(segments@))));
    }
    r
}

/// The time stands before the speaker.
proof fn lemma_line_head(page: Page, style: Style, segment: (i64, i64, Seq<char>))
    ensures
        page.line_head(style, segment) == (if style.timestamps {
            "["@ + timestamp(segment.0 as int) + " --> "@ + timestamp(segment.1 as int) + "]  "@
        } else {
            Seq::empty()
        }) + page.line_head(Style { timestamps: false, ..style }, segment),
{
    let plain = Style { timestamps: false, ..style };
    assert(plain.voices == style.voices);
    let time = if style.timestamps {
        "["@ + timestamp(segment.0 as int) + " --> "@ + timestamp(segment.1 as int) + "]  "@
    } else {
        Seq::<char>::empty()
    };
    assert(page.line_head(style, segment) =~= time + page.line_head(plain, segment));
}

/// A speaker as they appear in a finished transcript: the label used in the text
/// plus that voice's fingerprint from this recording.
pub struct SpeakerVoice<E> {
    pub label: String,
    pub embedding: E,
}

/// A finished transcript.
pub struct Transcript<E> {
    pub text: String,
    /// Distinct speakers appearing in the text (None without diarization).
    pub speakers: Option<usize>,
    /// Enrolled names applied to a voice, with the match similarity.
    pub speaker_matches: Vec<(String, i32)>,
    /// Enrolled names that resembled a voice but not confidently enough to apply
    /// — those speakers stay numbered. Usually a sign to re-enroll that person
    /// from audio recorded like the meeting.
    pub weak_matches: Vec<(String, i32)>,
    /// Voice fingerprint per transcript label ("Speaker 1", or an enrolled name)
    /// — lets a label be renamed afterwards and the voice enrolled under the new
    /// name.
    pub speaker_voices: Vec<SpeakerVoice<E>>,
}

/// Speakers with their labels as characters.
pub open spec fn voices_view<E>(v: Seq<SpeakerVoice<E>>) -> Seq<(Seq<char>, E)> {
    Seq::new(v.len(), |i: int| (v[i].label@, v[i].embedding))
}

/// The speakers of a list that have a name.
pub open spec fn with_names(names: Seq<(usize, (Seq<char>, i32))>, ids: Seq<usize>) -> Seq<usize>
    decreases ids.len(),
{
    if ids.len() == 0 {
        Seq::empty()
    } else {
        let rest = with_names(names, ids.drop_last());
        if name_for(names, ids.last()) is Some {
            rest.push(ids.last())
        } else {
            rest
        }
    }
}

/// The labels and fingerprints of some speakers, as far as there is a
/// fingerprint.
pub open spec fn voices_of<E>(
    names: Seq<(usize, (Seq<char>, i32))>,
    numbered: Seq<usize>,
    ids: Seq<usize>,
    centroids: Seq<E>,
) -> Seq<(Seq<char>, E)>
    decreases ids.len(),
{
    if ids.len() == 0 {
        Seq::empty()
    } else {
        let rest = voices_of(names, numbered, ids.drop_last(), centroids);
        let id = ids.last();
        if 1 <= id <= centroids.len() {
            rest.push((label_of(names, numbered, id), centroids[id - 1]))
        } else {
            rest
        }
    }
}

/// Similarities as keys that order as they do.
pub open spec fn match_keys(names: Seq<(usize, (Seq<char>, i32))>) -> Seq<u128> {
    Seq::new(names.len(), |i: int| (names[i].1.1 + 0x8000_0000) as u128)
}

/// Whether `matches` are the names with their similarities, the best first.
pub open spec fn best_first(
    names: Seq<(usize, (Seq<char>, i32))>,
    matches: Seq<(Seq<char>, i32)>,
) -> bool {
    exists|order: Seq<usize>| #[trigger]
        ranks(match_keys(names), order) && matches == Seq::new(
            order.len(),
            |k: int| names[order[k] as int].1,
        )
}

/// Whether a transcript is what a page and its voices make. Voices come in
/// transcript order: named ones first, then numbered speakers by their number.
pub open spec fn made_of<E>(
    transcript: Transcript<E>,
    page: Page,
    diarization: Option<Diarization<E>>,
) -> bool {
    &&& transcript.text@ == page.text
    &&& match diarization {
        Some(d) => {
            let names = named_view(d.names@);
            &&& transcript.speakers == Some(page.seen.len() as usize)
            &&& best_first(names, scored_view(transcript.speaker_matches@))
            &&& transcript.weak_matches == d.weak_matches
            &&& voices_view(transcript.speaker_voices@) == voices_of(
                names,
                page.numbered,
                with_names(names, page.seen) + page.numbered,
                d.centroids@,
            )
        },
        None => {
            &&& transcript.speakers is None
            &&& transcript.speaker_matches@.len() == 0
            &&& transcript.weak_matches@.len() == 0
            &&& transcript.speaker_voices@.len() == 0
        },
    }
}

/// The names with their similarities, the best first.
fn ranked_matches(names: &Vec<(usize, (String, i32))>) -> (r: Vec<(String, i32)>)
    ensures
        best_first(named_view(names@), scored_view(r@)),
{
    let ghost all = named_view(names@);
    let mut keys: Vec<u128> = Vec::new();
    let mut i: usize = 0;
    while i < names.len()
        invariant
            i <= names@.len(),
            all == named_view(names@),
            keys@ == match_keys(all).take(i as int),
        decreases names.len() - i,
    {
        keys.push((names[i].1.1 as i64 + 0x8000_0000) as u128);
        i += 1;
        proof {
            let want = match_keys(all);
            assert(want.take(i as int) == want.take(i - 1).push(want[i - 1]));
        }
    }
    proof {
        assert(keys@ == match_keys(all));
    }
    let order = ranking(&keys);
    let mut out: Vec<(String, i32)> = Vec::new();
    let mut k: usize = 0;
    while k < order.len()
        invariant
            k <= order@.len(),
            all == named_view(names@),
            forall|j: int| 0 <= j < order@.len() ==> (#[trigger] order@[j]) < names@.len(),
            scored_view(out@) == Seq::new(k as nat, |j: int| all[order@[j] as int].1),
        decreases order.len() - k,
    {
        let ghost before = scored_view(out@);
        let at = order[k];
        out.push((names[at].1.0.clone(), names[at].1.1));
        k += 1;
        proof {
            assert(scored_view(out@).last() == all[order@[k - 1] as int].1);
            assert(scored_view(out@) == before.push(scored_view(out@).last()));
        }
    }
    out
}

/// The speakers of a list that have a name.
fn named_speakers(names: &Vec<(usize, (String, i32))>, ids: &Vec<usize>) -> (r: Vec<usize>)
    ensures
        r@ == with_names(named_view(names@), ids@),
{
    let mut out: Vec<usize> = Vec::new();
    let mut i: usize = 0;
    while i < ids.len()
        invariant
            i <= ids@.len(),
            out@ == with_names(named_view(names@), ids@.take(i as int)),
        decreases ids.len() - i,
    {
        proof {
            assert(ids@.take(i + 1).drop_last() == ids@.take(i as int));
        }
        match name_place(names, ids[i]) {
            Some(_) => {
                out.push(ids[i]);
            },
            None => {},
        }
        i += 1;
    }
    proof {
        assert(ids@.take(i as int) == ids@);
    }
    out
}

/// What is left of the fingerprints once those of the first `done` speakers
/// have been handed out.
spec fn left_over<E>(centroids: Seq<E>, ids: Seq<usize>, done: int) -> Seq<Option<E>> {
    Seq::new(
        centroids.len(),
        |j: int|
            if ids.take(done).contains((j + 1) as usize) {
                None
            } else {
                Some(centroids[j])
            },
    )
}

/// The labels and fingerprints of some speakers, as far as there is a
/// fingerprint.
fn labeled_voices<E>(
    names: &Vec<(usize, (String, i32))>,
    numbered: &Vec<usize>,
    ids: &Vec<usize>,
    centroids: Vec<E>,
) -> (r: Vec<SpeakerVoice<E>>)
    requires
        ids@.no_duplicates(),
        numbered@.no_duplicates(),
        forall|k: int|
            0 <= k < ids@.len() && name_for(named_view(names@), #[trigger] ids@[k]) is None
                ==> numbered@.contains(ids@[k]),
    ensures
        voices_view(r@) == voices_of(named_view(names@), numbered@, ids@, centroids@),
{
    let ghost all = centroids@;
    let ghost view = named_view(names@);
    let mut rest = centroids;
    let mut slots: Vec<Option<E>> = Vec::new();
    while rest.len() > 0
        invariant
            rest@.len() + slots@.len() == all.len(),
            rest@ == all.take(rest@.len() as int),
            forall|j: int|
                0 <= j < slots@.len() ==> #[trigger] slots@[j] == Some(all[rest@.len() + j]),
        decreases rest@.len(),
    {
        let ghost before = slots@;
        let last = rest.pop();
        slots.insert(0, last);
        proof {
            assert forall|j: int| 0 <= j < slots@.len() implies #[trigger] slots@[j] == Some(
                all[rest@.len() + j],
            ) by {
                if j > 0 {
                    assert(slots@[j] == before[j - 1]);
                }
            }
        }
    }
    proof {
        assert(slots@ =~= left_over(all, ids@, 0));
    }
    let mut out: Vec<SpeakerVoice<E>> = Vec::new();
    let mut i: usize = 0;
    while i < ids.len()
        invariant
            i <= ids@.len(),
            ids@.no_duplicates(),
            numbered@.no_duplicates(),
            view == named_view(names@),
            forall|k: int|
                0 <= k < ids@.len() && name_for(view, #[trigger] ids@[k]) is None
                    ==> numbered@.contains(ids@[k]),
            slots@ == left_over(all, ids@, i as int),
            voices_view(out@) == voices_of(view, numbered@, ids@.take(i as int), all),
        decreases ids.len() - i,
    {
        let id = ids[i];
        proof {
            assert(ids@.take(i + 1).drop_last() == ids@.take(i as int));
            assert(!ids@.take(i as int).contains(id));
            assert(slots.len() == all.len());
            lemma_left_over(all, ids@, i as int);
        }
        if id >= 1 && id <= slots.len() {
            let ghost before = slots@;
            slots.push(None);
            let taken = slots.swap_remove(id - 1);
            proof {
                assert(slots@ =~= before.update(id - 1, None));
            }
            match taken {
                Some(embedding) => {
                    let number: usize = match name_place(names, id) {
                        Some(_) => 0,
                        None => match position(numbered, id) {
                            Some(k) => {
                                proof {
                                    assert(k < numbered.len());
                                }
                                k
                            },
                            None => {
                                proof {
                                    assert(numbered@.contains(ids@[i as int]));
                                }
                                0
                            },
                        },
                    };
                    let mut label = String::new();
                    push_label(&mut label, names, id, number);
                    proof {
                        assert(label@ == label_of(view, numbered@, id));
                    }
                    let ghost earlier = voices_view(out@);
                    out.push(SpeakerVoice { label, embedding });
                    proof {
                        assert(voices_view(out@) == earlier.push(voices_view(out@).last()));
                    }
                },
                None => {},
            }
        }
        i += 1;
    }
    proof {
        assert(ids@.take(i as int) == ids@);
    }
    out
}

/// Handing out one more fingerprint.
proof fn lemma_left_over<E>(centroids: Seq<E>, ids: Seq<usize>, done: int)
    requires
        0 <= done < ids.len(),
        ids.no_duplicates(),
        centroids.len() <= usize::MAX,
    ensures
        !ids.take(done).contains(ids[done]),
        1 <= ids[done] <= centroids.len() ==> left_over(centroids, ids, done + 1) == left_over(
            centroids,
            ids,
            done,
        ).update(ids[done] - 1, None) && left_over(centroids, ids, done)[ids[done] - 1] == Some(
            centroids[ids[done] - 1],
        ),
        !(1 <= ids[done] <= centroids.len()) ==> left_over(centroids, ids, done + 1) == left_over(
            centroids,
            ids,
            done,
        ),
{
    let id = ids[done];
    let shorter = ids.take(done);
    let longer = ids.take(done + 1);
    if shorter.contains(id) {
        let k = choose|k: int| 0 <= k < shorter.len() && #[trigger] shorter[k] == id;
        assert(ids[k] == ids[done]);
    }
    assert forall|x: usize| #[trigger] longer.contains(x) <==> shorter.contains(x) || x == id by {
        if longer.contains(x) {
            let k = choose|k: int| 0 <= k < longer.len() && #[trigger] longer[k] == x;
            if k < done {
                assert(shorter[k] == x);
            }
        }
        if shorter.contains(x) {
            let k = choose|k: int| 0 <= k < shorter.len() && #[trigger] shorter[k] == x;
            assert(longer[k] == x);
        }
        assert(longer[done] == id);
    }
    let before = left_over(centroids, ids, done);
    let after = left_over(centroids, ids, done + 1);
    if 1 <= id <= centroids.len() {
        assert(((id - 1) + 1) as usize == id);
        assert forall|j: int| 0 <= j < after.len() implies #[trigger] after[j] == before.update(
            id - 1,
            None,
        )[j] by {
            assert(longer.contains((j + 1) as usize) <==> shorter.contains((j + 1) as usize) || (j
                + 1) as usize == id);
        }
        assert(after =~= before.update(id - 1, None));
    } else {
        assert forall|j: int| 0 <= j < after.len() implies #[trigger] after[j] == before[j] by {
            assert(longer.contains((j + 1) as usize) <==> shorter.contains((j + 1) as usize) || (j
                + 1) as usize == id);
        }
        assert(after =~= before);
    }
}

/// Whether the speakers were told apart and speaker `id` has no name.
pub open spec fn unnamed(style: Style, id: usize) -> bool {
    match style.voices {
        Some((_, names)) => name_for(names, id) is None,
        None => false,
    }
}

/// What holds of the speakers on every page: none stands twice, those with a
/// number have no name, and those without a name have a number.
pub open spec fn speakers_sound(style: Style, page: Page) -> bool {
    &&& page.numbered.no_duplicates()
    &&& page.seen.no_duplicates()
    &&& forall|id: usize| #[trigger]
        page.numbered.contains(id) <==> page.seen.contains(id) && unnamed(style, id)
}

/// Speakers are numbered by order of first appearance, each once, and exactly
/// those that have no name.
pub proof fn law_speakers_are_numbered_once(style: Style, segments: Seq<(i64, i64, Seq<char>)>)
    ensures
        speakers_sound(style, page_of(style, segments)),
    decreases segments.len(),
{
    if segments.len() > 0 {
        let page = page_of(style, segments.drop_last());
        let segment = segments.last();
        law_speakers_are_numbered_once(style, segments.drop_last());
        match style.voices {
            Some((voices, names)) => {
                match speaker_at(voices, segment.0, segment.1) {
                    Some(id) => {
                        lemma_with_id(page.seen, id);
                        lemma_with_id(page.numbered, id);
                    },
                    None => {},
                }
            },
            None => {},
        }
        assert(speakers_sound(style, page.with_speaker(style, segment)));
    }
}

/// A list with one more entry, unless it is in it.
proof fn lemma_with_id(list: Seq<usize>, id: usize)
    requires
        list.no_duplicates(),
    ensures
        with_id(list, id).no_duplicates(),
        forall|x: usize| #[trigger] with_id(list, id).contains(x) <==> list.contains(x) || x == id,
{
    if !list.contains(id) {
        let longer = list.push(id);
        assert forall|x: usize| #[trigger] longer.contains(x) <==> list.contains(x) || x == id by {
            if longer.contains(x) && x != id {
                let k = choose|k: int| 0 <= k < longer.len() && #[trigger] longer[k] == x;
                assert(list[k] == x);
            }
            if list.contains(x) {
                let k = choose|k: int| 0 <= k < list.len() && #[trigger] list[k] == x;
                assert(longer[k] == x);
            }
            assert(longer[list.len() as int] == id);
        }
        assert forall|i: int, j: int| 0 <= i < longer.len() && 0 <= j < longer.len() && i
            != j implies longer[i] != longer[j] by {
            if i < list.len() && j < list.len() {
                assert(list[i] != list[j]);
            } else if i < list.len() {
                assert(list.contains(list[i]));
            } else {
                assert(list.contains(list[j]));
            }
        }
    }
}

/// The speakers that have a name, then those that have none, are all speakers,
/// each once.
proof fn lemma_voice_ids(
    style: Style,
    page: Page,
    segments: Seq<SpeakerSegment>,
    names: Seq<(usize, (Seq<char>, i32))>,
)
    requires
        speakers_sound(style, page),
        style.voices == Some((segments, names)),
    ensures
        (with_names(names, page.seen) + page.numbered).no_duplicates(),
        forall|k: int|
            0 <= k < (with_names(names, page.seen) + page.numbered).len() && name_for(
                names,
                #[trigger] (with_names(names, page.seen) + page.numbered)[k],
            ) is None ==> page.numbered.contains((with_names(names, page.seen) + page.numbered)[k]),
{
    let named = with_names(names, page.seen);
    let both = named + page.numbered;
    lemma_with_names(names, page.seen);
    assert forall|i: int, j: int| 0 <= i < both.len() && 0 <= j < both.len() && i
        != j implies both[i] != both[j] by {
        let n = named.len() as int;
        if i < n && j < n {
            assert(named[i] != named[j]);
        } else if i >= n && j >= n {
            assert(page.numbered[i - n] != page.numbered[j - n]);
        } else if i < n {
            assert(name_for(names, named[i]) is Some);
            assert(page.numbered.contains(page.numbered[j - n]));
        } else {
            assert(name_for(names, named[j]) is Some);
            assert(page.numbered.contains(page.numbered[i - n]));
        }
    }
    assert forall|k: int| 0 <= k < both.len() && name_for(
        names,
        #[trigger] both[k],
    ) is None implies page.numbered.contains(both[k]) by {
        if k < named.len() {
            assert(name_for(names, named[k]) is Some);
        } else {
            assert(page.numbered[k - named.len()] == both[k]);
        }
    }
}

/// What stands among the speakers with a name.
proof fn lemma_with_names(names: Seq<(usize, (Seq<char>, i32))>, ids: Seq<usize>)
    requires
        ids.no_duplicates(),
    ensures
        with_names(names, ids).no_duplicates(),
        forall|k: int|
            0 <= k < with_names(names, ids).len() ==> name_for(
                names,
                #[trigger] with_names(names, ids)[k],
            ) is Some && ids.contains(with_names(names, ids)[k]),
    decreases ids.len(),
{
    if ids.len() > 0 {
        let shorter = ids.drop_last();
        let rest = with_names(names, shorter);
        assert(shorter.no_duplicates());
        lemma_with_names(names, shorter);
        let all = with_names(names, ids);
        assert forall|k: int| 0 <= k < rest.len() implies ids.contains(#[trigger] rest[k])
            && rest[k] != ids.last() by {
            assert(shorter.contains(rest[k]));
            let m = choose|m: int| 0 <= m < shorter.len() && #[trigger] shorter[m] == rest[k];
            assert(ids[m] == rest[k]);
            assert(ids[m] != ids[ids.len() - 1]);
        }
        assert(ids[ids.len() - 1] == ids.last());
        assert forall|k: int| 0 <= k < all.len() implies name_for(names, #[trigger] all[k]) is Some
            && ids.contains(all[k]) by {
            if k < rest.len() {
                assert(all[k] == rest[k]);
            }
        }
        assert forall|i: int, j: int| 0 <= i < all.len() && 0 <= j < all.len() && i
            != j implies all[i] != all[j] by {
            if i < rest.len() && j < rest.len() {
                assert(rest[i] != rest[j]);
            } else if i < rest.len() {
                assert(rest[i] != ids.last());
            } else {
                assert(rest[j] != ids.last());
            }
        }
    }
}

/// Attach speaker bookkeeping to the formatted text.
fn finish_transcript<E>(
    written: Written,
    diarization: Option<Diarization<E>>,
    Ghost(style): Ghost<Style>,
    Ghost(page): Ghost<Page>,
) -> (r: Transcript<E>)
    requires
        written.shows(page),
        speakers_sound(style, page),
        style.voices == (match diarization {
            Some(d) => Some((d.segments@, named_view(d.names@))),
            None => None,
        }),
    ensures
        made_of(r, page, diarization),
{
    match diarization {
        Some(d) => {
            proof {
                lemma_voice_ids(style, page, d.segments@, named_view(d.names@));
            }
            let speaker_matches = ranked_matches(&d.names);
            let mut ids = named_speakers(&d.names, &written.seen);
            ids.extend_from_slice(&written.numbered);
            proof {
                let names = named_view(d.names@);
                assert(ids@ =~= with_names(names, page.seen) + page.numbered);
            }
            let speaker_voices = labeled_voices(&d.names, &written.numbered, &ids, d.centroids);
            Transcript {
                text: written.text,
                speakers: Some(written.seen.len()),
                speaker_matches,
                weak_matches: d.weak_matches,
                speaker_voices,
            }
        },
        None => Transcript {
            text: written.text,
            speakers: None,
            speaker_matches: Vec::new(),
            weak_matches: Vec::new(),
            speaker_voices: Vec::new(),
        },
    }
}

/// Make a transcript of decoded segments. Names that the model made up are
/// stripped, whisper's loops are cut to two copies of a line, and where the
/// speakers were told apart every line is labeled: enrolled speakers keep their
/// name; the rest are numbered so that "Speaker 1" is the first unrecognized
/// voice to appear, and so on. `sources_lower` is what the prompt was made from,
/// in lower case.
pub fn assemble_from<E>(
    segments: &[RawSegment],
    known_speakers: &[String],
    sources_lower: &str,
    timestamps: bool,
    diarization: Option<Diarization<E>>,
) -> (r: Transcript<E>)
    requires
        timestamps ==> times_fit(timed(segments@)),
    ensures
        exists|style: Style| #[trigger]
            is_style(
                style,
                segments@,
                known_speakers@,
                sources_lower@,
                timestamps,
                diarization,
            ) && made_of(r, page_of(style, timed(segments@)), diarization),
{
    let written = write_lines(segments, known_speakers, sources_lower, timestamps, &diarization);
    let ghost style = choose|style: Style| #[trigger]
        is_style(style, segments@, known_speakers@, sources_lower@, timestamps, diarization)
            && written.shows(page_of(style, timed(segments@)));
    let ghost page = page_of(style, timed(segments@));
    proof {
        law_speakers_are_numbered_once(style, timed(segments@));
    }
    finish_transcript(written, diarization, Ghost(style), Ghost(page))
}

/// Make a transcript of decoded segments, as [`assemble_from`] does. `context` is
/// what the prompt was made from: names in it are what whisper mimics.
pub fn assemble<E>(
    segments: &[RawSegment],
    known_speakers: &[String],
    context: &str,
    timestamps: bool,
    diarization: Option<Diarization<E>>,
) -> (r: Transcript<E>)
    requires
        timestamps ==> times_fit(timed(segments@)),
    ensures
        exists|style: Style| #[trigger]
            is_style(
                style,
                segments@,
                known_speakers@,
                lowercase(context@),
                timestamps,
                diarization,
            ) && made_of(r, page_of(style, timed(segments@)), diarization),
{
    let lowered = context.to_lowercase();
    assemble_from(segments, known_speakers, lowered.as_str(), timestamps, diarization)
}

/// No line stands more than twice in a row.
pub proof fn law_no_line_three_times(style: Style, segments: Seq<(i64, i64, Seq<char>)>, i: int)
    requires
        0 <= i,
        i + 2 < page_of(style, segments).lines.len(),
    ensures
        !(page_of(style, segments).lines[i] == page_of(style, segments).lines[i + 1] && page_of(
            style,
            segments,
        ).lines[i + 1] == page_of(style, segments).lines[i + 2]),
{
    lemma_runs(style, segments);
}

/// Whether `repeats` tells how often the last line stands in a row.
spec fn runs_sound(page: Page) -> bool {
    let n = page.lines.len();
    &&& n > 0 ==> page.repeats >= 1
    &&& n > 1 && page.repeats == 1 ==> page.lines[n - 2] != page.lines[n - 1]
    &&& page.repeats >= 2 ==> n >= 2 && page.lines[n - 2] == page.lines[n - 1]
    &&& forall|i: int|
        0 <= i && i + 2 < n ==> !(#[trigger] page.lines[i] == page.lines[i + 1] && page.lines[i + 1]
            == page.lines[i + 2])
}

/// What holds of repeated lines on every page.
proof fn lemma_runs(style: Style, segments: Seq<(i64, i64, Seq<char>)>)
    ensures
        runs_sound(page_of(style, segments)),
    decreases segments.len(),
{
    if segments.len() > 0 {
        lemma_runs(style, segments.drop_last());
        let page = page_of(style, segments.drop_last());
        let segment = segments.last();
        let line = stripped(segment.2, style.names, style.sources, style.frequent);
        let next = page.with_segment(style, segment);
        if line.len() > 0 && page.run(line) <= 2 {
            assert(next.lines == page.lines.push(line));
            assert forall|i: int| 0 <= i && i + 2 < next.lines.len() implies !(
            #[trigger] next.lines[i] == next.lines[i + 1] && next.lines[i + 1] == next.lines[i
                + 2]) by {
                if i + 2 < page.lines.len() {
                    assert(page.lines[i] == next.lines[i]);
                }
            }
        }
    }
}

/// Everything that is on a page depends on what was decoded, the names, the
/// notes and the voices alone.
pub proof fn law_page_is_determined<E>(
    a: Style,
    b: Style,
    segments: Seq<(i64, i64, String)>,
    known_speakers: Seq<String>,
    sources: Seq<char>,
    timestamps: bool,
    diarization: Option<Diarization<E>>,
)
    requires
        is_style(a, segments, known_speakers, sources, timestamps, diarization),
        is_style(b, segments, known_speakers, sources, timestamps, diarization),
    ensures
        page_of(a, timed(segments)) == page_of(b, timed(segments)),
{
    assert forall|p: Seq<char>| a.frequent.contains(p) <==> #[trigger] b.frequent.contains(p) by {
        assert(a.frequent.contains(p) <==> prefix_count(line_texts(segments), p) >= FREQUENT);
    }
    lemma_same_page(a, b, timed(segments));
}

/// The order of the frequent names makes no difference.
proof fn lemma_same_page(a: Style, b: Style, segments: Seq<(i64, i64, Seq<char>)>)
    requires
        a.names == b.names,
        a.sources == b.sources,
        a.timestamps == b.timestamps,
        a.voices == b.voices,
        forall|p: Seq<char>| a.frequent.contains(p) <==> #[trigger] b.frequent.contains(p),
    ensures
        page_of(a, segments) == page_of(b, segments),
    decreases segments.len(),
{
    if segments.len() > 0 {
        lemma_same_page(a, b, segments.drop_last());
        lemma_same_stripped(segments.last().2, a.names, a.sources, a.frequent, b.frequent);
    }
}

/// The order of the frequent names makes no difference to a line.
proof fn lemma_same_stripped(
    s: Seq<char>,
    names: Seq<Seq<char>>,
    sources: Seq<char>,
    a: Seq<Seq<char>>,
    b: Seq<Seq<char>>,
)
    requires
        forall|p: Seq<char>| a.contains(p) <==> #[trigger] b.contains(p),
    ensures
        stripped(s, names, sources, a) == stripped(s, names, sources, b),
    decreases s.len(),
{
    if called(s) is Some {
        lemma_behind_colon(s);
        lemma_same_stripped(behind_colon(s), names, sources, a, b);
    }
}

/// What a segment says once made-up names are off.
pub open spec fn line_of(style: Style, segment: (i64, i64, Seq<char>)) -> Seq<char> {
    stripped(segment.2, style.names, style.sources, style.frequent)
}

/// Who speaks in a segment, where speakers were told apart and one is known.
pub open spec fn speaker_of(style: Style, segment: (i64, i64, Seq<char>)) -> Option<usize> {
    match style.voices {
        Some((segments, _)) => speaker_at(segments, segment.0, segment.1),
        None => None,
    }
}

/// Whether `name` is a name of speaker `id`.
pub open spec fn is_named(style: Style, id: usize, name: Seq<char>) -> bool {
    style.voices matches Some((_, names)) && exists|k: int|
        0 <= k < names.len() && (#[trigger] names[k]).0 == id && names[k].1.0 == name
}

/// Whether a line of a transcript is rightly written: where times are asked for,
/// between brackets from the start to the end of the segment; where speakers were
/// told apart, behind a name of the speaker, or the number under which a speaker
/// without a name stands in `numbered`, or a question mark; then what was said.
pub open spec fn rightly_written(
    style: Style,
    segment: (i64, i64, Seq<char>),
    numbered: Seq<usize>,
    written: Seq<char>,
) -> bool {
    exists|time: Seq<char>, label: Seq<char>|
        {
            &&& written == #[trigger] (time + label) + line_of(style, segment) + "\n"@
            &&& style.timestamps ==> time == "["@ + timestamp(segment.0 as int) + " --> "@
                + timestamp(segment.1 as int) + "]  "@
            &&& !style.timestamps ==> time.len() == 0
            &&& style.voices is None ==> label.len() == 0
            &&& style.voices is Some ==> match speaker_of(style, segment) {
                None => label == "Speaker ?: "@,
                Some(id) => {
                    ||| exists|name: Seq<char>| #[trigger]
                        is_named(style, id, name) && label == name + ": "@
                    ||| {
                        &&& forall|name: Seq<char>| !#[trigger] is_named(style, id, name)
                        &&& exists|k: int|
                            0 <= k < numbered.len() && #[trigger] numbered[k] == id && label
                                == "Speaker "@ + decimal((k + 1) as nat) + ": "@
                    }
                },
            }
        }
}

/// Lines one behind the other.
pub open spec fn all_of(lines: Seq<Seq<char>>) -> Seq<char>
    decreases lines.len(),
{
    if lines.len() == 0 {
        Seq::empty()
    } else {
        all_of(lines.drop_last()) + lines.last()
    }
}

/// Whether the segment at `kept[i]` says something and is rightly written.
pub open spec fn kept_rightly(
    style: Style,
    segments: Seq<(i64, i64, Seq<char>)>,
    numbered: Seq<usize>,
    kept: Seq<int>,
    lines: Seq<Seq<char>>,
    i: int,
) -> bool {
    &&& 0 <= kept[i] < segments.len()
    &&& line_of(style, segments[kept[i]]).len() > 0
    &&& rightly_written(style, segments[kept[i]], numbered, lines[i])
}

/// Whether segment `j` says nothing, or repeats what the two kept before it say,
/// the later of which is the one at `kept[i]`.
pub open spec fn left_out_rightly(
    style: Style,
    segments: Seq<(i64, i64, Seq<char>)>,
    kept: Seq<int>,
    j: int,
    i: int,
) -> bool {
    ||| line_of(style, segments[j]).len() == 0
    ||| {
        &&& 0 < i < kept.len()
        &&& 0 <= kept[i - 1] < kept[i] < j
        &&& i + 1 < kept.len() ==> j < kept[i + 1]
        &&& line_of(style, segments[kept[i]]) == line_of(style, segments[j])
        &&& line_of(style, segments[kept[i - 1]]) == line_of(style, segments[j])
    }
}

/// Whether a page holds the segments at `kept`, written as `lines`, and no others:
/// they come in order, and a segment is left out only where it says nothing or
/// repeats what the two kept before it say.
pub open spec fn holds_segments(
    style: Style,
    segments: Seq<(i64, i64, Seq<char>)>,
    page: Page,
    kept: Seq<int>,
    lines: Seq<Seq<char>>,
) -> bool {
    &&& kept.len() == lines.len()
    &&& page.text == all_of(lines)
    &&& forall|i: int|
        0 <= i < kept.len() ==> #[trigger] kept_rightly(
            style,
            segments,
            page.numbered,
            kept,
            lines,
            i,
        )
    &&& forall|i: int, j: int| 0 <= i < j < kept.len() ==> #[trigger] kept[i] < #[trigger] kept[j]
    &&& forall|j: int|
        0 <= j < segments.len() && !kept.contains(j) ==> exists|i: int|
            #[trigger] left_out_rightly(style, segments, kept, j, i)
}

/// A name that is found is one of the speaker's, and where none is found there is
/// none.
proof fn lemma_name_for(style: Style, id: usize)
    requires
        style.voices is Some,
    ensures
        match name_for(style.voices->Some_0.1, id) {
            Some(name) => is_named(style, id, name),
            None => forall|name: Seq<char>| !#[trigger] is_named(style, id, name),
        },
{
    lemma_name_among(style.voices->Some_0.1, id);
}

/// A name that is found stands in the list.
proof fn lemma_name_among(names: Seq<(usize, (Seq<char>, i32))>, id: usize)
    ensures
        match name_for(names, id) {
            Some(name) => exists|k: int|
                0 <= k < names.len() && (#[trigger] names[k]).0 == id && names[k].1.0 == name,
            None => forall|k: int| 0 <= k < names.len() ==> (#[trigger] names[k]).0 != id,
        },
    decreases names.len(),
{
    if names.len() > 0 {
        let shorter = names.drop_last();
        lemma_name_among(shorter, id);
        assert(forall|k: int| 0 <= k < shorter.len() ==> #[trigger] names[k] == shorter[k]);
        assert(names[names.len() - 1] == names.last());
        if names.last().0 != id && name_for(shorter, id) is Some {
            let k = choose|k: int|
                0 <= k < shorter.len() && (#[trigger] shorter[k]).0 == id && shorter[k].1.0
                    == name_for(shorter, id)->Some_0;
            assert(names[k] == shorter[k]);
        }
    }
}

/// A line is written rightly when it is added, and stays so when more speakers
/// have numbers.
proof fn lemma_line_written(
    style: Style,
    page: Page,
    segment: (i64, i64, Seq<char>),
    numbered: Seq<usize>,
)
    requires
        page.numbered.no_duplicates(),
        page.with_speaker(style, segment).numbered.len() <= numbered.len(),
        forall|k: int|
            0 <= k < page.with_speaker(style, segment).numbered.len() ==> numbered[k]
                == #[trigger] page.with_speaker(style, segment).numbered[k],
    ensures
        rightly_written(
            style,
            segment,
            numbered,
            page.with_speaker(style, segment).line_head(style, segment) + line_of(style, segment)
                + "\n"@,
        ),
{
    reveal_strlit(": ");
    let next = page.with_speaker(style, segment);
    let time = if style.timestamps {
        "["@ + timestamp(segment.0 as int) + " --> "@ + timestamp(segment.1 as int) + "]  "@
    } else {
        Seq::empty()
    };
    let label = match style.voices {
        Some((segments, names)) => match speaker_at(segments, segment.0, segment.1) {
            Some(id) => label_of(names, next.numbered, id) + ": "@,
            None => "Speaker ?: "@,
        },
        None => Seq::empty(),
    };
    assert(next.line_head(style, segment) =~= time + label);
    if style.voices is Some {
        match speaker_of(style, segment) {
            Some(id) => {
                lemma_name_for(style, id);
                let names = style.voices->Some_0.1;
                if name_for(names, id) is None {
                    lemma_with_id(page.numbered, id);
                    assert(next.numbered.contains(id));
                    let k = next.numbered.index_of(id);
                    assert(next.numbered[k] == id);
                    assert(numbered[k] == id);
                    assert(label =~= "Speaker "@ + decimal((k + 1) as nat) + ": "@);
                } else {
                    assert(label == name_for(names, id)->Some_0 + ": "@);
                }
            },
            None => {},
        }
    }
}

/// More speakers with numbers leave a line rightly written.
proof fn lemma_still_written(
    style: Style,
    segment: (i64, i64, Seq<char>),
    numbered: Seq<usize>,
    more: Seq<usize>,
    written: Seq<char>,
)
    requires
        rightly_written(style, segment, numbered, written),
        numbered.len() <= more.len(),
        forall|k: int| 0 <= k < numbered.len() ==> more[k] == #[trigger] numbered[k],
    ensures
        rightly_written(style, segment, more, written),
{
    let (time, label) = choose|time: Seq<char>, label: Seq<char>|
        {
            &&& written == #[trigger] (time + label) + line_of(style, segment) + "\n"@
            &&& style.timestamps ==> time == "["@ + timestamp(segment.0 as int) + " --> "@
                + timestamp(segment.1 as int) + "]  "@
            &&& !style.timestamps ==> time.len() == 0
            &&& style.voices is None ==> label.len() == 0
            &&& style.voices is Some ==> match speaker_of(style, segment) {
                None => label == "Speaker ?: "@,
                Some(id) => {
                    ||| exists|name: Seq<char>| #[trigger]
                        is_named(style, id, name) && label == name + ": "@
                    ||| {
                        &&& forall|name: Seq<char>| !#[trigger] is_named(style, id, name)
                        &&& exists|k: int|
                            0 <= k < numbered.len() && #[trigger] numbered[k] == id && label
                                == "Speaker "@ + decimal((k + 1) as nat) + ": "@
                    }
                },
            }
        };
    assert(written == (time + label) + line_of(style, segment) + "\n"@);
    if exists|k: int|
        0 <= k < numbered.len() && Some(#[trigger] numbered[k]) == speaker_of(style, segment)
            && label == "Speaker "@ + decimal((k + 1) as nat) + ": "@ {
        let k = choose|k: int|
            0 <= k < numbered.len() && Some(#[trigger] numbered[k]) == speaker_of(style, segment)
                && label == "Speaker "@ + decimal((k + 1) as nat) + ": "@;
        assert(more[k] == numbered[k]);
    }
}

/// One more segment that is left out rightly.
proof fn lemma_left_out(
    style: Style,
    segments: Seq<(i64, i64, Seq<char>)>,
    before: Page,
    page: Page,
    kept: Seq<int>,
    lines: Seq<Seq<char>>,
    at: int,
)
    requires
        segments.len() > 0,
        holds_segments(style, segments.drop_last(), before, kept, lines),
        page.text == before.text,
        page.numbered == before.numbered,
        left_out_rightly(style, segments, kept, segments.len() - 1, at),
    ensures
        holds_segments(style, segments, page, kept, lines),
{
    let shorter = segments.drop_last();
    let n = shorter.len() as int;
    assert forall|i: int| 0 <= i < kept.len() implies #[trigger] kept_rightly(
        style,
        segments,
        page.numbered,
        kept,
        lines,
        i,
    ) by {
        assert(kept_rightly(style, shorter, before.numbered, kept, lines, i));
        assert(segments[kept[i]] == shorter[kept[i]]);
    }
    assert forall|j: int| 0 <= j < segments.len() && !kept.contains(j) implies exists|i: int|
        #[trigger] left_out_rightly(style, segments, kept, j, i) by {
        if j < n {
            let i = choose|i: int| #[trigger] left_out_rightly(style, shorter, kept, j, i);
            assert(segments[j] == shorter[j]);
            if line_of(style, shorter[j]).len() > 0 {
                assert(segments[kept[i]] == shorter[kept[i]]);
                assert(segments[kept[i - 1]] == shorter[kept[i - 1]]);
            }
            assert(left_out_rightly(style, segments, kept, j, i));
        }
    }
}

/// One more segment that is written rightly.
proof fn lemma_written_too(
    style: Style,
    segments: Seq<(i64, i64, Seq<char>)>,
    before: Page,
    page: Page,
    kept: Seq<int>,
    lines: Seq<Seq<char>>,
    added: Seq<char>,
)
    requires
        segments.len() > 0,
        holds_segments(style, segments.drop_last(), before, kept, lines),
        page.text == before.text + added,
        before.numbered.len() <= page.numbered.len(),
        forall|k: int|
            0 <= k < before.numbered.len() ==> page.numbered[k] == #[trigger] before.numbered[k],
        line_of(style, segments.last()).len() > 0,
        rightly_written(style, segments.last(), page.numbered, added),
    ensures
        holds_segments(style, segments, page, kept.push(segments.len() - 1), lines.push(added)),
{
    let shorter = segments.drop_last();
    let n = shorter.len() as int;
    let now = kept.push(n);
    let all = lines.push(added);
    assert(all.drop_last() =~= lines);
    assert(segments[n] == segments.last());
    assert forall|i: int| 0 <= i < kept.len() implies 0 <= #[trigger] kept[i] < n by {
        assert(kept_rightly(style, shorter, before.numbered, kept, lines, i));
    }
    assert forall|i: int| 0 <= i < now.len() implies #[trigger] kept_rightly(
        style,
        segments,
        page.numbered,
        now,
        all,
        i,
    ) by {
        if i < kept.len() {
            assert(kept_rightly(style, shorter, before.numbered, kept, lines, i));
            assert(segments[kept[i]] == shorter[kept[i]]);
            lemma_still_written(
                style,
                shorter[kept[i]],
                before.numbered,
                page.numbered,
                lines[i],
            );
        }
    }
    assert forall|i: int, j: int| 0 <= i < j < now.len() implies #[trigger] now[i]
        < #[trigger] now[j] by {
        if j < kept.len() {
            assert(kept[i] < kept[j]);
        }
    }
    assert forall|j: int| 0 <= j < segments.len() && !now.contains(j) implies exists|i: int|
        #[trigger] left_out_rightly(style, segments, now, j, i) by {
        assert(now[kept.len() as int] == n);
        assert(j < n);
        assert(!kept.contains(j)) by {
            if kept.contains(j) {
                let i = choose|i: int| 0 <= i < kept.len() && kept[i] == j;
                assert(now[i] == j);
            }
        }
        let i = choose|i: int| #[trigger] left_out_rightly(style, shorter, kept, j, i);
        assert(segments[j] == shorter[j]);
        if line_of(style, shorter[j]).len() > 0 {
            assert(segments[kept[i]] == shorter[kept[i]]);
            assert(segments[kept[i - 1]] == shorter[kept[i - 1]]);
            assert(now[i] == kept[i] && now[i - 1] == kept[i - 1]);
        }
        assert(left_out_rightly(style, segments, now, j, i));
    }
}

/// A transcript holds what was said: every segment once and in order, but for
/// those that say nothing and for the third and later copies of a line in a row,
/// each on a line of its own with its time and its speaker.
#[verifier::spinoff_prover]
#[verifier::rlimit(60)]
pub proof fn law_a_transcript_holds_what_was_said(
    style: Style,
    segments: Seq<(i64, i64, Seq<char>)>,
) -> (r: (Seq<int>, Seq<Seq<char>>))
    ensures
        holds_segments(style, segments, page_of(style, segments), r.0, r.1),
        page_of(style, segments).lines == Seq::new(
            r.0.len(),
            |i: int| line_of(style, segments[r.0[i]]),
        ),
    decreases segments.len(),
{
    let page = page_of(style, segments);
    if segments.len() == 0 {
        let kept = Seq::<int>::empty();
        assert(page.lines =~= Seq::new(0, |i: int| line_of(style, segments[kept[i]])));
        (kept, Seq::<Seq<char>>::empty())
    } else {
        let shorter = segments.drop_last();
        let n = shorter.len() as int;
        let segment = segments.last();
        assert(segments[n] == segment);
        let before = page_of(style, shorter);
        let (kept, lines) = law_a_transcript_holds_what_was_said(style, shorter);
        let m = kept.len() as int;
        let line = line_of(style, segment);
        assert forall|i: int| 0 <= i < m implies 0 <= #[trigger] kept[i] < n && before.lines[i]
            == line_of(style, segments[kept[i]]) by {
            assert(kept_rightly(style, shorter, before.numbered, kept, lines, i));
            assert(segments[kept[i]] == shorter[kept[i]]);
        }
        if line.len() == 0 || before.run(line) > 2 {
            lemma_runs(style, shorter);
            if line.len() > 0 {
                assert(before.lines[m - 1] == line && before.lines[m - 2] == line);
                assert(kept[m - 2] < kept[m - 1]);
            }
            assert(left_out_rightly(style, segments, kept, n, m - 1));
            lemma_left_out(style, segments, before, page, kept, lines, m - 1);
            assert(page.lines =~= Seq::new(
                kept.len(),
                |i: int| line_of(style, segments[kept[i]]),
            ));
            (kept, lines)
        } else {
            let next = before.with_speaker(style, segment);
            let added = next.line_head(style, segment) + line + "\n"@;
            law_speakers_are_numbered_once(style, shorter);
            lemma_line_written(style, before, segment, page.numbered);
            assert(page.text =~= before.text + added);
            lemma_written_too(style, segments, before, page, kept, lines, added);
            let now = kept.push(n);
            assert(page.lines =~= Seq::new(now.len(), |i: int| line_of(style, segments[now[i]])));
            (now, lines.push(added))
        }
    }
}

/// Speakers are met and numbered as they appear: a line by someone who was not
/// heard before adds that speaker behind all others, and one who has no name gets
/// the next number; any other line, and any segment that is left out, changes
/// nothing of that.
pub proof fn law_the_next_voice_gets_the_next_number(
    style: Style,
    segments: Seq<(i64, i64, Seq<char>)>,
)
    requires
        segments.len() > 0,
    ensures
        ({
            let before = page_of(style, segments.drop_last());
            let page = page_of(style, segments);
            let written = page.lines.len() > before.lines.len();
            match speaker_of(style, segments.last()) {
                Some(id) => {
                    &&& written && !before.seen.contains(id) ==> page.seen == before.seen.push(id)
                    &&& !written || before.seen.contains(id) ==> page.seen == before.seen
                    &&& written && !before.seen.contains(id) && (forall|name: Seq<char>|
                        !#[trigger] is_named(style, id, name)) ==> page.numbered
                        == before.numbered.push(id)
                    &&& !written || before.seen.contains(id) || (exists|name: Seq<char>| #[trigger]
                        is_named(style, id, name)) ==> page.numbered == before.numbered
                },
                None => page.seen == before.seen && page.numbered == before.numbered,
            }
        }),
{
    let before = page_of(style, segments.drop_last());
    law_speakers_are_numbered_once(style, segments.drop_last());
    match speaker_of(style, segments.last()) {
        Some(id) => {
            lemma_name_for(style, id);
            assert(before.numbered.contains(id) <==> before.seen.contains(id) && unnamed(
                style,
                id,
            ));
        },
        None => {},
    }
}

/// The speakers of a list that have a name are those that are named, in order.
pub proof fn law_named_speakers_are_those_with_a_name(style: Style, ids: Seq<usize>)
    requires
        style.voices is Some,
    ensures
        with_names(style.voices->Some_0.1, ids) == ids.filter(
            |id: usize| exists|name: Seq<char>| #[trigger] is_named(style, id, name),
        ),
    decreases ids.len(),
{
    reveal(Seq::filter);
    if ids.len() > 0 {
        law_named_speakers_are_those_with_a_name(style, ids.drop_last());
        lemma_name_for(style, ids.last());
    }
}

/// Each speaker with a fingerprint has one voice, in the order of the speakers:
/// the fingerprint under the speaker's own number, labeled with the speaker's name
/// or number.
pub proof fn law_every_voice_is_its_speakers<E>(
    names: Seq<(usize, (Seq<char>, i32))>,
    numbered: Seq<usize>,
    ids: Seq<usize>,
    centroids: Seq<E>,
)
    ensures
        voices_of(names, numbered, ids, centroids) == ids.filter(
            |id: usize| 1 <= id <= centroids.len(),
        ).map_values(|id: usize| (label_of(names, numbered, id), centroids[id - 1])),
    decreases ids.len(),
{
    reveal(Seq::filter);
    let there = |id: usize| 1 <= id <= centroids.len();
    let voice = |id: usize| (label_of(names, numbered, id), centroids[id - 1]);
    if ids.len() > 0 {
        let shorter = ids.drop_last();
        law_every_voice_is_its_speakers(names, numbered, shorter, centroids);
        if there(ids.last()) {
            assert(ids.filter(there).map_values(voice) =~= shorter.filter(there).map_values(
                voice,
            ).push(voice(ids.last())));
        }
        assert(voices_of(names, numbered, ids, centroids) =~= ids.filter(there).map_values(voice));
    } else {
        assert(voices_of(names, numbered, ids, centroids) =~= ids.filter(there).map_values(voice));
    }
}

/// The label of a speaker is a name of theirs, or the place among those without
/// one at which they stand.
pub proof fn law_labels_are_names_or_numbers(
    style: Style,
    numbered: Seq<usize>,
    k: int,
    id: usize,
)
    requires
        style.voices is Some,
        numbered.no_duplicates(),
        0 <= k < numbered.len(),
        numbered[k] == id,
    ensures
        ({
            let label = label_of(style.voices->Some_0.1, numbered, id);
            ||| is_named(style, id, label)
            ||| (forall|name: Seq<char>| !#[trigger] is_named(style, id, name)) && label
                == "Speaker "@ + decimal((k + 1) as nat)
        }),
{
    lemma_name_for(style, id);
    assert(numbered.contains(id));
    let at = numbered.index_of(id);
    assert(numbered[at] == id);
    assert(at == k);
}

/// Whether a name with its similarity is one that was applied to some speaker.
pub open spec fn is_applied(names: Seq<(usize, (Seq<char>, i32))>, m: (Seq<char>, i32)) -> bool {
    exists|k: int| 0 <= k < names.len() && (#[trigger] names[k]).1 == m
}

/// The names that were applied are listed with the closest match first, each as it
/// is.
pub proof fn law_the_closest_match_comes_first(
    names: Seq<(usize, (Seq<char>, i32))>,
    matches: Seq<(Seq<char>, i32)>,
)
    requires
        best_first(names, matches),
    ensures
        matches.len() == names.len(),
        forall|i: int, j: int|
            0 <= i < j < matches.len() ==> (#[trigger] matches[i]).1 >= (#[trigger] matches[j]).1,
        forall|i: int| 0 <= i < matches.len() ==> is_applied(names, #[trigger] matches[i]),
{
    let keys = match_keys(names);
    let order = choose|order: Seq<usize>| #[trigger]
        ranks(keys, order) && matches == Seq::new(
            order.len(),
            |k: int| names[order[k] as int].1,
        );
    law_ranking_sorts(keys, order);
    assert forall|i: int, j: int| 0 <= i < j < matches.len() implies (#[trigger] matches[i]).1 >= (
    #[trigger] matches[j]).1 by {
        let (x, y) = (order[i] as int, order[j] as int);
        assert(keys[x] >= keys[y]);
        assert(keys[x] == names[x].1.1 + 0x8000_0000);
        assert(keys[y] == names[y].1.1 + 0x8000_0000);
    }
    assert forall|i: int| 0 <= i < matches.len() implies is_applied(names, #[trigger] matches[i]) by {
        assert(names[order[i] as int].1 == matches[i]);
    }
}

/// A timestamp is hours, minutes, seconds and milliseconds that add up to the time,
/// in two digits each and three for the last, or as many as the hours take.
pub proof fn law_a_timestamp_tells_the_time(centiseconds: int) -> (r: (nat, nat, nat, nat))
    requires
        centiseconds >= 0,
    ensures
        r.0 * 3_600_000 + r.1 * 60_000 + r.2 * 1_000 + r.3 == centiseconds * 10,
        r.1 < 60,
        r.2 < 60,
        r.3 < 1_000,
        timestamp(centiseconds) == padded(r.0, 2) + ":"@ + padded(r.1, 2) + ":"@ + padded(r.2, 2)
            + "."@ + padded(r.3, 3),
{
    let t = stamp_parts(centiseconds);
    law_timestamp_adds_up(centiseconds);
    (t.0 as nat, t.1 as nat, t.2 as nat, t.3 as nat)
}

/// What goes with a transcript: how many speakers are heard in it, the voices of
/// those with a name and then of those with a number, each in order of appearance,
/// and whose match was too weak. Where speakers were not told apart there is none of
/// that.
pub proof fn law_a_transcript_tells_who_is_heard<E>(
    transcript: Transcript<E>,
    style: Style,
    segments: Seq<(i64, i64, String)>,
    known_speakers: Seq<String>,
    sources: Seq<char>,
    timestamps: bool,
    diarization: Option<Diarization<E>>,
)
    requires
        is_style(style, segments, known_speakers, sources, timestamps, diarization),
        made_of(transcript, page_of(style, timed(segments)), diarization),
        page_of(style, timed(segments)).seen.len() <= usize::MAX,
    ensures
        ({
            let page = page_of(style, timed(segments));
            &&& transcript.text@ == page.text
            &&& style.timestamps == timestamps
            &&& style.voices is Some <==> diarization is Some
            &&& diarization is None ==> transcript.speakers is None
                && transcript.speaker_matches@.len() == 0 && transcript.speaker_voices@.len() == 0
                && transcript.weak_matches@.len() == 0
            &&& diarization matches Some(d) ==> {
                let names = named_view(d.names@);
                let ids = page.seen.filter(
                    |id: usize| exists|name: Seq<char>| #[trigger] is_named(style, id, name),
                ) + page.numbered;
                &&& transcript.speakers == Some(page.seen.len() as usize)
                &&& transcript.weak_matches == d.weak_matches
                &&& transcript.speaker_matches@.len() == d.names@.len()
                &&& voices_view(transcript.speaker_voices@) == ids.filter(
                    |id: usize| 1 <= id <= d.centroids@.len(),
                ).map_values(
                    |id: usize| (label_of(names, page.numbered, id), d.centroids@[id - 1]),
                )
            }
        }),
{
    let page = page_of(style, timed(segments));
    if diarization is Some {
        let d = diarization->Some_0;
        let names = named_view(d.names@);
        law_named_speakers_are_those_with_a_name(style, page.seen);
        law_every_voice_is_its_speakers(
            names,
            page.numbered,
            with_names(names, page.seen) + page.numbered,
            d.centroids@,
        );
        law_the_closest_match_comes_first(names, scored_view(transcript.speaker_matches@));
    }
}

} // verus!
