//! Speaker names that a speech model makes up at the start of a line.

use vstd::prelude::*;
use vstd::slice::slice_subrange;

use crate::text::{
    ascii_lower, byte_len, bytes_up_to, chars_of, contains, contains_class, find_in, has_any,
    holds_text, leading, leading_of, lemma_leading, lemma_leading_is, occurs_at,
    same_ignoring_case, same_text, text_of, texts, to_ascii_lower, trim_end, trim_end_of,
    trim_start, trim_start_of, white, words, words_of, Class,
};

verus! {

/// Whether a character is an upper-case letter.
pub uninterp spec fn uppercase(c: char) -> bool;

/// `char::is_uppercase`: whether the character has Unicode's `Uppercase`
/// property. The answer depends on the character alone. Of ASCII characters the
/// letters A to Z have the property; which others have it is a table of the
/// standard library and is not spelled out.
pub assume_specification[ char::is_uppercase ](c: char) -> (r: bool)
    ensures
        r == uppercase(c),
        c <= '\u{7f}' ==> r == ('A' <= c <= 'Z'),
;

/// A text in lower case.
pub uninterp spec fn lowercase(s: Seq<char>) -> Seq<char>;

/// `str::to_lowercase`: the text with each character replaced by its Unicode
/// lower-case form. The result depends on the text alone. In ASCII text that
/// form is the ASCII one; for other characters the mapping is a table of the
/// standard library and is not spelled out.
pub assume_specification[ str::to_lowercase ](s: &str) -> (r: String)
    ensures
        r@ == lowercase(s@),
        (forall|i: int| 0 <= i < s@.len() ==> #[trigger] s@[i] <= '\u{7f}') ==> r@
            == to_ascii_lower(s@),
;

/// How many characters stand before the first colon.
pub open spec fn colon(s: Seq<char>) -> nat {
    leading(s, Class::Except(':'))
}

/// Whether a text before a colon has the shape of a name.
pub open spec fn short_prefix(prefix: Seq<char>) -> bool {
    &&& prefix.len() > 0
    &&& !has_any(prefix, Class::Four('.', ',', '!', '?'))
    &&& words(prefix).len() <= 4
}

/// What stands before the first colon of a line, if it has the shape of a name.
pub open spec fn called(s: Seq<char>) -> Option<Seq<char>> {
    let before = s.take(colon(s) as int);
    let prefix = trim_end(before, Class::White);
    if colon(s) < s.len() && byte_len(before) <= 48 && short_prefix(prefix) {
        Some(prefix)
    } else {
        None
    }
}

/// Fewer bytes are too few to tell a name by its shape alone.
pub const LEAST_PREFIX: usize = 3;

/// The leading "X:" prefix of a line, if it has one that is long enough to tell
/// a name by its shape.
pub open spec fn prefix_of(s: Seq<char>) -> Option<Seq<char>> {
    match called(s) {
        Some(prefix) => if byte_len(prefix) >= LEAST_PREFIX {
            Some(prefix)
        } else {
            None
        },
        None => None,
    }
}

/// Whether a prefix is long enough to tell a name by its shape.
fn is_telling(prefix: &[char]) -> (r: bool)
    ensures
        r == (byte_len(prefix@) >= LEAST_PREFIX),
{
    bytes_up_to(prefix, LEAST_PREFIX - 1) > LEAST_PREFIX - 1
}

/// Where the first colon stands and what is before it, for a line with the
/// shape of a name there.
fn split_prefix<'a>(text: &'a [char]) -> (r: Option<(usize, &'a [char])>)
    ensures
        r is Some <==> called(text@) is Some,
        r matches Some(found) ==> found.0 == colon(text@) && found.0 < text@.len()
            && called(text@) == Some(found.1@),
{
    let at = leading_of(text, Class::Except(':'));
    if at == text.len() {
        return None;
    }
    let before = slice_subrange(text, 0, at);
    let bytes = bytes_up_to(before, 48);
    proof {
        assert(before@ == text@.take(at as int));
    }
    if bytes > 48 {
        return None;
    }
    let prefix = trim_end_of(before, Class::White);
    if prefix.len() > 0 && !contains_class(prefix, Class::Four('.', ',', '!', '?')) && words_of(
        prefix,
    ).len() <= 4 {
        proof {
            assert(called(text@) == Some(prefix@));
        }
        Some((at, prefix))
    } else {
        None
    }
}

/// A short leading "X:" prefix — at most four words, no sentence punctuation.
/// The shape whisper produces when it mimics a "Name: text" script format from
/// names it saw in its prompt.
pub fn leading_prefix(text: &str) -> (r: Option<String>)
    ensures
        r is Some <==> prefix_of(text@) is Some,
        r matches Some(prefix) ==> prefix_of(text@) == Some(prefix@),
{
    let chars = chars_of(text);
    match split_prefix(&chars) {
        Some((_, prefix)) => if is_telling(prefix) {
            Some(text_of(prefix))
        } else {
            None
        },
        None => None,
    }
}

/// Whether a prefix starts with an upper-case letter.
pub open spec fn capitalized(prefix: Seq<char>) -> bool {
    prefix.len() > 0 && uppercase(prefix[0])
}

/// True when the prefix looks like a name (capitalized).
pub fn name_like(prefix: &str) -> (r: bool)
    ensures
        r == capitalized(prefix@),
{
    let chars = chars_of(prefix);
    is_capitalized(&chars)
}

/// Whether a prefix starts with an upper-case letter.
fn is_capitalized(prefix: &[char]) -> (r: bool)
    ensures
        r == capitalized(prefix@),
{
    prefix.len() > 0 && prefix[0].is_uppercase()
}

/// Whether one of the enrolled names is `prefix`, but for the case of ASCII
/// letters.
pub open spec fn enrolled(names: Seq<Seq<char>>, prefix: Seq<char>) -> bool {
    exists|i: int|
        0 <= i < names.len() && to_ascii_lower(#[trigger] names[i]) == to_ascii_lower(prefix)
}

/// Whether one of the enrolled names is `prefix`, but for the case of ASCII
/// letters.
fn is_enrolled(names: &[String], prefix: &[char]) -> (r: bool)
    ensures
        r == enrolled(texts(names@), prefix@),
{
    let mut i: usize = 0;
    while i < names.len()
        invariant
            i <= names.len(),
            forall|j: int|
                0 <= j < i ==> to_ascii_lower((#[trigger] names@[j])@) != to_ascii_lower(prefix@),
        decreases names.len() - i,
    {
        let chars = chars_of(names[i].as_str());
        if same_ignoring_case(&chars, prefix) {
            proof {
                assert(to_ascii_lower(texts(names@)[i as int]) == to_ascii_lower(prefix@));
            }
            return true;
        }
        i += 1;
    }
    proof {
        assert forall|j: int| 0 <= j < texts(names@).len() implies to_ascii_lower(
            #[trigger] texts(names@)[j],
        ) != to_ascii_lower(prefix@) by {
            assert(texts(names@)[j] == names@[j]@);
        }
    }
    false
}

/// Whether `prefix` is made up: an enrolled name, a capitalized name that the
/// prompt sources mention (`lowered` is the prefix in their case), or one that
/// many lines start with.
pub open spec fn made_up(
    prefix: Seq<char>,
    capital: bool,
    lowered: Seq<char>,
    names: Seq<Seq<char>>,
    sources_lower: Seq<char>,
    frequent: Seq<Seq<char>>,
) -> bool {
    ||| enrolled(names, prefix)
    ||| capital && sources_lower.len() > 0 && contains(sources_lower, lowered)
    ||| frequent.contains(prefix)
}

/// Whether a prefix is to be stripped, given whether it is capitalized and how
/// it reads in lower case.
pub fn is_made_up(
    prefix: &[char],
    capital: bool,
    lowered: &str,
    names: &[String],
    sources_lower: &[char],
    frequent: &[String],
) -> (r: bool)
    ensures
        r == made_up(prefix@, capital, lowered@, texts(names@), sources_lower@, texts(frequent@)),
{
    if is_enrolled(names, prefix) || holds_text(frequent, prefix) {
        return true;
    }
    if !capital || sources_lower.len() == 0 {
        return false;
    }
    let wanted = chars_of(lowered);
    find_in(sources_lower, &wanted).is_some()
}

/// A line behind its first colon and the blanks that follow.
pub open spec fn behind_colon(s: Seq<char>) -> Seq<char> {
    trim_start(s.skip(colon(s) as int + 1), Class::White)
}

/// A line without the made-up names at its start.
pub open spec fn stripped(
    s: Seq<char>,
    names: Seq<Seq<char>>,
    sources_lower: Seq<char>,
    frequent: Seq<Seq<char>>,
) -> Seq<char>
    decreases s.len(),
    via stripped_is_shorter
{
    match called(s) {
        Some(prefix) => if made_up(
            prefix,
            capitalized(prefix),
            lowercase(prefix),
            names,
            sources_lower,
            frequent,
        ) {
            stripped(behind_colon(s), names, sources_lower, frequent)
        } else {
            s
        },
        None => s,
    }
}

/// Each name that goes makes the line shorter.
#[via_fn]
proof fn stripped_is_shorter(
    s: Seq<char>,
    names: Seq<Seq<char>>,
    sources_lower: Seq<char>,
    frequent: Seq<Seq<char>>,
) {
    if colon(s) < s.len() {
        lemma_behind_colon(s);
    }
}

/// What stands behind the colon is shorter than the line.
pub proof fn lemma_behind_colon(s: Seq<char>)
    requires
        colon(s) < s.len(),
    ensures
        behind_colon(s).len() < s.len(),
        exists|n: int| 0 <= n <= s.len() && behind_colon(s) == #[trigger] s.skip(n),
{
    let rest = s.skip(colon(s) as int + 1);
    lemma_leading(rest, Class::White);
    let n = colon(s) + 1 + leading(rest, Class::White);
    assert(behind_colon(s) == s.skip(n as int));
}

/// Remove leading "Name:" prefixes that whisper hallucinates when names appear
/// in its prompt. A prefix is stripped when it matches an enrolled speaker
/// name, appears verbatim in the prompt sources (context notes, vocabulary), or
/// repeats across many segments (`frequent`) — real dialogue never starts
/// dozens of lines with the same name.
pub fn strip_hallucinated_prefix(
    text: &str,
    names: &[String],
    sources_lower: &str,
    frequent: &[String],
) -> (r: String)
    ensures
        r@ == stripped(text@, texts(names@), sources_lower@, texts(frequent@)),
{
    let chars = chars_of(text);
    let sources = chars_of(sources_lower);
    let mut t: &[char] = &chars;
    loop
        invariant
            sources@ == sources_lower@,
            stripped(t@, texts(names@), sources@, texts(frequent@)) == stripped(
                text@,
                texts(names@),
                sources@,
                texts(frequent@),
            ),
        decreases t@.len(),
    {
        let (at, prefix) = match split_prefix(t) {
            Some(found) => found,
            None => {
                return text_of(t);
            },
        };
        let capital = is_capitalized(prefix);
        let lowered = text_of(prefix).as_str().to_lowercase();
        if !is_made_up(prefix, capital, lowered.as_str(), names, &sources, frequent) {
            return text_of(t);
        }
        proof {
            lemma_behind_colon(t@);
            assert(at < t.len());
            assert(t@.subrange(at + 1, t@.len() as int) == t@.skip(colon(t@) as int + 1));
        }
        t = trim_start_of(slice_subrange(t, at + 1, t.len()), Class::White);
    }
}

/// The name-like prefix of a line, if it has one.
pub open spec fn name_of(line: Seq<char>) -> Option<Seq<char>> {
    match prefix_of(line) {
        Some(prefix) => if capitalized(prefix) {
            Some(prefix)
        } else {
            None
        },
        None => None,
    }
}

/// How many of the lines start with the name `prefix`.
pub open spec fn prefix_count(lines: Seq<Seq<char>>, prefix: Seq<char>) -> nat
    decreases lines.len(),
{
    if lines.len() == 0 {
        0
    } else if name_of(lines.last()) == Some(prefix) {
        prefix_count(lines.drop_last(), prefix) + 1
    } else {
        prefix_count(lines.drop_last(), prefix)
    }
}

/// This many lines that start with one name give it away as made up.
pub const FREQUENT: usize = 3;

/// Whether `found` holds the name that each of the lines starts with.
spec fn names_found(found: Seq<Option<String>>, lines: Seq<Seq<char>>) -> bool {
    &&& found.len() == lines.len()
    &&& forall|i: int|
        0 <= i < found.len() ==> name_of(#[trigger] lines[i]) == match found[i] {
            Some(p) => Some(p@),
            None => None,
        }
}

/// The name that each line starts with.
fn named_prefixes(lines: &[(i64, i64, String)]) -> (r: Vec<Option<String>>)
    ensures
        names_found(r@, line_texts(lines@)),
{
    let mut out: Vec<Option<String>> = Vec::new();
    let ghost all = line_texts(lines@);
    let mut i: usize = 0;
    while i < lines.len()
        invariant
            i <= lines.len(),
            all == line_texts(lines@),
            names_found(out@, all.take(i as int)),
        decreases lines.len() - i,
    {
        let name = match leading_prefix(lines[i].2.as_str()) {
            Some(p) => if name_like(p.as_str()) {
                Some(p)
            } else {
                None
            },
            None => None,
        };
        let ghost before = out@;
        out.push(name);
        i += 1;
        proof {
            assert forall|k: int| 0 <= k < i implies name_of(#[trigger] all.take(i as int)[k])
                == match out@[k] {
                Some(p) => Some(p@),
                None => None,
            } by {
                assert(all.take(i as int)[k] == all[k]);
                if k < i - 1 {
                    assert(all.take(i - 1)[k] == all[k]);
                    assert(out@[k] == before[k]);
                }
            }
        }
    }
    proof {
        assert(all.take(i as int) == all);
    }
    out
}

/// The texts of timed lines.
pub open spec fn line_texts(lines: Seq<(i64, i64, String)>) -> Seq<Seq<char>> {
    Seq::new(lines.len(), |i: int| lines[i].2@)
}

/// The repeated name-like leading prefixes — the signature of whisper mimicking
/// a "Name: text" format: those that at least [`FREQUENT`] lines start with,
/// each once.
pub fn frequent_prefixes(lines: &[(i64, i64, String)]) -> (r: Vec<String>)
    ensures
        forall|p: Seq<char>| #[trigger]
            texts(r@).contains(p) <==> prefix_count(line_texts(lines@), p) >= FREQUENT,
        texts(r@).no_duplicates(),
{
    let found = named_prefixes(lines);
    let ghost all = line_texts(lines@);
    let mut out: Vec<String> = Vec::new();
    proof {
        assert(texts(out@) == Seq::<Seq<char>>::empty());
    }
    let mut i: usize = 0;
    while i < found.len()
        invariant
            i <= found.len(),
            names_found(found@, all),
            texts(out@).no_duplicates(),
            forall|p: Seq<char>| #[trigger]
                texts(out@).contains(p) <==> (prefix_count(all, p) >= FREQUENT && prefix_count(
                    all.take(i as int),
                    p,
                ) > 0),
        decreases found.len() - i,
    {
        let ghost before = texts(out@);
        proof {
            assert(all.take(i + 1).drop_last() == all.take(i as int));
            assert(all.take(i + 1).last() == all[i as int]);
        }
        match &found[i] {
            Some(p) => {
                let chars = chars_of(p.as_str());
                let enough = count_of(&found, &chars, Ghost(all)) >= FREQUENT;
                if enough && !holds_text(&out, &chars) {
                    out.push(text_of(&chars));
                    proof {
                        assert(texts(out@) == before.push(p@));
                        assert forall|q: Seq<char>| #[trigger] texts(out@).contains(q) <==> (
                        before.contains(q) || q == p@) by {
                            lemma_contains_push(before, p@, q);
                        }
                    }
                } else {
                    proof {
                        assert(enough ==> before.contains(p@));
                    }
                }
            },
            None => {},
        }
        i += 1;
    }
    proof {
        assert(all.take(i as int) == all);
        assert forall|p: Seq<char>| #[trigger] texts(out@).contains(p) <==> prefix_count(all, p)
            >= FREQUENT by {}
    }
    out
}

/// What a list with one more text holds.
proof fn lemma_contains_push(list: Seq<Seq<char>>, text: Seq<char>, other: Seq<char>)
    ensures
        list.push(text).contains(other) <==> list.contains(other) || other == text,
{
    if list.contains(other) {
        let k = choose|k: int| 0 <= k < list.len() && #[trigger] list[k] == other;
        assert(list.push(text)[k] == other);
    }
    assert(list.push(text)[list.len() as int] == text);
    if list.push(text).contains(other) && other != text {
        let k = choose|k: int|
            0 <= k < list.len() + 1 && #[trigger] list.push(text)[k] == other;
        assert(list[k] == other);
    }
}

/// How many of the lines start with the name `prefix`, given the names that
/// they start with.
fn count_of(
    found: &Vec<Option<String>>,
    prefix: &[char],
    Ghost(all): Ghost<Seq<Seq<char>>>,
) -> (r: usize)
    requires
        names_found(found@, all),
    ensures
        r == prefix_count(all, prefix@),
{
    let mut n: usize = 0;
    let mut i: usize = 0;
    while i < found.len()
        invariant
            i <= found.len(),
            n <= i,
            names_found(found@, all),
            n == prefix_count(all.take(i as int), prefix@),
        decreases found.len() - i,
    {
        proof {
            assert(all.take(i + 1).drop_last() == all.take(i as int));
            assert(all.take(i + 1).last() == all[i as int]);
        }
        match &found[i] {
            Some(p) => {
                let chars = chars_of(p.as_str());
                if same_text(&chars, prefix) {
                    n += 1;
                }
            },
            None => {},
        }
        i += 1;
    }
    proof {
        assert(all.take(i as int) == all);
    }
    n
}

/// A line that has been stripped has nothing left to strip.
pub proof fn law_stripping_twice(
    s: Seq<char>,
    names: Seq<Seq<char>>,
    sources_lower: Seq<char>,
    frequent: Seq<Seq<char>>,
)
    ensures
        stripped(stripped(s, names, sources_lower, frequent), names, sources_lower, frequent)
            == stripped(s, names, sources_lower, frequent),
    decreases s.len(),
{
    if stripped(s, names, sources_lower, frequent) != s {
        lemma_behind_colon(s);
        law_stripping_twice(behind_colon(s), names, sources_lower, frequent);
    }
}

/// Stripping only takes away the front of a line.
pub proof fn law_stripping_keeps_the_rest(
    s: Seq<char>,
    names: Seq<Seq<char>>,
    sources_lower: Seq<char>,
    frequent: Seq<Seq<char>>,
)
    ensures
        exists|n: int|
            0 <= n <= s.len() && stripped(s, names, sources_lower, frequent) == #[trigger] s.skip(
                n,
            ),
    decreases s.len(),
{
    if stripped(s, names, sources_lower, frequent) == s {
        assert(s.skip(0) == s);
    } else {
        let rest = behind_colon(s);
        lemma_behind_colon(s);
        law_stripping_keeps_the_rest(rest, names, sources_lower, frequent);
        let m = choose|m: int|
            0 <= m <= rest.len() && stripped(rest, names, sources_lower, frequent)
                == #[trigger] rest.skip(m);
        let k = choose|k: int| 0 <= k <= s.len() && rest == #[trigger] s.skip(k);
        assert(rest.skip(m) == s.skip(k + m));
    }
}

/// Whether there is a cause to take a prefix for made up: it is an enrolled name
/// but for ASCII case, it starts with an upper-case letter and stands in the
/// prompt sources in lower case, or it is one that many lines start with.
pub open spec fn cause_to_strip(
    prefix: Seq<char>,
    names: Seq<Seq<char>>,
    sources_lower: Seq<char>,
    frequent: Seq<Seq<char>>,
) -> bool {
    ||| exists|i: int|
        0 <= i < names.len() && (#[trigger] names[i]).len() == prefix.len() && forall|k: int|
            0 <= k < prefix.len() ==> ascii_lower(#[trigger] names[i][k]) == ascii_lower(prefix[k])
    ||| {
        &&& prefix.len() > 0 && uppercase(prefix[0])
        &&& exists|i: int|
            0 <= i && i + lowercase(prefix).len() <= sources_lower.len()
                && #[trigger] sources_lower.subrange(i, i + lowercase(prefix).len()) == lowercase(
                prefix,
            )
        &&& sources_lower.len() > 0
    }
    ||| exists|i: int| 0 <= i < frequent.len() && #[trigger] frequent[i] == prefix
}

/// Causes are what makes a prefix made up.
proof fn lemma_cause(
    prefix: Seq<char>,
    names: Seq<Seq<char>>,
    sources_lower: Seq<char>,
    frequent: Seq<Seq<char>>,
)
    ensures
        cause_to_strip(prefix, names, sources_lower, frequent) == made_up(
            prefix,
            capitalized(prefix),
            lowercase(prefix),
            names,
            sources_lower,
            frequent,
        ),
{
    assert forall|i: int| 0 <= i < names.len() implies (to_ascii_lower(#[trigger] names[i])
        == to_ascii_lower(prefix)) == (names[i].len() == prefix.len() && forall|k: int|
        0 <= k < prefix.len() ==> ascii_lower(#[trigger] names[i][k]) == ascii_lower(
            prefix[k],
        )) by {
        let (a, b) = (to_ascii_lower(names[i]), to_ascii_lower(prefix));
        if a == b {
            assert(a.len() == b.len());
            assert forall|k: int| 0 <= k < prefix.len() implies ascii_lower(
                #[trigger] names[i][k],
            ) == ascii_lower(prefix[k]) by {
                assert(a[k] == b[k]);
            }
        } else if names[i].len() == prefix.len() && forall|k: int|
            0 <= k < prefix.len() ==> ascii_lower(#[trigger] names[i][k]) == ascii_lower(
                prefix[k],
            ) {
            assert(a =~= b);
        }
    }
    let low = lowercase(prefix);
    if contains(sources_lower, low) {
        let i = choose|i: int| #[trigger] occurs_at(sources_lower, low, i);
        assert(sources_lower.subrange(i, i + low.len()) == low);
    }
    if exists|i: int|
        0 <= i && i + low.len() <= sources_lower.len() && #[trigger] sources_lower.subrange(
            i,
            i + low.len(),
        ) == low {
        let i = choose|i: int|
            0 <= i && i + low.len() <= sources_lower.len() && #[trigger] sources_lower.subrange(
                i,
                i + low.len(),
            ) == low;
        assert(occurs_at(sources_lower, low, i));
    }
}

/// Whether `rest` is what is left of a line once the prefix before its first
/// colon, at position `c`, is taken off with the colon and the blanks behind it.
pub open spec fn taken_off(line: Seq<char>, c: int, rest: Seq<char>) -> bool {
    &&& 0 <= c < line.len()
    &&& line[c] == ':'
    &&& forall|i: int| 0 <= i < c ==> #[trigger] line[i] != ':'
    &&& exists|k: int|
        {
            &&& c < k <= line.len()
            &&& rest == #[trigger] line.skip(k)
            &&& forall|i: int| c < i < k ==> white(#[trigger] line[i])
            &&& rest.len() > 0 ==> !white(rest[0])
        }
}

/// The text before position `c`, without the blanks at its end.
pub open spec fn front_of(line: Seq<char>, c: int) -> Seq<char> {
    trim_end(line.take(c), Class::White)
}

/// A line loses its leading prefix only for cause. What is left of it comes about
/// in steps, each of which takes off a prefix that there is a cause to strip, with
/// its colon and the blanks behind it, and nothing else.
pub proof fn law_names_go_only_for_cause(
    s: Seq<char>,
    names: Seq<Seq<char>>,
    sources_lower: Seq<char>,
    frequent: Seq<Seq<char>>,
) -> (steps: Seq<(Seq<char>, int)>)
    ensures
        steps.len() > 0,
        steps[0].0 == s,
        steps.last().0 == stripped(s, names, sources_lower, frequent),
        forall|i: int|
            0 <= i < steps.len() - 1 ==> {
                let (line, c) = #[trigger] steps[i];
                &&& taken_off(line, c, steps[i + 1].0)
                &&& cause_to_strip(front_of(line, c), names, sources_lower, frequent)
            },
    decreases s.len(),
{
    let c = colon(s) as int;
    lemma_leading(s, Class::Except(':'));
    match called(s) {
        Some(prefix) => {
            lemma_cause(prefix, names, sources_lower, frequent);
            if made_up(
                prefix,
                capitalized(prefix),
                lowercase(prefix),
                names,
                sources_lower,
                frequent,
            ) {
                lemma_behind_colon(s);
                let rest = behind_colon(s);
                let more = law_names_go_only_for_cause(rest, names, sources_lower, frequent);
                let behind = s.skip(c + 1);
                let w = leading(behind, Class::White) as int;
                lemma_leading(behind, Class::White);
                assert(rest =~= s.skip(c + 1 + w));
                assert forall|i: int| 0 <= i < c implies #[trigger] s[i] != ':' by {
                    assert(Class::Except(':').has(s[i]));
                }
                assert forall|i: int| c < i < c + 1 + w implies white(#[trigger] s[i]) by {
                    assert(behind[i - c - 1] == s[i]);
                }
                if rest.len() > 0 {
                    assert(rest[0] == behind[w]);
                }
                assert(taken_off(s, c, rest));
                let steps = seq![(s, c)] + more;
                assert forall|i: int| 0 <= i < steps.len() - 1 implies {
                    let (line, c) = #[trigger] steps[i];
                    &&& taken_off(line, c, steps[i + 1].0)
                    &&& cause_to_strip(front_of(line, c), names, sources_lower, frequent)
                } by {
                    if i > 0 {
                        assert(steps[i] == more[i - 1]);
                        assert(steps[i + 1] == more[i]);
                    } else {
                        assert(steps[1] == more[0]);
                    }
                }
                assert(steps.last() == more.last());
                steps
            } else {
                seq![(s, 0int)]
            }
        },
        None => seq![(s, 0int)],
    }
}

/// Nothing that there is a cause to strip stays: where what is left still has a
/// short name before its first colon, at position `c`, there is no cause to strip
/// that. A short name is up to 48 bytes and four words, without sentence
/// punctuation.
pub proof fn law_no_made_up_name_stays(
    s: Seq<char>,
    names: Seq<Seq<char>>,
    sources_lower: Seq<char>,
    frequent: Seq<Seq<char>>,
    c: int,
)
    requires
        ({
            let r = stripped(s, names, sources_lower, frequent);
            &&& 0 <= c < r.len()
            &&& r[c] == ':'
            &&& forall|i: int| 0 <= i < c ==> #[trigger] r[i] != ':'
            &&& byte_len(r.take(c)) <= 48
            &&& front_of(r, c).len() > 0
            &&& words(front_of(r, c)).len() <= 4
            &&& forall|i: int|
                0 <= i < front_of(r, c).len() ==> {
                    let x = #[trigger] front_of(r, c)[i];
                    x != '.' && x != ',' && x != '!' && x != '?'
                }
        }),
    ensures
        !cause_to_strip(
            front_of(stripped(s, names, sources_lower, frequent), c),
            names,
            sources_lower,
            frequent,
        ),
    decreases s.len(),
{
    let r = stripped(s, names, sources_lower, frequent);
    if r != s {
        lemma_behind_colon(s);
        law_no_made_up_name_stays(behind_colon(s), names, sources_lower, frequent, c);
    } else {
        assert forall|i: int| 0 <= i < c implies Class::Except(':').has(#[trigger] s[i]) by {
            assert(r[i] != ':');
        }
        lemma_leading_is(s, Class::Except(':'), c as nat);
        let prefix = front_of(s, c);
        assert(!has_any(prefix, Class::Four('.', ',', '!', '?')));
        assert(called(s) == Some(prefix));
        lemma_cause(prefix, names, sources_lower, frequent);
        if cause_to_strip(prefix, names, sources_lower, frequent) {
            lemma_behind_colon(s);
            law_stripping_keeps_the_rest(behind_colon(s), names, sources_lower, frequent);
            assert(stripped(s, names, sources_lower, frequent).len() < s.len());
        }
    }
}

/// Whether a line has `prefix` in the shape of a name before its first colon: of
/// three bytes at least, up to 48 bytes with the blanks behind it, in up to four
/// words and without sentence punctuation.
pub open spec fn starts_with_name(line: Seq<char>, prefix: Seq<char>) -> bool {
    exists|c: int|
        {
            &&& 0 <= c < line.len()
            &&& line[c] == ':'
            &&& forall|i: int| 0 <= i < c ==> #[trigger] line[i] != ':'
            &&& prefix == #[trigger] front_of(line, c)
            &&& byte_len(line.take(c)) <= 48
            &&& byte_len(prefix) >= 3
            &&& words(prefix).len() <= 4
            &&& forall|i: int|
                0 <= i < prefix.len() ==> {
                    let x = #[trigger] prefix[i];
                    x != '.' && x != ',' && x != '!' && x != '?'
                }
        }
}

/// The leading prefix of a line is what stands before its first colon, where that
/// has the shape of a name.
pub proof fn law_a_prefix_has_the_shape_of_a_name(line: Seq<char>, prefix: Seq<char>)
    ensures
        prefix_of(line) == Some(prefix) <==> starts_with_name(line, prefix),
{
    let at = colon(line) as int;
    lemma_leading(line, Class::Except(':'));
    if prefix_of(line) == Some(prefix) {
        assert forall|i: int| 0 <= i < at implies #[trigger] line[i] != ':' by {
            assert(Class::Except(':').has(line[i]));
        }
        assert(prefix == front_of(line, at));
        assert forall|i: int| 0 <= i < prefix.len() implies {
            let x = #[trigger] prefix[i];
            x != '.' && x != ',' && x != '!' && x != '?'
        } by {
            assert(!Class::Four('.', ',', '!', '?').has(prefix[i]));
        }
    }
    if starts_with_name(line, prefix) {
        let c = choose|c: int|
            {
                &&& 0 <= c < line.len()
                &&& line[c] == ':'
                &&& forall|i: int| 0 <= i < c ==> #[trigger] line[i] != ':'
                &&& prefix == #[trigger] front_of(line, c)
                &&& byte_len(line.take(c)) <= 48
                &&& byte_len(prefix) >= 3
                &&& words(prefix).len() <= 4
                &&& forall|i: int|
                    0 <= i < prefix.len() ==> {
                        let x = #[trigger] prefix[i];
                        x != '.' && x != ',' && x != '!' && x != '?'
                    }
            };
        lemma_leading_is(line, Class::Except(':'), c as nat);
        assert(!has_any(prefix, Class::Four('.', ',', '!', '?')));
        assert(prefix.len() > 0) by {
            if prefix.len() == 0 {
                assert(prefix =~= Seq::<char>::empty());
                assert(byte_len(prefix) == 0);
            }
        }
    }
}

/// A prefix is frequent where at least three of the lines start with it as a name
/// and it starts with an upper-case letter.
pub proof fn law_three_lines_make_a_name_frequent(lines: Seq<Seq<char>>, prefix: Seq<char>)
    ensures
        prefix_count(lines, prefix) >= FREQUENT <==> prefix.len() > 0 && uppercase(prefix[0])
            && lines.filter(|line: Seq<char>| starts_with_name(line, prefix)).len() >= 3,
{
    lemma_prefix_count(lines, prefix);
}

/// The count of lines is how many of them there are.
proof fn lemma_prefix_count(lines: Seq<Seq<char>>, prefix: Seq<char>)
    ensures
        prefix_count(lines, prefix) == if prefix.len() > 0 && uppercase(prefix[0]) {
            lines.filter(|line: Seq<char>| starts_with_name(line, prefix)).len()
        } else {
            0
        },
    decreases lines.len(),
{
    reveal(Seq::filter);
    if lines.len() > 0 {
        lemma_prefix_count(lines.drop_last(), prefix);
        law_a_prefix_has_the_shape_of_a_name(lines.last(), prefix);
    }
}

} // verus!
