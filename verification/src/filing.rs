//! The files that meetings are stored in: their names, and the history list.

use vstd::multiset::Multiset;
use vstd::prelude::*;
use vstd::seq_lib::{to_multiset_build, to_multiset_insert, to_multiset_len};
use vstd::slice::slice_subrange;

use crate::text::{
    byte_len, chars_of, count_fitting, fitting, flattened, law_one_line_says_the_same,
    law_only_the_character_goes, leading, lemma_all_fits, lemma_byte_len_first, lemma_byte_len_take,
    lemma_fitting, lemma_join_first, lemma_leading, lemma_leading_is, lemma_one_line,
    lemma_one_line_tidy, lemma_tidy_one_line, lemma_trailing, lemma_trailing_is, lemma_words_trim,
    one_line, remove_char, same_text, text_of, tidy, trailing, trim, trim_end, trim_end_of, trim_of,
    trim_start, white, without_char, words, Class,
};
use crate::numerals::{decimal, lemma_decimal_injective, push_number};
use crate::paths::{extension_of, file_extension, PathStyle};
use crate::ranking::lemma_distinct_below;
use crate::transcripts::{parse, parsed, Header, Meta};

verus! {

/// Whether a character is a control character.
pub open spec fn control(c: char) -> bool {
    c <= '\u{1f}' || '\u{7f}' <= c <= '\u{9f}'
}

/// Characters no mainstream filesystem accepts in a name, plus the ones that
/// would make a shell or a path parser stumble.
pub open spec fn forbidden(c: char) -> bool {
    ||| c == '<'
    ||| c == '>'
    ||| c == ':'
    ||| c == '"'
    ||| c == '/'
    ||| c == '\\'
    ||| c == '|'
    ||| c == '?'
    ||| c == '*'
    ||| control(c)
}

/// A text with a blank in place of every forbidden character.
pub open spec fn blanked(s: Seq<char>) -> Seq<char> {
    Seq::new(
        s.len(),
        |i: int|
            if forbidden(s[i]) {
                ' '
            } else {
                s[i]
            },
    )
}

/// Room for the timestamp prefix and the extension is left within the 255-byte
/// limit most filesystems have.
pub const MAX_NAME_BYTES: usize = 80;

/// A title as a file name: without forbidden characters, with single blanks, no
/// dots or blanks at its ends, and no longer than fits.
pub open spec fn sanitized(title: Seq<char>) -> Seq<char> {
    let clean = trim(one_line(blanked(title)), Class::Two('.', ' '));
    trim_end(clean.take(fitting(clean, MAX_NAME_BYTES as int) as int), Class::White)
}

/// A text with a blank in place of every forbidden character.
fn blank_out(s: &[char]) -> (r: String)
    ensures
        r@ == blanked(s@),
{
    let mut out = String::new();
    let mut i: usize = 0;
    proof {
        assert(blanked(s@).take(0) =~= Seq::<char>::empty());
    }
    while i < s.len()
        invariant
            i <= s@.len(),
            out@ == blanked(s@).take(i as int),
        decreases s.len() - i,
    {
        let c = s[i];
        let bad = c == '<' || c == '>' || c == ':' || c == '"' || c == '/' || c == '\\' || c == '|'
            || c == '?' || c == '*' || c <= '\u{1f}' || ('\u{7f}' <= c && c <= '\u{9f}');
        out.push(
            if bad {
                ' '
            } else {
                c
            },
        );
        i += 1;
        proof {
            let all = blanked(s@);
            assert(all.take(i as int) =~= all.take(i - 1).push(all[i - 1]));
        }
    }
    proof {
        assert(blanked(s@).take(i as int) =~= blanked(s@));
    }
    out
}

/// A title as a file name.
pub fn sanitize(title: &str) -> (r: String)
    ensures
        r@ == sanitized(title@),
{
    let chars = chars_of(title);
    let line = flattened(blank_out(&chars).as_str());
    let flat = chars_of(line.as_str());
    let clean = trim_of(&flat, Class::Two('.', ' '));
    let n = count_fitting(clean, MAX_NAME_BYTES);
    let cut = slice_subrange(clean, 0, n);
    proof {
        assert(cut@ =~= clean@.take(n as int));
    }
    text_of(trim_end_of(cut, Class::White))
}

/// What stands at the ends of a trimmed text.
proof fn lemma_trimmed(s: Seq<char>, class: Class)
    ensures
        exists|a: int, b: int|
            0 <= a <= b <= s.len() && trim(s, class) == #[trigger] s.subrange(a, b),
        trim(s, class).len() > 0 ==> !class.has(trim(s, class)[0]),
{
    lemma_leading(s, class);
    let t = trim_start(s, class);
    lemma_trailing(t, class);
    let a = leading(s, class) as int;
    let b = s.len() - trailing(t, class);
    assert(trim(s, class) =~= s.subrange(a, b));
    if trim(s, class).len() > 0 {
        assert(trim(s, class)[0] == s[a]);
    }
}

/// A title is untrusted text; the name that it becomes cannot leave the
/// directory it is meant for: it holds no separator, colon or control character,
/// does not start with a dot, and fits.
pub proof fn law_names_are_safe(title: Seq<char>)
    ensures
        forall|i: int| 0 <= i < sanitized(title).len() ==> !forbidden(#[trigger] sanitized(title)[i]),
        sanitized(title).len() > 0 ==> sanitized(title)[0] != '.' && sanitized(title)[0] != ' ',
        byte_len(sanitized(title)) <= MAX_NAME_BYTES,
{
    let line = one_line(blanked(title));
    let clean = trim(line, Class::Two('.', ' '));
    let n = fitting(clean, MAX_NAME_BYTES as int) as int;
    let cut = clean.take(n);
    let name = sanitized(title);
    lemma_trimmed(line, Class::Two('.', ' '));
    lemma_fitting(clean, MAX_NAME_BYTES as int);
    lemma_trailing(cut, Class::White);
    let (a, b) = choose|a: int, b: int|
        0 <= a <= b <= line.len() && clean == #[trigger] line.subrange(a, b);
    lemma_line_of(blanked(title));
    assert forall|i: int| 0 <= i < name.len() implies !forbidden(#[trigger] name[i]) by {
        assert(name[i] == cut[i]);
        assert(cut[i] == clean[i]);
        assert(clean[i] == line[a + i]);
    }
    assert(byte_len(name) <= byte_len(cut)) by {
        lemma_byte_len_take(cut, name.len() as int);
        assert(cut.take(name.len() as int) =~= name);
    }
    if name.len() > 0 {
        assert(name[0] == clean[0]);
    }
}

/// A name's only white space is single blanks, none at its ends; and for a
/// title that fits, the name does not end with a dot, and is a name already:
/// sanitizing it again changes nothing.
pub proof fn law_names_are_settled(title: Seq<char>)
    ensures
        tidy(sanitized(title)),
        byte_len(title) <= MAX_NAME_BYTES ==> {
            &&& sanitized(title).len() > 0 ==> sanitized(title).last() != '.'
            &&& sanitized(sanitized(title)) == sanitized(title)
        },
{
    let ends = Class::Two('.', ' ');
    let line = one_line(blanked(title));
    let start = trim_start(line, ends);
    let clean = trim(line, ends);
    let n = fitting(clean, MAX_NAME_BYTES as int) as int;
    let cut = clean.take(n);
    let name = sanitized(title);
    lemma_one_line_tidy(blanked(title));
    lemma_fitting(clean, MAX_NAME_BYTES as int);
    lemma_leading(line, ends);
    lemma_trailing(start, ends);
    lemma_trailing(cut, Class::White);
    let a = leading(line, ends) as int;
    assert forall|i: int| 0 <= i < clean.len() implies #[trigger] clean[i] == line[a + i] by {}
    assert forall|i: int| 0 <= i < name.len() && white(#[trigger] name[i]) implies name[i] == ' '
        && 0 < i < name.len() - 1 && !white(name[i + 1]) by {
        assert(name[i] == clean[i]);
        assert(white(line[a + i]));
        if i == 0 {
            assert(!ends.has(line[a]));
        }
        assert(name[name.len() - 1] == cut[name.len() - 1]);
        assert(!white(name[name.len() - 1]));
        assert(name[i + 1] == line[a + i + 1]);
    }
    if byte_len(title) <= MAX_NAME_BYTES {
        lemma_blanked_bytes(title);
        lemma_byte_len_take(line, a);
        lemma_byte_len_take(start, clean.len() as int);
        lemma_all_fits(clean, MAX_NAME_BYTES as int);
        assert(cut =~= clean);
        if clean.len() > 0 {
            assert(!ends.has(clean.last()));
            assert(clean.last() == line[a + clean.len() - 1]);
            assert(!white(clean.last()));
        }
        lemma_trailing_is(clean, Class::White, 0);
        assert(name =~= clean);
        // Nothing is left to change.
        law_names_are_safe(title);
        assert(blanked(name) =~= name);
        lemma_tidy_one_line(name);
        if name.len() > 0 {
            assert(name[0] == line[a]);
        }
        lemma_leading_is(name, ends, 0);
        assert(trim_start(name, ends) =~= name);
        lemma_trailing_is(name, ends, 0);
        assert(trim(name, ends) =~= name);
        lemma_all_fits(name, MAX_NAME_BYTES as int);
        assert(name.take(name.len() as int) =~= name);
        lemma_trailing_is(name, Class::White, 0);
    }
}

/// Blanks take no more bytes than what they stand for.
proof fn lemma_blanked_bytes(s: Seq<char>)
    ensures
        byte_len(blanked(s)) <= byte_len(s),
    decreases s.len(),
{
    if s.len() > 0 {
        lemma_byte_len_first(s);
        lemma_byte_len_first(blanked(s));
        assert(blanked(s).drop_first() =~= blanked(s.drop_first()));
        lemma_blanked_bytes(s.drop_first());
    }
}

/// Joining the words of a text brings in nothing but blanks.
proof fn lemma_line_of(s: Seq<char>)
    ensures
        forall|i: int|
            0 <= i < one_line(s).len() ==> #[trigger] one_line(s)[i] == ' ' || s.contains(
                one_line(s)[i],
            ),
    decreases s.len(),
{
    reveal_strlit(" ");
    let t = trim_start(s, Class::White);
    let line = one_line(s);
    lemma_leading(s, Class::White);
    if t.len() > 0 {
        let n = leading(t, Class::NonWhite) as int;
        lemma_leading(t, Class::NonWhite);
        assert(!white(t[0]));
        let first = t.take(n);
        let rest = t.skip(n);
        lemma_line_of(rest);
        lemma_join_first(words(rest), first, " "@);
        assert forall|i: int| 0 <= i < line.len() implies #[trigger] line[i] == ' ' || s.contains(
            line[i],
        ) by {
            let m = leading(s, Class::White) as int;
            if i < n {
                assert(line[i] == s[m + i]);
            } else if i > n {
                let tail = one_line(rest);
                assert(line[i] == tail[i - n - 1]);
                if tail[i - n - 1] != ' ' {
                    let k = choose|k: int| 0 <= k < rest.len() && rest[k] == tail[i - n - 1];
                    assert(s[m + n + k] == line[i]);
                }
            }
        }
    }
}

/// What a meeting's file is called, without what makes the name unique and
/// without its extension: `2026-09-17 1432 Sprint planning`. The date header is
/// display format; the file name drops the colon, which Windows forbids.
pub open spec fn stem_of(meta: Header) -> Seq<char> {
    let stamp = without_char(meta.date, ':');
    let title = sanitized(meta.title);
    if stamp.len() == 0 && title.len() == 0 {
        "transcript"@
    } else if stamp.len() == 0 {
        title
    } else if title.len() == 0 {
        stamp
    } else {
        stamp + " "@ + title
    }
}

/// The `n`th name to try for a file.
pub open spec fn candidate(stem: Seq<char>, n: nat) -> Seq<char> {
    if n <= 1 {
        stem + ".txt"@
    } else {
        stem + " ("@ + decimal(n) + ").txt"@
    }
}

/// The search for a file name that is free.
pub struct NameSearch {
    stem: String,
    n: u64,
}

impl NameSearch {
    /// The name without what makes it unique.
    pub closed spec fn stem(self) -> Seq<char> {
        self.stem@
    }

    /// Which name is tried.
    pub closed spec fn nth(self) -> nat {
        self.n as nat
    }

    pub fn new(meta: &Meta) -> (r: NameSearch)
        ensures
            r.stem() == stem_of(meta@),
            r.nth() == 1,
    {
        let chars = chars_of(meta.date.as_str());
        let stamp = remove_char(&chars, ':');
        let title = sanitize(meta.title.as_str());
        let title_chars = chars_of(title.as_str());
        let stem = if stamp.len() == 0 && title_chars.len() == 0 {
            "transcript".to_owned()
        } else if stamp.len() == 0 {
            title
        } else if title_chars.len() == 0 {
            text_of(&stamp)
        } else {
            let mut both = text_of(&stamp);
            both.push_str(" ");
            both.push_str(title.as_str());
            both
        };
        NameSearch { stem, n: 1 }
    }

    /// The name to try.
    pub fn name(&self) -> (r: String)
        ensures
            r@ == candidate(self.stem(), self.nth()),
    {
        let mut out = self.stem.clone();
        if self.n > 1 {
            out.push_str(" (");
            push_number(&mut out, self.n);
            out.push_str(").txt");
        } else {
            out.push_str(".txt");
        }
        proof {
            assert(out@ =~= candidate(self.stem(), self.nth()));
        }
        out
    }

    /// The name is taken: try the next one.
    pub fn taken(&mut self)
        requires
            old(self).nth() < u64::MAX,
        ensures
            final(self).stem() == old(self).stem(),
            final(self).nth() == old(self).nth() + 1,
    {
        self.n = self.n + 1;
    }
}

/// No name is tried twice.
pub proof fn law_no_name_is_tried_twice(stem: Seq<char>, a: nat, b: nat)
    requires
        1 <= a < b,
    ensures
        candidate(stem, a) != candidate(stem, b),
{
    reveal_strlit(".txt");
    reveal_strlit(" (");
    reveal_strlit(").txt");
    let x = candidate(stem, a);
    let y = candidate(stem, b);
    let k = stem.len() as int;
    if a == 1 {
        assert(x[k] == '.');
        assert(y[k] == ' ');
    } else if x == y {
        assert(x.len() == k + 2 + decimal(a).len() + 5);
        assert(y.len() == k + 2 + decimal(b).len() + 5);
        assert(x.subrange(k + 2, x.len() - 5) =~= decimal(a));
        assert(y.subrange(k + 2, y.len() - 5) =~= decimal(b));
        lemma_decimal_injective(a, b);
    }
}

/// A stored transcript as the history list sees it.
#[derive(Debug, Clone)]
pub struct Saved {
    pub path: String,
    pub meta: Meta,
    /// Bytes of the file, for the "how long is this" hint.
    pub bytes: u64,
    /// Modification time in nanoseconds since 1970, used to sort when a file has
    /// no date header.
    pub modified: i128,
}

/// Whether `a` comes before `b` in a dictionary.
pub open spec fn sorts_before(a: Seq<char>, b: Seq<char>) -> bool
    decreases a.len(),
{
    if b.len() == 0 {
        false
    } else if a.len() == 0 {
        true
    } else if a[0] == b[0] {
        sorts_before(a.drop_first(), b.drop_first())
    } else {
        a[0] < b[0]
    }
}

/// Whether a file has a date header.
pub open spec fn dated(saved: Saved) -> bool {
    saved.meta.date@.len() > 0
}

/// Whether `a` is newer than `b`: by the date header when both have one (it
/// sorts lexicographically), else, and where the dates are equal, by
/// modification time.
pub open spec fn newer(a: Saved, b: Saved) -> bool {
    if dated(a) && dated(b) && a.meta.date@ != b.meta.date@ {
        sorts_before(b.meta.date@, a.meta.date@)
    } else {
        a.modified > b.modified
    }
}

/// Whether `a` comes before `b` in a dictionary.
fn comes_first(a: &[char], b: &[char]) -> (r: bool)
    ensures
        r == sorts_before(a@, b@),
{
    let mut i: usize = 0;
    proof {
        assert(a@.skip(0) =~= a@);
        assert(b@.skip(0) =~= b@);
    }
    while i < a.len() && i < b.len()
        invariant
            i <= a@.len(),
            i <= b@.len(),
            sorts_before(a@, b@) == sorts_before(a@.skip(i as int), b@.skip(i as int)),
        decreases a.len() - i,
    {
        proof {
            assert(a@.skip(i as int)[0] == a@[i as int]);
            assert(b@.skip(i as int)[0] == b@[i as int]);
            assert(a@.skip(i as int).drop_first() =~= a@.skip(i + 1));
            assert(b@.skip(i as int).drop_first() =~= b@.skip(i + 1));
        }
        if a[i] != b[i] {
            return a[i] < b[i];
        }
        i += 1;
    }
    b.len() > i
}

/// Whether `a` is newer than `b`.
fn is_newer(a: &Saved, b: &Saved) -> (r: bool)
    ensures
        r == newer(*a, *b),
{
    let x = chars_of(a.meta.date.as_str());
    let y = chars_of(b.meta.date.as_str());
    if x.len() > 0 && y.len() > 0 && !same_text(&x, &y) {
        comes_first(&y, &x)
    } else {
        a.modified > b.modified
    }
}

/// The order of a dictionary is an order.
proof fn lemma_sorts_before(a: Seq<char>, b: Seq<char>, c: Seq<char>)
    ensures
        !sorts_before(a, a),
        sorts_before(a, b) ==> !sorts_before(b, a),
        a != b ==> sorts_before(a, b) || sorts_before(b, a),
        sorts_before(a, b) && sorts_before(b, c) ==> sorts_before(a, c),
    decreases a.len(),
{
    if a.len() > 0 {
        let rest = a.drop_first();
        let y = if b.len() > 0 {
            b.drop_first()
        } else {
            b
        };
        let z = if c.len() > 0 {
            c.drop_first()
        } else {
            c
        };
        lemma_sorts_before(rest, y, z);
        if b.len() > 0 && a[0] == b[0] && rest == y {
            assert(a =~= seq![a[0]] + rest);
            assert(b =~= seq![b[0]] + y);
        }
    } else if b.len() == 0 {
        assert(a =~= b);
    }
}

/// Of two files at most one is newer.
proof fn lemma_one_is_newer(a: Saved, b: Saved)
    ensures
        newer(a, b) ==> !newer(b, a),
{
    lemma_sorts_before(a.meta.date@, b.meta.date@, a.meta.date@);
}

/// Whether no entry of a list is newer than the one before it. Of neighbours
/// only: between files with and without a date the comparison can run in a
/// circle, and then no order suits every two of them.
pub open spec fn newest_first(list: Seq<Saved>) -> bool {
    forall|i: int, j: int|
        0 <= i < j < list.len() && j == i + 1 ==> !newer(#[trigger] list[j], #[trigger] list[i])
}

/// Whether the files that have a date were last modified in the order of their
/// dates.
pub open spec fn modified_as_dated(list: Seq<Saved>) -> bool {
    forall|i: int, j: int|
        0 <= i < list.len() && 0 <= j < list.len() && dated(#[trigger] list[i]) && dated(
            #[trigger] list[j],
        ) && sorts_before(list[i].meta.date@, list[j].meta.date@) ==> list[i].modified
            < list[j].modified
}

/// Where all files have a date, or none has, or those that have one were last
/// modified in the order of their dates, no file of the history is newer than
/// any before it.
pub proof fn law_the_history_is_in_order(list: Seq<Saved>, i: int, j: int)
    requires
        newest_first(list),
        0 <= i < j < list.len(),
        ({
            ||| forall|k: int| 0 <= k < list.len() ==> dated(#[trigger] list[k])
            ||| forall|k: int| 0 <= k < list.len() ==> !dated(#[trigger] list[k])
            ||| modified_as_dated(list)
        }),
    ensures
        !newer(list[j], list[i]),
    decreases j - i,
{
    if i < j - 1 {
        let (a, b, c) = (list[i], list[j - 1], list[j]);
        law_the_history_is_in_order(list, i, j - 1);
        lemma_sorts_before(a.meta.date@, b.meta.date@, c.meta.date@);
        lemma_sorts_before(b.meta.date@, c.meta.date@, a.meta.date@);
        lemma_sorts_before(c.meta.date@, a.meta.date@, b.meta.date@);
        lemma_sorts_before(b.meta.date@, a.meta.date@, c.meta.date@);
        lemma_sorts_before(a.meta.date@, c.meta.date@, b.meta.date@);
        lemma_sorts_before(c.meta.date@, b.meta.date@, a.meta.date@);
    }
}

/// Putting an entry between one that it is not newer than and one that is not
/// newer keeps the order.
proof fn lemma_put_in(list: Seq<Saved>, at: int, entry: Saved)
    requires
        newest_first(list),
        0 <= at <= list.len(),
        at > 0 ==> !newer(entry, list[at - 1]),
        at < list.len() ==> !newer(list[at], entry),
    ensures
        newest_first(list.insert(at, entry)),
{
    let now = list.insert(at, entry);
    assert forall|i: int, j: int| 0 <= i < j < now.len() && j == i + 1 implies !newer(
        #[trigger] now[j],
        #[trigger] now[i],
    ) by {
        if j < at {
            assert(now[i] == list[i] && now[j] == list[j]);
        } else if i > at {
            assert(now[i] == list[i - 1] && now[j] == list[j - 1]);
        } else if j == at {
            assert(now[i] == list[at - 1]);
        } else {
            assert(now[j] == list[at]);
        }
    }
}

/// The history list: every stored transcript, newest first.
pub fn sorted_newest_first(saved: Vec<Saved>) -> (r: Vec<Saved>)
    ensures
        newest_first(r@),
        r@.to_multiset() == saved@.to_multiset(),
{
    let ghost all = saved@;
    let mut left = saved;
    let mut out: Vec<Saved> = Vec::new();
    proof {
        to_multiset_len(out@);
        assert(out@.to_multiset() =~= Multiset::<Saved>::empty());
        assert(out@.to_multiset().add(left@.to_multiset()) =~= all.to_multiset());
    }
    while left.len() > 0
        invariant
            newest_first(out@),
            out@.to_multiset().add(left@.to_multiset()) == all.to_multiset(),
        decreases left@.len(),
    {
        let ghost before = left@;
        match left.pop() {
            Some(entry) => {
                let mut at: usize = 0;
                while at < out.len() && is_newer(&out[at], &entry)
                    invariant
                        at <= out@.len(),
                        at > 0 ==> !newer(entry, out@[at - 1]),
                    decreases out.len() - at,
                {
                    proof {
                        lemma_one_is_newer(out@[at as int], entry);
                    }
                    at += 1;
                }
                proof {
                    lemma_put_in(out@, at as int, entry);
                    to_multiset_insert(out@, at as int, entry);
                    to_multiset_build(left@, entry);
                    assert(before =~= left@.push(entry));
                    assert(out@.to_multiset().insert(entry).add(left@.to_multiset())
                        =~= out@.to_multiset().add(left@.to_multiset().insert(entry)));
                }
                out.insert(at, entry);
            },
            None => {},
        }
    }
    proof {
        to_multiset_len(left@);
        assert(left@.to_multiset() =~= Multiset::<Saved>::empty());
        assert(out@.to_multiset().add(left@.to_multiset()) =~= out@.to_multiset());
    }
    out
}

/// Whether a file is listed as a transcript: its extension is `txt`.
pub fn is_transcript(path: &str, style: PathStyle) -> (r: bool)
    ensures
        r == (extension_of(path@, style) == Some("txt"@)),
{
    let chars = chars_of(path);
    let txt = chars_of("txt");
    match file_extension(&chars, style) {
        Some(ext) => same_text(ext, &txt),
        None => false,
    }
}

/// The header that the list shows of a file: what its contents say, with the
/// file's name as title where they say none.
pub open spec fn listed_header(contents: Option<Seq<char>>, stem: Seq<char>) -> Header {
    let meta = match contents {
        Some(text) => parsed(text).0,
        None => Header::blank(),
    };
    if meta.title.len() == 0 {
        Header { title: stem, ..meta }
    } else {
        meta
    }
}

/// What the list shows of a file. `contents` is none for a file that could not
/// be read, `stem` the file's name without its extension.
pub fn listed(path: String, stem: &str, contents: Option<&str>, bytes: u64, modified: i128) -> (r:
    Saved)
    ensures
        r.path@ == path@,
        r.meta@ == listed_header(
            match contents {
                Some(text) => Some(text@),
                None => None,
            },
            stem@,
        ),
        r.bytes == bytes,
        r.modified == modified,
{
    let mut meta = match contents {
        Some(text) => parse(text).0,
        None => Meta::default(),
    };
    if chars_of(meta.title.as_str()).len() == 0 {
        meta.title = stem.to_owned();
    }
    Saved { path, meta, bytes, modified }
}

/// Among finitely many files a free name is found: no later than one try after
/// there are files.
pub proof fn law_a_free_name_is_found(stem: Seq<char>, taken: Seq<Seq<char>>)
    ensures
        exists|n: nat|
            1 <= n <= taken.len() + 1 && !taken.contains(#[trigger] candidate(stem, n)),
{
    if forall|n: nat| 1 <= n <= taken.len() + 1 ==> taken.contains(#[trigger] candidate(stem, n)) {
        let places = Seq::new(
            taken.len() + 1,
            |k: int| place_among(taken, candidate(stem, (k + 1) as nat)),
        );
        assert forall|k: int| 0 <= k < places.len() implies 0 <= #[trigger] places[k]
            < taken.len() && taken[places[k]] == candidate(stem, (k + 1) as nat) by {
            assert(taken.contains(candidate(stem, (k + 1) as nat)));
        }
        assert forall|k: int, l: int| 0 <= k < l < places.len() implies places[k] != places[l] by {
            law_no_name_is_tried_twice(stem, (k + 1) as nat, (l + 1) as nat);
        }
        lemma_distinct_below(places, taken.len() as int);
    }
}

/// Where a name stands in a list.
spec fn place_among(list: Seq<Seq<char>>, name: Seq<char>) -> int {
    choose|i: int| 0 <= i < list.len() && #[trigger] list[i] == name
}

/// A title that is a file name already stays as it is: on one line with single
/// blanks, without forbidden characters, no dot or blank at its ends, and short
/// enough.
pub proof fn law_clean_titles_stay(title: Seq<char>)
    requires
        tidy(title),
        forall|i: int| 0 <= i < title.len() ==> !forbidden(#[trigger] title[i]),
        title.len() > 0 ==> title[0] != '.' && title.last() != '.',
        byte_len(title) <= 80,
    ensures
        sanitized(title) == title,
{
    let ends = Class::Two('.', ' ');
    assert(blanked(title) =~= title);
    lemma_tidy_one_line(title);
    if title.len() > 0 {
        let last = title.len() - 1;
        assert(title[last] == title.last());
        assert(white(' '));
        assert(!white(title[0]) && !white(title[last])) by {
            if white(title[0]) {
                assert(0 < 0int);
            }
        }
    }
    lemma_leading_is(title, ends, 0);
    assert(trim_start(title, ends) =~= title);
    lemma_trailing_is(title, ends, 0);
    assert(trim(title, ends) =~= title);
    lemma_all_fits(title, 80);
    assert(title.take(title.len() as int) =~= title);
    lemma_trailing_is(title, Class::White, 0);
}

/// The nine characters and the control characters are forbidden, and nothing else.
pub proof fn law_these_are_forbidden(c: char)
    ensures
        forbidden(c) <==> seq!['<', '>', ':', '"', '/', '\\', '|', '?', '*'].contains(c) || c
            < ' ' || '\u{7f}' <= c <= '\u{9f}',
{
    let list = seq!['<', '>', ':', '"', '/', '\\', '|', '?', '*'];
    assert(list[0] == '<' && list[1] == '>' && list[2] == ':' && list[3] == '"' && list[4] == '/'
        && list[5] == '\\' && list[6] == '|' && list[7] == '?' && list[8] == '*');
}

/// The words of a title are kept as far as they fit: apart from blanks, forbidden
/// characters, and dots at the ends, a short title keeps every character.
pub proof fn law_short_titles_keep_their_words(title: Seq<char>)
    requires
        byte_len(title) <= 80,
        title.len() > 0,
        title[0] != '.' && !white(title[0]) && !forbidden(title[0]),
        title.last() != '.' && !white(title.last()) && !forbidden(title.last()),
    ensures
        sanitized(title).filter(|c: char| !white(c)) == title.filter(
            |c: char| !white(c) && !forbidden(c),
        ),
{
    let ends = Class::Two('.', ' ');
    let solid = |c: char| !white(c);
    let flat = blanked(title);
    let line = one_line(flat);
    law_one_line_says_the_same(flat);
    lemma_blanked_solid(title);
    lemma_one_line_tidy(flat);
    lemma_one_line(flat);
    lemma_line_ends(flat);
    lemma_leading_is(line, ends, 0);
    assert(trim_start(line, ends) =~= line);
    lemma_trailing_is(line, ends, 0);
    assert(trim(line, ends) =~= line);
    lemma_blanked_bytes(title);
    lemma_all_fits(line, 80);
    assert(line.take(line.len() as int) =~= line);
    lemma_trailing_is(line, Class::White, 0);
    assert(sanitized(title) =~= line);
}

/// A line starts and ends as its text does, where that does so with no blank.
proof fn lemma_line_ends(s: Seq<char>)
    requires
        s.len() > 0,
        !white(s[0]),
        !white(s.last()),
    ensures
        one_line(s).len() > 0,
        one_line(s)[0] == s[0],
        one_line(s).last() == s.last(),
    decreases s.len(),
{
    reveal_strlit(" ");
    lemma_leading_is(s, Class::White, 0);
    assert(s.skip(0) =~= s);
    let n = leading(s, Class::NonWhite) as int;
    lemma_leading(s, Class::NonWhite);
    let first = s.take(n);
    let rest = s.skip(n);
    lemma_join_first(words(rest), first, " "@);
    if n < s.len() {
        let t = trim_start(rest, Class::White);
        lemma_leading(rest, Class::White);
        let m = leading(rest, Class::White) as int;
        assert(rest.last() == s.last());
        assert(m < rest.len()) by {
            if m >= rest.len() {
                assert(Class::White.has(rest[rest.len() - 1]));
            }
        }
        assert(t[0] == rest[m]);
        assert(t.last() == s.last());
        lemma_words_trim(rest);
        lemma_line_ends(t);
        assert(words(rest).len() > 0);
        let tail = one_line(rest);
        assert(tail == one_line(t));
        assert(one_line(s) == first + " "@ + tail);
        assert(one_line(s).last() == tail.last());
    } else {
        assert(rest =~= Seq::<char>::empty());
        assert(trim_start(rest, Class::White).len() == 0);
        assert(words(rest).len() == 0);
        assert(first =~= s);
    }
}

/// Blanks in place of forbidden characters leave the others.
proof fn lemma_blanked_solid(s: Seq<char>)
    ensures
        blanked(s).filter(|c: char| !white(c)) == s.filter(|c: char| !white(c) && !forbidden(c)),
    decreases s.len(),
{
    reveal(Seq::filter);
    if s.len() > 0 {
        lemma_blanked_solid(s.drop_last());
        assert(blanked(s).drop_last() =~= blanked(s.drop_last()));
    }
}

/// The order of a dictionary: the text that is less where two first differ, or that
/// ends there, comes first.
pub proof fn law_the_order_of_a_dictionary(a: Seq<char>, b: Seq<char>)
    ensures
        sorts_before(a, b) <==> exists|k: int|
            {
                &&& 0 <= k <= a.len()
                &&& k < b.len()
                &&& #[trigger] a.take(k) == b.take(k)
                &&& k == a.len() || a[k] < b[k]
            },
    decreases a.len(),
{
    if b.len() > 0 && a.len() > 0 && a[0] == b[0] {
        let (x, y) = (a.drop_first(), b.drop_first());
        law_the_order_of_a_dictionary(x, y);
        if exists|k: int|
            {
                &&& 0 <= k <= x.len()
                &&& k < y.len()
                &&& #[trigger] x.take(k) == y.take(k)
                &&& k == x.len() || x[k] < y[k]
            } {
            let k = choose|k: int|
                {
                    &&& 0 <= k <= x.len()
                    &&& k < y.len()
                    &&& #[trigger] x.take(k) == y.take(k)
                    &&& k == x.len() || x[k] < y[k]
                };
            assert(a.take(k + 1) =~= seq![a[0]] + x.take(k));
            assert(b.take(k + 1) =~= seq![b[0]] + y.take(k));
        }
        if exists|k: int|
            {
                &&& 0 <= k <= a.len()
                &&& k < b.len()
                &&& #[trigger] a.take(k) == b.take(k)
                &&& k == a.len() || a[k] < b[k]
            } {
            let k = choose|k: int|
                {
                    &&& 0 <= k <= a.len()
                    &&& k < b.len()
                    &&& #[trigger] a.take(k) == b.take(k)
                    &&& k == a.len() || a[k] < b[k]
                };
            assert(k > 0);
            assert(x.take(k - 1) =~= a.take(k).drop_first());
            assert(y.take(k - 1) =~= b.take(k).drop_first());
        }
    } else if b.len() > 0 {
        assert(a.take(0) =~= b.take(0));
        if exists|k: int|
            {
                &&& 0 <= k <= a.len()
                &&& k < b.len()
                &&& #[trigger] a.take(k) == b.take(k)
                &&& k == a.len() || a[k] < b[k]
            } {
            let k = choose|k: int|
                {
                    &&& 0 <= k <= a.len()
                    &&& k < b.len()
                    &&& #[trigger] a.take(k) == b.take(k)
                    &&& k == a.len() || a[k] < b[k]
                };
            if k > 0 {
                assert(a.take(k)[0] == a[0] && b.take(k)[0] == b[0]);
            }
        }
    }
}

/// In a history no file stands right behind one that is older: with dates in both,
/// by the dates, and by the time of the last change where one has none or both are
/// the same.
pub proof fn law_neighbours_are_newest_first(list: Seq<Saved>, i: int)
    requires
        newest_first(list),
        0 <= i < list.len() - 1,
    ensures
        ({
            let (a, b) = (list[i], list[i + 1]);
            let both = a.meta.date@.len() > 0 && b.meta.date@.len() > 0;
            &&& both && a.meta.date@ != b.meta.date@ ==> !sorts_before(a.meta.date@, b.meta.date@)
            &&& !both || a.meta.date@ == b.meta.date@ ==> a.modified >= b.modified
        }),
{
    assert(!newer(list[i + 1], list[i]));
}

/// A meeting's file is named by its date, without colons, and its title, as far as
/// there are any; the second and later names that are tried have a number behind
/// that.
pub proof fn law_files_are_named_by_date_and_title(meta: Header, stem: Seq<char>, n: nat)
    requires
        n >= 2,
    ensures
        ({
            let date = meta.date.filter(|c: char| c != ':');
            let title = sanitized(meta.title);
            &&& date.len() > 0 && title.len() > 0 ==> stem_of(meta) == date + " "@ + title
            &&& date.len() > 0 && title.len() == 0 ==> stem_of(meta) == date
            &&& date.len() == 0 && title.len() > 0 ==> stem_of(meta) == title
            &&& date.len() == 0 && title.len() == 0 ==> stem_of(meta) == "transcript"@
        }),
        candidate(stem, 1) == stem + ".txt"@,
        candidate(stem, n) == stem + " ("@ + decimal(n) + ").txt"@,
{
    law_only_the_character_goes(meta.date, ':');
}

/// The list shows what a file's header says, and the file's name only where that
/// says no title.
pub proof fn law_files_without_a_title_show_their_name(
    contents: Option<Seq<char>>,
    stem: Seq<char>,
)
    ensures
        ({
            let shown = listed_header(contents, stem);
            match contents {
                Some(text) => {
                    let said = parsed(text).0;
                    &&& shown.date == said.date && shown.duration == said.duration
                        && shown.summary == said.summary
                    &&& said.title.len() > 0 ==> shown.title == said.title
                    &&& said.title.len() == 0 ==> shown.title == stem
                },
                None => shown.title == stem && shown.date.len() == 0 && shown.duration.len() == 0
                    && shown.summary.len() == 0,
            }
        }),
{
}

} // verus!
