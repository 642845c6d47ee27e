//! How finished meetings are stored, and how they are listed again.
//!
//! Each meeting is one UTF-8 text file: a few `Key: value` header lines (title,
//! date, duration, one-sentence summary), a divider, then the transcript. The
//! header is plain text on purpose — the files stay readable and editable in any
//! editor, and the history list rebuilds itself from the directory alone, with
//! no separate index to corrupt.

use vstd::prelude::*;
use vstd::slice::slice_subrange;

use crate::text::{
    chars_of, find, find_in, first_at, flattened, law_trimming_takes_both_ends, leading, leading_of,
    lemma_find_is, lemma_leading, lemma_leading_is, lemma_one_line, lemma_trailing_is, occurs_at,
    one_line, same_text, starts_with, text_of, trim, trim_end, trim_end_of, trim_of, white, Class,
};

verus! {

/// Divider between the header and the transcript body.
pub const DIVIDER: &'static str = "----------------------------------------------------------------";

/// A meeting's header: everything about it except the transcript itself.
#[derive(Debug, Clone, PartialEq)]
pub struct Meta {
    /// Short label for the meeting, from the summary model.
    pub title: String,
    /// When recording started, as `YYYY-MM-DD HH:MM`.
    pub date: String,
    /// Length of the recording, `H:MM:SS` or `MM:SS`.
    pub duration: String,
    /// One sentence about what was discussed; empty when the summary model
    /// wasn't available.
    pub summary: String,
}

/// A header as characters.
pub struct Header {
    pub title: Seq<char>,
    pub date: Seq<char>,
    pub duration: Seq<char>,
    pub summary: Seq<char>,
}

impl View for Meta {
    type V = Header;

    open spec fn view(&self) -> Header {
        Header {
            title: self.title@,
            date: self.date@,
            duration: self.duration@,
            summary: self.summary@,
        }
    }
}

impl Header {
    /// A header that says nothing.
    pub open spec fn blank() -> Header {
        Header {
            title: Seq::empty(),
            date: Seq::empty(),
            duration: Seq::empty(),
            summary: Seq::empty(),
        }
    }

    /// Every value on one line.
    pub open spec fn flat(self) -> Header {
        Header {
            title: one_line(self.title),
            date: one_line(self.date),
            duration: one_line(self.duration),
            summary: one_line(self.summary),
        }
    }

    /// Whether any value is there.
    pub open spec fn says_something(self) -> bool {
        self.title.len() > 0 || self.date.len() > 0 || self.duration.len() > 0 || self.summary.len()
            > 0
    }

    /// The header lines: a line for every value that is there.
    pub open spec fn written(self) -> Seq<char> {
        header_line("Title"@, self.title) + header_line("Date"@, self.date) + header_line(
            "Duration"@,
            self.duration,
        ) + header_line("Summary"@, self.summary)
    }
}

/// A header line, or nothing for an empty value. A header value is one line by
/// definition: the title and summary come from a language model, and a stray
/// newline in either would split the header and swallow the rest of it.
pub open spec fn header_line(key: Seq<char>, value: Seq<char>) -> Seq<char> {
    if value.len() > 0 {
        key + ": "@ + one_line(value) + "\n"@
    } else {
        Seq::empty()
    }
}

/// The contents of a meeting's file.
pub open spec fn rendered(meta: Header, body: Seq<char>) -> Seq<char> {
    let text = trim_end(body, Class::White) + "\n"@;
    if meta.says_something() {
        meta.written() + ("\n"@ + DIVIDER@ + "\n\n"@) + text
    } else {
        text
    }
}

impl Default for Meta {
    fn default() -> (r: Self)
        ensures
            r@ == Header::blank(),
    {
        let r = Meta {
            title: String::new(),
            date: String::new(),
            duration: String::new(),
            summary: String::new(),
        };
        proof {
            assert(r.title@ =~= Seq::<char>::empty());
            assert(r.date@ =~= Seq::<char>::empty());
            assert(r.duration@ =~= Seq::<char>::empty());
            assert(r.summary@ =~= Seq::<char>::empty());
        }
        r
    }
}

/// Puts a header line at the end of `out`, unless the value is empty.
fn push_header_line(out: &mut String, key: &str, value: &String)
    ensures
        final(out)@ == old(out)@ + header_line(key@, value@),
{
    let chars = chars_of(value.as_str());
    if chars.len() > 0 {
        out.push_str(key);
        out.push_str(": ");
        out.push_str(flattened(value.as_str()).as_str());
        out.push_str("\n");
        proof {
            assert(out@ =~= old(out)@ + header_line(key@, value@));
        }
    } else {
        proof {
            assert(out@ =~= old(out)@ + header_line(key@, value@));
        }
    }
}

/// Render a meeting to its file contents.
pub fn render(meta: &Meta, body: &str) -> (r: String)
    ensures
        r@ == rendered(meta@, body@),
{
    let mut out = String::new();
    push_header_line(&mut out, "Title", &meta.title);
    push_header_line(&mut out, "Date", &meta.date);
    push_header_line(&mut out, "Duration", &meta.duration);
    push_header_line(&mut out, "Summary", &meta.summary);
    proof {
        assert(out@ =~= meta@.written());
        lemma_header_line("Title"@, meta@.title);
        lemma_header_line("Date"@, meta@.date);
        lemma_header_line("Duration"@, meta@.duration);
        lemma_header_line("Summary"@, meta@.summary);
    }
    let says_something = chars_of(out.as_str()).len() > 0;
    if says_something {
        out.push_str("\n");
        out.push_str(DIVIDER);
        out.push_str("\n\n");
    }
    let ghost head = out@;
    let chars = chars_of(body);
    let text = text_of(trim_end_of(&chars, Class::White));
    out.push_str(text.as_str());
    out.push_str("\n");
    proof {
        assert(out@ =~= rendered(meta@, body@));
    }
    out
}

/// A header line is there exactly for a value that is there.
proof fn lemma_header_line(key: Seq<char>, value: Seq<char>)
    ensures
        header_line(key, value).len() > 0 <==> value.len() > 0,
{
    reveal_strlit(": ");
}

/// The first line of a text without its line ending, and what follows it.
pub open spec fn first_line(text: Seq<char>) -> (Seq<char>, Seq<char>) {
    let n = leading(text, Class::Except('\n')) as int;
    if n < text.len() {
        (trim_end(text.take(n), Class::One('\r')), text.skip(n + 1))
    } else {
        (text, Seq::empty())
    }
}

/// A header line's key and value, if the line has the shape of one.
pub open spec fn key_value(line: Seq<char>) -> Option<(Seq<char>, Seq<char>)> {
    match find(line, ": "@) {
        Some(i) => Some((line.take(i), trim(line.skip(i + 2), Class::White))),
        None => None,
    }
}

/// A header with one more value, if the key is a header's.
pub open spec fn with_value(meta: Header, key: Seq<char>, value: Seq<char>) -> Option<Header> {
    if key == "Title"@ {
        Some(Header { title: value, ..meta })
    } else if key == "Date"@ {
        Some(Header { date: value, ..meta })
    } else if key == "Duration"@ {
        Some(Header { duration: value, ..meta })
    } else if key == "Summary"@ {
        Some(Header { summary: value, ..meta })
    } else {
        None
    }
}

/// A header with what a line says, if it is a header line.
pub open spec fn with_line(meta: Header, line: Seq<char>) -> Option<Header> {
    match key_value(line) {
        Some((key, value)) => with_value(meta, key, value),
        None => None,
    }
}

/// The header lines at the start of a text, up to the first line that is none,
/// and what follows them.
pub open spec fn header_of(meta: Header, text: Seq<char>) -> (Header, Seq<char>)
    decreases text.len(),
    via header_of_shrinks
{
    let (line, tail) = first_line(text);
    match with_line(meta, line) {
        Some(more) => header_of(more, tail),
        None => (meta, text),
    }
}

#[via_fn]
proof fn header_of_shrinks(meta: Header, text: Seq<char>) {
    let (line, tail) = first_line(text);
    if with_line(meta, line) is Some {
        lemma_header_line_len(line);
        lemma_leading(text, Class::Except('\n'));
    }
}

/// A line with a key is not empty.
proof fn lemma_header_line_len(line: Seq<char>)
    requires
        key_value(line) is Some,
    ensures
        line.len() >= 2,
{
    reveal_strlit(": ");
    let k = choose|k: int| #[trigger] occurs_at(line, ": "@, k);
}

/// Whether a line belongs to what divides header and transcript: blank or all
/// dashes.
pub open spec fn divides(line: Seq<char>) -> bool {
    trim(line, Class::White).len() == 0 || trim(line, Class::One('-')).len() == 0
}

/// A text without the first lines that divide, at most `most`.
pub open spec fn behind_divider(text: Seq<char>, most: nat) -> Seq<char>
    decreases most,
{
    if most == 0 || !text.contains('\n') || !divides(first_line(text).0) {
        text
    } else {
        behind_divider(first_line(text).1, (most - 1) as nat)
    }
}

/// Whether a text starts with a header line.
pub open spec fn has_header(text: Seq<char>) -> bool {
    with_line(Header::blank(), first_line(text).0) is Some
}

/// The header and the transcript that a file holds.
pub open spec fn parsed(contents: Seq<char>) -> (Header, Seq<char>) {
    if has_header(contents) {
        let (meta, rest) = header_of(Header::blank(), contents);
        (meta, behind_divider(rest, 3))
    } else {
        (Header::blank(), contents)
    }
}

/// The first line of a text without its line ending, what follows it, and
/// whether it had a line ending.
fn split_line<'a>(text: &'a [char]) -> (r: (&'a [char], &'a [char], bool))
    ensures
        r.0@ == first_line(text@).0,
        r.1@ == first_line(text@).1,
        r.2 == text@.contains('\n'),
{
    let n = leading_of(text, Class::Except('\n'));
    proof {
        lemma_leading(text@, Class::Except('\n'));
    }
    if n < text.len() {
        proof {
            assert(text@[n as int] == '\n');
            assert(text@.contains('\n'));
        }
        (
            trim_end_of(slice_subrange(text, 0, n), Class::One('\r')),
            slice_subrange(text, n + 1, text.len()),
            true,
        )
    } else {
        proof {
            assert forall|i: int| 0 <= i < text@.len() implies text@[i] != '\n' by {
                assert(Class::Except('\n').has(text@[i]));
            }
        }
        (text, slice_subrange(text, text.len(), text.len()), false)
    }
}

/// Takes what a line says into a header; whether it is a header line.
fn take_line(meta: &mut Meta, line: &[char]) -> (r: bool)
    ensures
        r == (with_line(old(meta)@, line@) is Some),
        r ==> with_line(old(meta)@, line@) == Some(final(meta)@),
        !r ==> *final(meta) == *old(meta),
{
    proof {
        reveal_strlit(": ");
    }
    let colon = chars_of(": ");
    match find_in(line, &colon) {
        Some(i) => {
            let key = slice_subrange(line, 0, i);
            proof {
                assert(occurs_at(line@, colon@, i as int));
                assert(i + 2 <= line.len());
                assert(line@.subrange(i + 2, line@.len() as int) == line@.skip(i + 2));
                assert(key@ == line@.take(i as int));
            }
            let value = text_of(trim_of(slice_subrange(line, i + 2, line.len()), Class::White));
            let title = chars_of("Title");
            let date = chars_of("Date");
            let duration = chars_of("Duration");
            let summary = chars_of("Summary");
            if same_text(key, &title) {
                meta.title = value;
            } else if same_text(key, &date) {
                meta.date = value;
            } else if same_text(key, &duration) {
                meta.duration = value;
            } else if same_text(key, &summary) {
                meta.summary = value;
            } else {
                return false;
            }
            true
        },
        None => false,
    }
}

/// Split stored contents back into header and transcript. Files without a header
/// (a hand-saved transcript dropped into the directory) come back whole, with an
/// empty [`Meta`].
pub fn parse(contents: &str) -> (r: (Meta, String))
    ensures
        r.0@ == parsed(contents@).0,
        r.1@ == parsed(contents@).1,
{
    let chars = chars_of(contents);
    let mut meta = Meta::default();
    let mut rest: &[char] = &chars;
    let mut any = false;
    let mut more = true;
    while more
        invariant
            chars@ == contents@,
            more ==> header_of(meta@, rest@) == header_of(Header::blank(), contents@),
            !more ==> (meta@, rest@) == header_of(Header::blank(), contents@),
            any ==> has_header(contents@),
            !any && more ==> meta@ == Header::blank() && rest@ == contents@,
            !any && !more ==> !has_header(contents@) && meta@ == Header::blank(),
        decreases rest@.len() + (if more {
            1int
        } else {
            0
        }),
    {
        let (line, tail, _) = split_line(rest);
        proof {
            if with_line(meta@, line@) is Some {
                lemma_header_line_len(line@);
                lemma_leading(rest@, Class::Except('\n'));
            }
        }
        if take_line(&mut meta, line) {
            any = true;
            rest = tail;
        } else {
            more = false;
        }
    }
    if !any {
        return (meta, text_of(&chars));
    }
    let mut most: u8 = 3;
    let mut going = true;
    while going && most > 0
        invariant
            most <= 3,
            behind_divider(rest@, most as nat) == behind_divider(
                header_of(Header::blank(), contents@).1,
                3,
            ) || !going,
            !going ==> rest@ == behind_divider(header_of(Header::blank(), contents@).1, 3),
            has_header(contents@),
            meta@ == header_of(Header::blank(), contents@).0,
        decreases most + (if going {
            1int
        } else {
            0
        }),
    {
        let (line, tail, has_end) = split_line(rest);
        if has_end && (trim_of(line, Class::White).len() == 0 || trim_of(
            line,
            Class::One('-'),
        ).len() == 0) {
            rest = tail;
            most -= 1;
        } else {
            going = false;
        }
    }
    (meta, text_of(rest))
}

/// A text that starts with a line that ends in a plain newline.
proof fn lemma_first_line(line: Seq<char>, rest: Seq<char>)
    requires
        !line.contains('\n'),
        line.len() > 0 ==> line.last() != '\r',
    ensures
        first_line(line + seq!['\n'] + rest) == (line, rest),
        (line + seq!['\n'] + rest).contains('\n'),
{
    let text = line + seq!['\n'] + rest;
    let n = line.len();
    assert(text[n as int] == '\n');
    assert forall|i: int| 0 <= i < n implies Class::Except('\n').has(#[trigger] text[i]) by {
        assert(text[i] == line[i]);
        assert(line.contains(line[i]));
    }
    lemma_leading_is(text, Class::Except('\n'), n);
    assert(text.take(n as int) =~= line);
    assert(text.skip(n as int + 1) =~= rest);
    lemma_trailing_is(line, Class::One('\r'), 0);
    assert(line.take(line.len() as int) =~= line);
}

/// Whether a key can stand in a header line.
spec fn plain_key(key: Seq<char>) -> bool {
    !key.contains(':') && !key.contains('\n')
}

/// A header line is read as it was written.
proof fn lemma_header_line_read(
    meta: Header,
    key: Seq<char>,
    value: Seq<char>,
    rest: Seq<char>,
)
    requires
        plain_key(key),
        value.len() > 0,
        with_value(meta, key, one_line(value)) is Some,
    ensures
        header_of(meta, header_line(key, value) + rest) == header_of(
            with_value(meta, key, one_line(value))->Some_0,
            rest,
        ),
        with_line(meta, first_line(header_line(key, value) + rest).0) is Some,
{
    reveal_strlit(": ");
    reveal_strlit("\n");
    let v = one_line(value);
    let line = key + ": "@ + v;
    let text = header_line(key, value) + rest;
    lemma_one_line(value);
    assert(!line.contains('\n')) by {
        if line.contains('\n') {
            let i = choose|i: int| 0 <= i < line.len() && line[i] == '\n';
            if i < key.len() {
                assert(key.contains(key[i]));
            } else if i >= key.len() + 2 {
                assert(v[i - key.len() - 2] == '\n');
            }
        }
    }
    assert(line.last() != '\r') by {
        if v.len() > 0 {
            assert(line.last() == v.last());
        } else {
            assert(line.last() == ' ');
        }
    }
    lemma_first_line(line, rest);
    assert("\n"@ =~= seq!['\n']);
    assert(text =~= line + seq!['\n'] + rest);
    let k = key.len() as int;
    assert(line.subrange(k, k + 2) =~= ": "@);
    assert(occurs_at(line, ": "@, k));
    assert forall|j: int| 0 <= j < k implies !#[trigger] occurs_at(line, ": "@, j) by {
        if occurs_at(line, ": "@, j) {
            assert(line.subrange(j, j + 2)[0] == ':');
            assert(key.contains(key[j]));
        }
    }
    lemma_find_is(line, ": "@, k);
    assert(line.take(k) =~= key);
    assert(line.skip(k + 2) =~= v);
}

/// The keys of a header can stand in a header line.
proof fn lemma_plain_keys()
    ensures
        plain_key("Title"@),
        plain_key("Date"@),
        plain_key("Duration"@),
        plain_key("Summary"@),
        "Title"@ != "Date"@,
        "Title"@ != "Duration"@,
        "Title"@ != "Summary"@,
        "Date"@ != "Duration"@,
        "Date"@ != "Summary"@,
        "Duration"@ != "Summary"@,
{
    reveal_strlit("Title");
    reveal_strlit("Date");
    reveal_strlit("Duration");
    reveal_strlit("Summary");
    assert("Title"@[0] == 'T');
    assert("Date"@[0] == 'D' && "Date"@.len() == 4);
    assert("Duration"@[0] == 'D' && "Duration"@.len() == 8);
    assert("Summary"@[0] == 'S');
}

/// One more header line, or nothing for an empty value, in front of the rest.
proof fn lemma_header_part(
    meta: Header,
    next: Header,
    key: Seq<char>,
    value: Seq<char>,
    rest: Seq<char>,
)
    requires
        plain_key(key),
        with_value(meta, key, one_line(value)) == Some(next),
        value.len() == 0 ==> next == meta,
    ensures
        header_of(meta, header_line(key, value) + rest) == header_of(next, rest),
{
    if value.len() > 0 {
        lemma_header_line_read(meta, key, value, rest);
    } else {
        assert(header_line(key, value) + rest =~= rest);
    }
}

/// An empty value stays empty on one line.
proof fn lemma_one_line_empty()
    ensures
        one_line(Seq::<char>::empty()) == Seq::<char>::empty(),
{
    let s = Seq::<char>::empty();
    assert(s.skip(0) =~= s);
}

/// Behind the header a blank line, the divider and a blank line are skipped.
proof fn lemma_divider(text: Seq<char>)
    ensures
        behind_divider("\n"@ + DIVIDER@ + "\n\n"@ + text, 3) == text,
        with_line(
            Header::blank(),
            first_line("\n"@ + DIVIDER@ + "\n\n"@ + text).0,
        ) is None,
        forall|meta: Header|
            header_of(meta, "\n"@ + DIVIDER@ + "\n\n"@ + text) == (
                meta,
                "\n"@ + DIVIDER@ + "\n\n"@ + text,
            ),
{
    reveal_strlit("\n");
    reveal_strlit("\n\n");
    reveal_strlit(": ");
    reveal_strlit("----------------------------------------------------------------");
    let blank = Seq::<char>::empty();
    let c = text;
    let b = seq!['\n'] + c;
    let a = DIVIDER@ + seq!['\n'] + b;
    let all = "\n"@ + DIVIDER@ + "\n\n"@ + text;
    assert(all =~= blank + seq!['\n'] + a);
    assert(b =~= blank + seq!['\n'] + c);
    lemma_first_line(blank, a);
    lemma_first_line(blank, c);
    lemma_first_line(DIVIDER@, b);
    assert(divides(blank)) by {
        lemma_leading(blank, Class::White);
        assert(trim(blank, Class::White).len() == 0);
    }
    assert(divides(DIVIDER@)) by {
        assert forall|i: int| 0 <= i < DIVIDER@.len() implies Class::One('-').has(
            #[trigger] DIVIDER@[i],
        ) by {}
        lemma_leading_is(DIVIDER@, Class::One('-'), DIVIDER@.len());
        assert(trim(DIVIDER@, Class::One('-')).len() == 0);
    }
    reveal_with_fuel(behind_divider, 4);
    assert(find(blank, ": "@) is None) by {
        if crate::text::contains(blank, ": "@) {
            let i = choose|i: int| #[trigger] occurs_at(blank, ": "@, i);
        }
    }
    assert forall|meta: Header| header_of(meta, all) == (meta, all) by {
        assert(with_line(meta, first_line(all).0) is None);
    }
}

/// What is written is read back: a meeting that was rendered parses to the same
/// header, every value on one line, and to the same transcript, without blanks
/// at its end but with a newline.
pub proof fn law_a_rendered_meeting_is_read_back(meta: Header, body: Seq<char>)
    requires
        meta.says_something(),
    ensures
        parsed(rendered(meta, body)) == (meta.flat(), trim_end(body, Class::White) + "\n"@),
{
    lemma_plain_keys();
    lemma_one_line_empty();
    let text = trim_end(body, Class::White) + "\n"@;
    let rest = "\n"@ + DIVIDER@ + "\n\n"@ + text;
    let h0 = Header::blank();
    let h1 = Header { title: one_line(meta.title), ..h0 };
    let h2 = Header { date: one_line(meta.date), ..h1 };
    let h3 = Header { duration: one_line(meta.duration), ..h2 };
    let h4 = Header { summary: one_line(meta.summary), ..h3 };
    if meta.title.len() == 0 {
        assert(meta.title =~= Seq::<char>::empty());
    }
    if meta.date.len() == 0 {
        assert(meta.date =~= Seq::<char>::empty());
    }
    if meta.duration.len() == 0 {
        assert(meta.duration =~= Seq::<char>::empty());
    }
    if meta.summary.len() == 0 {
        assert(meta.summary =~= Seq::<char>::empty());
    }
    let r3 = header_line("Summary"@, meta.summary) + rest;
    let r2 = header_line("Duration"@, meta.duration) + r3;
    let r1 = header_line("Date"@, meta.date) + r2;
    let r0 = header_line("Title"@, meta.title) + r1;
    let contents = rendered(meta, body);
    assert(contents =~= r0);
    lemma_header_part(h0, h1, "Title"@, meta.title, r1);
    lemma_header_part(h1, h2, "Date"@, meta.date, r2);
    lemma_header_part(h2, h3, "Duration"@, meta.duration, r3);
    lemma_header_part(h3, h4, "Summary"@, meta.summary, rest);
    lemma_divider(text);
    assert(header_of(h0, contents) == (h4, rest));
    assert(has_header(contents)) by {
        let empty = Seq::<char>::empty();
        if meta.title.len() > 0 {
            lemma_header_line_read(h0, "Title"@, meta.title, r1);
        } else if meta.date.len() > 0 {
            assert(contents =~= r1);
            lemma_header_line_read(h0, "Date"@, meta.date, r2);
        } else if meta.duration.len() > 0 {
            assert(contents =~= r2);
            lemma_header_line_read(h0, "Duration"@, meta.duration, r3);
        } else {
            assert(contents =~= r3);
            lemma_header_line_read(h0, "Summary"@, meta.summary, rest);
        }
    }
}

/// A transcript without a header is read back whole, unless its first line reads
/// like a header line.
pub proof fn law_a_plain_transcript_is_read_back(body: Seq<char>)
    requires
        !has_header(rendered(Header::blank(), body)),
    ensures
        parsed(rendered(Header::blank(), body)) == (
            Header::blank(),
            trim_end(body, Class::White) + "\n"@,
        ),
{
}

/// Whether a line starts with a key of a header and a colon and blank.
pub open spec fn is_header_line(line: Seq<char>) -> bool {
    ||| starts_with(line, "Title: "@)
    ||| starts_with(line, "Date: "@)
    ||| starts_with(line, "Duration: "@)
    ||| starts_with(line, "Summary: "@)
}

/// Only a line that starts with one of the four keys is taken for a header line.
pub proof fn law_only_four_keys_make_a_header(meta: Header, line: Seq<char>)
    requires
        with_line(meta, line) is Some,
    ensures
        is_header_line(line),
{
    reveal_strlit(": ");
    reveal_strlit("Title");
    reveal_strlit("Title: ");
    reveal_strlit("Date");
    reveal_strlit("Date: ");
    reveal_strlit("Duration");
    reveal_strlit("Duration: ");
    reveal_strlit("Summary");
    reveal_strlit("Summary: ");
    lemma_find_occurs(line, ": "@);
    let i = find(line, ": "@)->Some_0;
    let key = line.take(i);
    assert(line.subrange(i, i + 2) == ": "@);
    assert(line.subrange(0, i + 2) =~= key + ": "@);
    assert("Title"@ + ": "@ =~= "Title: "@);
    assert("Date"@ + ": "@ =~= "Date: "@);
    assert("Duration"@ + ": "@ =~= "Duration: "@);
    assert("Summary"@ + ": "@ =~= "Summary: "@);
}

/// What is found stands there.
proof fn lemma_find_occurs(s: Seq<char>, pattern: Seq<char>)
    requires
        find(s, pattern) is Some,
    ensures
        occurs_at(s, pattern, find(s, pattern)->Some_0),
{
    let k = choose|k: int| #[trigger] occurs_at(s, pattern, k);
    lemma_first_place(s, pattern, k);
    let i = choose|i: int| #[trigger] first_at(s, pattern, i);
    lemma_find_is(s, pattern, i);
}

/// Where a pattern stands, there is a first place.
proof fn lemma_first_place(s: Seq<char>, pattern: Seq<char>, k: int)
    requires
        occurs_at(s, pattern, k),
    ensures
        exists|i: int| #[trigger] first_at(s, pattern, i),
    decreases k,
{
    if exists|j: int| 0 <= j < k && #[trigger] occurs_at(s, pattern, j) {
        let j = choose|j: int| 0 <= j < k && #[trigger] occurs_at(s, pattern, j);
        lemma_first_place(s, pattern, j);
    } else {
        assert(first_at(s, pattern, k));
    }
}

/// The transcript that is read from a file is the end of the file as it stands, and
/// all of it where the first line is no header line.
pub proof fn law_reading_takes_off_only_the_front(contents: Seq<char>) -> (n: int)
    ensures
        0 <= n <= contents.len(),
        parsed(contents).1 == contents.skip(n),
        !is_header_line(first_line(contents).0) ==> n == 0 && parsed(contents).0 == Header::blank(),
{
    assert(contents.skip(0) =~= contents);
    if has_header(contents) {
        law_only_four_keys_make_a_header(Header::blank(), first_line(contents).0);
        let a = lemma_header_is_front(Header::blank(), contents);
        let rest = header_of(Header::blank(), contents).1;
        let b = lemma_divider_is_front(rest, 3);
        assert(rest.skip(b) =~= contents.skip(a + b));
        a + b
    } else {
        0
    }
}

/// A line at the front is taken off whole.
proof fn lemma_line_is_front(text: Seq<char>) -> (n: int)
    ensures
        0 <= n <= text.len(),
        first_line(text).1 == text.skip(n),
        text.len() > 0 ==> n > 0,
{
    let k = leading(text, Class::Except('\n')) as int;
    lemma_leading(text, Class::Except('\n'));
    if k < text.len() {
        k + 1
    } else {
        assert(text.skip(text.len() as int) =~= Seq::<char>::empty());
        text.len() as int
    }
}

/// The header is at the front.
proof fn lemma_header_is_front(meta: Header, text: Seq<char>) -> (n: int)
    ensures
        0 <= n <= text.len(),
        header_of(meta, text).1 == text.skip(n),
    decreases text.len(),
{
    let (line, tail) = first_line(text);
    match with_line(meta, line) {
        Some(more) => {
            lemma_header_line_len(line);
            lemma_leading(text, Class::Except('\n'));
            let a = lemma_line_is_front(text);
            let b = lemma_header_is_front(more, tail);
            assert(text.skip(a).skip(b) =~= text.skip(a + b));
            a + b
        },
        None => {
            assert(text.skip(0) =~= text);
            0
        },
    }
}

/// What divides header and transcript is at the front.
proof fn lemma_divider_is_front(text: Seq<char>, most: nat) -> (n: int)
    ensures
        0 <= n <= text.len(),
        behind_divider(text, most) == text.skip(n),
    decreases most,
{
    if most == 0 || !text.contains('\n') || !divides(first_line(text).0) {
        assert(text.skip(0) =~= text);
        0
    } else {
        let a = lemma_line_is_front(text);
        let b = lemma_divider_is_front(first_line(text).1, (most - 1) as nat);
        assert(text.skip(a).skip(b) =~= text.skip(a + b));
        a + b
    }
}

/// Every value of a header is read back from a file that was written, on one line,
/// and so is the transcript, with the blanks at its end as one line ending.
pub proof fn law_every_value_is_read_back(meta: Header, body: Seq<char>)
    requires
        meta.title.len() > 0 || meta.date.len() > 0 || meta.duration.len() > 0 || meta.summary.len()
            > 0,
    ensures
        parsed(rendered(meta, body)).0.title == one_line(meta.title),
        parsed(rendered(meta, body)).0.date == one_line(meta.date),
        parsed(rendered(meta, body)).0.duration == one_line(meta.duration),
        parsed(rendered(meta, body)).0.summary == one_line(meta.summary),
        parsed(rendered(meta, body)).1 == trim_end(body, Class::White) + "\n"@,
{
    law_a_rendered_meeting_is_read_back(meta, body);
}

/// A line with one of the four keys sets that value, without the blanks around it,
/// and no other.
pub proof fn law_a_header_line_sets_one_value(meta: Header, value: Seq<char>)
    ensures
        with_line(meta, "Title: "@ + value) == Some(
            Header { title: trim(value, Class::White), ..meta },
        ),
        with_line(meta, "Date: "@ + value) == Some(
            Header { date: trim(value, Class::White), ..meta },
        ),
        with_line(meta, "Duration: "@ + value) == Some(
            Header { duration: trim(value, Class::White), ..meta },
        ),
        with_line(meta, "Summary: "@ + value) == Some(
            Header { summary: trim(value, Class::White), ..meta },
        ),
{
    lemma_plain_keys();
    reveal_strlit(": ");
    reveal_strlit("Title");
    reveal_strlit("Title: ");
    reveal_strlit("Date");
    reveal_strlit("Date: ");
    reveal_strlit("Duration");
    reveal_strlit("Duration: ");
    reveal_strlit("Summary");
    reveal_strlit("Summary: ");
    assert("Title: "@ + value =~= "Title"@ + ": "@ + value);
    assert("Date: "@ + value =~= "Date"@ + ": "@ + value);
    assert("Duration: "@ + value =~= "Duration"@ + ": "@ + value);
    assert("Summary: "@ + value =~= "Summary"@ + ": "@ + value);
    lemma_key_of("Title"@, value);
    lemma_key_of("Date"@, value);
    lemma_key_of("Duration"@, value);
    lemma_key_of("Summary"@, value);
}

/// A key without a colon is found before its colon.
proof fn lemma_key_of(key: Seq<char>, value: Seq<char>)
    requires
        plain_key(key),
    ensures
        key_value(key + ": "@ + value) == Some((key, trim(value, Class::White))),
{
    reveal_strlit(": ");
    let line = key + ": "@ + value;
    let n = key.len() as int;
    assert(line.subrange(n, n + 2) =~= ": "@);
    assert(occurs_at(line, ": "@, n));
    assert forall|j: int| 0 <= j < n implies !#[trigger] occurs_at(line, ": "@, j) by {
        if occurs_at(line, ": "@, j) {
            assert(line.subrange(j, j + 2)[0] == ':');
            assert(line[j] == key[j]);
            assert(key.contains(key[j]));
        }
    }
    assert(first_at(line, ": "@, n));
    lemma_find_is(line, ": "@, n);
    assert(line.take(n) =~= key);
    assert(line.skip(n + 2) =~= value);
}

/// The header ends at the first line that is none: what is left of a text behind
/// its header does not start with a header line.
pub proof fn law_the_header_ends_at_the_first_other_line(meta: Header, text: Seq<char>)
    ensures
        with_line(header_of(meta, text).0, first_line(header_of(meta, text).1).0) is None,
    decreases text.len(),
{
    let (line, tail) = first_line(text);
    match with_line(meta, line) {
        Some(more) => {
            lemma_header_line_len(line);
            lemma_leading(text, Class::Except('\n'));
            law_the_header_ends_at_the_first_other_line(more, tail);
        },
        None => {},
    }
}

/// Whether a line is blank or nothing but dashes.
pub open spec fn blank_or_dashes(line: Seq<char>) -> bool {
    ||| forall|i: int| 0 <= i < line.len() ==> white(#[trigger] line[i])
    ||| forall|i: int| 0 <= i < line.len() ==> #[trigger] line[i] == '-'
}

/// Between header and transcript at most three lines are passed over, each of them
/// blank or nothing but dashes.
pub proof fn law_at_most_three_lines_divide(text: Seq<char>, most: nat) -> (steps: Seq<Seq<char>>)
    ensures
        0 < steps.len() <= most + 1,
        steps[0] == text,
        steps.last() == behind_divider(text, most),
        forall|i: int|
            0 <= i < steps.len() - 1 ==> steps[i + 1] == first_line(#[trigger] steps[i]).1
                && blank_or_dashes(first_line(steps[i]).0),
    decreases most,
{
    if most == 0 || !text.contains('\n') || !divides(first_line(text).0) {
        seq![text]
    } else {
        let (line, tail) = first_line(text);
        let more = law_at_most_three_lines_divide(tail, (most - 1) as nat);
        let steps = seq![text] + more;
        law_trimming_takes_both_ends(line, Class::White);
        law_trimming_takes_both_ends(line, Class::One('-'));
        assert(blank_or_dashes(line)) by {
            if trim(line, Class::White).len() == 0 {
                assert forall|i: int| 0 <= i < line.len() implies white(#[trigger] line[i]) by {
                    assert(Class::White.has(line[i]));
                }
            } else {
                assert forall|i: int| 0 <= i < line.len() implies #[trigger] line[i] == '-' by {
                    assert(Class::One('-').has(line[i]));
                }
            }
        }
        assert forall|i: int| 0 <= i < steps.len() - 1 implies steps[i + 1] == first_line(
            #[trigger] steps[i],
        ).1 && blank_or_dashes(first_line(steps[i]).0) by {
            if i > 0 {
                assert(steps[i] == more[i - 1]);
                assert(steps[i + 1] == more[i]);
            } else {
                assert(steps[1] == more[0]);
            }
        }
        assert(steps.last() == more.last());
        steps
    }
}

/// A file is read by taking off its header lines and then at most three lines that
/// divide; one whose first line is no header line is all transcript.
pub proof fn law_a_file_is_header_and_transcript(contents: Seq<char>)
    ensures
        with_line(Header::blank(), first_line(contents).0) is None ==> parsed(contents) == (
            Header::blank(),
            contents,
        ),
        with_line(Header::blank(), first_line(contents).0) is Some ==> parsed(contents) == (
            header_of(Header::blank(), contents).0,
            behind_divider(header_of(Header::blank(), contents).1, 3),
        ),
        Header::blank().title.len() == 0 && Header::blank().date.len() == 0
            && Header::blank().duration.len() == 0 && Header::blank().summary.len() == 0,
{
}

} // verus!
