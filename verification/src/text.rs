//! Text as sequences of characters: the searching, splitting and trimming
//! that the rest of the library is written in.
//!
//! Strings are read into characters once, at the edge; everything in between
//! works on slices of them, so positions are character positions. Where a rule
//! counts bytes, [`byte_len`] says how many a text takes in UTF-8.

use vstd::prelude::*;
use vstd::slice::slice_subrange;
use vstd::utf8::*;

verus! {

/// What `String::push` documents: the character goes at the end.
pub assume_specification[ String::push ](s: &mut String, c: char)
    ensures
        final(s)@ == old(s)@.push(c),
;

/// What `String::push_str` documents: the text goes at the end.
pub assume_specification[ String::push_str ](s: &mut String, text: &str)
    ensures
        final(s)@ == old(s)@ + text@,
;

/// A class of characters to trim, skip or stop at.
#[derive(Clone, Copy)]
pub enum Class {
    /// Unicode `White_Space`.
    White,
    /// Everything but white space.
    NonWhite,
    /// The ASCII digits.
    Digit,
    /// Everything but this character.
    Except(char),
    /// Everything but these characters.
    Neither(char, char),
    /// Just this character.
    One(char),
    /// Either of these characters.
    Two(char, char),
    /// Any of these characters.
    Three(char, char, char),
    /// Any of these characters.
    Four(char, char, char, char),
}

/// The Unicode `White_Space` characters.
pub open spec fn white(c: char) -> bool {
    ||| '\u{9}' <= c <= '\u{d}'
    ||| c == ' '
    ||| c == '\u{85}'
    ||| c == '\u{a0}'
    ||| c == '\u{1680}'
    ||| '\u{2000}' <= c <= '\u{200a}'
    ||| c == '\u{2028}'
    ||| c == '\u{2029}'
    ||| c == '\u{202f}'
    ||| c == '\u{205f}'
    ||| c == '\u{3000}'
}

/// Whether `c` is white space.
pub fn is_white(c: char) -> (r: bool)
    ensures
        r == white(c),
{
    ('\u{9}' <= c && c <= '\u{d}') || c == ' ' || c == '\u{85}' || c == '\u{a0}' || c == '\u{1680}'
        || ('\u{2000}' <= c && c <= '\u{200a}') || c == '\u{2028}' || c == '\u{2029}'
        || c == '\u{202f}' || c == '\u{205f}' || c == '\u{3000}'
}

impl Class {
    /// Whether `c` belongs to the class.
    pub open spec fn has(self, c: char) -> bool {
        match self {
            Class::White => white(c),
            Class::NonWhite => !white(c),
            Class::Digit => '0' <= c <= '9',
            Class::Except(x) => c != x,
            Class::Neither(x, y) => c != x && c != y,
            Class::One(x) => c == x,
            Class::Two(x, y) => c == x || c == y,
            Class::Three(x, y, z) => c == x || c == y || c == z,
            Class::Four(x, y, z, w) => c == x || c == y || c == z || c == w,
        }
    }

    /// Whether `c` belongs to the class.
    pub fn contains(self, c: char) -> (r: bool)
        ensures
            r == self.has(c),
    {
        match self {
            Class::White => is_white(c),
            Class::NonWhite => !is_white(c),
            Class::Digit => '0' <= c && c <= '9',
            Class::Except(x) => c != x,
            Class::Neither(x, y) => c != x && c != y,
            Class::One(x) => c == x,
            Class::Two(x, y) => c == x || c == y,
            Class::Three(x, y, z) => c == x || c == y || c == z,
            Class::Four(x, y, z, w) => c == x || c == y || c == z || c == w,
        }
    }
}

/// How many characters at the front of `s` belong to `class`.
pub open spec fn leading(s: Seq<char>, class: Class) -> nat
    decreases s.len(),
{
    if s.len() == 0 || !class.has(s[0]) {
        0
    } else {
        1 + leading(s.drop_first(), class)
    }
}

/// How many characters at the back of `s` belong to `class`.
pub open spec fn trailing(s: Seq<char>, class: Class) -> nat
    decreases s.len(),
{
    if s.len() == 0 || !class.has(s.last()) {
        0
    } else {
        1 + trailing(s.drop_last(), class)
    }
}

/// `s` without the characters of `class` at its front.
pub open spec fn trim_start(s: Seq<char>, class: Class) -> Seq<char> {
    s.skip(leading(s, class) as int)
}

/// `s` without the characters of `class` at its back.
pub open spec fn trim_end(s: Seq<char>, class: Class) -> Seq<char> {
    s.take(s.len() - trailing(s, class))
}

/// `s` without the characters of `class` at either end.
pub open spec fn trim(s: Seq<char>, class: Class) -> Seq<char> {
    trim_end(trim_start(s, class), class)
}

/// The count of leading characters is the length of the longest prefix in
/// `class`.
pub proof fn lemma_leading(s: Seq<char>, class: Class)
    ensures
        leading(s, class) <= s.len(),
        forall|i: int| 0 <= i < leading(s, class) ==> class.has(#[trigger] s[i]),
        leading(s, class) < s.len() ==> !class.has(s[leading(s, class) as int]),
    decreases s.len(),
{
    if s.len() > 0 && class.has(s[0]) {
        let rest = s.drop_first();
        lemma_leading(rest, class);
        assert forall|i: int| 0 <= i < leading(s, class) implies class.has(#[trigger] s[i]) by {
            if i > 0 {
                assert(s[i] == rest[i - 1]);
            }
        }
    }
}

/// A prefix in `class` that stops at the end or before another character is
/// the leading run.
pub proof fn lemma_leading_is(s: Seq<char>, class: Class, n: nat)
    requires
        n <= s.len(),
        forall|i: int| 0 <= i < n ==> class.has(#[trigger] s[i]),
        n < s.len() ==> !class.has(s[n as int]),
    ensures
        leading(s, class) == n,
{
    lemma_leading(s, class);
    let m = leading(s, class);
    if m < n {
        assert(class.has(s[m as int]));
    }
    if n < m {
        assert(class.has(s[n as int]));
    }
}

/// The count of trailing characters is the length of the longest suffix in
/// `class`.
pub proof fn lemma_trailing(s: Seq<char>, class: Class)
    ensures
        trailing(s, class) <= s.len(),
        forall|i: int|
            s.len() - trailing(s, class) <= i < s.len() ==> class.has(#[trigger] s[i]),
        trailing(s, class) < s.len() ==> !class.has(s[s.len() - trailing(s, class) - 1]),
    decreases s.len(),
{
    if s.len() > 0 && class.has(s.last()) {
        let rest = s.drop_last();
        lemma_trailing(rest, class);
        assert forall|i: int|
            s.len() - trailing(s, class) <= i < s.len() implies class.has(#[trigger] s[i]) by {
            if i < s.len() - 1 {
                assert(s[i] == rest[i]);
            }
        }
        assert(trailing(s, class) == 1 + trailing(rest, class));
    }
}

/// A suffix in `class` that stops at the start or after another character is
/// the trailing run.
pub proof fn lemma_trailing_is(s: Seq<char>, class: Class, n: nat)
    requires
        n <= s.len(),
        forall|i: int| s.len() - n <= i < s.len() ==> class.has(#[trigger] s[i]),
        n < s.len() ==> !class.has(s[s.len() - n - 1]),
    ensures
        trailing(s, class) == n,
{
    lemma_trailing(s, class);
    let m = trailing(s, class);
    if m < n {
        assert(class.has(s[s.len() - m - 1]));
    }
    if n < m {
        assert(class.has(s[s.len() - n - 1]));
    }
}

/// Trimming takes away the characters of a class at both ends and nothing else:
/// what is left is one piece of the text, all that stands around it is of the
/// class, and neither its first nor its last character is.
pub proof fn law_trimming_takes_both_ends(s: Seq<char>, class: Class)
    ensures
        exists|a: int, b: int|
            {
                &&& 0 <= a <= b <= s.len()
                &&& trim(s, class) == #[trigger] s.subrange(a, b)
                &&& forall|i: int| 0 <= i < a || b <= i < s.len() ==> class.has(#[trigger] s[i])
                &&& a < b ==> !class.has(s[a]) && !class.has(s[b - 1])
            },
{
    let a = leading(s, class) as int;
    let t = trim_start(s, class);
    lemma_leading(s, class);
    lemma_trailing(t, class);
    let b = s.len() - trailing(t, class);
    assert(trim(s, class) =~= s.subrange(a, b));
    assert forall|i: int| 0 <= i < a || b <= i < s.len() implies class.has(#[trigger] s[i]) by {
        if i >= b {
            assert(t[i - a] == s[i]);
        }
    }
    if a < b {
        assert(t[0] == s[a]);
        assert(t[b - 1 - a] == s[b - 1]);
    }
}

/// The characters of `s`.
pub fn chars_of(s: &str) -> (r: Vec<char>)
    ensures
        r@ == s@,
{
    let mut out: Vec<char> = Vec::new();
    for c in it: s.chars()
        invariant
            out@ == it.seq().take(it.index() as int),
            it.seq() == s@,
    {
        out.push(c);
    }
    out
}

/// The text made of the characters `s`.
pub fn text_of(s: &[char]) -> (r: String)
    ensures
        r@ == s@,
{
    let mut out = String::new();
    let mut i: usize = 0;
    while i < s.len()
        invariant
            i <= s.len(),
            out@ == s@.take(i as int),
        decreases s.len() - i,
    {
        out.push(s[i]);
        i += 1;
    }
    out
}

/// How many characters at the front of `s` belong to `class`.
pub fn leading_of(s: &[char], class: Class) -> (r: usize)
    ensures
        r == leading(s@, class),
        r <= s.len(),
{
    let mut i: usize = 0;
    while i < s.len() && class.contains(s[i])
        invariant
            i <= s.len(),
            forall|j: int| 0 <= j < i ==> class.has(#[trigger] s@[j]),
        decreases s.len() - i,
    {
        i += 1;
    }
    proof {
        lemma_leading_is(s@, class, i as nat);
    }
    i
}

/// `s` without the characters of `class` at its front.
pub fn trim_start_of<'a>(s: &'a [char], class: Class) -> (r: &'a [char])
    ensures
        r@ == trim_start(s@, class),
{
    let n = leading_of(s, class);
    slice_subrange(s, n, s.len())
}

/// `s` without the characters of `class` at its back.
pub fn trim_end_of<'a>(s: &'a [char], class: Class) -> (r: &'a [char])
    ensures
        r@ == trim_end(s@, class),
{
    let mut n: usize = s.len();
    while n > 0 && class.contains(s[n - 1])
        invariant
            n <= s.len(),
            forall|j: int| n <= j < s.len() ==> class.has(#[trigger] s@[j]),
        decreases n,
    {
        n -= 1;
    }
    proof {
        lemma_trailing_is(s@, class, (s.len() - n) as nat);
    }
    slice_subrange(s, 0, n)
}

/// `s` without the characters of `class` at either end.
pub fn trim_of<'a>(s: &'a [char], class: Class) -> (r: &'a [char])
    ensures
        r@ == trim(s@, class),
{
    trim_end_of(trim_start_of(s, class), class)
}

/// `s` without white space at either end.
pub fn trimmed_text(s: &str) -> (r: String)
    ensures
        r@ == trim(s@, Class::White),
{
    let chars = chars_of(s);
    text_of(trim_of(&chars, Class::White))
}

/// The texts of a list of slices.
pub open spec fn pieces(v: Seq<&[char]>) -> Seq<Seq<char>> {
    Seq::new(v.len(), |i: int| v[i]@)
}

/// The texts of a list of strings.
pub open spec fn texts(v: Seq<String>) -> Seq<Seq<char>> {
    Seq::new(v.len(), |i: int| v[i]@)
}

/// A line without the carriage return that belongs to its line ending.
pub open spec fn without_cr(line: Seq<char>) -> Seq<char> {
    if line.len() > 0 && line.last() == '\r' {
        line.drop_last()
    } else {
        line
    }
}

/// The lines of `s`: what stands before each `\n` or `\r\n`, and what follows
/// the last one unless that is nothing.
pub open spec fn lines(s: Seq<char>) -> Seq<Seq<char>>
    decreases s.len(),
{
    let n = leading(s, Class::Except('\n')) as int;
    if s.len() == 0 {
        Seq::empty()
    } else if n >= s.len() {
        seq![s]
    } else {
        seq![without_cr(s.take(n))] + lines(s.skip(n + 1))
    }
}

/// The lines of `s`.
pub fn lines_of<'a>(s: &'a [char]) -> (r: Vec<&'a [char]>)
    ensures
        pieces(r@) == lines(s@),
{
    let mut out: Vec<&'a [char]> = Vec::new();
    let mut rest: &'a [char] = s;
    while rest.len() > 0
        invariant
            pieces(out@) + lines(rest@) == lines(s@),
        decreases rest.len(),
    {
        let n = leading_of(rest, Class::Except('\n'));
        let ghost before = out@;
        if n >= rest.len() {
            out.push(rest);
            rest = slice_subrange(rest, n, n);
            proof {
                assert(pieces(out@) == pieces(before).push(out@.last()@));
                assert(lines(rest@) == Seq::<Seq<char>>::empty());
            }
        } else {
            let line = if n > 0 && rest[n - 1] == '\r' {
                slice_subrange(rest, 0, n - 1)
            } else {
                slice_subrange(rest, 0, n)
            };
            let ghost whole = rest@;
            out.push(line);
            rest = slice_subrange(rest, n + 1, rest.len());
            proof {
                assert(whole.skip(n + 1) == rest@);
                assert(line@ == without_cr(whole.take(n as int)));
                assert(pieces(out@) == pieces(before).push(line@));
                assert(pieces(out@) + lines(rest@) == pieces(before) + (seq![line@] + lines(
                    rest@,
                )));
            }
        }
    }
    proof {
        assert(lines(rest@) == Seq::<Seq<char>>::empty());
        assert(pieces(out@) + lines(rest@) == pieces(out@));
    }
    out
}

/// The words of `s`: its longest runs without white space.
pub open spec fn words(s: Seq<char>) -> Seq<Seq<char>>
    decreases s.len(),
    via words_shrink
{
    let t = trim_start(s, Class::White);
    let n = leading(t, Class::NonWhite) as int;
    if t.len() == 0 {
        Seq::empty()
    } else {
        seq![t.take(n)] + words(t.skip(n))
    }
}

#[via_fn]
proof fn words_shrink(s: Seq<char>) {
    lemma_leading(s, Class::White);
    let t = trim_start(s, Class::White);
    if t.len() > 0 {
        lemma_leading(t, Class::NonWhite);
        assert(!white(t[0]));
        assert(leading(t, Class::NonWhite) > 0);
    }
}

/// The words of `s`.
pub fn words_of<'a>(s: &'a [char]) -> (r: Vec<&'a [char]>)
    ensures
        pieces(r@) == words(s@),
{
    let mut out: Vec<&'a [char]> = Vec::new();
    let mut rest: &'a [char] = trim_start_of(s, Class::White);
    proof {
        lemma_words_trim(s@);
        assert(pieces(out@) == Seq::<Seq<char>>::empty());
        assert(pieces(out@) + words(rest@) == words(rest@));
        lemma_trim_start_twice(s@, Class::White);
    }
    while rest.len() > 0
        invariant
            pieces(out@) + words(rest@) == words(s@),
            trim_start(rest@, Class::White) == rest@,
        decreases rest.len(),
    {
        let n = leading_of(rest, Class::NonWhite);
        let ghost before = out@;
        let ghost whole = rest@;
        proof {
            lemma_leading(whole, Class::White);
            lemma_leading(whole, Class::NonWhite);
            assert(leading(whole, Class::White) == 0);
            assert(!white(whole[0]));
            assert(n > 0);
        }
        let word = slice_subrange(rest, 0, n);
        out.push(word);
        let tail = slice_subrange(rest, n, rest.len());
        rest = trim_start_of(tail, Class::White);
        proof {
            assert(whole.skip(n as int) == tail@);
            assert(word@ == whole.take(n as int));
            lemma_words_trim(tail@);
            lemma_trim_start_twice(tail@, Class::White);
            lemma_leading(tail@, Class::White);
            assert(pieces(out@) == pieces(before).push(word@));
            assert(pieces(out@) + words(rest@) == pieces(before) + (seq![word@] + words(rest@)));
        }
    }
    proof {
        lemma_leading(rest@, Class::White);
        assert(words(rest@) == Seq::<Seq<char>>::empty());
        assert(pieces(out@) + words(rest@) == pieces(out@));
    }
    out
}

/// Nothing of the class is left at the front of a trimmed text.
pub proof fn lemma_trim_start_twice(s: Seq<char>, class: Class)
    ensures
        trim_start(trim_start(s, class), class) == trim_start(s, class),
        leading(trim_start(s, class), class) == 0,
{
    lemma_leading(s, class);
    let t = trim_start(s, class);
    lemma_leading(t, class);
    if t.len() > 0 {
        assert(t[0] == s[leading(s, class) as int]);
    }
    assert(t.skip(0) == t);
}

/// White space in front does not change the words.
pub proof fn lemma_words_trim(s: Seq<char>)
    ensures
        words(trim_start(s, Class::White)) == words(s),
{
    lemma_trim_start_twice(s, Class::White);
}

/// The texts of `list` with `sep` between each two.
pub open spec fn join(list: Seq<Seq<char>>, sep: Seq<char>) -> Seq<char>
    decreases list.len(),
{
    if list.len() == 0 {
        Seq::empty()
    } else if list.len() == 1 {
        list[0]
    } else {
        join(list.drop_last(), sep) + sep + list.last()
    }
}

/// Adding a text to a list adds a separator and the text to what is joined.
pub proof fn lemma_join_push(list: Seq<Seq<char>>, text: Seq<char>, sep: Seq<char>)
    ensures
        join(list.push(text), sep) == if list.len() == 0 {
            text
        } else {
            join(list, sep) + sep + text
        },
{
    assert(list.push(text).drop_last() == list);
}

/// The slices of `list` with `sep` between each two.
pub fn join_slices(list: &Vec<&[char]>, sep: &str) -> (r: String)
    ensures
        r@ == join(pieces(list@), sep@),
{
    let mut out = String::new();
    let mut i: usize = 0;
    while i < list.len()
        invariant
            i <= list.len(),
            out@ == join(pieces(list@).take(i as int), sep@),
        decreases list.len() - i,
    {
        if i > 0 {
            out.push_str(sep);
        }
        push_slice(&mut out, list[i]);
        proof {
            let all = pieces(list@);
            lemma_join_push(all.take(i as int), all[i as int], sep@);
            assert(all.take(i + 1) == all.take(i as int).push(all[i as int]));
        }
        i += 1;
    }
    proof {
        assert(pieces(list@).take(list.len() as int) == pieces(list@));
    }
    out
}

/// The strings of `list` with `sep` between each two.
pub fn join_strings(list: &Vec<String>, sep: &str) -> (r: String)
    ensures
        r@ == join(texts(list@), sep@),
{
    let mut out = String::new();
    let mut i: usize = 0;
    while i < list.len()
        invariant
            i <= list.len(),
            out@ == join(texts(list@).take(i as int), sep@),
        decreases list.len() - i,
    {
        if i > 0 {
            out.push_str(sep);
        }
        out.push_str(list[i].as_str());
        proof {
            let all = texts(list@);
            lemma_join_push(all.take(i as int), all[i as int], sep@);
            assert(all.take(i + 1) == all.take(i as int).push(all[i as int]));
        }
        i += 1;
    }
    proof {
        assert(texts(list@).take(list.len() as int) == texts(list@));
    }
    out
}

/// Puts the characters `s` at the end of `out`.
pub fn push_slice(out: &mut String, s: &[char])
    ensures
        final(out)@ == old(out)@ + s@,
{
    let mut i: usize = 0;
    while i < s.len()
        invariant
            i <= s.len(),
            out@ == old(out)@ + s@.take(i as int),
        decreases s.len() - i,
    {
        let ghost before = out@;
        out.push(s[i]);
        i += 1;
        proof {
            assert(s@.take(i as int) == s@.take(i - 1).push(s@[i - 1]));
        }
    }
    proof {
        assert(s@.take(s.len() as int) == s@);
    }
}

/// `s` with every run of white space turned into one space, and none at the
/// ends.
pub open spec fn one_line(s: Seq<char>) -> Seq<char> {
    join(words(s), " "@)
}

/// `s` on one line: its words with one space between each two.
pub fn flattened(s: &str) -> (r: String)
    ensures
        r@ == one_line(s@),
{
    let chars = chars_of(s);
    let list = words_of(&chars);
    join_slices(&list, " ")
}

/// Whether `pattern` stands in `s` at position `i`.
pub open spec fn occurs_at(s: Seq<char>, pattern: Seq<char>, i: int) -> bool {
    0 <= i <= s.len() - pattern.len() && s.subrange(i, i + pattern.len()) == pattern
}

/// Whether `i` is the first position at which `pattern` stands in `s`.
pub open spec fn first_at(s: Seq<char>, pattern: Seq<char>, i: int) -> bool {
    occurs_at(s, pattern, i) && forall|j: int| 0 <= j < i ==> !#[trigger] occurs_at(s, pattern, j)
}

/// Whether `pattern` stands anywhere in `s`.
pub open spec fn contains(s: Seq<char>, pattern: Seq<char>) -> bool {
    exists|i: int| #[trigger] occurs_at(s, pattern, i)
}

/// The first position at which `pattern` stands in `s`, if there is one.
pub open spec fn find(s: Seq<char>, pattern: Seq<char>) -> Option<int> {
    if contains(s, pattern) {
        Some(choose|i: int| #[trigger] first_at(s, pattern, i))
    } else {
        None
    }
}

/// The first position is the only first position.
pub proof fn lemma_find_is(s: Seq<char>, pattern: Seq<char>, i: int)
    requires
        first_at(s, pattern, i),
    ensures
        find(s, pattern) == Some(i),
{
    assert(occurs_at(s, pattern, i));
    let k = choose|k: int| #[trigger] first_at(s, pattern, k);
    assert(first_at(s, pattern, k));
    if k < i {
        assert(!occurs_at(s, pattern, k));
    }
    if i < k {
        assert(!occurs_at(s, pattern, i));
    }
}

/// Whether `pattern` stands in `s` at position `i`.
pub fn stands_at(s: &[char], pattern: &[char], i: usize) -> (r: bool)
    ensures
        r == occurs_at(s@, pattern@, i as int),
{
    if i > s.len() || s.len() - i < pattern.len() {
        return false;
    }
    let mut k: usize = 0;
    while k < pattern.len()
        invariant
            k <= pattern.len(),
            i + pattern.len() <= s.len(),
            forall|j: int| 0 <= j < k ==> s@[i + j] == #[trigger] pattern@[j],
        decreases pattern.len() - k,
    {
        if s[i + k] != pattern[k] {
            proof {
                assert(s@.subrange(i as int, i + pattern.len())[k as int] == s@[i + k]);
            }
            return false;
        }
        k += 1;
    }
    proof {
        assert(s@.subrange(i as int, i + pattern.len()) =~= pattern@);
    }
    true
}

/// The first position at which `pattern` stands in `s`, if there is one.
pub fn find_in(s: &[char], pattern: &[char]) -> (r: Option<usize>)
    ensures
        match r {
            Some(i) => find(s@, pattern@) == Some(i as int) && first_at(s@, pattern@, i as int),
            None => find(s@, pattern@) is None && !contains(s@, pattern@),
        },
{
    let mut i: usize = 0;
    while i < s.len()
        invariant
            i <= s.len(),
            forall|j: int| 0 <= j < i ==> !#[trigger] occurs_at(s@, pattern@, j),
        decreases s.len() - i,
    {
        if stands_at(s, pattern, i) {
            proof {
                lemma_find_is(s@, pattern@, i as int);
            }
            return Some(i);
        }
        i += 1;
    }
    if stands_at(s, pattern, i) {
        proof {
            lemma_find_is(s@, pattern@, i as int);
        }
        Some(i)
    } else {
        None
    }
}

/// Whether `s` starts with `pattern`.
pub open spec fn starts_with(s: Seq<char>, pattern: Seq<char>) -> bool {
    occurs_at(s, pattern, 0)
}

/// Whether `s` ends in a character of `class`.
pub open spec fn ends_in(s: Seq<char>, class: Class) -> bool {
    s.len() > 0 && class.has(s.last())
}

/// Whether `s` ends in a character of `class`.
pub fn ends_with_class(s: &[char], class: Class) -> (r: bool)
    ensures
        r == ends_in(s@, class),
{
    s.len() > 0 && class.contains(s[s.len() - 1])
}

/// Whether any character of `s` belongs to `class`.
pub open spec fn has_any(s: Seq<char>, class: Class) -> bool {
    exists|i: int| 0 <= i < s.len() && class.has(#[trigger] s[i])
}

/// Whether any character of `s` belongs to `class`.
pub fn contains_class(s: &[char], class: Class) -> (r: bool)
    ensures
        r == has_any(s@, class),
{
    let mut i: usize = 0;
    while i < s.len()
        invariant
            i <= s.len(),
            forall|j: int| 0 <= j < i ==> !class.has(#[trigger] s@[j]),
        decreases s.len() - i,
    {
        if class.contains(s[i]) {
            return true;
        }
        i += 1;
    }
    false
}

/// `s` without any `c`.
pub open spec fn without_char(s: Seq<char>, c: char) -> Seq<char>
    decreases s.len(),
{
    if s.len() == 0 {
        Seq::empty()
    } else if s.last() == c {
        without_char(s.drop_last(), c)
    } else {
        without_char(s.drop_last(), c).push(s.last())
    }
}

/// `s` without any `c`.
pub fn remove_char(s: &[char], c: char) -> (r: Vec<char>)
    ensures
        r@ == without_char(s@, c),
{
    let mut out: Vec<char> = Vec::new();
    let mut i: usize = 0;
    while i < s.len()
        invariant
            i <= s.len(),
            out@ == without_char(s@.take(i as int), c),
        decreases s.len() - i,
    {
        proof {
            assert(s@.take(i + 1).drop_last() == s@.take(i as int));
        }
        if s[i] != c {
            out.push(s[i]);
        }
        i += 1;
    }
    proof {
        assert(s@.take(s.len() as int) == s@);
    }
    out
}

/// `s` without `pattern` wherever it stands, read from the front.
pub open spec fn without_pattern(s: Seq<char>, pattern: Seq<char>) -> Seq<char>
    decreases s.len(),
{
    if s.len() == 0 || pattern.len() == 0 {
        s
    } else if starts_with(s, pattern) {
        without_pattern(s.skip(pattern.len() as int), pattern)
    } else {
        seq![s[0]] + without_pattern(s.drop_first(), pattern)
    }
}

/// `s` without `pattern` wherever it stands, read from the front.
pub fn remove_pattern(s: &[char], pattern: &[char]) -> (r: Vec<char>)
    requires
        pattern.len() > 0,
    ensures
        r@ == without_pattern(s@, pattern@),
{
    let mut out: Vec<char> = Vec::new();
    let mut i: usize = 0;
    proof {
        assert(s@.skip(0) == s@);
        assert(out@ + without_pattern(s@.skip(0), pattern@) == without_pattern(s@, pattern@));
    }
    while i < s.len()
        invariant
            i <= s.len(),
            pattern.len() > 0,
            out@ + without_pattern(s@.skip(i as int), pattern@) == without_pattern(s@, pattern@),
        decreases s.len() - i,
    {
        let ghost rest = s@.skip(i as int);
        let ghost before = out@;
        let hit = stands_at(s, pattern, i);
        proof {
            assert(hit == starts_with(rest, pattern@)) by {
                if i + pattern.len() <= s.len() {
                    assert(rest.subrange(0, pattern.len() as int) == s@.subrange(
                        i as int,
                        i + pattern.len(),
                    ));
                }
            }
        }
        if hit {
            i += pattern.len();
            proof {
                assert(rest.skip(pattern.len() as int) == s@.skip(i as int));
            }
        } else {
            out.push(s[i]);
            i += 1;
            proof {
                assert(rest.drop_first() == s@.skip(i as int));
                assert(out@ + without_pattern(s@.skip(i as int), pattern@) == before + (seq![
                    rest[0],
                ] + without_pattern(s@.skip(i as int), pattern@)));
            }
        }
    }
    proof {
        assert(s@.skip(s.len() as int) == Seq::<char>::empty());
        assert(out@ + Seq::<char>::empty() == out@);
    }
    out
}

/// `c` in lower case, if it is an ASCII letter.
pub open spec fn ascii_lower(c: char) -> char {
    if 'A' <= c <= 'Z' {
        ((c as u32) + 32) as char
    } else {
        c
    }
}

/// `s` with its ASCII letters in lower case.
pub open spec fn to_ascii_lower(s: Seq<char>) -> Seq<char> {
    Seq::new(s.len(), |i: int| ascii_lower(s[i]))
}

/// `c` in lower case, if it is an ASCII letter.
pub fn lower_ascii_char(c: char) -> (r: char)
    ensures
        r == ascii_lower(c),
{
    if 'A' <= c && c <= 'Z' {
        let code: u8 = c as u8;
        (code + 32) as char
    } else {
        c
    }
}

/// Whether two texts are the same but for the case of ASCII letters.
pub fn same_ignoring_case(a: &[char], b: &[char]) -> (r: bool)
    ensures
        r == (to_ascii_lower(a@) == to_ascii_lower(b@)),
{
    if a.len() != b.len() {
        proof {
            assert(to_ascii_lower(a@).len() != to_ascii_lower(b@).len());
        }
        return false;
    }
    let mut i: usize = 0;
    while i < a.len()
        invariant
            i <= a.len(),
            a.len() == b.len(),
            forall|j: int| 0 <= j < i ==> ascii_lower(#[trigger] a@[j]) == ascii_lower(b@[j]),
        decreases a.len() - i,
    {
        if lower_ascii_char(a[i]) != lower_ascii_char(b[i]) {
            proof {
                assert(to_ascii_lower(a@)[i as int] != to_ascii_lower(b@)[i as int]);
            }
            return false;
        }
        i += 1;
    }
    proof {
        assert(to_ascii_lower(a@) =~= to_ascii_lower(b@));
    }
    true
}

/// How many bytes `s` takes in UTF-8.
pub open spec fn byte_len(s: Seq<char>) -> nat {
    encode_utf8(s).len()
}

/// How many bytes `c` takes in UTF-8.
pub open spec fn char_bytes(c: char) -> nat {
    if c <= '\u{7f}' {
        1
    } else if c <= '\u{7ff}' {
        2
    } else if c <= '\u{ffff}' {
        3
    } else {
        4
    }
}

/// How many bytes `c` takes in UTF-8.
pub fn bytes_of_char(c: char) -> (r: usize)
    ensures
        r == char_bytes(c),
        1 <= r <= 4,
{
    if c <= '\u{7f}' {
        1
    } else if c <= '\u{7ff}' {
        2
    } else if c <= '\u{ffff}' {
        3
    } else {
        4
    }
}

/// The bytes of a character are those of its encoding.
proof fn lemma_char_bytes(c: char)
    ensures
        encode_scalar(c as u32).len() == char_bytes(c),
{
    char_is_scalar(c);
    let code = c as u32;
    assert(code == c as int);
    assert(has_width_1_encoding(code) == (c <= '\u{7f}'));
}

/// A text takes the bytes of its first character and of the rest.
pub proof fn lemma_byte_len_first(s: Seq<char>)
    requires
        s.len() > 0,
    ensures
        byte_len(s) == char_bytes(s[0]) + byte_len(s.drop_first()),
{
    lemma_char_bytes(s[0]);
}

/// A text in two parts takes the bytes of both.
pub proof fn lemma_byte_len_add(a: Seq<char>, b: Seq<char>)
    ensures
        byte_len(a + b) == byte_len(a) + byte_len(b),
    decreases a.len(),
{
    if a.len() == 0 {
        assert(a + b == b);
    } else {
        lemma_byte_len_first(a);
        lemma_byte_len_first(a + b);
        assert((a + b).drop_first() == a.drop_first() + b);
        lemma_byte_len_add(a.drop_first(), b);
    }
}

/// A character more takes that character's bytes more.
pub proof fn lemma_byte_len_push(s: Seq<char>, c: char)
    ensures
        byte_len(s.push(c)) == byte_len(s) + char_bytes(c),
{
    let one = seq![c];
    assert(s.push(c) == s + one);
    lemma_byte_len_add(s, one);
    lemma_byte_len_first(one);
    assert(one.drop_first() == Seq::<char>::empty());
}

/// A prefix takes no more bytes than the whole, and every character at least
/// one.
pub proof fn lemma_byte_len_take(s: Seq<char>, n: int)
    requires
        0 <= n <= s.len(),
    ensures
        byte_len(s.take(n)) + byte_len(s.skip(n)) == byte_len(s),
        byte_len(s) >= s.len(),
    decreases s.len(),
{
    assert(s.take(n) + s.skip(n) == s);
    lemma_byte_len_add(s.take(n), s.skip(n));
    if s.len() > 0 {
        lemma_byte_len_first(s);
        lemma_byte_len_take(s.drop_first(), 0);
    }
}

/// The bytes that `s` takes in UTF-8, or one more than `most` where it takes
/// more than that.
pub fn bytes_up_to(s: &[char], most: usize) -> (r: usize)
    requires
        most < usize::MAX - 4,
    ensures
        r == if byte_len(s@) <= most {
            byte_len(s@) as int
        } else {
            most + 1
        },
{
    let mut total: usize = 0;
    let mut i: usize = 0;
    proof {
        assert(s@.take(0) == Seq::<char>::empty());
    }
    while i < s.len()
        invariant
            i <= s.len(),
            most < usize::MAX - 4,
            total <= most,
            total == byte_len(s@.take(i as int)),
        decreases s.len() - i,
    {
        total += bytes_of_char(s[i]);
        i += 1;
        proof {
            assert(s@.take(i as int) == s@.take(i - 1).push(s@[i - 1]));
            lemma_byte_len_push(s@.take(i - 1), s@[i - 1]);
        }
        if total > most {
            proof {
                lemma_byte_len_take(s@, i as int);
            }
            return most + 1;
        }
    }
    proof {
        assert(s@.take(i as int) == s@);
    }
    total
}

/// Whether two texts are the same.
pub fn same_text(a: &[char], b: &[char]) -> (r: bool)
    ensures
        r == (a@ == b@),
{
    if a.len() != b.len() {
        return false;
    }
    let r = stands_at(a, b, 0);
    proof {
        assert(a@.subrange(0, a@.len() as int) == a@);
    }
    r
}

/// Whether `list` holds the text `s`.
pub fn holds_text(list: &[String], s: &[char]) -> (r: bool)
    ensures
        r == texts(list@).contains(s@),
{
    let mut i: usize = 0;
    while i < list.len()
        invariant
            i <= list.len(),
            forall|j: int| 0 <= j < i ==> (#[trigger] list@[j])@ != s@,
        decreases list.len() - i,
    {
        let chars = chars_of(list[i].as_str());
        if same_text(&chars, s) {
            proof {
                assert(texts(list@)[i as int] == s@);
            }
            return true;
        }
        i += 1;
    }
    false
}

/// Joining lists one behind the other.
pub proof fn lemma_join_first(list: Seq<Seq<char>>, text: Seq<char>, sep: Seq<char>)
    ensures
        join(seq![text] + list, sep) == if list.len() == 0 {
            text
        } else {
            text + sep + join(list, sep)
        },
    decreases list.len(),
{
    let all = seq![text] + list;
    if list.len() == 0 {
        assert(all == seq![text]);
    } else {
        let shorter = list.drop_last();
        assert(all.drop_last() == seq![text] + shorter);
        lemma_join_first(shorter, text, sep);
        if shorter.len() > 0 {
            assert(join(all, sep) == text + sep + join(shorter, sep) + sep + list.last());
            assert(join(list, sep) == join(shorter, sep) + sep + list.last());
            assert(text + sep + join(shorter, sep) + sep + list.last() == text + sep + (join(
                shorter,
                sep,
            ) + sep + list.last()));
        }
    }
}

/// The line ending at the end of a text, if there is one.
pub open spec fn final_newline(s: Seq<char>) -> Seq<char> {
    if s.len() > 0 && s.last() == '\n' {
        seq!['\n']
    } else {
        Seq::empty()
    }
}

/// A text without carriage returns is its lines.
pub proof fn lemma_lines_join(s: Seq<char>)
    requires
        !s.contains('\r'),
    ensures
        join(lines(s), seq!['\n']) + final_newline(s) == s,
        s.len() > 0 ==> lines(s).len() > 0,
    decreases s.len(),
{
    let n = leading(s, Class::Except('\n')) as int;
    lemma_leading(s, Class::Except('\n'));
    if s.len() == 0 {
    } else if n >= s.len() {
        assert(Class::Except('\n').has(s[s.len() - 1]));
    } else {
        let first = s.take(n);
        let rest = s.skip(n + 1);
        assert(s[n] == '\n');
        assert forall|i: int| 0 <= i < first.len() implies first[i] != '\r' by {
            assert(s.contains(s[i]));
        }
        assert(without_cr(first) == first);
        assert forall|i: int| 0 <= i < rest.len() implies rest[i] != '\r' by {
            assert(s.contains(s[n + 1 + i]));
        }
        lemma_lines_join(rest);
        lemma_join_first(lines(rest), first, seq!['\n']);
        if rest.len() == 0 {
            assert(lines(rest) == Seq::<Seq<char>>::empty());
            assert(s == first + seq!['\n']);
        } else {
            assert(s == first + seq!['\n'] + rest);
            assert(s.last() == rest.last());
            assert(first + seq!['\n'] + join(lines(rest), seq!['\n']) + final_newline(rest)
                == first + seq!['\n'] + (join(lines(rest), seq!['\n']) + final_newline(rest)));
        }
    }
}

/// Whether a text could be a line of a text without carriage returns.
pub open spec fn plain_line(s: Seq<char>) -> bool {
    !s.contains('\n') && !s.contains('\r')
}

/// The lines of a text without carriage returns are plain, and the last one is
/// not empty unless the text ends in a line ending.
pub proof fn lemma_lines_plain(s: Seq<char>)
    requires
        !s.contains('\r'),
    ensures
        forall|i: int| 0 <= i < lines(s).len() ==> plain_line(#[trigger] lines(s)[i]),
        s.len() > 0 && s.last() != '\n' ==> lines(s).len() > 0 && lines(s).last().len() > 0,
        s.len() > 0 ==> lines(s).len() > 0,
    decreases s.len(),
{
    let n = leading(s, Class::Except('\n')) as int;
    lemma_leading(s, Class::Except('\n'));
    if s.len() > 0 {
        let first = s.take(n);
        assert(!first.contains('\n') && !first.contains('\r')) by {
            assert forall|i: int| 0 <= i < first.len() implies first[i] != '\n' && first[i]
                != '\r' by {
                assert(Class::Except('\n').has(s[i]));
                assert(s.contains(s[i]));
            }
        }
        if n >= s.len() {
            assert(first =~= s);
        } else {
            let rest = s.skip(n + 1);
            assert forall|i: int| 0 <= i < rest.len() implies rest[i] != '\r' by {
                assert(s.contains(s[n + 1 + i]));
            }
            lemma_lines_plain(rest);
            assert(without_cr(first) == first) by {
                if first.len() > 0 {
                    assert(first.contains(first.last()));
                }
            }
            assert forall|i: int| 0 <= i < lines(s).len() implies plain_line(
                #[trigger] lines(s)[i],
            ) by {
                if i > 0 {
                    assert(lines(s)[i] == lines(rest)[i - 1]);
                }
            }
            if s.last() != '\n' {
                assert(s[n] == '\n');
                assert(rest.len() > 0);
                assert(rest.last() == s.last());
            }
        }
    }
}

/// Plain lines that are joined are the lines of what they make.
pub proof fn lemma_lines_of_join(list: Seq<Seq<char>>, end: Seq<char>)
    requires
        list.len() > 0,
        forall|i: int| 0 <= i < list.len() ==> plain_line(#[trigger] list[i]),
        end == seq!['\n'] || end == Seq::<char>::empty() && list.last().len() > 0,
    ensures
        lines(join(list, seq!['\n']) + end) == list,
        final_newline(join(list, seq!['\n']) + end) == end,
    decreases list.len(),
{
    let sep = seq!['\n'];
    let first = list[0];
    let rest = list.drop_first();
    let text = join(list, sep) + end;
    assert(list =~= seq![first] + rest);
    lemma_join_first(rest, first, sep);
    assert(without_cr(first) == first) by {
        if first.len() > 0 {
            assert(first.contains(first.last()));
        }
    }
    assert forall|i: int| 0 <= i < first.len() implies Class::Except('\n').has(
        #[trigger] first[i],
    ) by {
        assert(first.contains(first[i]));
    }
    assert forall|i: int| 0 <= i < first.len() implies Class::Except('\n').has(
        #[trigger] text[i],
    ) by {
        assert(text[i] == first[i]);
    }
    let n = first.len();
    if rest.len() == 0 {
        assert(text =~= first + end);
        lemma_leading_is(text, Class::Except('\n'), n);
        assert(text.take(n as int) =~= first);
        if end.len() == 0 {
            assert(text =~= first);
            assert(text.last() == first[n - 1]);
            assert(lines(text) == seq![text]);
        } else {
            let nothing = text.skip(n as int + 1);
            assert(nothing.len() == 0);
            assert(lines(nothing) =~= Seq::<Seq<char>>::empty());
            assert(lines(text) == seq![first] + lines(nothing));
        }
        assert(lines(text) =~= list);
    } else {
        let tail = join(rest, sep) + end;
        assert(rest.last() == list.last());
        lemma_lines_of_join(rest, end);
        assert(text =~= first + sep + tail);
        assert(text[n as int] == '\n');
        lemma_leading_is(text, Class::Except('\n'), n);
        assert(text.take(n as int) =~= first);
        assert(text.skip(n as int + 1) =~= tail);
        assert(lines(text) =~= list);
        if tail.len() > 0 {
            assert(text.last() == tail.last());
        } else {
            assert(lines(tail).len() == 0);
        }
    }
}

/// On one line no white space but single blanks is left, and none at the ends.
pub proof fn lemma_one_line(s: Seq<char>)
    ensures
        forall|i: int|
            0 <= i < one_line(s).len() ==> !white(#[trigger] one_line(s)[i]) || one_line(s)[i]
                == ' ',
        one_line(s).len() > 0 ==> !white(one_line(s)[0]) && !white(one_line(s).last()),
        words(s).len() > 0 ==> one_line(s).len() > 0,
        trim(one_line(s), Class::White) == one_line(s),
    decreases s.len(),
{
    reveal_strlit(" ");
    let t = trim_start(s, Class::White);
    let line = one_line(s);
    if t.len() > 0 {
        let n = leading(t, Class::NonWhite) as int;
        lemma_leading(s, Class::White);
        lemma_leading(t, Class::NonWhite);
        assert(!white(t[0]));
        let first = t.take(n);
        let rest = t.skip(n);
        lemma_one_line(rest);
        lemma_join_first(words(rest), first, " "@);
        assert forall|i: int| 0 <= i < n implies !white(#[trigger] first[i]) by {
            assert(Class::NonWhite.has(t[i]));
        }
        if words(rest).len() > 0 {
            let tail = one_line(rest);
            assert(line == first + " "@ + tail);
            assert forall|i: int| 0 <= i < line.len() implies !white(#[trigger] line[i]) || line[i]
                == ' ' by {
                if i < n {
                    assert(line[i] == first[i]);
                } else if i > n {
                    assert(line[i] == tail[i - n - 1]);
                }
            }
            assert(line[0] == first[0]);
            assert(line.last() == tail.last());
        } else {
            assert(line == first);
            assert(line[0] == first[0]);
            assert(line.last() == first[n - 1]);
        }
    }
    lemma_leading_is(line, Class::White, 0);
    assert(line.skip(0) == line);
    lemma_trailing_is(line, Class::White, 0);
    assert(line.take(line.len() as int) == line);
}

/// Whether the only white space of a text is single blanks, none of them at its
/// ends.
pub open spec fn tidy(s: Seq<char>) -> bool {
    forall|i: int|
        0 <= i < s.len() && white(#[trigger] s[i]) ==> s[i] == ' ' && 0 < i < s.len() - 1
            && !white(s[i + 1])
}

/// A text on one line is tidy and takes no more bytes than it did.
pub proof fn lemma_one_line_tidy(s: Seq<char>)
    ensures
        tidy(one_line(s)),
        byte_len(one_line(s)) <= byte_len(s),
    decreases s.len(),
{
    reveal_strlit(" ");
    let t = trim_start(s, Class::White);
    let line = one_line(s);
    lemma_one_line(s);
    lemma_leading(s, Class::White);
    lemma_byte_len_take(s, leading(s, Class::White) as int);
    if t.len() > 0 {
        let n = leading(t, Class::NonWhite) as int;
        lemma_leading(t, Class::NonWhite);
        assert(!white(t[0]));
        let first = t.take(n);
        let rest = t.skip(n);
        lemma_byte_len_take(t, n);
        lemma_one_line_tidy(rest);
        lemma_join_first(words(rest), first, " "@);
        assert forall|i: int| 0 <= i < n implies !white(#[trigger] first[i]) by {
            assert(Class::NonWhite.has(t[i]));
        }
        let tail = one_line(rest);
        if words(rest).len() > 0 {
            // The blank stands for the white space that `rest` starts with.
            lemma_one_line(rest);
            assert(line == first + (" "@ + tail));
            let m = leading(rest, Class::White) as int;
            let behind = trim_start(rest, Class::White);
            lemma_leading(rest, Class::White);
            assert(rest.len() > 0);
            assert(rest[0] == t[n]);
            assert(m >= 1);
            lemma_one_line_trim(rest);
            lemma_one_line_tidy(behind);
            lemma_byte_len_take(rest, m);
            lemma_byte_len_take(rest.take(m), 0);
            lemma_byte_len_add(first, " "@ + tail);
            lemma_byte_len_add(" "@, tail);
            lemma_byte_len_first(" "@);
            assert(" "@.drop_first() =~= Seq::<char>::empty());
            assert forall|i: int| 0 <= i < line.len() && white(#[trigger] line[i]) implies line[i]
                == ' ' && 0 < i < line.len() - 1 && !white(line[i + 1]) by {
                if i < n {
                    assert(line[i] == first[i]);
                } else if i > n {
                    assert(line[i] == tail[i - n - 1]);
                    assert(line[i + 1] == tail[i - n]);
                } else {
                    assert(line[i + 1] == tail[0]);
                }
            }
        } else {
            assert(line == first);
            assert forall|i: int| 0 <= i < line.len() implies !white(#[trigger] line[i]) by {
                assert(line[i] == first[i]);
            }
        }
    }
}

/// White space in front is no part of a line.
proof fn lemma_one_line_trim(s: Seq<char>)
    ensures
        one_line(trim_start(s, Class::White)) == one_line(s),
{
    lemma_words_trim(s);
}

/// A tidy text is on one line already.
pub proof fn lemma_tidy_one_line(s: Seq<char>)
    requires
        tidy(s),
    ensures
        one_line(s) == s,
    decreases s.len(),
{
    reveal_strlit(" ");
    lemma_leading_is(s, Class::White, 0);
    assert(s.skip(0) =~= s);
    if s.len() > 0 {
        let n = leading(s, Class::NonWhite) as int;
        lemma_leading(s, Class::NonWhite);
        assert(!white(s[0]));
        let first = s.take(n);
        let rest = s.skip(n);
        lemma_join_first(words(rest), first, " "@);
        if n < s.len() {
            assert(white(s[n]));
            let tail = s.skip(n + 1);
            assert(rest[0] == s[n]);
            assert(rest[1] == s[n + 1]);
            lemma_leading_is(rest, Class::White, 1);
            assert(trim_start(rest, Class::White) =~= tail);
            lemma_words_trim(rest);
            assert forall|i: int| 0 <= i < tail.len() && white(#[trigger] tail[i]) implies tail[i]
                == ' ' && 0 < i < tail.len() - 1 && !white(tail[i + 1]) by {
                assert(tail[i] == s[n + 1 + i]);
                assert(tail[i + 1] == s[n + 2 + i]);
            }
            lemma_tidy_one_line(tail);
            assert(words(rest).len() > 0) by {
                assert(words(tail).len() > 0);
            }
            assert(s =~= first + " "@ + tail);
        } else {
            assert(rest =~= Seq::<char>::empty());
            assert(trim_start(rest, Class::White).len() == 0);
            assert(words(rest).len() == 0);
            assert(first =~= s);
        }
    }
}

/// What fits is not cut.
pub proof fn lemma_all_fits(s: Seq<char>, room: int)
    requires
        byte_len(s) <= room,
    ensures
        fitting(s, room) == s.len(),
    decreases s.len(),
{
    if s.len() > 0 {
        lemma_byte_len_first(s);
        lemma_all_fits(s.drop_first(), room - char_bytes(s[0]));
    }
}

/// How many characters at the front of a text fit into `room` bytes.
pub open spec fn fitting(s: Seq<char>, room: int) -> nat
    decreases s.len(),
{
    if s.len() == 0 || char_bytes(s[0]) > room {
        0
    } else {
        1 + fitting(s.drop_first(), room - char_bytes(s[0]))
    }
}

/// How many characters at the front of a text fit into `room` bytes.
pub fn count_fitting(s: &[char], room: usize) -> (r: usize)
    ensures
        r == fitting(s@, room as int),
        r <= s@.len(),
{
    let mut left: usize = room;
    let mut n: usize = 0;
    proof {
        assert(s@.skip(0) =~= s@);
    }
    while n < s.len() && bytes_of_char(s[n]) <= left
        invariant
            n <= s@.len(),
            fitting(s@, room as int) == n + fitting(s@.skip(n as int), left as int),
        decreases s.len() - n,
    {
        proof {
            assert(s@.skip(n as int).drop_first() =~= s@.skip(n + 1));
            assert(s@.skip(n as int)[0] == s@[n as int]);
        }
        left -= bytes_of_char(s[n]);
        n += 1;
    }
    proof {
        if n < s@.len() {
            assert(s@.skip(n as int)[0] == s@[n as int]);
        }
    }
    n
}

/// What fits into some bytes takes no more than those.
pub proof fn lemma_fitting(s: Seq<char>, room: int)
    requires
        room >= 0,
    ensures
        fitting(s, room) <= s.len(),
        byte_len(s.take(fitting(s, room) as int)) <= room,
    decreases s.len(),
{
    let n = fitting(s, room) as int;
    if s.len() == 0 || char_bytes(s[0]) > room {
        assert(s.take(0) =~= Seq::<char>::empty());
    } else {
        let rest = s.drop_first();
        let left = room - char_bytes(s[0]);
        lemma_fitting(rest, left);
        let front = s.take(n);
        lemma_byte_len_first(front);
        assert(front.drop_first() =~= rest.take(n - 1));
    }
}

/// A text on one line says the same: apart from white space it holds the same
/// characters in the same order.
pub proof fn law_one_line_says_the_same(s: Seq<char>)
    ensures
        one_line(s).filter(|c: char| !white(c)) == s.filter(|c: char| !white(c)),
    decreases s.len(),
{
    let solid = |c: char| !white(c);
    let t = trim_start(s, Class::White);
    let m = leading(s, Class::White) as int;
    lemma_leading(s, Class::White);
    assert(s =~= s.take(m) + t);
    Seq::filter_distributes_over_add(s.take(m), t, solid);
    lemma_filter_none(s.take(m), solid);
    assert(s.filter(solid) =~= t.filter(solid));
    if t.len() == 0 {
        assert(one_line(s) =~= Seq::<char>::empty());
        assert(t =~= Seq::<char>::empty());
    } else {
        reveal_strlit(" ");
        let n = leading(t, Class::NonWhite) as int;
        lemma_leading(t, Class::NonWhite);
        assert(!white(t[0]));
        let first = t.take(n);
        let rest = t.skip(n);
        assert(t =~= first + rest);
        Seq::filter_distributes_over_add(first, rest, solid);
        law_one_line_says_the_same(rest);
        lemma_join_first(words(rest), first, " "@);
        if words(rest).len() == 0 {
            assert(one_line(rest) =~= Seq::<char>::empty());
            assert(one_line(s) == first);
            assert(rest.filter(solid) =~= Seq::<char>::empty()) by {
                reveal(Seq::filter);
            }
            assert(t.filter(solid) =~= first.filter(solid));
        } else {
            let tail = one_line(rest);
            assert(one_line(s) == first + " "@ + tail);
            Seq::filter_distributes_over_add(first + " "@, tail, solid);
            Seq::filter_distributes_over_add(first, " "@, solid);
            lemma_filter_none(" "@, solid);
            assert(one_line(s).filter(solid) =~= first.filter(solid) + rest.filter(solid));
        }
    }
}

/// Of a text in which no character suits, nothing is picked.
proof fn lemma_filter_none(s: Seq<char>, suits: spec_fn(char) -> bool)
    requires
        forall|i: int| 0 <= i < s.len() ==> !suits(#[trigger] s[i]),
    ensures
        s.filter(suits) == Seq::<char>::empty(),
    decreases s.len(),
{
    reveal(Seq::filter);
    if s.len() > 0 {
        let shorter = s.drop_last();
        assert forall|i: int| 0 <= i < shorter.len() implies !suits(#[trigger] shorter[i]) by {
            assert(shorter[i] == s[i]);
        }
        lemma_filter_none(shorter, suits);
        assert(s.last() == s[s.len() - 1]);
    }
}

/// A text without a character is all its other characters in order.
pub proof fn law_only_the_character_goes(s: Seq<char>, c: char)
    ensures
        without_char(s, c) == s.filter(|x: char| x != c),
    decreases s.len(),
{
    reveal(Seq::filter);
    if s.len() > 0 {
        law_only_the_character_goes(s.drop_last(), c);
    }
}

/// What a part of a text holds, the text holds.
pub proof fn lemma_holds_middle(
    front: Seq<char>,
    s: Seq<char>,
    back: Seq<char>,
    pattern: Seq<char>,
)
    requires
        contains(s, pattern),
    ensures
        contains(front + s + back, pattern),
{
    let i = choose|i: int| #[trigger] occurs_at(s, pattern, i);
    let all = front + s + back;
    let k = front.len() + i;
    assert(all.subrange(k, k + pattern.len()) =~= s.subrange(i, i + pattern.len()));
    assert(occurs_at(all, pattern, k));
}

/// A text holds itself.
pub proof fn lemma_holds_itself(s: Seq<char>)
    ensures
        contains(s, s),
{
    assert(s.subrange(0, s.len() as int) =~= s);
    assert(occurs_at(s, s, 0));
}

/// Texts that are joined are all in what they make.
pub proof fn lemma_join_holds(list: Seq<Seq<char>>, sep: Seq<char>, i: int)
    requires
        0 <= i < list.len(),
    ensures
        contains(join(list, sep), list[i]),
    decreases list.len(),
{
    let n = list.len() - 1;
    let none = Seq::<char>::empty();
    if list.len() == 1 {
        lemma_holds_itself(list[0]);
    } else if i == n {
        lemma_holds_itself(list.last());
        lemma_holds_middle(join(list.drop_last(), sep) + sep, list.last(), none, list.last());
        assert(join(list.drop_last(), sep) + sep + list.last() + none =~= join(list, sep));
    } else {
        lemma_join_holds(list.drop_last(), sep, i);
        lemma_holds_middle(none, join(list.drop_last(), sep), sep + list.last(), list[i]);
        assert(none + join(list.drop_last(), sep) + (sep + list.last()) =~= join(list, sep));
    }
}

/// Trimming one end leaves the other: what goes is of the class, and what is left
/// does not start, or end, with one of it.
pub proof fn law_trimming_takes_one_end(s: Seq<char>, class: Class) -> (r: (int, int))
    ensures
        0 <= r.0 <= s.len(),
        trim_start(s, class) == s.skip(r.0),
        forall|i: int| 0 <= i < r.0 ==> class.has(#[trigger] s[i]),
        r.0 < s.len() ==> !class.has(s[r.0]),
        0 <= r.1 <= s.len(),
        trim_end(s, class) == s.take(r.1),
        forall|i: int| r.1 <= i < s.len() ==> class.has(#[trigger] s[i]),
        r.1 > 0 ==> !class.has(s[r.1 - 1]),
{
    lemma_leading(s, class);
    lemma_trailing(s, class);
    (leading(s, class) as int, s.len() - trailing(s, class))
}

/// ASCII capitals become small letters, and no other character changes.
pub proof fn law_only_capitals_are_lowered(c: char)
    ensures
        'A' <= c <= 'Z' ==> ascii_lower(c) as int == c as int + 32,
        !('A' <= c <= 'Z') ==> ascii_lower(c) == c,
{
}

/// A separator stands between each two texts that are joined, and nowhere else.
pub proof fn law_joining_puts_separators_between(
    a: Seq<Seq<char>>,
    text: Seq<char>,
    sep: Seq<char>,
)
    ensures
        join(Seq::<Seq<char>>::empty(), sep).len() == 0,
        join(seq![text], sep) == text,
        a.len() > 0 ==> join(a.push(text), sep) == join(a, sep) + sep + text,
{
    lemma_join_push(a, text, sep);
    assert(seq![text][0] == text);
}

/// The lines of a text without carriage returns: joined again by line endings, and
/// with one at the end where the text has one, they are the text, and none of them
/// holds a line ending.
pub proof fn law_lines_make_the_text(s: Seq<char>)
    requires
        !s.contains('\r'),
    ensures
        forall|i: int| 0 <= i < lines(s).len() ==> !(#[trigger] lines(s)[i]).contains('\n'),
        s.len() > 0 && s.last() == '\n' ==> join(lines(s), seq!['\n']) + seq!['\n'] == s,
        !(s.len() > 0 && s.last() == '\n') ==> join(lines(s), seq!['\n']) == s,
{
    lemma_lines_plain(s);
    lemma_lines_join(s);
    assert forall|i: int| 0 <= i < lines(s).len() implies !(#[trigger] lines(s)[i]).contains(
        '\n',
    ) by {
        assert(plain_line(lines(s)[i]));
    }
    if !(s.len() > 0 && s.last() == '\n') {
        assert(join(lines(s), seq!['\n']) + final_newline(s) =~= join(lines(s), seq!['\n']));
    }
}

/// Words are what blanks part: a text that starts with a word and a blank has that
/// word and the words of the rest, blanks in front change nothing, and a text
/// without blanks is one word.
pub proof fn law_blanks_part_words(word: Seq<char>, blank: char, rest: Seq<char>)
    requires
        word.len() > 0,
        forall|i: int| 0 <= i < word.len() ==> !white(#[trigger] word[i]),
        white(blank),
    ensures
        words(word) == seq![word],
        words(word.push(blank) + rest) == seq![word] + words(rest),
        words(seq![blank] + rest) == words(rest),
        words(Seq::<char>::empty()) == Seq::<Seq<char>>::empty(),
{
    let none = Seq::<char>::empty();
    assert forall|i: int| 0 <= i < word.len() implies Class::NonWhite.has(#[trigger] word[i])
        && !Class::White.has(word[i]) by {}
    assert(words(none) == Seq::<Seq<char>>::empty()) by {
        assert(trim_start(none, Class::White) =~= none);
    }
    assert(words(word) =~= seq![word]) by {
        lemma_leading_is(word, Class::White, 0);
        lemma_leading_is(word, Class::NonWhite, word.len());
        assert(trim_start(word, Class::White) =~= word);
        assert(word.take(word.len() as int) =~= word);
        assert(word.skip(word.len() as int) =~= none);
    }
    assert(words(seq![blank] + rest) == words(rest)) by {
        let s = seq![blank] + rest;
        assert(s[0] == blank);
        assert(s.drop_first() =~= rest);
        lemma_leading(rest, Class::White);
        assert(trim_start(s, Class::White) =~= trim_start(rest, Class::White));
        lemma_words_trim(s);
        lemma_words_trim(rest);
    }
    assert(words(word.push(blank) + rest) =~= seq![word] + words(rest)) by {
        let s = word.push(blank) + rest;
        assert(s[0] == word[0]);
        assert forall|i: int| 0 <= i < word.len() implies Class::NonWhite.has(#[trigger] s[i]) by {
            assert(s[i] == word[i]);
        }
        assert(s[word.len() as int] == blank);
        lemma_leading_is(s, Class::White, 0);
        lemma_leading_is(s, Class::NonWhite, word.len());
        assert(trim_start(s, Class::White) =~= s);
        assert(s.take(word.len() as int) =~= word);
        assert(s.skip(word.len() as int) =~= seq![blank] + rest);
    }
}

/// A text on one line has one blank between its words and no other, and they are
/// the words of the text.
pub proof fn law_one_line_keeps_the_words(s: Seq<char>)
    ensures
        tidy(one_line(s)),
        words(one_line(s)) == words(s),
        one_line(one_line(s)) == one_line(s),
    decreases s.len(),
{
    lemma_one_line_tidy(s);
    lemma_tidy_one_line(one_line(s));
    reveal_strlit(" ");
    let t = trim_start(s, Class::White);
    let n = leading(t, Class::NonWhite) as int;
    lemma_leading(s, Class::White);
    lemma_leading(t, Class::NonWhite);
    if t.len() > 0 {
        assert(t[0] == s[leading(s, Class::White) as int]);
        let (word, rest) = (t.take(n), t.skip(n));
        assert(Class::NonWhite.has(t[0]));
        assert forall|i: int| 0 <= i < word.len() implies !white(#[trigger] word[i]) by {
            assert(word[i] == t[i]);
        }
        assert(word.len() > 0);
        law_one_line_keeps_the_words(rest);
        lemma_join_first(words(rest), word, " "@);
        law_blanks_part_words(word, ' ', one_line(rest));
        assert(word + " "@ + one_line(rest) =~= word.push(' ') + one_line(rest));
        if words(rest).len() == 0 {
            assert(words(s) =~= seq![word]);
        }
    } else {
        let none = Seq::<char>::empty();
        assert(trim_start(none, Class::White) =~= none);
        assert(one_line(s) =~= none);
    }
}

/// A line ends at a line feed, or at a carriage return and a line feed; the rest of
/// a text is lines of its own.
pub proof fn law_line_endings_part_lines(line: Seq<char>, rest: Seq<char>)
    requires
        plain_line(line),
    ensures
        lines(line.push('\n') + rest) == seq![line] + lines(rest),
        lines(line.push('\r').push('\n') + rest) == seq![line] + lines(rest),
        line.len() > 0 ==> lines(line) == seq![line],
{
    let class = Class::Except('\n');
    assert forall|i: int| 0 <= i < line.len() implies class.has(#[trigger] line[i]) && line[i]
        != '\r' by {
        assert(line.contains(line[i]));
    }
    let (a, b) = (line.push('\n') + rest, line.push('\r').push('\n') + rest);
    let n = line.len() as int;
    assert forall|i: int| 0 <= i < n implies class.has(#[trigger] a[i]) by {
        assert(a[i] == line[i]);
    }
    assert(a[n] == '\n');
    lemma_leading_is(a, class, n as nat);
    assert(a.take(n) =~= line);
    assert(a.skip(n + 1) =~= rest);
    assert forall|i: int| 0 <= i < n + 1 implies class.has(#[trigger] b[i]) by {
        if i < n {
            assert(b[i] == line[i]);
        }
    }
    assert(b[n + 1] == '\n');
    lemma_leading_is(b, class, (n + 1) as nat);
    assert(b.take(n + 1) =~= line.push('\r'));
    assert(line.push('\r').drop_last() =~= line);
    assert(b.skip(n + 2) =~= rest);
    if n > 0 {
        lemma_leading_is(line, class, n as nat);
    }
}

/// A pattern goes where it first stands, and then from what follows it; a text in
/// which it stands nowhere stays.
pub proof fn law_patterns_go_one_by_one(s: Seq<char>, pattern: Seq<char>, at: int)
    requires
        pattern.len() > 0,
    ensures
        first_at(s, pattern, at) ==> without_pattern(s, pattern) == s.take(at) + without_pattern(
            s.skip(at + pattern.len()),
            pattern,
        ),
        !contains(s, pattern) ==> without_pattern(s, pattern) == s,
    decreases s.len(),
{
    if first_at(s, pattern, at) {
        if at == 0 {
            assert(s.take(0) =~= Seq::<char>::empty());
            assert(s.take(at) + without_pattern(s.skip(at + pattern.len()), pattern)
                =~= without_pattern(s.skip(pattern.len() as int), pattern));
        } else {
            assert(!occurs_at(s, pattern, 0));
            let t = s.drop_first();
            assert forall|i: int| occurs_at(t, pattern, i) == (i >= 0 && #[trigger] occurs_at(
                s,
                pattern,
                i + 1,
            )) by {
                if 0 <= i <= t.len() - pattern.len() {
                    assert(t.subrange(i, i + pattern.len()) =~= s.subrange(
                        i + 1,
                        i + 1 + pattern.len(),
                    ));
                }
            }
            assert(occurs_at(s, pattern, at - 1 + 1));
            assert(first_at(t, pattern, at - 1)) by {
                assert forall|j: int| 0 <= j < at - 1 implies !#[trigger] occurs_at(
                    t,
                    pattern,
                    j,
                ) by {
                    assert(!occurs_at(s, pattern, j + 1));
                }
            }
            law_patterns_go_one_by_one(t, pattern, at - 1);
            assert(t.skip(at - 1 + pattern.len()) =~= s.skip(at + pattern.len()));
            assert(s.take(at) =~= seq![s[0]] + t.take(at - 1));
            assert(s.take(at) + without_pattern(s.skip(at + pattern.len()), pattern) =~= seq![s[0]]
                + (t.take(at - 1) + without_pattern(t.skip(at - 1 + pattern.len()), pattern)));
        }
    }
    if !contains(s, pattern) && s.len() > 0 {
        let t = s.drop_first();
        assert(!occurs_at(s, pattern, 0));
        if contains(t, pattern) {
            let i = choose|i: int| #[trigger] occurs_at(t, pattern, i);
            assert(t.subrange(i, i + pattern.len()) =~= s.subrange(i + 1, i + 1 + pattern.len()));
            assert(occurs_at(s, pattern, i + 1));
        }
        law_patterns_go_one_by_one(t, pattern, at - 1);
        assert(seq![s[0]] + t =~= s);
    }
}

/// A pattern is found where it stands first: the text is what is before it, the
/// pattern and what is behind it, and nowhere nearer the front is it like that.
pub proof fn law_the_first_place_is_found(
    s: Seq<char>,
    front: Seq<char>,
    pattern: Seq<char>,
    back: Seq<char>,
)
    ensures
        find(s, pattern) matches Some(i) ==> 0 <= i <= s.len() - pattern.len() && s == s.take(i)
            + pattern + s.skip(i + pattern.len()),
        s == front + pattern + back ==> (find(s, pattern) matches Some(i) && i <= front.len()),
        starts_with(pattern + back, pattern),
{
    if s == front + pattern + back {
        assert(s.subrange(front.len() as int, (front.len() + pattern.len()) as int) =~= pattern);
        assert(occurs_at(s, pattern, front.len() as int));
        lemma_first_place(s, pattern, front.len() as int);
        let i = choose|i: int| first_at(s, pattern, i) && i <= front.len();
        lemma_find_is(s, pattern, i);
    }
    if contains(s, pattern) {
        let at = choose|i: int| #[trigger] occurs_at(s, pattern, i);
        lemma_first_place(s, pattern, at);
        let i = choose|i: int| first_at(s, pattern, i) && i <= at;
        lemma_find_is(s, pattern, i);
        assert(s =~= s.take(i) + s.subrange(i, i + pattern.len()) + s.skip(i + pattern.len()));
    }
    assert((pattern + back).subrange(0, pattern.len() as int) =~= pattern);
}

/// Where a pattern stands, there is a first place at which it does.
proof fn lemma_first_place(s: Seq<char>, pattern: Seq<char>, at: int)
    requires
        occurs_at(s, pattern, at),
    ensures
        exists|i: int| first_at(s, pattern, i) && i <= at,
    decreases at,
{
    if first_at(s, pattern, at) {
    } else {
        let j = choose|j: int| 0 <= j < at && #[trigger] occurs_at(s, pattern, j);
        lemma_first_place(s, pattern, j);
    }
}

/// As many characters of a text fit as there is room for: those take no more bytes
/// than there are, and with the next one they would.
pub proof fn law_as_much_fits_as_there_is_room(s: Seq<char>, room: int)
    requires
        room >= 0,
    ensures
        fitting(s, room) <= s.len(),
        byte_len(s.take(fitting(s, room) as int)) <= room,
        fitting(s, room) < s.len() ==> byte_len(s.take(fitting(s, room) as int + 1)) > room,
    decreases s.len(),
{
    lemma_fitting(s, room);
    if s.len() > 0 && char_bytes(s[0]) <= room {
        let t = s.drop_first();
        law_as_much_fits_as_there_is_room(t, room - char_bytes(s[0]));
        let n = fitting(s, room) as int;
        if n < s.len() {
            let more = s.take(n + 1);
            lemma_byte_len_first(more);
            assert(more.drop_first() =~= t.take(n));
        }
    } else if s.len() > 0 {
        let more = s.take(1);
        lemma_byte_len_first(more);
    }
}

/// The blanks of ASCII are the space and the five characters from the tab to the
/// carriage return; the no-break space is one too, a letter or a digit is none.
pub proof fn law_these_are_blanks(c: char)
    ensures
        c as u32 <= 0x7f ==> (white(c) <==> c as u32 == 0x20 || 0x9 <= c as u32 <= 0xd),
        c as u32 == 0xa0 || c as u32 == 0x3000 || c as u32 == 0x2028 || c as u32 == 0x85 ==> white(c),
        'a' <= c <= 'z' || 'A' <= c <= 'Z' || '0' <= c <= '9' ==> !white(c),
        c as u32 > 0x3000 ==> !white(c),
{
}

} // verus!
