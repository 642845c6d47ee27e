//! Where the app keeps its files. Paths are texts, read as the system that the
//! app runs on reads them.

use vstd::prelude::*;
use vstd::slice::slice_subrange;

use crate::text::{
    chars_of, leading, leading_of, lemma_leading, lemma_trailing, lemma_trailing_is, same_text,
    text_of, texts, trailing, trim_end_of, Class,
};

verus! {

/// Markdown file with domain vocabulary (names, jargon) folded into the whisper
/// prompt; lives next to the models/ directory.
pub const VOCABULARY_FILE: &'static str = "vocabulary.md";

/// File holding the enrolled speaker profiles, next to vocabulary.md.
pub const SPEAKERS_FILE: &'static str = "speakers.json";

/// Settings file, next to vocabulary.md and speakers.json.
pub const SETTINGS_FILE: &'static str = "settings.json";

/// How a system writes paths.
#[derive(Debug, Clone, Copy)]
pub enum PathStyle {
    /// Parts divided by slashes: `/a/b`.
    Slashes,
    /// Parts divided by slashes or backslashes, behind a drive (`C:\a\b`), a
    /// network share (`\\server\share\a`), a device (`\\.\NAME\a`) or a verbatim
    /// form of these (`\\?\C:\a`).
    Drives,
}

/// What divides the parts of a path.
#[derive(Debug, Clone, Copy)]
pub enum Divider {
    Slash,
    /// A slash or a backslash.
    Either,
    /// Only a backslash, in a verbatim path; there a single dot is a part like
    /// any other.
    Backslash,
}

impl Divider {
    /// Whether a character divides parts.
    pub open spec fn divides(self, c: char) -> bool {
        match self {
            Divider::Slash => c == '/',
            Divider::Either => c == '/' || c == '\\',
            Divider::Backslash => c == '\\',
        }
    }

    /// The characters that parts are made of.
    pub open spec fn inner(self) -> Class {
        match self {
            Divider::Slash => Class::Except('/'),
            Divider::Either => Class::Neither('/', '\\'),
            Divider::Backslash => Class::Except('\\'),
        }
    }

    /// Whether a character divides parts.
    fn is_divider(self, c: char) -> (r: bool)
        ensures
            r == self.divides(c),
    {
        match self {
            Divider::Slash => c == '/',
            Divider::Either => c == '/' || c == '\\',
            Divider::Backslash => c == '\\',
        }
    }

    /// The characters that parts are made of.
    fn inner_class(self) -> (r: Class)
        ensures
            r == self.inner(),
    {
        match self {
            Divider::Slash => Class::Except('/'),
            Divider::Either => Class::Neither('/', '\\'),
            Divider::Backslash => Class::Except('\\'),
        }
    }
}

/// What a path starts with before its parts.
#[derive(Debug, Clone, Copy)]
pub enum Prefix {
    Nothing,
    Drive,
    /// A share or a device.
    Share,
    /// A verbatim form.
    Verbatim,
}

impl Prefix {
    /// What divides the parts behind it.
    pub open spec fn divider(self, style: PathStyle) -> Divider {
        match style {
            PathStyle::Slashes => Divider::Slash,
            PathStyle::Drives => match self {
                Prefix::Verbatim => Divider::Backslash,
                _ => Divider::Either,
            },
        }
    }

    /// What divides the parts behind it.
    fn divider_of(self, style: PathStyle) -> (r: Divider)
        ensures
            r == self.divider(style),
    {
        match style {
            PathStyle::Slashes => Divider::Slash,
            PathStyle::Drives => match self {
                Prefix::Verbatim => Divider::Backslash,
                _ => Divider::Either,
            },
        }
    }
}

/// Whether a drive stands at position `i`.
pub open spec fn drive_at(path: Seq<char>, i: int) -> bool {
    &&& i + 2 <= path.len()
    &&& 'a' <= path[i] <= 'z' || 'A' <= path[i] <= 'Z'
    &&& path[i + 1] == ':'
}

/// How many characters the part has that starts at position `i`.
pub open spec fn part_at(path: Seq<char>, i: int, divider: Divider) -> int {
    if i < path.len() {
        leading(path.skip(i), divider.inner()) as int
    } else {
        0
    }
}

/// How many characters the two parts have that start at position `i`, with the
/// divider between them; without it where the second is empty.
pub open spec fn two_parts_at(path: Seq<char>, i: int, divider: Divider) -> int {
    let first = part_at(path, i, divider);
    let second = part_at(path, i + first + 1, divider);
    if second > 0 {
        first + 1 + second
    } else {
        first
    }
}

/// What a path in the style of drives starts with before its parts, and how many
/// characters that has.
pub open spec fn drive_prefix(path: Seq<char>) -> (Prefix, int) {
    let either = Divider::Either;
    let verbatim = Divider::Backslash;
    if path.len() >= 2 && either.divides(path[0]) && either.divides(path[1]) {
        if path.len() >= 4 && path.take(4) =~= seq!['\\', '\\', '?', '\\'] {
            if path.len() >= 8 && path[4] == 'U' && path[5] == 'N' && path[6] == 'C'
                && either.divides(path[7]) {
                (Prefix::Verbatim, 8 + two_parts_at(path, 8, verbatim))
            } else if drive_at(path, 4) && (path.len() == 6 || either.divides(path[6])) {
                (Prefix::Verbatim, 6)
            } else {
                (Prefix::Verbatim, 4 + part_at(path, 4, verbatim))
            }
        } else if path.len() >= 4 && path[2] == '.' && either.divides(path[3]) {
            (Prefix::Share, 4 + part_at(path, 4, either))
        } else if part_at(path, 2, either) > 0 && two_parts_at(path, 2, either) > part_at(
            path,
            2,
            either,
        ) {
            (Prefix::Share, 2 + two_parts_at(path, 2, either))
        } else {
            (Prefix::Nothing, 0)
        }
    } else if drive_at(path, 0) {
        (Prefix::Drive, 2)
    } else {
        (Prefix::Nothing, 0)
    }
}

/// What a path starts with before its parts, and how many characters that has.
pub open spec fn prefix(path: Seq<char>, style: PathStyle) -> (Prefix, int) {
    match style {
        PathStyle::Slashes => (Prefix::Nothing, 0),
        PathStyle::Drives => drive_prefix(path),
    }
}

/// Whether a character divides parts in some path of a style.
pub open spec fn roots(c: char, style: PathStyle) -> bool {
    c == '/' || (style is Drives && c == '\\')
}

/// How many characters at the front of a path name its root, or what it starts
/// from where it has none: the prefix, and the divider behind it.
pub open spec fn anchor(path: Seq<char>, style: PathStyle) -> int {
    let n = prefix(path, style).1;
    if n < path.len() && roots(path[n], style) {
        n + 1
    } else {
        n
    }
}

/// What divides the parts of a path.
pub open spec fn divider_in(path: Seq<char>, style: PathStyle) -> Divider {
    prefix(path, style).0.divider(style)
}

/// A path without the dividers, and the dot behind a divider, at its end, as far
/// as they stand behind the first `low` characters.
pub open spec fn without_end(path: Seq<char>, low: int, divider: Divider) -> Seq<char>
    decreases path.len(),
{
    if path.len() > low && path.len() > 0 && divider.divides(path.last()) {
        without_end(path.drop_last(), low, divider)
    } else if path.len() > low && path.len() > 1 && path.last() == '.' && divider.divides(
        path[path.len() - 2],
    ) && divider !is Backslash {
        without_end(path.drop_last(), low, divider)
    } else {
        path
    }
}

/// The last part of a path, if it has one.
pub open spec fn last_part(path: Seq<char>, style: PathStyle) -> Seq<char> {
    let low = anchor(path, style);
    let divider = divider_in(path, style);
    let body = without_end(path, low, divider).skip(low);
    body.skip(body.len() - trailing(body, divider.inner()))
}

/// The extension of the file that a path names: what stands behind the last dot
/// of its last part, unless that dot is the first character. `.` and `..` name
/// no file.
pub open spec fn extension_of(path: Seq<char>, style: PathStyle) -> Option<Seq<char>> {
    let name = last_part(path, style);
    let ext = name.skip(name.len() - trailing(name, Class::Except('.')));
    if name == ".."@ || ext.len() + 1 >= name.len() {
        None
    } else {
        Some(ext)
    }
}

/// The path of what holds the last part of a path, if it has a part.
pub open spec fn parent_of(path: Seq<char>, style: PathStyle) -> Option<Seq<char>> {
    let low = anchor(path, style);
    let divider = divider_in(path, style);
    let whole = without_end(path, low, divider);
    if whole.len() == low {
        None
    } else {
        Some(without_end(whole.take(whole.len() - last_part(path, style).len()), low, divider))
    }
}

/// The parts of a text that backslashes divide, each behind one backslash.
pub open spec fn verbatim_parts(s: Seq<char>) -> Seq<char>
    decreases s.len(),
{
    if s.len() == 0 {
        Seq::empty()
    } else {
        let before = verbatim_parts(s.drop_last());
        if s.last() == '\\' {
            before
        } else if s.len() == 1 || s[s.len() - 2] == '\\' {
            before.push('\\').push(s.last())
        } else {
            before.push(s.last())
        }
    }
}

/// `name`, which is the name of a file, in the directory `dir`.
pub open spec fn joined(dir: Seq<char>, name: Seq<char>, style: PathStyle) -> Seq<char> {
    match prefix(dir, style) {
        (Prefix::Verbatim, n) => dir.take(n) + verbatim_parts(dir.skip(anchor(dir, style)))
            + seq!['\\'] + name,
        (front, n) => if dir.len() == 0 || roots(dir.last(), style) || (front is Drive && dir.len()
            == n) {
            dir + name
        } else {
            dir.push(
                match style {
                    PathStyle::Slashes => '/',
                    PathStyle::Drives => '\\',
                },
            ) + name
        },
    }
}

/// A part is no longer than what it is in.
proof fn lemma_parts_fit(path: Seq<char>, i: int, divider: Divider)
    requires
        0 <= i <= path.len(),
    ensures
        0 <= part_at(path, i, divider) <= path.len() - i,
        0 <= two_parts_at(path, i, divider) <= path.len() - i,
        part_at(path, i, divider) <= two_parts_at(path, i, divider),
{
    if i < path.len() {
        lemma_leading(path.skip(i), divider.inner());
        let at = i + part_at(path, i, divider) + 1;
        if at < path.len() {
            lemma_leading(path.skip(at), divider.inner());
        }
    }
}

/// A prefix is no longer than its path, and the root no longer either.
proof fn lemma_anchor(path: Seq<char>, style: PathStyle)
    ensures
        0 <= prefix(path, style).1 <= anchor(path, style) <= path.len(),
{
    if path.len() >= 2 {
        lemma_parts_fit(path, 2, Divider::Either);
    }
    if path.len() >= 4 {
        lemma_parts_fit(path, 4, Divider::Either);
        lemma_parts_fit(path, 4, Divider::Backslash);
    }
    if path.len() >= 8 {
        lemma_parts_fit(path, 8, Divider::Backslash);
    }
}

/// How many characters the part has that starts at position `i`.
fn part_len(path: &[char], i: usize, divider: Divider) -> (r: usize)
    ensures
        r == part_at(path@, i as int, divider),
        i <= path@.len() ==> i + r <= path@.len(),
{
    if i < path.len() {
        let rest = slice_subrange(path, i, path.len());
        proof {
            assert(rest@ =~= path@.skip(i as int));
            lemma_leading(rest@, divider.inner());
        }
        leading_of(rest, divider.inner_class())
    } else {
        0
    }
}

/// How many characters the two parts have that start at position `i`.
fn two_parts_len(path: &[char], i: usize, divider: Divider) -> (r: usize)
    requires
        i <= path@.len(),
    ensures
        r == two_parts_at(path@, i as int, divider),
        i + r <= path@.len(),
{
    let first = part_len(path, i, divider);
    proof {
        lemma_parts_fit(path@, i as int, divider);
    }
    if first == path.len() - i {
        return first;
    }
    let second = part_len(path, i + first + 1, divider);
    if second > 0 {
        first + 1 + second
    } else {
        first
    }
}

/// Whether a drive stands at position `i`.
fn is_drive_at(path: &[char], i: usize) -> (r: bool)
    requires
        i <= path@.len(),
    ensures
        r == drive_at(path@, i as int),
{
    path.len() - i >= 2 && (('a' <= path[i] && path[i] <= 'z') || ('A' <= path[i] && path[i]
        <= 'Z')) && path[i + 1] == ':'
}

/// What a path in the style of drives starts with before its parts.
fn find_drive_prefix(path: &[char]) -> (r: (Prefix, usize))
    ensures
        (r.0, r.1 as int) == drive_prefix(path@),
{
    let either = Divider::Either;
    let n = path.len();
    if n >= 2 && either.is_divider(path[0]) && either.is_divider(path[1]) {
        let verbatim = n >= 4 && path[0] == '\\' && path[1] == '\\' && path[2] == '?' && path[3]
            == '\\';
        proof {
            if n >= 4 {
                let front = path@.take(4);
                assert(front[0] == path@[0] && front[1] == path@[1] && front[2] == path@[2]
                    && front[3] == path@[3]);
                assert(verbatim == (front =~= seq!['\\', '\\', '?', '\\']));
            }
        }
        if verbatim {
            if n >= 8 && path[4] == 'U' && path[5] == 'N' && path[6] == 'C' && either.is_divider(
                path[7],
            ) {
                (Prefix::Verbatim, 8 + two_parts_len(path, 8, Divider::Backslash))
            } else if is_drive_at(path, 4) && (n == 6 || either.is_divider(path[6])) {
                (Prefix::Verbatim, 6)
            } else {
                (Prefix::Verbatim, 4 + part_len(path, 4, Divider::Backslash))
            }
        } else if n >= 4 && path[2] == '.' && either.is_divider(path[3]) {
            (Prefix::Share, 4 + part_len(path, 4, either))
        } else {
            let server = part_len(path, 2, either);
            let both = two_parts_len(path, 2, either);
            if server > 0 && both > server {
                (Prefix::Share, 2 + both)
            } else {
                (Prefix::Nothing, 0)
            }
        }
    } else if is_drive_at(path, 0) {
        (Prefix::Drive, 2)
    } else {
        (Prefix::Nothing, 0)
    }
}

/// What a path starts with before its parts.
fn find_prefix(path: &[char], style: PathStyle) -> (r: (Prefix, usize))
    ensures
        (r.0, r.1 as int) == prefix(path@, style),
        r.1 <= anchor(path@, style) <= path@.len(),
{
    proof {
        lemma_anchor(path@, style);
    }
    match style {
        PathStyle::Slashes => (Prefix::Nothing, 0),
        PathStyle::Drives => find_drive_prefix(path),
    }
}

/// Whether a character divides parts in some path of a style.
fn is_root(c: char, style: PathStyle) -> (r: bool)
    ensures
        r == roots(c, style),
{
    match style {
        PathStyle::Slashes => c == '/',
        PathStyle::Drives => c == '/' || c == '\\',
    }
}

/// How many characters at the front of a path name its root, given how many its
/// prefix has.
fn anchor_len(path: &[char], n: usize, style: PathStyle) -> (r: usize)
    requires
        n == prefix(path@, style).1,
    ensures
        r == anchor(path@, style),
        r <= path@.len(),
{
    proof {
        lemma_anchor(path@, style);
    }
    if n < path.len() && is_root(path[n], style) {
        n + 1
    } else {
        n
    }
}

/// A path without the dividers, and the dot behind a divider, at its end.
fn trimmed_path<'a>(path: &'a [char], low: usize, divider: Divider) -> (r: &'a [char])
    requires
        low <= path@.len(),
    ensures
        r@ == without_end(path@, low as int, divider),
        low <= r@.len() <= path@.len(),
        r@ == path@.take(r@.len() as int),
{
    let dots = match divider {
        Divider::Backslash => false,
        _ => true,
    };
    let mut n: usize = path.len();
    proof {
        assert(path@.take(n as int) =~= path@);
    }
    while n > low && (divider.is_divider(path[n - 1]) || (dots && n > 1 && path[n - 1] == '.'
        && divider.is_divider(path[n - 2])))
        invariant
            low <= n <= path@.len(),
            dots == (divider !is Backslash),
            without_end(path@.take(n as int), low as int, divider) == without_end(
                path@,
                low as int,
                divider,
            ),
        decreases n,
    {
        proof {
            assert(path@.take(n as int).drop_last() =~= path@.take(n - 1));
        }
        n -= 1;
    }
    proof {
        assert(path@.subrange(0, n as int) =~= path@.take(n as int));
    }
    slice_subrange(path, 0, n)
}

/// A path without what is trimmed at its end, and how much of that is the last
/// part.
fn split_last<'a>(path: &'a [char], style: PathStyle) -> (r: (&'a [char], usize))
    ensures
        r.0@ == without_end(path@, anchor(path@, style), divider_in(path@, style)),
        r.1 == last_part(path@, style).len(),
        anchor(path@, style) + r.1 <= r.0@.len(),
        r.0@.skip(r.0@.len() - r.1) == last_part(path@, style),
{
    let (front, n) = find_prefix(path, style);
    let low = anchor_len(path, n, style);
    let divider = front.divider_of(style);
    let whole = trimmed_path(path, low, divider);
    let body = slice_subrange(whole, low, whole.len());
    proof {
        assert(body@ =~= whole@.skip(low as int));
        lemma_trailing(body@, divider.inner());
    }
    let len = body.len() - trim_end_of(body, divider.inner_class()).len();
    proof {
        assert(whole@.skip(whole@.len() - len) =~= body@.skip(body@.len() - len));
    }
    (whole, len)
}

/// The extension of the file that a path names.
pub fn file_extension<'a>(path: &'a [char], style: PathStyle) -> (r: Option<&'a [char]>)
    ensures
        r is Some <==> extension_of(path@, style) is Some,
        r matches Some(ext) ==> extension_of(path@, style) == Some(ext@),
{
    let (whole, n) = split_last(path, style);
    let name = slice_subrange(whole, whole.len() - n, whole.len());
    let parent = chars_of("..");
    proof {
        assert(name@ =~= last_part(path@, style));
        lemma_trailing(name@, Class::Except('.'));
    }
    let front = trim_end_of(name, Class::Except('.'));
    let ext = slice_subrange(name, front.len(), name.len());
    proof {
        assert(ext@ =~= name@.skip(name@.len() - trailing(name@, Class::Except('.'))));
    }
    if same_text(name, &parent) || ext.len() == name.len() || ext.len() + 1 == name.len() {
        None
    } else {
        Some(ext)
    }
}

/// The path of what holds the last part of a path.
pub fn parent(path: &str, style: PathStyle) -> (r: Option<String>)
    ensures
        r is Some <==> parent_of(path@, style) is Some,
        r matches Some(dir) ==> parent_of(path@, style) == Some(dir@),
{
    let chars = chars_of(path);
    let (kind, len) = find_prefix(&chars, style);
    let low = anchor_len(&chars, len, style);
    let (whole, n) = split_last(&chars, style);
    if whole.len() == low {
        return None;
    }
    let front = slice_subrange(whole, 0, whole.len() - n);
    proof {
        assert(front@ =~= whole@.take(whole@.len() - n));
    }
    Some(text_of(trimmed_path(front, low, kind.divider_of(style))))
}

/// Puts the parts of a text at the end of `out`, each behind one backslash.
fn push_verbatim_parts(out: &mut String, s: &[char])
    ensures
        final(out)@ == old(out)@ + verbatim_parts(s@),
{
    let mut i: usize = 0;
    proof {
        assert(s@.take(0) =~= Seq::<char>::empty());
        assert(out@ + Seq::<char>::empty() =~= out@);
    }
    while i < s.len()
        invariant
            i <= s@.len(),
            out@ == old(out)@ + verbatim_parts(s@.take(i as int)),
        decreases s.len() - i,
    {
        proof {
            assert(s@.take(i + 1).drop_last() =~= s@.take(i as int));
            assert(s@.take(i + 1).last() == s@[i as int]);
            if i > 0 {
                assert(s@.take(i + 1)[i - 1] == s@[i - 1]);
            }
        }
        let ghost before = out@;
        if s[i] != '\\' {
            if i == 0 || s[i - 1] == '\\' {
                out.push('\\');
            }
            out.push(s[i]);
        }
        i += 1;
        proof {
            assert(out@ =~= old(out)@ + verbatim_parts(s@.take(i as int)));
        }
    }
    proof {
        assert(s@.take(i as int) =~= s@);
    }
}

/// `name`, which is the name of a file, in the directory `dir`.
pub fn join_path(dir: &str, name: &str, style: PathStyle) -> (r: String)
    ensures
        r@ == joined(dir@, name@, style),
{
    let chars = chars_of(dir);
    let (front, n) = find_prefix(&chars, style);
    let low = anchor_len(&chars, n, style);
    let drive = match front {
        Prefix::Verbatim => {
            let mut out = text_of(slice_subrange(&chars, 0, n));
            let body = slice_subrange(&chars, low, chars.len());
            proof {
                assert(out@ =~= dir@.take(n as int));
                assert(body@ =~= dir@.skip(low as int));
            }
            push_verbatim_parts(&mut out, body);
            out.push('\\');
            out.push_str(name);
            proof {
                assert(out@ =~= joined(dir@, name@, style));
            }
            return out;
        },
        Prefix::Drive => true,
        _ => false,
    };
    let mut out = text_of(&chars);
    if !(chars.len() == 0 || is_root(chars[chars.len() - 1], style) || (drive && chars.len() == n)) {
        out.push(
            match style {
                PathStyle::Slashes => '/',
                PathStyle::Drives => '\\',
            },
        );
    }
    out.push_str(name);
    out
}

/// What is left of a path has no more characters, and no fewer than are kept.
proof fn lemma_without_end(path: Seq<char>, low: int, divider: Divider)
    requires
        0 <= low <= path.len(),
    ensures
        low <= without_end(path, low, divider).len() <= path.len(),
        without_end(path, low, divider).len() > low ==> !divider.divides(
            without_end(path, low, divider).last(),
        ),
    decreases path.len(),
{
    if path.len() > low {
        lemma_without_end(path.drop_last(), low, divider);
    }
}

/// What holds a path has a shorter path.
proof fn lemma_parent_is_shorter(path: Seq<char>, style: PathStyle)
    ensures
        parent_of(path, style) matches Some(dir) ==> dir.len() < path.len(),
{
    let low = anchor(path, style);
    let divider = divider_in(path, style);
    let whole = without_end(path, low, divider);
    lemma_anchor(path, style);
    lemma_without_end(path, low, divider);
    if whole.len() > low {
        let body = whole.skip(low);
        lemma_trailing(body, divider.inner());
        assert(body.last() == whole.last());
        if trailing(body, divider.inner()) == 0 {
            assert(!divider.inner().has(body[body.len() - 1]));
        }
        lemma_without_end(whole.take(whole.len() - last_part(path, style).len()), low, divider);
    }
}

/// The directories that hold a path, from the inside out.
pub open spec fn ancestors_of(path: Seq<char>, style: PathStyle) -> Seq<Seq<char>>
    decreases path.len(),
    via ancestors_shrink
{
    match parent_of(path, style) {
        Some(dir) => seq![dir] + ancestors_of(dir, style),
        None => Seq::empty(),
    }
}

#[via_fn]
proof fn ancestors_shrink(path: Seq<char>, style: PathStyle) {
    lemma_parent_is_shorter(path, style);
}

/// `name` in each of the directories that hold a path, from the inside out:
/// where it is looked for upward from the executable.
pub fn upward(path: &str, name: &str, style: PathStyle) -> (r: Vec<String>)
    ensures
        texts(r@) == Seq::new(
            ancestors_of(path@, style).len(),
            |i: int| joined(ancestors_of(path@, style)[i], name@, style),
        ),
{
    let ghost all = ancestors_of(path@, style);
    let ghost want = Seq::new(all.len(), |i: int| joined(all[i], name@, style));
    let mut out: Vec<String> = Vec::new();
    let mut at = path.to_owned();
    let mut done = false;
    proof {
        assert(want.take(0) =~= texts(out@));
        assert(all.skip(0) =~= all);
    }
    while !done
        invariant
            want == Seq::new(all.len(), |i: int| joined(all[i], name@, style)),
            out@.len() <= all.len(),
            texts(out@) == want.take(out@.len() as int),
            !done ==> ancestors_of(at@, style) == all.skip(out@.len() as int),
            done ==> out@.len() == all.len(),
        decreases at@.len() + (if done {
            0int
        } else {
            1
        }),
    {
        proof {
            lemma_parent_is_shorter(at@, style);
        }
        match parent(at.as_str(), style) {
            Some(dir) => {
                let ghost before = out@;
                let ghost rest = all.skip(before.len() as int);
                proof {
                    assert(rest == seq![dir@] + ancestors_of(dir@, style));
                    assert(rest[0] == dir@);
                    assert(all[before.len() as int] == rest[0]);
                    assert(all.skip(before.len() as int + 1) =~= rest.drop_first());
                    assert(rest.drop_first() =~= ancestors_of(dir@, style));
                }
                out.push(join_path(dir.as_str(), name, style));
                at = dir;
                proof {
                    assert(texts(out@) =~= texts(before).push(out@.last()@));
                    assert(want.take(out@.len() as int) =~= want.take(before.len() as int).push(
                        want[before.len() as int],
                    ));
                }
            },
            None => {
                proof {
                    assert(all.skip(out@.len() as int).len() == 0);
                }
                done = true;
            },
        }
    }
    proof {
        assert(want.take(out@.len() as int) =~= want);
    }
    out
}

/// Where a file belongs that lives next to the models directory.
pub open spec fn beside_models(
    models: Option<Seq<char>>,
    file: Seq<char>,
    style: PathStyle,
) -> Seq<char> {
    match models {
        Some(dir) => match parent_of(dir, style) {
            Some(base) => joined(base, file, style),
            None => file,
        },
        None => file,
    }
}

/// Where a file belongs that lives next to the models directory, or in the
/// working directory where there is none.
pub fn next_to_models(models: Option<&str>, file: &str, style: PathStyle) -> (r: String)
    ensures
        r@ == beside_models(
            match models {
                Some(dir) => Some(dir@),
                None => None,
            },
            file@,
            style,
        ),
{
    match models {
        Some(dir) => match parent(dir, style) {
            Some(base) => join_path(base.as_str(), file, style),
            None => file.to_owned(),
        },
        None => file.to_owned(),
    }
}

/// Where a file is that lives next to the models directory: in the working
/// directory, else where it was found upward from the executable, else where it
/// should be created.
pub fn file_place(
    local_exists: bool,
    found: Option<String>,
    models: Option<&str>,
    file: &str,
    style: PathStyle,
) -> (r: String)
    ensures
        r@ == if local_exists {
            file@
        } else {
            match found {
                Some(path) => path@,
                None => beside_models(
                    match models {
                        Some(dir) => Some(dir@),
                        None => None,
                    },
                    file@,
                    style,
                ),
            }
        },
{
    if local_exists {
        file.to_owned()
    } else {
        match found {
            Some(path) => path,
            None => next_to_models(models, file, style),
        }
    }
}

/// Where auto mode writes finished meetings: a `transcripts/` directory next to
/// the models directory, so everything the app writes lives in one place (the
/// repo root when run from a checkout, `~/.transcribe` for a released build).
pub fn transcripts_dir(models: Option<&str>, style: PathStyle) -> (r: String)
    ensures
        r@ == beside_models(
            match models {
                Some(dir) => Some(dir@),
                None => None,
            },
            "transcripts"@,
            style,
        ),
{
    next_to_models(models, "transcripts", style)
}

/// The app's directory in a user's home.
pub fn user_dir_in(home: &str, style: PathStyle) -> (r: String)
    ensures
        r@ == joined(home@, ".transcribe"@, style),
{
    join_path(home, ".transcribe", style)
}

/// Per-user models directory (`~/.transcribe/models`) — where model downloads go
/// when the app runs outside the repo, e.g. a released bundle dragged to
/// /Applications.
pub fn models_dir_in(home: &str, style: PathStyle) -> (r: String)
    ensures
        r@ == joined(joined(home@, ".transcribe"@, style), "models"@, style),
{
    join_path(user_dir_in(home, style).as_str(), "models", style)
}

/// Where the models directory is: in the working directory (running from the repo
/// root), else where it was found upward from the executable (running from
/// target/release/ or a .app bundle inside the repo), else the per-user fallback
/// used by released builds, if it is there.
pub fn models_place(local_exists: bool, found: Option<String>, fallback: Option<String>) -> (r:
    Option<String>)
    ensures
        match r {
            Some(dir) => dir@ == if local_exists {
                "models"@
            } else {
                match found {
                    Some(path) => path@,
                    None => fallback->Some_0@,
                }
            },
            None => !local_exists && found is None && fallback is None,
        },
        r is Some <==> local_exists || found is Some || fallback is Some,
{
    if local_exists {
        Some("models".to_owned())
    } else {
        match found {
            Some(path) => Some(path),
            None => fallback,
        }
    }
}

/// Whether a text can be the name of a file where slashes divide: not empty, none
/// of them in it, and neither `.` nor `..`.
pub open spec fn file_name_like(name: Seq<char>) -> bool {
    &&& name.len() > 0
    &&& forall|i: int| 0 <= i < name.len() ==> #[trigger] name[i] != '/'
    &&& name != seq!['.'] && name != seq!['.', '.']
}

/// Whether a text is the path of a directory as it is written: not empty, and with
/// neither a slash nor a `/.` at its end.
pub open spec fn plain_dir(dir: Seq<char>) -> bool {
    &&& dir.len() > 0
    &&& dir.last() != '/'
    &&& !(dir.len() > 1 && dir.last() == '.' && dir[dir.len() - 2] == '/')
}

/// The last part of a path where slashes divide is the name behind the directory.
proof fn lemma_name_in_dir(dir: Seq<char>, name: Seq<char>)
    requires
        plain_dir(dir),
        file_name_like(name),
    ensures
        ({
            let path = dir + seq!['/'] + name;
            &&& joined(dir, name, PathStyle::Slashes) == path
            &&& anchor(path, PathStyle::Slashes) <= dir.len()
            &&& without_end(path, anchor(path, PathStyle::Slashes), Divider::Slash) == path
            &&& last_part(path, PathStyle::Slashes) == name
        }),
{
    let style = PathStyle::Slashes;
    let path = dir + seq!['/'] + name;
    let low = anchor(path, style);
    let k = dir.len() as int;
    assert(joined(dir, name, style) =~= path);
    assert(path[0] == dir[0]);
    assert(low <= 1);
    assert(path.last() == name.last());
    assert(name[name.len() - 1] == name.last());
    if name.last() == '.' && name.len() == 1 {
        assert(name =~= seq!['.']);
    }
    if name.len() > 1 {
        assert(path[path.len() - 2] == name[name.len() - 2]);
    } else {
        assert(path[path.len() - 2] == '/');
    }
    assert(without_end(path, low, Divider::Slash) == path);
    let body = path.skip(low);
    let n = name.len();
    assert forall|i: int| body.len() - n <= i < body.len() implies Class::Except('/').has(
        #[trigger] body[i],
    ) by {
        assert(body[i] == name[i - (body.len() - n)]);
    }
    assert(n <= body.len());
    if n < body.len() {
        assert(body[body.len() - n - 1] == path[k]);
        assert(path[k] == '/');
    }
    lemma_trailing_is(body, Class::Except('/'), n);
    assert(body.skip(body.len() - n) =~= name);
}

/// A file that is put into a directory is in that directory.
pub proof fn law_a_file_is_in_its_directory(dir: Seq<char>, name: Seq<char>)
    requires
        plain_dir(dir),
        file_name_like(name),
    ensures
        parent_of(joined(dir, name, PathStyle::Slashes), PathStyle::Slashes) == Some(dir),
        joined(dir, name, PathStyle::Slashes) == dir + seq!['/'] + name,
{
    let style = PathStyle::Slashes;
    let path = dir + seq!['/'] + name;
    let low = anchor(path, style);
    lemma_name_in_dir(dir, name);
    let front = path.take(path.len() - name.len());
    assert(front =~= dir.push('/'));
    assert(front.drop_last() =~= dir);
    assert(without_end(front, low, Divider::Slash) == without_end(dir, low, Divider::Slash));
    assert(without_end(dir, low, Divider::Slash) == dir);
}

/// The extension of a file is what follows the last dot of its name, wherever the
/// file is.
pub proof fn law_the_extension_follows_the_last_dot(
    dir: Seq<char>,
    stem: Seq<char>,
    ext: Seq<char>,
)
    requires
        plain_dir(dir),
        stem.len() > 0,
        forall|i: int| 0 <= i < stem.len() ==> #[trigger] stem[i] != '/',
        forall|i: int| 0 <= i < ext.len() ==> #[trigger] ext[i] != '/' && ext[i] != '.',
        stem + seq!['.'] + ext != seq!['.', '.'],
    ensures
        extension_of(dir + seq!['/'] + (stem + seq!['.'] + ext), PathStyle::Slashes) == Some(ext),
{
    reveal_strlit("..");
    let name = stem + seq!['.'] + ext;
    assert forall|i: int| 0 <= i < name.len() implies #[trigger] name[i] != '/' by {
        if i < stem.len() {
            assert(name[i] == stem[i]);
        } else if i > stem.len() {
            assert(name[i] == ext[i - stem.len() - 1]);
        }
    }
    assert(name.len() >= 2);
    lemma_name_in_dir(dir, name);
    let n = ext.len();
    assert forall|i: int| name.len() - n <= i < name.len() implies Class::Except('.').has(
        #[trigger] name[i],
    ) by {
        assert(name[i] == ext[i - (name.len() - n)]);
    }
    assert(name[name.len() - n - 1] == '.');
    lemma_trailing_is(name, Class::Except('.'), n);
    assert(name.skip(name.len() - n) =~= ext);
    assert(".."@ =~= seq!['.', '.']);
}

/// Looking upward goes from a path to the directory that holds it, and on from
/// there, until there is none.
pub proof fn law_upward_is_parent_by_parent(path: Seq<char>, style: PathStyle, i: int)
    requires
        0 <= i < ancestors_of(path, style).len(),
    ensures
        i == 0 ==> Some(ancestors_of(path, style)[0]) == parent_of(path, style),
        i > 0 ==> Some(ancestors_of(path, style)[i]) == parent_of(
            ancestors_of(path, style)[i - 1],
            style,
        ),
        i == ancestors_of(path, style).len() - 1 ==> parent_of(ancestors_of(path, style)[i], style)
            is None,
    decreases path.len(),
{
    match parent_of(path, style) {
        Some(dir) => {
            lemma_parent_is_shorter(path, style);
            let rest = ancestors_of(dir, style);
            if i > 0 {
                law_upward_is_parent_by_parent(dir, style, i - 1);
                assert(ancestors_of(path, style)[i] == rest[i - 1]);
            } else {
                assert(ancestors_of(path, style)[0] == dir);
                if rest.len() == 0 {
                    assert(parent_of(dir, style) is None);
                }
            }
        },
        None => {},
    }
}

/// Whether a text can be the name of a file where slashes of both kinds divide.
pub open spec fn drive_name_like(name: Seq<char>) -> bool {
    &&& file_name_like(name)
    &&& forall|i: int| 0 <= i < name.len() ==> #[trigger] name[i] != '\\'
}

/// Whether a text is the path of a directory on a drive as it is written: a letter,
/// a colon and more, with neither a slash of either kind nor one and a dot at its
/// end.
pub open spec fn plain_drive_dir(dir: Seq<char>) -> bool {
    &&& dir.len() > 2
    &&& 'a' <= dir[0] <= 'z' || 'A' <= dir[0] <= 'Z'
    &&& dir[1] == ':'
    &&& dir.last() != '/' && dir.last() != '\\'
    &&& !(dir.last() == '.' && (dir[dir.len() - 2] == '/' || dir[dir.len() - 2] == '\\'))
}

/// What a file's path on a drive is made of.
proof fn lemma_name_on_drive(dir: Seq<char>, name: Seq<char>, slash: char)
    requires
        plain_drive_dir(dir),
        drive_name_like(name),
        slash == '/' || slash == '\\',
    ensures
        ({
            let path = dir + seq![slash] + name;
            &&& prefix(path, PathStyle::Drives) == (Prefix::Drive, 2int)
            &&& prefix(dir, PathStyle::Drives) == (Prefix::Drive, 2int)
            &&& anchor(path, PathStyle::Drives) <= dir.len()
            &&& without_end(path, anchor(path, PathStyle::Drives), Divider::Either) == path
            &&& last_part(path, PathStyle::Drives) == name
        }),
{
    let style = PathStyle::Drives;
    let divider = Divider::Either;
    let path = dir + seq![slash] + name;
    let k = dir.len() as int;
    assert(path[0] == dir[0] && path[1] == dir[1] && path[2] == dir[2]);
    assert(prefix(path, style) == (Prefix::Drive, 2int));
    let low = anchor(path, style);
    if dir.len() == 3 {
        assert(dir[2] == dir.last());
    }
    assert(low <= k);
    assert(path.last() == name.last());
    assert(name[name.len() - 1] == name.last());
    if name.last() == '.' && name.len() == 1 {
        assert(name =~= seq!['.']);
    }
    if name.len() > 1 {
        assert(path[path.len() - 2] == name[name.len() - 2]);
    }
    assert(without_end(path, low, divider) == path);
    let body = path.skip(low);
    let n = name.len();
    assert forall|i: int| body.len() - n <= i < body.len() implies divider.inner().has(
        #[trigger] body[i],
    ) by {
        assert(body[i] == name[i - (body.len() - n)]);
    }
    assert(n < body.len());
    assert(body[body.len() - n - 1] == path[k]);
    assert(path[k] == slash);
    lemma_trailing_is(body, divider.inner(), n);
    assert(body.skip(body.len() - n) =~= name);
}

/// A file that is put into a directory on a drive is in that directory; a slash of
/// either kind before its name will do.
pub proof fn law_a_file_is_in_its_directory_on_a_drive(
    dir: Seq<char>,
    name: Seq<char>,
    slash: char,
)
    requires
        plain_drive_dir(dir),
        drive_name_like(name),
        slash == '/' || slash == '\\',
    ensures
        joined(dir, name, PathStyle::Drives) == dir + seq!['\\'] + name,
        parent_of(dir + seq![slash] + name, PathStyle::Drives) == Some(dir),
{
    let style = PathStyle::Drives;
    let path = dir + seq![slash] + name;
    let low = anchor(path, style);
    lemma_name_on_drive(dir, name, slash);
    assert(joined(dir, name, style) =~= dir + seq!['\\'] + name);
    let front = path.take(path.len() - name.len());
    assert(front =~= dir.push(slash));
    assert(front.drop_last() =~= dir);
    assert(without_end(front, low, Divider::Either) == without_end(dir, low, Divider::Either));
    assert(without_end(dir, low, Divider::Either) == dir);
}

/// The extension of a file on a drive is what follows the last dot of its name.
pub proof fn law_the_extension_on_a_drive_follows_the_last_dot(
    dir: Seq<char>,
    stem: Seq<char>,
    ext: Seq<char>,
    slash: char,
)
    requires
        plain_drive_dir(dir),
        drive_name_like(stem + seq!['.'] + ext),
        stem.len() > 0,
        slash == '/' || slash == '\\',
        forall|i: int| 0 <= i < ext.len() ==> #[trigger] ext[i] != '.',
    ensures
        extension_of(dir + seq![slash] + (stem + seq!['.'] + ext), PathStyle::Drives) == Some(ext),
{
    let name = stem + seq!['.'] + ext;
    lemma_name_on_drive(dir, name, slash);
    reveal_strlit("..");
    assert(".."@ =~= seq!['.', '.']);
    let n = ext.len();
    assert forall|i: int| name.len() - n <= i < name.len() implies Class::Except('.').has(
        #[trigger] name[i],
    ) by {
        assert(name[i] == ext[i - (name.len() - n)]);
    }
    assert(name[name.len() - n - 1] == '.');
    lemma_trailing_is(name, Class::Except('.'), n);
    assert(name.skip(name.len() - n) =~= ext);
}

/// A file without a dot in its name, but for one in front, has no extension, and a
/// root is in no directory.
pub proof fn law_names_without_a_dot_have_no_extension(dir: Seq<char>, name: Seq<char>)
    requires
        plain_dir(dir),
        file_name_like(name),
        forall|i: int| 1 <= i < name.len() ==> #[trigger] name[i] != '.',
    ensures
        extension_of(dir + seq!['/'] + name, PathStyle::Slashes) is None,
        parent_of(seq!['/'], PathStyle::Slashes) is None,
        parent_of(Seq::<char>::empty(), PathStyle::Slashes) is None,
{
    lemma_name_in_dir(dir, name);
    lemma_trailing(name, Class::Except('.'));
    let n = trailing(name, Class::Except('.'));
    if n + 1 < name.len() {
        assert(name[name.len() - n - 1] == '.');
    }
}

/// A file that lives next to the models is in the directory that holds theirs.
pub proof fn law_beside_the_models_is_in_the_same_place(
    base: Seq<char>,
    models: Seq<char>,
    file: Seq<char>,
)
    requires
        plain_dir(base),
        file_name_like(models),
        file_name_like(file),
    ensures
        beside_models(Some(base + seq!['/'] + models), file, PathStyle::Slashes) == base + seq!['/']
            + file,
        beside_models(None, file, PathStyle::Slashes) == file,
{
    law_a_file_is_in_its_directory(base, models);
    law_a_file_is_in_its_directory(base, file);
}

} // verus!
