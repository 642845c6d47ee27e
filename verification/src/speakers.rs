//! Giving voices names after the fact: labels in a finished transcript, and
//! enrolled profiles.

use vstd::prelude::*;
use vstd::slice::slice_subrange;

use crate::assembly::SpeakerVoice;
use crate::diarize::SpeakerProfile;
use crate::numerals::{decimal, push_number};
use crate::text::{
    chars_of, contains, final_newline, find, find_in, first_at, join, join_strings, lemma_find_is,
    lemma_lines_join, lemma_lines_of_join, lemma_lines_plain, lines, lines_of, occurs_at, pieces,
    plain_line, push_slice, same_text, stands_at, starts_with, text_of, texts, trim, trim_of, Class,
};

verus! {

/// How long the `[.. --> ..]` timestamp at the start of a line is, with the two
/// blanks behind it.
pub open spec fn stamp_len(line: Seq<char>) -> int {
    if line.len() > 0 && line[0] == '[' {
        match find(line, "]  "@) {
            Some(i) => i + 3,
            None => 0,
        }
    } else {
        0
    }
}

/// Whether a line is labeled `label`.
pub open spec fn labeled(line: Seq<char>, label: Seq<char>) -> bool {
    starts_with(line.skip(stamp_len(line)), label + ": "@)
}

/// A line with the label `old` replaced by `new`.
pub open spec fn renamed_line(line: Seq<char>, old: Seq<char>, new: Seq<char>) -> Seq<char> {
    let n = stamp_len(line);
    if labeled(line, old) {
        line.take(n) + new + ": "@ + line.skip(n + old.len() + 2)
    } else {
        line
    }
}

/// A transcript with the label `old` replaced by `new`.
pub open spec fn renamed(text: Seq<char>, old: Seq<char>, new: Seq<char>) -> Seq<char> {
    join(
        Seq::new(lines(text).len(), |i: int| renamed_line(lines(text)[i], old, new)),
        "\n"@,
    ) + final_newline(text)
}

/// How long the timestamp at the start of a line is.
fn stamp_length(line: &[char]) -> (r: usize)
    ensures
        r == stamp_len(line@),
        r <= line@.len(),
{
    proof {
        reveal_strlit("]  ");
    }
    let close = chars_of("]  ");
    if line.len() > 0 && line[0] == '[' {
        match find_in(line, &close) {
            Some(i) => {
                proof {
                    assert(occurs_at(line@, close@, i as int));
                }
                i + 3
            },
            None => 0,
        }
    } else {
        0
    }
}

/// A line with the label `old` replaced by `new`; `prefix` is `old` with its
/// colon and blank.
fn rename_line(line: &[char], prefix: &[char], new: &str, Ghost(old): Ghost<Seq<char>>) -> (r:
    String)
    requires
        prefix@ == old + ": "@,
    ensures
        r@ == renamed_line(line@, old, new@),
{
    proof {
        reveal_strlit(": ");
    }
    let n = stamp_length(line);
    let rest = slice_subrange(line, n, line.len());
    proof {
        assert(rest@ == line@.skip(n as int));
    }
    if stands_at(rest, prefix, 0) {
        let mut out = text_of(slice_subrange(line, 0, n));
        out.push_str(new);
        out.push_str(": ");
        push_slice(&mut out, slice_subrange(rest, prefix.len(), rest.len()));
        proof {
            assert(rest@.skip(prefix@.len() as int) == line@.skip(n + old.len() + 2));
            assert(out@ == renamed_line(line@, old, new@));
        }
        out
    } else {
        text_of(line)
    }
}

/// Replace a speaker label at the start of transcript lines — also after a
/// `[.. --> ..]` timestamp prefix: "Speaker 1: " becomes "John Doe: ".
pub fn rename_speaker(transcript: &str, old: &str, new: &str) -> (r: String)
    ensures
        r@ == renamed(transcript@, old@, new@),
{
    let chars = chars_of(transcript);
    let list = lines_of(&chars);
    let mut prefix = chars_of(old);
    let mut colon = chars_of(": ");
    prefix.append(&mut colon);
    let ghost all = lines(transcript@);
    let ghost want = Seq::new(all.len(), |i: int| renamed_line(all[i], old@, new@));
    let mut out: Vec<String> = Vec::new();
    let mut i: usize = 0;
    while i < list.len()
        invariant
            i <= list@.len(),
            all == pieces(list@),
            prefix@ == old@ + ": "@,
            want == Seq::new(all.len(), |k: int| renamed_line(all[k], old@, new@)),
            texts(out@) == want.take(i as int),
        decreases list.len() - i,
    {
        let ghost before = texts(out@);
        let line = rename_line(list[i], &prefix, new, Ghost(old@));
        proof {
            assert(all[i as int] == list@[i as int]@);
            assert(line@ == want[i as int]);
        }
        out.push(line);
        i += 1;
        proof {
            assert(texts(out@) == before.push(want[i - 1]));
            assert(want.take(i as int) == want.take(i - 1).push(want[i - 1]));
        }
    }
    let mut text = join_strings(&out, "\n");
    proof {
        assert(want.take(i as int) == want);
    }
    if chars.len() > 0 && chars[chars.len() - 1] == '\n' {
        text.push('\n');
        proof {
            assert(text@ == renamed(transcript@, old@, new@));
        }
    } else {
        proof {
            assert(text@ == renamed(transcript@, old@, new@));
        }
    }
    text
}

/// Renaming a label that no line has changes nothing: in particular a name in
/// the middle of a line stays, and "Speaker 10" is not touched when "Speaker 1"
/// is renamed. (Line endings with a carriage return become plain ones.)
pub proof fn law_only_labels_are_renamed(text: Seq<char>, old: Seq<char>, new: Seq<char>)
    requires
        !text.contains('\r'),
        forall|i: int| 0 <= i < lines(text).len() ==> !labeled(#[trigger] lines(text)[i], old),
    ensures
        renamed(text, old, new) == text,
{
    reveal_strlit("\n");
    assert("\n"@ == seq!['\n']);
    assert(Seq::new(lines(text).len(), |i: int| renamed_line(lines(text)[i], old, new)) =~= lines(
        text,
    ));
    lemma_lines_join(text);
}

/// Renaming a label and back gives the line that was there before.
pub proof fn law_renaming_back(line: Seq<char>, old: Seq<char>, new: Seq<char>)
    requires
        labeled(line, old),
        !(new.len() > 0 && new[0] == '['),
    ensures
        labeled(renamed_line(line, old, new), new),
        renamed_line(renamed_line(line, old, new), new, old) == line,
{
    reveal_strlit(": ");
    reveal_strlit("]  ");
    let n = stamp_len(line);
    let close = "]  "@;
    let tail = line.skip(n + old.len() + 2);
    let now = renamed_line(line, old, new);
    if line.len() > 0 && line[0] == '[' && n > 0 {
        let i = n - 3;
        lemma_find(line, close);
        assert(first_at(line, close, i));
        assert(now.take(n) == line.take(n));
        assert forall|j: int| 0 <= j <= i implies (occurs_at(now, close, j) <==> #[trigger] occurs_at(
            line,
            close,
            j,
        )) by {
            assert(now.subrange(j, j + 3) == now.take(n).subrange(j, j + 3));
            assert(line.subrange(j, j + 3) == line.take(n).subrange(j, j + 3));
        }
        assert(first_at(now, close, i)) by {
            assert forall|j: int| 0 <= j < i implies !#[trigger] occurs_at(now, close, j) by {
                assert(!occurs_at(line, close, j));
            }
            assert(occurs_at(line, close, i));
        }
        lemma_find_is(now, close, i);
        assert(now[0] == now.take(n)[0]);
        assert(line[0] == line.take(n)[0]);
    } else {
        assert(n == 0) by {
            if n != 0 {
                lemma_find(line, close);
            }
        }
        assert(now[0] != '[') by {
            if new.len() > 0 {
                assert(now[0] == new[0]);
            } else {
                assert(now[0] == ':');
            }
        }
    }
    assert(stamp_len(now) == n);
    assert(now.skip(n) == new + ": "@ + tail);
    assert(now.skip(n).subrange(0, new.len() as int + 2) == new + ": "@);
    assert(now.skip(n + new.len() + 2) == tail);
    assert(line.skip(n).subrange(0, old.len() as int + 2) == old + ": "@);
    assert(line == line.take(n) + line.skip(n));
    assert(line.skip(n) == line.skip(n).subrange(0, old.len() as int + 2) + tail);
    assert(now.take(n) == line.take(n));
    assert(now.take(n) + old + ": "@ + tail == line.take(n) + ((old + ": "@) + tail));
}

/// A label that is renamed leaves a line a line.
proof fn lemma_renamed_plain(line: Seq<char>, old: Seq<char>, new: Seq<char>)
    requires
        plain_line(line),
        plain_line(new),
    ensures
        plain_line(renamed_line(line, old, new)),
        line.len() > 0 ==> renamed_line(line, old, new).len() > 0,
{
    reveal_strlit(": ");
    reveal_strlit("]  ");
    if labeled(line, old) {
        let n = stamp_len(line);
        lemma_find(line, "]  "@);
        let now = renamed_line(line, old, new);
        let k = new.len() as int;
        assert(line.skip(n).subrange(0, old.len() as int + 2).len() == old.len() + 2);
        assert forall|i: int| 0 <= i < now.len() implies now[i] != '\n' && now[i] != '\r' by {
            if i < n {
                assert(now[i] == line[i]);
                assert(line.contains(line[i]));
            } else if i < n + k {
                assert(now[i] == new[i - n]);
                assert(new.contains(new[i - n]));
            } else if i >= n + k + 2 {
                let j = i - k + old.len();
                assert(now[i] == line[j]);
                assert(line.contains(line[j]));
            }
        }
    }
}

/// A rename keeps the lines of a text, each as the rename makes it, and whether
/// it ends in a line ending.
pub proof fn law_renaming_keeps_the_lines(text: Seq<char>, old: Seq<char>, new: Seq<char>)
    requires
        !text.contains('\r'),
        plain_line(new),
    ensures
        lines(renamed(text, old, new)).len() == lines(text).len(),
        forall|i: int|
            0 <= i < lines(text).len() ==> #[trigger] lines(renamed(text, old, new))[i]
                == renamed_line(lines(text)[i], old, new),
        final_newline(renamed(text, old, new)) == final_newline(text),
{
    reveal_strlit("\n");
    assert("\n"@ =~= seq!['\n']);
    let list = lines(text);
    let there = Seq::new(list.len(), |i: int| renamed_line(list[i], old, new));
    lemma_lines_plain(text);
    if text.len() > 0 {
        assert forall|i: int| 0 <= i < there.len() implies plain_line(#[trigger] there[i]) by {
            lemma_renamed_plain(list[i], old, new);
        }
        lemma_renamed_plain(list.last(), old, new);
        lemma_lines_of_join(there, final_newline(text));
    } else {
        assert(there =~= Seq::<Seq<char>>::empty());
        assert(renamed(text, old, new) =~= Seq::<char>::empty());
    }
}

/// Renaming a label in a whole transcript and back gives the transcript again,
/// where nobody had the new name before.
pub proof fn law_renaming_there_and_back(text: Seq<char>, old: Seq<char>, new: Seq<char>)
    requires
        !text.contains('\r'),
        plain_line(new),
        !(new.len() > 0 && new[0] == '['),
        forall|i: int| 0 <= i < lines(text).len() ==> !labeled(#[trigger] lines(text)[i], new),
    ensures
        renamed(renamed(text, old, new), new, old) == text,
{
    reveal_strlit("\n");
    assert("\n"@ =~= seq!['\n']);
    let list = lines(text);
    let there = lines(renamed(text, old, new));
    law_renaming_keeps_the_lines(text, old, new);
    let back = Seq::new(there.len(), |i: int| renamed_line(there[i], new, old));
    assert forall|i: int| 0 <= i < list.len() implies #[trigger] back[i] == list[i] by {
        assert(there[i] == renamed_line(list[i], old, new));
        if labeled(list[i], old) {
            law_renaming_back(list[i], old, new);
        } else {
            assert(!labeled(list[i], new));
        }
    }
    assert(back =~= list);
    lemma_lines_join(text);
}

/// What is found is a first position.
proof fn lemma_find(s: Seq<char>, pattern: Seq<char>)
    ensures
        find(s, pattern) matches Some(i) ==> first_at(s, pattern, i),
{
    if crate::text::contains(s, pattern) {
        let k = choose|k: int| #[trigger] occurs_at(s, pattern, k);
        lemma_first_exists(s, pattern, k);
        let i = choose|i: int| #[trigger] first_at(s, pattern, i);
        lemma_find_is(s, pattern, i);
    }
}

/// Where a pattern stands, there is a first position.
proof fn lemma_first_exists(s: Seq<char>, pattern: Seq<char>, k: int)
    requires
        occurs_at(s, pattern, k),
    ensures
        exists|i: int| #[trigger] first_at(s, pattern, i),
    decreases k,
{
    if exists|j: int| 0 <= j < k && #[trigger] occurs_at(s, pattern, j) {
        let j = choose|j: int| 0 <= j < k && #[trigger] occurs_at(s, pattern, j);
        lemma_first_exists(s, pattern, j);
    } else {
        assert(first_at(s, pattern, k));
    }
}

/// The profiles of others than `name`.
pub open spec fn others<E>(profiles: Seq<SpeakerProfile<E>>, name: Seq<char>) -> Seq<
    SpeakerProfile<E>,
>
    decreases profiles.len(),
{
    if profiles.len() == 0 {
        Seq::empty()
    } else {
        let rest = others(profiles.drop_last(), name);
        if profiles.last().name@ == name {
            rest
        } else {
            rest.push(profiles.last())
        }
    }
}

/// Enroll a voice. Re-enrolling an existing name replaces their voice.
pub fn enroll<E>(profiles: Vec<SpeakerProfile<E>>, profile: SpeakerProfile<E>) -> (r: Vec<
    SpeakerProfile<E>,
>)
    ensures
        r@ == others(profiles@, profile.name@).push(profile),
{
    let ghost all = profiles@;
    let name = chars_of(profile.name.as_str());
    let mut left = profiles;
    let mut kept: Vec<SpeakerProfile<E>> = Vec::new();
    let mut n: usize = left.len();
    proof {
        assert(all.take(n as int) == all);
    }
    while n > 0
        invariant
            n == left@.len(),
            left@ == all.take(n as int),
            n <= all.len(),
            name@ == profile.name@,
            others(all, name@) == others(left@, name@) + kept@,
        decreases n,
    {
        let ghost before = kept@;
        proof {
            assert(all.take(n as int).drop_last() == all.take(n - 1));
        }
        match left.pop() {
            Some(other) => {
                let theirs = chars_of(other.name.as_str());
                if !same_text(&theirs, &name) {
                    let ghost added = other;
                    kept.insert(0, other);
                    proof {
                        assert(others(left@, name@) + kept@ == others(left@, name@).push(added)
                            + before);
                    }
                }
            },
            None => {},
        }
        n -= 1;
    }
    kept.push(profile);
    proof {
        assert(others(left@, name@) == Seq::<SpeakerProfile<E>>::empty());
        assert(kept@ == others(all, name@).push(profile));
    }
    kept
}

/// Enrolling a name replaces every profile of that name and keeps all others.
pub proof fn law_enrolling_replaces<E>(
    profiles: Seq<SpeakerProfile<E>>,
    name: Seq<char>,
    p: SpeakerProfile<E>,
)
    ensures
        others(profiles, name).contains(p) <==> profiles.contains(p) && p.name@ != name,
    decreases profiles.len(),
{
    if profiles.len() > 0 {
        let shorter = profiles.drop_last();
        let last = profiles.last();
        let rest = others(shorter, name);
        law_enrolling_replaces(shorter, name, p);
        assert(profiles == shorter.push(last));
        assert(shorter.push(last).contains(p) <==> shorter.contains(p) || p == last) by {
            lemma_holds_push(shorter, last, p);
        }
        assert(rest.push(last).contains(p) <==> rest.contains(p) || p == last) by {
            lemma_holds_push(rest, last, p);
        }
    }
}

/// What a list with one more entry holds.
proof fn lemma_holds_push<E>(
    list: Seq<SpeakerProfile<E>>,
    last: SpeakerProfile<E>,
    p: SpeakerProfile<E>,
)
    ensures
        list.push(last).contains(p) <==> list.contains(p) || p == last,
{
    if list.contains(p) {
        let k = choose|k: int| 0 <= k < list.len() && #[trigger] list[k] == p;
        assert(list.push(last)[k] == p);
    }
    assert(list.push(last)[list.len() as int] == last);
    if list.push(last).contains(p) && p != last {
        let k = choose|k: int| 0 <= k < list.len() + 1 && #[trigger] list.push(last)[k] == p;
        assert(list[k] == p);
    }
}

/// The labels of voices.
pub open spec fn labels<E>(voices: Seq<SpeakerVoice<E>>) -> Seq<Seq<char>> {
    Seq::new(voices.len(), |i: int| voices[i].label@)
}

/// Whether what was typed beside a label gives it another name.
pub open spec fn gives_name(label: Seq<char>, input: Seq<char>) -> bool {
    let name = trim(input, Class::White);
    name.len() > 0 && name != label
}

/// The first `n` labels that were given another name, as positions.
pub open spec fn renames(labels: Seq<Seq<char>>, inputs: Seq<Seq<char>>, n: int) -> Seq<usize>
    decreases n,
{
    if n <= 0 {
        Seq::empty()
    } else {
        let rest = renames(labels, inputs, n - 1);
        if gives_name(labels[n - 1], inputs[n - 1]) {
            rest.push((n - 1) as usize)
        } else {
            rest
        }
    }
}

/// A transcript in which the first `n` labels have the names that they were
/// given, one after another.
pub open spec fn all_renamed(
    text: Seq<char>,
    labels: Seq<Seq<char>>,
    inputs: Seq<Seq<char>>,
    n: int,
) -> Seq<char>
    decreases n,
{
    if n <= 0 {
        text
    } else {
        let before = all_renamed(text, labels, inputs, n - 1);
        if gives_name(labels[n - 1], inputs[n - 1]) {
            renamed(before, labels[n - 1], trim(inputs[n - 1], Class::White))
        } else {
            before
        }
    }
}

/// Whether voices and inputs are what is left of them once the first `n` names
/// have been applied: a label that was given another name has it, and its input
/// is empty.
pub open spec fn names_applied<E>(
    voices: Seq<SpeakerVoice<E>>,
    inputs: Seq<String>,
    old_voices: Seq<SpeakerVoice<E>>,
    old_inputs: Seq<String>,
    n: int,
) -> bool {
    &&& voices.len() == old_voices.len()
    &&& inputs.len() == old_inputs.len()
    &&& forall|i: int|
        0 <= i < voices.len() ==> (#[trigger] voices[i]).embedding == old_voices[i].embedding
            && voices[i].label@ == if i < n && gives_name(old_voices[i].label@, old_inputs[i]@) {
            trim(old_inputs[i]@, Class::White)
        } else {
            old_voices[i].label@
        }
    &&& forall|i: int|
        0 <= i < inputs.len() ==> (#[trigger] inputs[i])@ == if i < n && gives_name(
            old_voices[i].label@,
            old_inputs[i]@,
        ) {
            Seq::<char>::empty()
        } else {
            old_inputs[i]@
        }
}

/// Give voices the names that were typed beside their labels, in the transcript
/// too. Blank inputs and unchanged names are passed over. Returns the transcript
/// and the positions of the voices that have another name now.
pub fn apply_renames<E>(
    transcript: String,
    voices: &mut Vec<SpeakerVoice<E>>,
    inputs: &mut Vec<String>,
) -> (r: (String, Vec<usize>))
    requires
        old(voices)@.len() == old(inputs)@.len(),
    ensures
        r.0@ == all_renamed(
            transcript@,
            labels(old(voices)@),
            texts(old(inputs)@),
            old(voices)@.len() as int,
        ),
        r.1@ == renames(
            labels(old(voices)@),
            texts(old(inputs)@),
            old(voices)@.len() as int,
        ),
        names_applied(
            final(voices)@,
            final(inputs)@,
            old(voices)@,
            old(inputs)@,
            old(voices)@.len() as int,
        ),
{
    let ghost voices0 = voices@;
    let ghost inputs0 = inputs@;
    let mut text = transcript;
    let mut changed: Vec<usize> = Vec::new();
    let count = voices.len();
    let mut i: usize = 0;
    while i < count
        invariant
            i <= count,
            count == voices0.len(),
            count == inputs0.len(),
            names_applied(voices@, inputs@, voices0, inputs0, i as int),
            text@ == all_renamed(transcript@, labels(voices0), texts(inputs0), i as int),
            changed@ == renames(labels(voices0), texts(inputs0), i as int),
        decreases count - i,
    {
        let typed = chars_of(inputs[i].as_str());
        let name = trim_of(&typed, Class::White);
        let label = chars_of(voices[i].label.as_str());
        proof {
            assert(labels(voices0)[i as int] == voices0[i as int].label@);
            assert(texts(inputs0)[i as int] == inputs0[i as int]@);
            assert(voices@[i as int].label@ == voices0[i as int].label@);
            assert(inputs@[i as int]@ == inputs0[i as int]@);
        }
        if name.len() > 0 && !same_text(name, &label) {
            let new_name = text_of(name);
            text = rename_speaker(text.as_str(), voices[i].label.as_str(), new_name.as_str());
            voices[i].label = new_name;
            inputs[i] = String::new();
            changed.push(i);
        }
        i += 1;
    }
    (text, changed)
}

/// What the status line says once labels have been renamed.
pub open spec fn rename_status_of(count: nat, enrolled: Option<Option<Seq<char>>>) -> Seq<char> {
    match enrolled {
        None => "renamed "@ + decimal(count) + " speaker(s)"@,
        Some(None) => "renamed and enrolled "@ + decimal(count)
            + " speaker(s) — future transcripts will use these names"@,
        Some(Some(error)) => "renamed, but enrolling failed: "@ + error,
    }
}

/// What the status line says once `count` labels have been renamed. Where the
/// voices were to be enrolled, `enrolled` holds the error of that, if there was
/// one.
pub fn rename_status(count: usize, enrolled: Option<Option<String>>) -> (r: String)
    ensures
        r@ == rename_status_of(
            count as nat,
            match enrolled {
                Some(Some(error)) => Some(Some(error@)),
                Some(None) => Some(None),
                None => None,
            },
        ),
{
    let mut out = String::new();
    match enrolled {
        None => {
            out.push_str("renamed ");
            push_number(&mut out, count as u64);
            out.push_str(" speaker(s)");
            proof {
                assert(out@ == "renamed "@ + decimal(count as nat) + " speaker(s)"@);
            }
        },
        Some(None) => {
            out.push_str("renamed and enrolled ");
            push_number(&mut out, count as u64);
            out.push_str(" speaker(s) — future transcripts will use these names");
            proof {
                assert(out@ == "renamed and enrolled "@ + decimal(count as nat)
                    + " speaker(s) — future transcripts will use these names"@);
            }
        },
        Some(Some(error)) => {
            out.push_str("renamed, but enrolling failed: ");
            out.push_str(error.as_str());
        },
    }
    out
}

/// A label at the start of a line is replaced, and all that follows it stays; so it
/// is behind a time in brackets, which stays too. A line that has the label nowhere
/// is not changed.
pub proof fn law_a_label_is_replaced(
    time: Seq<char>,
    old: Seq<char>,
    new: Seq<char>,
    rest: Seq<char>,
    line: Seq<char>,
)
    requires
        first_at("["@ + time + "]  "@, "]  "@, time.len() as int + 1),
    ensures
        old.len() > 0 && old[0] != '[' ==> renamed_line(old + ": "@ + rest, old, new) == new + ": "@
            + rest,
        ({
            let stamp = "["@ + time + "]  "@;
            renamed_line(stamp + old + ": "@ + rest, old, new) == stamp + new + ": "@ + rest
        }),
        !contains(line, old + ": "@) ==> renamed_line(line, old, new) == line,
{
    reveal_strlit(": ");
    reveal_strlit("[");
    reveal_strlit("]  ");
    let label = old + ": "@;
    if old.len() > 0 && old[0] != '[' {
        let a = label + rest;
        assert(a =~= old + ": "@ + rest);
        assert(a[0] == old[0]);
        assert(a.skip(0) =~= a);
        assert(a.subrange(0, label.len() as int) =~= label);
        assert(a.take(0) =~= Seq::<char>::empty());
        assert(a.skip(old.len() as int + 2) =~= rest);
        assert(renamed_line(a, old, new) =~= new + ": "@ + rest);
    }
    let stamp = "["@ + time + "]  "@;
    let b = stamp + old + ": "@ + rest;
    let close = "]  "@;
    let at = time.len() + 1;
    let n = stamp.len() as int;
    assert(b[0] == '[');
    assert(b.take(n) =~= stamp);
    assert forall|j: int| 0 <= j <= at implies (#[trigger] occurs_at(b, close, j) <==> occurs_at(
        stamp,
        close,
        j,
    )) by {
        assert(b.subrange(j, j + 3) =~= b.take(n).subrange(j, j + 3));
    }
    assert(occurs_at(stamp, close, at as int));
    assert(first_at(b, close, at as int)) by {
        assert forall|j: int| 0 <= j < at implies !#[trigger] occurs_at(b, close, j) by {
            assert(!occurs_at(stamp, close, j));
        }
    }
    lemma_find_is(b, close, at as int);
    assert(stamp_len(b) == n);
    assert(b.skip(n) =~= label + rest);
    assert(b.skip(n).subrange(0, label.len() as int) =~= label);
    assert(b.skip(n + old.len() + 2) =~= rest);
    assert(renamed_line(b, old, new) =~= stamp + new + ": "@ + rest);
    if !contains(line, label) && labeled(line, old) {
        let m = stamp_len(line);
        lemma_find(line, close);
        assert(line.skip(m).subrange(0, label.len() as int) =~= line.subrange(m, m + label.len()));
        assert(occurs_at(line, label, m));
    }
}

/// A voice is renamed where something other than its label, and more than blanks,
/// was typed beside it: those are the positions that are told, in order, and each
/// of those labels is replaced in the transcript, one after another.
pub proof fn law_typed_names_are_applied(
    text: Seq<char>,
    labels: Seq<Seq<char>>,
    inputs: Seq<Seq<char>>,
    n: int,
    i: usize,
)
    requires
        0 <= n <= labels.len(),
        n <= inputs.len(),
        n <= usize::MAX,
    ensures
        ({
            let typed = |k: int| trim(inputs[k], Class::White);
            let told = renames(labels, inputs, n);
            &&& told.contains(i) <==> i < n && typed(i as int).len() > 0 && typed(i as int)
                != labels[i as int]
            &&& forall|k: int, l: int|
                0 <= k < l < told.len() ==> (#[trigger] told[k]) < (#[trigger] told[l])
            &&& all_renamed(text, labels, inputs, 0) == text
            &&& n > 0 && typed(n - 1).len() > 0 && typed(n - 1) != labels[n - 1] ==> all_renamed(
                text,
                labels,
                inputs,
                n,
            ) == renamed(all_renamed(text, labels, inputs, n - 1), labels[n - 1], typed(n - 1))
            &&& n > 0 && !(typed(n - 1).len() > 0 && typed(n - 1) != labels[n - 1]) ==> all_renamed(
                text,
                labels,
                inputs,
                n,
            ) == all_renamed(text, labels, inputs, n - 1)
        }),
    decreases n,
{
    if n > 0 {
        let rest = renames(labels, inputs, n - 1);
        let told = renames(labels, inputs, n);
        law_typed_names_are_applied(text, labels, inputs, n - 1, i);
        assert forall|k: int| 0 <= k < rest.len() implies #[trigger] rest[k] < n - 1 by {
            law_typed_names_are_applied(text, labels, inputs, n - 1, rest[k]);
            assert(rest.contains(rest[k]));
        }
        if gives_name(labels[n - 1], inputs[n - 1]) {
            assert(told == rest.push((n - 1) as usize));
            assert(told[rest.len() as int] == n - 1);
            if rest.contains(i) {
                let k = choose|k: int| 0 <= k < rest.len() && #[trigger] rest[k] == i;
                assert(told[k] == i);
            }
            if told.contains(i) && i != n - 1 {
                let k = choose|k: int| 0 <= k < told.len() && #[trigger] told[k] == i;
                assert(rest[k] == i);
            }
            assert forall|k: int, l: int| 0 <= k < l < told.len() implies (#[trigger] told[k]) < (
            #[trigger] told[l]) by {
                assert(told[k] == rest[k]);
                if l < rest.len() {
                    assert(told[l] == rest[l]);
                }
            }
        }
    } else {
        assert(!renames(labels, inputs, n).contains(i));
    }
}

/// Enrolling keeps the others as they stand and puts the new profile behind them.
pub proof fn law_others_keep_their_order<E>(profiles: Seq<SpeakerProfile<E>>, name: Seq<char>)
    ensures
        others(profiles, name) == profiles.filter(|p: SpeakerProfile<E>| p.name@ != name),
    decreases profiles.len(),
{
    reveal(Seq::filter);
    if profiles.len() > 0 {
        law_others_keep_their_order(profiles.drop_last(), name);
    }
}

/// Only the front of a line is a label: a line that starts otherwise, also behind a
/// time in brackets, is not changed.
pub proof fn law_a_name_inside_a_line_stays(
    time: Seq<char>,
    rest: Seq<char>,
    old: Seq<char>,
    new: Seq<char>,
)
    requires
        rest.len() < old.len() + 2 || rest.take(old.len() as int + 2) != old + seq![':', ' '],
    ensures
        rest.len() == 0 || rest[0] != '[' ==> renamed_line(rest, old, new) == rest,
        first_at("["@ + time + "]  "@, "]  "@, time.len() as int + 1) ==> renamed_line(
            "["@ + time + "]  "@ + rest,
            old,
            new,
        ) == "["@ + time + "]  "@ + rest,
{
    reveal_strlit(": ");
    reveal_strlit("[");
    reveal_strlit("]  ");
    let label = old + ": "@;
    assert(label =~= old + seq![':', ' ']);
    let m = label.len() as int;
    assert(!starts_with(rest, label)) by {
        if starts_with(rest, label) {
            assert(rest.subrange(0, m) =~= rest.take(m));
        }
    }
    assert(rest.skip(0) =~= rest);
    let stamp = "["@ + time + "]  "@;
    let close = "]  "@;
    let at = time.len() + 1;
    let n = stamp.len() as int;
    if first_at(stamp, close, at as int) {
        let b = stamp + rest;
        assert(b[0] == '[');
        assert(b.take(n) =~= stamp);
        assert forall|j: int| 0 <= j <= at implies (#[trigger] occurs_at(b, close, j)
            <==> occurs_at(stamp, close, j)) by {
            assert(b.subrange(j, j + 3) =~= b.take(n).subrange(j, j + 3));
        }
        assert(occurs_at(stamp, close, at as int));
        assert(first_at(b, close, at as int)) by {
            assert forall|j: int| 0 <= j < at implies !#[trigger] occurs_at(b, close, j) by {
                assert(!occurs_at(stamp, close, j));
            }
        }
        lemma_find_is(b, close, at as int);
        assert(stamp_len(b) == n);
        assert(b.skip(n) =~= rest);
    }
}

/// A voice that was given a name has it, and what was typed is used up; every other
/// voice and what was typed beside it stay as they were. No voice sounds different.
pub proof fn law_voices_have_the_names_typed<E>(
    voices: Seq<SpeakerVoice<E>>,
    inputs: Seq<String>,
    old_voices: Seq<SpeakerVoice<E>>,
    old_inputs: Seq<String>,
    i: int,
)
    requires
        names_applied(voices, inputs, old_voices, old_inputs, old_voices.len() as int),
        old_inputs.len() == old_voices.len(),
        0 <= i < old_voices.len(),
    ensures
        ({
            let typed = trim(old_inputs[i]@, Class::White);
            let named = typed.len() > 0 && typed != old_voices[i].label@;
            &&& voices.len() == old_voices.len() && inputs.len() == old_inputs.len()
            &&& voices[i].embedding == old_voices[i].embedding
            &&& named ==> voices[i].label@ == typed && inputs[i]@.len() == 0
            &&& !named ==> voices[i].label@ == old_voices[i].label@ && inputs[i]@ == old_inputs[i]@
        }),
{
    assert(voices[i] == voices[i] && inputs[i] == inputs[i]);
}

} // verus!
