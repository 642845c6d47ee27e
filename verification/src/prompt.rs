//! The initial prompt: a glossary, notes on the recording, and a nudge toward
//! punctuated output.

use vstd::prelude::*;
use vstd::slice::slice_subrange;

use crate::text::{
    chars_of, contains, ends_in, ends_with_class, flattened, is_white, join, join_strings,
    law_only_the_character_goes, leading, leading_of, lemma_holds_itself, lemma_holds_middle,
    lemma_join_holds, lemma_join_push, lemma_leading, lemma_leading_is, lines, lines_of, occurs_at,
    one_line, remove_char, stands_at, starts_with, text_of, texts, trim, trim_of, trim_start,
    trim_start_of, white, without_char, Class,
};

verus! {

/// Nudges whisper toward punctuated, capitalized output (it otherwise tends to
/// lock into an unpunctuated style when a file starts mid-sentence).
pub const DEFAULT_PROMPT: &'static str = "Hello. Okay, let's get started, shall we?";

/// Whether a line starts with the number of a list item: digits and a dot, with
/// a blank or nothing behind them.
pub open spec fn numbered(line: Seq<char>) -> bool {
    let n = leading(line, Class::Digit) as int;
    &&& 0 < n < line.len()
    &&& line[n] == '.'
    &&& n + 1 < line.len() ==> white(line[n + 1])
}

/// A line without the number of a list item and the blanks behind it.
pub open spec fn unnumbered(line: Seq<char>) -> Seq<char> {
    if numbered(line) {
        trim_start(line.skip(leading(line, Class::Digit) as int + 1), Class::White)
    } else {
        line
    }
}

/// Whether a line starts with the bullet of a list item, with a blank or nothing
/// behind it.
pub open spec fn bulleted(line: Seq<char>) -> bool {
    &&& line.len() > 0
    &&& Class::Three('-', '*', '+').has(line[0])
    &&& line.len() > 1 ==> white(line[1])
}

/// A line without the bullet of a list item and the blanks behind it.
pub open spec fn unbulleted(line: Seq<char>) -> Seq<char> {
    if bulleted(line) {
        trim_start(line.skip(1), Class::White)
    } else {
        line
    }
}

/// A markdown line without its list marker and backticks.
pub open spec fn unmarked(line: Seq<char>) -> Seq<char> {
    without_char(unnumbered(unbulleted(line)), '`')
}

/// A line without the bullet of a list item and the blanks behind it.
fn skip_bullet<'a>(line: &'a [char]) -> (r: &'a [char])
    ensures
        r@ == unbulleted(line@),
{
    if line.len() > 0 && Class::Three('-', '*', '+').contains(line[0]) && (line.len() == 1
        || is_white(line[1])) {
        proof {
            assert(line@.subrange(1, line@.len() as int) =~= line@.skip(1));
        }
        trim_start_of(slice_subrange(line, 1, line.len()), Class::White)
    } else {
        line
    }
}

/// A line without the number of a list item and the blanks behind it.
fn skip_number<'a>(line: &'a [char]) -> (r: &'a [char])
    ensures
        r@ == unnumbered(line@),
{
    let n = leading_of(line, Class::Digit);
    if 0 < n && n < line.len() && line[n] == '.' && (n + 1 == line.len() || is_white(line[n + 1])) {
        proof {
            assert(line@.subrange(n + 1, line@.len() as int) =~= line@.skip(n + 1));
        }
        trim_start_of(slice_subrange(line, n + 1, line.len()), Class::White)
    } else {
        line
    }
}

/// Whether a line that has no blanks at its ends is neither empty, a heading
/// nor a comment.
pub open spec fn names_term(line: Seq<char>) -> bool {
    line.len() > 0 && !starts_with(line, "#"@) && !starts_with(line, "<!--"@)
}

/// The terms that `list` names, in order.
pub open spec fn terms(list: Seq<Seq<char>>) -> Seq<Seq<char>>
    decreases list.len(),
{
    if list.len() == 0 {
        Seq::empty()
    } else {
        let done = terms(list.drop_last());
        let line = trim(list.last(), Class::White);
        if names_term(line) && unmarked(line).len() > 0 {
            done.push(unmarked(line))
        } else {
            done
        }
    }
}

/// The terms in a markdown vocabulary: every line that isn't a heading or
/// comment, with list markers and backticks stripped.
pub fn vocabulary_terms(vocabulary_md: &str) -> (r: Vec<String>)
    ensures
        texts(r@) == terms(lines(vocabulary_md@)),
{
    let chars = chars_of(vocabulary_md);
    let list = lines_of(&chars);
    let heading = chars_of("#");
    let comment = chars_of("<!--");
    let mut out: Vec<String> = Vec::new();
    let ghost all = lines(vocabulary_md@);
    let mut i: usize = 0;
    while i < list.len()
        invariant
            i <= list.len(),
            all == crate::text::pieces(list@),
            heading@ == "#"@,
            comment@ == "<!--"@,
            texts(out@) == terms(all.take(i as int)),
        decreases list.len() - i,
    {
        let line = trim_of(list[i], Class::White);
        let ghost before = texts(out@);
        proof {
            assert(all.take(i + 1).drop_last() == all.take(i as int));
            assert(all.take(i + 1).last() == all[i as int]);
            assert(line@ == trim(all[i as int], Class::White));
        }
        if line.len() > 0 && !stands_at(line, &heading, 0) && !stands_at(line, &comment, 0) {
            let term = remove_char(skip_number(skip_bullet(line)), '`');
            if term.len() > 0 {
                out.push(text_of(&term));
                proof {
                    assert(texts(out@) == before.push(unmarked(line@)));
                }
            }
        }
        i += 1;
    }
    proof {
        assert(all.take(list.len() as int) == all);
    }
    out
}

/// The glossary sentence, if there are terms.
pub open spec fn glossary(vocabulary: Seq<char>) -> Seq<Seq<char>> {
    let list = terms(lines(vocabulary));
    if list.len() > 0 {
        seq!["Glossary: "@ + join(list, ", "@) + "."@]
    } else {
        Seq::empty()
    }
}

/// The notes as one sentence, if there are any.
pub open spec fn notes(context: Seq<char>) -> Seq<Seq<char>> {
    let line = one_line(context);
    if line.len() == 0 {
        Seq::empty()
    } else if ends_in(line, Class::Three('.', '!', '?')) {
        seq!["Context: "@ + line]
    } else {
        seq!["Context: "@ + line + "."@]
    }
}

/// The prompt: glossary, notes and nudge, as far as they are there.
pub open spec fn prompt_of(vocabulary: Seq<char>, context: Seq<char>) -> Seq<char> {
    join(glossary(vocabulary) + notes(context) + seq![DEFAULT_PROMPT@], " "@)
}

/// Build a whisper initial prompt from the vocabulary glossary plus free-form
/// context about the recording (meeting name, speakers, topics). Ends with
/// [`DEFAULT_PROMPT`] — whisper keeps the tail of an over-long prompt, so the
/// punctuation nudge survives even when a huge glossary gets truncated.
pub fn build_prompt(vocabulary_md: &str, context: &str) -> (r: String)
    ensures
        r@ == prompt_of(vocabulary_md@, context@),
{
    let list = vocabulary_terms(vocabulary_md);
    let mut parts: Vec<String> = Vec::new();
    proof {
        assert(texts(list@).len() == list@.len());
        assert(texts(parts@) == Seq::<Seq<char>>::empty());
    }
    if list.len() > 0 {
        let mut part = String::new();
        part.push_str("Glossary: ");
        part.push_str(join_strings(&list, ", ").as_str());
        part.push_str(".");
        let ghost said = part@;
        parts.push(part);
        proof {
            assert(said == "Glossary: "@ + join(texts(list@), ", "@) + "."@);
            assert(texts(parts@) == seq![said]);
        }
    }
    proof {
        assert(texts(parts@) == glossary(vocabulary_md@));
    }
    // Whisper treats the prompt as preceding transcript text, not as
    // instructions, so the notes go on one line.
    let line = flattened(context);
    let chars = chars_of(line.as_str());
    if chars.len() > 0 {
        let mut part = String::new();
        part.push_str("Context: ");
        part.push_str(line.as_str());
        if !ends_with_class(&chars, Class::Three('.', '!', '?')) {
            part.push_str(".");
        }
        let ghost said = part@;
        let ghost before = texts(parts@);
        parts.push(part);
        proof {
            assert(texts(parts@) == before.push(said));
            assert(seq![said] == notes(context@));
            assert(before.push(said) == before + seq![said]);
        }
    }
    let ghost before = texts(parts@);
    proof {
        assert(before == glossary(vocabulary_md@) + notes(context@));
    }
    let mut nudge = String::new();
    nudge.push_str(DEFAULT_PROMPT);
    proof {
        assert(nudge@ == DEFAULT_PROMPT@);
    }
    parts.push(nudge);
    proof {
        assert(texts(parts@) == before + seq![DEFAULT_PROMPT@]);
    }
    join_strings(&parts, " ")
}

/// Build a whisper initial prompt from a markdown vocabulary: every non-heading
/// line becomes a glossary term that biases recognition toward those words.
pub fn prompt_with_vocabulary(vocabulary_md: &str) -> (r: String)
    ensures
        r@ == prompt_of(vocabulary_md@, Seq::empty()),
{
    proof {
        reveal_strlit("");
        assert(""@ == Seq::<char>::empty());
    }
    build_prompt(vocabulary_md, "")
}

/// The prompt to decode with: the one that was asked for, else one made from
/// the vocabulary.
pub fn chosen_prompt(asked: Option<String>, vocabulary: &str) -> (r: String)
    ensures
        r@ == match asked {
            Some(prompt) => prompt@,
            None => if vocabulary@.len() == 0 {
                DEFAULT_PROMPT@
            } else {
                prompt_of(vocabulary@, Seq::empty())
            },
        },
{
    match asked {
        Some(prompt) => prompt,
        None => if chars_of(vocabulary).len() == 0 {
            let mut nudge = String::new();
            nudge.push_str(DEFAULT_PROMPT);
            proof {
                assert(nudge@ == DEFAULT_PROMPT@);
            }
            nudge
        } else {
            prompt_with_vocabulary(vocabulary)
        },
    }
}

/// The text that a prompt was built from: the notes, then the vocabulary.
pub fn prompt_sources(context: &str, vocabulary_md: &str) -> (r: String)
    ensures
        r@ == context@ + "\n"@ + vocabulary_md@,
{
    let mut out = context.to_owned();
    out.push_str("\n");
    out.push_str(vocabulary_md);
    out
}

/// However long glossary and notes are, the prompt ends with the nudge.
pub proof fn law_prompt_ends_with_nudge(vocabulary: Seq<char>, context: Seq<char>)
    ensures
        prompt_of(vocabulary, context).len() >= DEFAULT_PROMPT@.len(),
        prompt_of(vocabulary, context).skip(
            prompt_of(vocabulary, context).len() - DEFAULT_PROMPT@.len(),
        ) == DEFAULT_PROMPT@,
{
    let front = glossary(vocabulary) + notes(context);
    assert(front + seq![DEFAULT_PROMPT@] == front.push(DEFAULT_PROMPT@));
    lemma_join_push(front, DEFAULT_PROMPT@, " "@);
}

/// A vocabulary without terms and blank notes leave the nudge alone.
pub proof fn law_no_terms_no_notes(vocabulary: Seq<char>, context: Seq<char>)
    requires
        terms(lines(vocabulary)).len() == 0,
        one_line(context).len() == 0,
    ensures
        prompt_of(vocabulary, context) == DEFAULT_PROMPT@,
{
    assert(glossary(vocabulary) + notes(context) + seq![DEFAULT_PROMPT@] == seq![DEFAULT_PROMPT@]);
}

/// No term is empty or keeps a backtick.
pub proof fn law_terms_are_plain(list: Seq<Seq<char>>, i: int)
    requires
        0 <= i < terms(list).len(),
    ensures
        terms(list)[i].len() > 0,
        !terms(list)[i].contains('`'),
    decreases list.len(),
{
    let done = terms(list.drop_last());
    if i < done.len() {
        law_terms_are_plain(list.drop_last(), i);
        assert(terms(list)[i] == done[i]);
    } else {
        let line = trim(list.last(), Class::White);
        lemma_without_char(unnumbered(unbulleted(line)), '`');
    }
}

/// What is taken out of a text is no longer in it.
proof fn lemma_without_char(s: Seq<char>, c: char)
    ensures
        !without_char(s, c).contains(c),
    decreases s.len(),
{
    if s.len() > 0 {
        lemma_without_char(s.drop_last(), c);
        let shorter = without_char(s.drop_last(), c);
        if s.last() != c && shorter.push(s.last()).contains(c) {
            let k = choose|k: int|
                0 <= k < shorter.len() + 1 && #[trigger] shorter.push(s.last())[k] == c;
            if k < shorter.len() {
                assert(shorter[k] == c);
            }
        }
    }
}

/// Whether a line names a term: apart from blanks around it, it is not empty,
/// starts with neither a `#` nor `<!--`, and is more than a marker and backticks.
pub open spec fn says_a_term(line: Seq<char>) -> bool {
    let t = trim(line, Class::White);
    &&& t.len() > 0
    &&& t[0] != '#'
    &&& !(t.len() >= 4 && t[0] == '<' && t[1] == '!' && t[2] == '-' && t[3] == '-')
    &&& unmarked(t).len() > 0
}

/// Every line that names a term does so, in order: the vocabulary's terms are
/// those lines without blanks around them, markers and backticks, and no others.
pub proof fn law_every_line_names_a_term(list: Seq<Seq<char>>)
    ensures
        terms(list) == list.filter(|line: Seq<char>| says_a_term(line)).map_values(
            |line: Seq<char>| unmarked(trim(line, Class::White)),
        ),
    decreases list.len(),
{
    reveal(Seq::filter);
    reveal_strlit("#");
    reveal_strlit("<!--");
    let says = |line: Seq<char>| says_a_term(line);
    let term = |line: Seq<char>| unmarked(trim(line, Class::White));
    if list.len() > 0 {
        let shorter = list.drop_last();
        law_every_line_names_a_term(shorter);
        let t = trim(list.last(), Class::White);
        assert(starts_with(t, "#"@) == (t.len() >= 1 && t[0] == '#')) by {
            if t.len() >= 1 {
                assert(t.subrange(0, 1)[0] == t[0]);
                if t[0] == '#' {
                    assert(t.subrange(0, 1) =~= "#"@);
                }
            }
        }
        assert(starts_with(t, "<!--"@) == (t.len() >= 4 && t[0] == '<' && t[1] == '!' && t[2] == '-'
            && t[3] == '-')) by {
            if t.len() >= 4 {
                let front = t.subrange(0, 4);
                assert(front[0] == t[0] && front[1] == t[1] && front[2] == t[2] && front[3] == t[3]);
                if t[0] == '<' && t[1] == '!' && t[2] == '-' && t[3] == '-' {
                    assert(front =~= "<!--"@);
                }
            }
        }
        assert(names_term(t) && unmarked(t).len() > 0 <==> says_a_term(list.last()));
        if says_a_term(list.last()) {
            assert(list.filter(says).map_values(term) =~= shorter.filter(says).map_values(
                term,
            ).push(term(list.last())));
        }
        assert(terms(list) =~= list.filter(says).map_values(term));
    } else {
        assert(terms(list) =~= list.filter(says).map_values(term));
    }
}

/// Whether `n` digits and a dot at the start of a line number a list item.
pub open spec fn numbers_an_item(line: Seq<char>, n: int) -> bool {
    &&& 0 < n < line.len()
    &&& forall|i: int| 0 <= i < n ==> '0' <= #[trigger] line[i] <= '9'
    &&& line[n] == '.'
    &&& n + 1 < line.len() ==> white(line[n + 1])
}

/// A line is numbered where some digits and a dot number it.
proof fn lemma_numbered(line: Seq<char>, n: int)
    ensures
        numbers_an_item(line, n) ==> numbered(line) && leading(line, Class::Digit) == n,
        numbered(line) ==> numbers_an_item(line, leading(line, Class::Digit) as int),
{
    lemma_leading(line, Class::Digit);
    if numbers_an_item(line, n) {
        assert forall|i: int| 0 <= i < n implies Class::Digit.has(#[trigger] line[i]) by {
            assert('0' <= line[i] <= '9');
        }
        lemma_leading_is(line, Class::Digit, n as nat);
    }
    if numbered(line) {
        assert forall|i: int| 0 <= i < leading(line, Class::Digit) implies '0'
            <= #[trigger] line[i] <= '9' by {
            assert(Class::Digit.has(line[i]));
        }
    }
}

/// A term that starts with no marker only loses its backticks.
pub proof fn law_terms_without_markers_stay(line: Seq<char>)
    requires
        line.len() > 0,
        line[0] == '-' || line[0] == '*' || line[0] == '+' ==> line.len() > 1 && !white(line[1]),
        forall|n: int| !#[trigger] numbers_an_item(line, n),
    ensures
        unmarked(line) == line.filter(|c: char| c != '`'),
{
    lemma_numbered(line, leading(line, Class::Digit) as int);
    law_only_the_character_goes(line, '`');
}

/// A bullet with blanks behind it goes, and nothing else on its account; so do the
/// number of a list item and the blanks behind it.
pub proof fn law_markers_go(bullet: char, digits: Seq<char>, blanks: Seq<char>, term: Seq<char>)
    requires
        bullet == '-' || bullet == '*' || bullet == '+',
        digits.len() > 0,
        forall|i: int| 0 <= i < digits.len() ==> '0' <= #[trigger] digits[i] <= '9',
        blanks.len() > 0,
        forall|i: int| 0 <= i < blanks.len() ==> white(#[trigger] blanks[i]),
        term.len() > 0,
        !white(term[0]),
    ensures
        (forall|n: int| !#[trigger] numbers_an_item(term, n)) ==> unmarked(
            seq![bullet] + blanks + term,
        ) == term.filter(|c: char| c != '`'),
        unmarked(digits + seq!['.'] + blanks + term) == term.filter(|c: char| c != '`'),
{
    law_only_the_character_goes(term, '`');
    lemma_numbered(term, leading(term, Class::Digit) as int);
    let a = seq![bullet] + blanks + term;
    assert(a[1] == blanks[0]);
    let behind = a.skip(1);
    assert(behind =~= blanks + term);
    assert forall|i: int| 0 <= i < blanks.len() implies Class::White.has(
        #[trigger] behind[i],
    ) by {
        assert(behind[i] == blanks[i]);
    }
    assert(behind[blanks.len() as int] == term[0]);
    lemma_leading_is(behind, Class::White, blanks.len());
    assert(trim_start(behind, Class::White) =~= term);
    let b = digits + seq!['.'] + blanks + term;
    let n = digits.len() as int;
    assert forall|i: int| 0 <= i < n implies '0' <= #[trigger] b[i] <= '9' by {
        assert(b[i] == digits[i]);
    }
    assert(b[n] == '.');
    assert(b[n + 1] == blanks[0]);
    assert(numbers_an_item(b, n));
    lemma_numbered(b, n);
    assert(!bulleted(b)) by {
        assert(b[0] == digits[0]);
    }
    assert(b.skip(n + 1) =~= blanks + term);
    assert(b.skip(n + 1) =~= behind);
}

/// The prompt names every term of the vocabulary and holds the notes, as far as
/// there are any.
pub proof fn law_the_prompt_holds_terms_and_notes(
    vocabulary: Seq<char>,
    context: Seq<char>,
    i: int,
)
    ensures
        0 <= i < terms(lines(vocabulary)).len() ==> contains(
            prompt_of(vocabulary, context),
            terms(lines(vocabulary))[i],
        ),
        one_line(context).len() > 0 ==> contains(
            prompt_of(vocabulary, context),
            one_line(context),
        ),
{
    let list = glossary(vocabulary) + notes(context) + seq![DEFAULT_PROMPT@];
    let none = Seq::<char>::empty();
    if 0 <= i < terms(lines(vocabulary)).len() {
        let all = terms(lines(vocabulary));
        let term = all[i];
        lemma_join_holds(all, ", "@, i);
        lemma_holds_middle("Glossary: "@, join(all, ", "@), "."@, term);
        assert(list[0] == "Glossary: "@ + join(all, ", "@) + "."@);
        lemma_join_holds(list, " "@, 0);
        lemma_holds_on(prompt_of(vocabulary, context), list[0], term);
    }
    if one_line(context).len() > 0 {
        let line = one_line(context);
        let k = glossary(vocabulary).len() as int;
        lemma_holds_itself(line);
        lemma_holds_middle("Context: "@, line, none, line);
        lemma_holds_middle("Context: "@, line, "."@, line);
        assert("Context: "@ + line + none =~= "Context: "@ + line);
        assert(list[k] == notes(context)[0]);
        lemma_join_holds(list, " "@, k);
        lemma_holds_on(prompt_of(vocabulary, context), list[k], line);
    }
}

/// What a part of a text holds, the text holds.
pub proof fn lemma_holds_on(s: Seq<char>, part: Seq<char>, pattern: Seq<char>)
    requires
        contains(s, part),
        contains(part, pattern),
    ensures
        contains(s, pattern),
{
    let i = choose|i: int| #[trigger] occurs_at(s, part, i);
    let (front, back) = (s.take(i), s.skip(i + part.len()));
    assert(s.subrange(i, i + part.len()) == part);
    assert(s =~= front + part + back);
    lemma_holds_middle(front, part, back, pattern);
}

/// The glossary comes first and ends in a period, the notes come next and end as a
/// sentence does, with a period of their own only where they need one, and the
/// nudge comes last; what is not there leaves nothing behind.
pub proof fn law_glossary_notes_and_nudge_in_this_order(vocabulary: Seq<char>, context: Seq<char>)
    ensures
        ({
            let list = terms(lines(vocabulary));
            let line = one_line(context);
            let glossary = if list.len() > 0 {
                "Glossary: "@ + join(list, ", "@) + ". "@
            } else {
                Seq::empty()
            };
            let period = if line.len() > 0 && (line.last() == '.' || line.last() == '!'
                || line.last() == '?') {
                Seq::<char>::empty()
            } else {
                "."@
            };
            let notes = if line.len() > 0 {
                "Context: "@ + line + period + " "@
            } else {
                Seq::empty()
            };
            prompt_of(vocabulary, context) == glossary + notes + DEFAULT_PROMPT@
        }),
{
    reveal_strlit(". ");
    reveal_strlit(".");
    reveal_strlit(" ");
    let list = terms(lines(vocabulary));
    let line = one_line(context);
    let nudge = DEFAULT_PROMPT@;
    let (g, n) = (glossary(vocabulary), notes(context));
    let none = Seq::<Seq<char>>::empty();
    lemma_join_push(g + n, nudge, " "@);
    assert(g + n + seq![nudge] =~= (g + n).push(nudge));
    let term_list = "Glossary: "@ + join(list, ", "@);
    assert(term_list + "."@ + " "@ =~= term_list + ". "@);
    if list.len() > 0 && line.len() > 0 {
        lemma_join_push(g, n[0], " "@);
        assert(g + n =~= g.push(n[0]));
        assert(join(g, " "@) == g[0]);
    } else if list.len() > 0 {
        assert(g + n =~= g);
        assert(join(g, " "@) == g[0]);
    } else if line.len() > 0 {
        assert(g + n =~= n);
        assert(join(n, " "@) == n[0]);
    } else {
        assert(g + n =~= none);
    }
    let period = if line.len() > 0 && (line.last() == '.' || line.last() == '!' || line.last()
        == '?') {
        Seq::<char>::empty()
    } else {
        "."@
    };
    if line.len() > 0 {
        assert(n[0] =~= "Context: "@ + line + period);
    }
    let front = if list.len() > 0 {
        term_list + ". "@
    } else {
        Seq::empty()
    };
    let middle = if line.len() > 0 {
        "Context: "@ + line + period + " "@
    } else {
        Seq::empty()
    };
    assert(prompt_of(vocabulary, context) =~= front + middle + nudge);
}

} // verus!
