//! Local transcript summarization with a small chat model: what the model is
//! asked, how the transcript is made to fit, and what its answer says.

use vstd::prelude::*;
use vstd::slice::slice_subrange;
use vstd::utf8::{decode_utf8, valid_utf8};

use crate::prompt::{terms, vocabulary_terms};
use crate::text::{
    byte_len, bytes_of_char, char_bytes, chars_of, contains, count_fitting, find, find_in, first_at,
    fitting, join, join_slices, join_strings, law_patterns_go_one_by_one,
    law_trimming_takes_both_ends, leading, leading_of,
    lemma_byte_len_first, lemma_byte_len_push, lemma_byte_len_take, lemma_find_is, lemma_fitting,
    lemma_holds_itself, lemma_holds_middle, lemma_join_holds, lemma_leading, lemma_leading_is,
    lemma_trailing, lemma_trailing_is, lines, lines_of, lower_ascii_char, occurs_at, pieces,
    push_slice, remove_pattern, same_text, stands_at, starts_with, text_of, texts, to_ascii_lower,
    trailing, trim, trim_end, trim_end_of, trim_of, trim_start, trim_start_of, white, without_cr,
    without_pattern, Class,
};

verus! {

/// Model context window: room for roughly two hours of meeting transcript (an
/// hour is 10–15k tokens). Transcripts that tokenize past it are trimmed in the
/// middle, keeping the start and the end.
pub const N_CTX: u32 = 32_768;

/// Tokens reserved for the generated summary.
pub const MAX_OUTPUT_TOKENS: usize = 1_024;

/// Prompt tokens are fed to the model in chunks of this size.
pub const N_BATCH: usize = 2_048;

/// Tokens kept free beside prompt and answer.
pub const SPARE_TOKENS: usize = 64;

/// Naming a meeting only needs its shape, not every word, so it runs over a much
/// smaller window than a full summary — which keeps it to seconds even on a CPU.
pub const LABEL_N_CTX: u32 = 8_192;

/// Tokens reserved for a title and a sentence.
pub const LABEL_MAX_OUTPUT_TOKENS: usize = 128;

/// What the model is told a summary is.
pub const SYSTEM_PROMPT: &'static str = "You summarize meeting and speech transcripts. Answer in the language the transcript is written in. Structure the answer as: a short overview paragraph; key points as a bullet list; decisions and action items as bullet lists when the transcript contains any. Be concise and factual — never invent content that is not in the transcript.";

/// What the model is told a label is.
pub const LABEL_SYSTEM_PROMPT: &'static str = "You label meeting transcripts. Reply with exactly two lines and nothing else:\nTitle: a specific name for this meeting, at most six words, no quotes\nSummary: one sentence, at most 25 words, saying what it was about\nName the actual subject rather than the format — \"Q3 budget and hiring freeze\", not \"Team meeting\". Write both in the language the transcript is written in.";

/// What stands in place of the middle of a transcript.
pub const TRUNCATION_MARKER: &'static str = "\n[... middle of the transcript omitted ...]\n";

/// Where the last character boundary of `s` at or before byte `at` stands.
pub open spec fn boundary(s: Seq<char>, at: int) -> nat {
    byte_len(s.take(fitting(s, at) as int))
}

/// Largest index `<= at` that sits on a char boundary of `s`.
pub fn char_floor(s: &str, at: usize) -> (r: usize)
    ensures
        r == boundary(s@, at as int),
        r <= at,
{
    let chars = chars_of(s);
    let n = count_fitting(&chars, at);
    proof {
        lemma_fitting(chars@, at as int);
        assert(chars@.take(n as int) =~= s@.take(n as int));
    }
    count_bytes(slice_subrange(&chars, 0, n), at)
}

/// How many bytes some characters take, of which it is known that they take no
/// more than `most`.
fn count_bytes(s: &[char], most: usize) -> (r: usize)
    requires
        byte_len(s@) <= most,
    ensures
        r == byte_len(s@),
{
    let mut total: usize = 0;
    let mut i: usize = 0;
    proof {
        assert(s@.take(0) =~= Seq::<char>::empty());
    }
    while i < s.len()
        invariant
            i <= s@.len(),
            byte_len(s@) <= most,
            total == byte_len(s@.take(i as int)),
        decreases s.len() - i,
    {
        proof {
            lemma_byte_len_take(s@, i + 1);
            assert(s@.take(i + 1) =~= s@.take(i as int).push(s@[i as int]));
            lemma_byte_len_push(s@.take(i as int), s@[i as int]);
        }
        total += bytes_of_char(s[i]);
        i += 1;
    }
    proof {
        assert(s@.take(i as int) =~= s@);
    }
    total
}

/// How many characters of the start of a transcript are kept.
pub open spec fn kept_head(transcript: Seq<char>, keep: int) -> int {
    fitting(transcript, keep / 2) as int
}

/// From which character on the end of a transcript is kept.
pub open spec fn kept_tail(transcript: Seq<char>, keep: int) -> int {
    let head = byte_len(transcript.take(kept_head(transcript, keep)));
    fitting(transcript, byte_len(transcript) - (keep - head)) as int
}

/// The transcript, cut down to roughly `keep` bytes by dropping the middle.
pub open spec fn shortened(transcript: Seq<char>, keep: int) -> Seq<char> {
    if keep >= byte_len(transcript) {
        transcript
    } else {
        transcript.take(kept_head(transcript, keep)) + TRUNCATION_MARKER@ + transcript.skip(
            kept_tail(transcript, keep),
        )
    }
}

/// The transcript, cut down to roughly `keep` bytes by dropping the middle — the
/// start (agenda, names) and the end (decisions, action items) carry the most
/// weight in a meeting.
pub fn trimmed(transcript: &str, keep: usize) -> (r: String)
    ensures
        r@ == shortened(transcript@, keep as int),
{
    let len: usize = transcript.as_bytes().len();
    proof {
        assert(len == byte_len(transcript@));
    }
    if keep >= len {
        return transcript.to_owned();
    }
    let chars = chars_of(transcript);
    let head = count_fitting(&chars, keep / 2);
    proof {
        lemma_fitting(chars@, (keep / 2) as int);
    }
    let front = slice_subrange(&chars, 0, head);
    proof {
        assert(front@ =~= transcript@.take(head as int));
    }
    let head_bytes = count_bytes(front, keep / 2);
    let tail = count_fitting(&chars, len - (keep - head_bytes));
    let mut out = text_of(front);
    out.push_str(TRUNCATION_MARKER);
    push_slice(&mut out, slice_subrange(&chars, tail, chars.len()));
    proof {
        assert(chars@.subrange(tail as int, chars@.len() as int) =~= transcript@.skip(tail as int));
        assert(out@ =~= shortened(transcript@, keep as int));
    }
    out
}

/// What does not fit any more would take too much.
proof fn lemma_fitting_is_full(s: Seq<char>, room: int)
    requires
        room >= 0,
        fitting(s, room) < s.len(),
    ensures
        byte_len(s.take(fitting(s, room) as int)) + 4 > room,
    decreases s.len(),
{
    let n = fitting(s, room) as int;
    if char_bytes(s[0]) > room {
        assert(s.take(0) =~= Seq::<char>::empty());
    } else {
        let rest = s.drop_first();
        lemma_fitting_is_full(rest, room - char_bytes(s[0]));
        lemma_byte_len_first(s.take(n));
        assert(s.take(n).drop_first() =~= rest.take(n - 1));
    }
}

/// No boundary at or before a byte is further on.
pub proof fn law_boundary_is_the_last(s: Seq<char>, at: int, n: int)
    requires
        0 <= n <= s.len(),
        byte_len(s.take(n)) <= at,
    ensures
        byte_len(s.take(n)) <= boundary(s, at) <= at,
{
    lemma_fitting(s, at);
    lemma_fitting_at_least(s, n, at);
    let m = fitting(s, at) as int;
    assert(s.take(m).take(n) =~= s.take(n));
    lemma_byte_len_take(s.take(m), n);
}

/// Of a transcript that does not fit, start and end are kept, nothing of it
/// twice, and together no more than asked for but for the rest of a character.
pub proof fn law_the_middle_is_dropped(transcript: Seq<char>, keep: int)
    requires
        0 <= keep < byte_len(transcript),
    ensures
        0 <= kept_head(transcript, keep) <= kept_tail(transcript, keep) <= transcript.len(),
        byte_len(transcript.take(kept_head(transcript, keep))) + byte_len(
            transcript.skip(kept_tail(transcript, keep)),
        ) <= keep + 3,
{
    let h = kept_head(transcript, keep);
    let k = kept_tail(transcript, keep);
    let n = byte_len(transcript);
    lemma_fitting(transcript, keep / 2);
    let head = byte_len(transcript.take(h));
    let at = n - (keep - head);
    lemma_fitting(transcript, at);
    lemma_fitting_at_least(transcript, h, at);
    lemma_byte_len_take(transcript, k);
    if k < transcript.len() {
        lemma_fitting_is_full(transcript, at);
    }
}

/// What is kept of a transcript, and that it is no less than was asked for: a
/// transcript that fits stays as it is; of another the start and the end are
/// kept around the marker, at least `keep` bytes of it in all and at most three
/// more, about half of them from the start and no less than half from the end.
pub proof fn law_start_and_end_share_what_is_kept(transcript: Seq<char>, keep: int)
    requires
        0 <= keep,
    ensures
        keep >= byte_len(transcript) ==> shortened(transcript, keep) == transcript,
        keep < byte_len(transcript) ==> exists|h: int, t: int|
            {
                &&& 0 <= h <= t <= transcript.len()
                &&& shortened(transcript, keep) == #[trigger] transcript.take(h)
                    + "\n[... middle of the transcript omitted ...]\n"@ + #[trigger] transcript.skip(t)
                &&& keep <= byte_len(transcript.take(h)) + byte_len(transcript.skip(t)) <= keep + 3
                &&& keep - 7 <= 2 * byte_len(transcript.take(h)) <= keep
                &&& keep <= 2 * byte_len(transcript.skip(t))
            },
{
    if keep < byte_len(transcript) {
        let h = kept_head(transcript, keep);
        let t = kept_tail(transcript, keep);
        law_the_middle_is_dropped(transcript, keep);
        lemma_fitting(transcript, keep / 2);
        let head = byte_len(transcript.take(h));
        let at = byte_len(transcript) - (keep - head);
        lemma_fitting(transcript, at);
        lemma_byte_len_take(transcript, t);
        lemma_byte_len_take(transcript, h);
        if h < transcript.len() {
            lemma_fitting_is_full(transcript, keep / 2);
        } else {
            assert(transcript.take(h) =~= transcript);
        }
        assert(shortened(transcript, keep) == transcript.take(h) + TRUNCATION_MARKER@
            + transcript.skip(t));
    }
}

/// A front that takes no more bytes than there is room fits.
proof fn lemma_fitting_at_least(s: Seq<char>, n: int, room: int)
    requires
        0 <= n <= s.len(),
        byte_len(s.take(n)) <= room,
    ensures
        n <= fitting(s, room),
    decreases s.len(),
{
    if n > 0 {
        lemma_byte_len_first(s.take(n));
        let rest = s.drop_first();
        assert(s.take(n).drop_first() =~= rest.take(n - 1));
        lemma_fitting_at_least(rest, n - 1, room - char_bytes(s[0]));
    }
}

/// The names and terms that the answer should spell as the user does, if there
/// are any.
pub open spec fn spelling(vocabulary: Seq<char>) -> Seq<char> {
    let list = terms(lines(vocabulary));
    if list.len() > 0 {
        "Names and terms, spelled as they should appear: "@ + join(list, ", "@) + "\n\n"@
    } else {
        Seq::empty()
    }
}

/// The user's notes about the recording, if there are any.
pub open spec fn recording_notes(context: Seq<char>) -> Seq<char> {
    if trim(context, Class::White).len() > 0 {
        "Notes about the recording:\n"@ + context + "\n\n"@
    } else {
        Seq::empty()
    }
}

/// What stands before the transcript when a summary is asked for.
pub open spec fn summary_lead(context: Seq<char>, vocabulary: Seq<char>) -> Seq<char> {
    recording_notes(context) + spelling(vocabulary) + "Summarize this transcript:\n\n"@
}

/// What stands before the transcript when a label is asked for.
pub open spec fn label_lead(vocabulary: Seq<char>) -> Seq<char> {
    spelling(vocabulary) + "Label this transcript:\n\n"@
}

/// Puts the names and terms at the end of `out`, if there are any.
fn push_spelling(out: &mut String, vocabulary: &str)
    ensures
        final(out)@ == old(out)@ + spelling(vocabulary@),
{
    let list = vocabulary_terms(vocabulary);
    proof {
        assert(texts(list@).len() == list@.len());
    }
    if list.len() > 0 {
        out.push_str("Names and terms, spelled as they should appear: ");
        out.push_str(join_strings(&list, ", ").as_str());
        out.push_str("\n\n");
        proof {
            assert(out@ =~= old(out)@ + spelling(vocabulary@));
        }
    } else {
        proof {
            assert(out@ =~= old(out)@ + spelling(vocabulary@));
        }
    }
}

/// One run of the chat model: what it is told and asked, and how much of the
/// transcript fits.
pub struct Generation {
    system: String,
    lead: String,
    transcript: String,
    keep: usize,
    n_ctx: u32,
    max_output: usize,
}

impl Generation {
    /// What the model is told.
    pub closed spec fn told(self) -> Seq<char> {
        self.system@
    }

    /// What stands before the transcript.
    pub closed spec fn lead(self) -> Seq<char> {
        self.lead@
    }

    pub closed spec fn transcript(self) -> Seq<char> {
        self.transcript@
    }

    /// How many bytes of the transcript are kept.
    pub closed spec fn keep(self) -> nat {
        self.keep as nat
    }

    /// The context window, in tokens.
    pub closed spec fn window(self) -> int {
        self.n_ctx as int
    }

    /// The longest answer, in tokens.
    pub closed spec fn longest_answer(self) -> int {
        self.max_output as int
    }

    /// The longest prompt, in tokens.
    pub open spec fn budget(self) -> int {
        self.window() - self.longest_answer() - SPARE_TOKENS
    }

    /// Room for a prompt is left.
    pub open spec fn wf(self) -> bool {
        self.budget() > 0
    }

    /// The context window, in tokens.
    pub fn n_ctx(&self) -> (r: u32)
        ensures
            r == self.window(),
    {
        self.n_ctx
    }

    /// The longest answer, in tokens.
    pub fn max_output(&self) -> (r: usize)
        ensures
            r == self.longest_answer(),
    {
        self.max_output
    }

    /// What the model is told.
    pub fn system(&self) -> (r: String)
        ensures
            r@ == self.told(),
    {
        self.system.clone()
    }

    /// What the model is asked: as much of the transcript as is kept, behind the
    /// lead.
    pub fn user(&self) -> (r: String)
        ensures
            r@ == self.lead() + shortened(self.transcript(), self.keep() as int),
    {
        let mut out = self.lead.clone();
        out.push_str(trimmed(self.transcript.as_str(), self.keep).as_str());
        out
    }

    /// Whether a prompt of this many tokens fits. If it doesn't, less of the
    /// transcript is kept next time: about 15% below the projected fit, so this
    /// converges quickly. Token counts only shrink roughly linearly with bytes,
    /// so this is asked again after each cut.
    pub fn fits(&mut self, tokens: usize) -> (r: bool)
        requires
            old(self).wf(),
        ensures
            final(self).wf(),
            r == (tokens <= old(self).budget()),
            final(self).told() == old(self).told(),
            final(self).lead() == old(self).lead(),
            final(self).transcript() == old(self).transcript(),
            final(self).window() == old(self).window(),
            final(self).longest_answer() == old(self).longest_answer(),
            r ==> final(self).keep() == old(self).keep(),
            !r ==> final(self).keep() == next_keep(
                old(self).keep() as int,
                old(self).budget(),
                tokens as int,
            ),
    {
        let budget: usize = self.n_ctx as usize - self.max_output - SPARE_TOKENS;
        if tokens <= budget {
            return true;
        }
        proof {
            law_cuts_converge(self.keep as int, budget as int, tokens as int);
            assert(self.keep * budget <= u64::MAX * u32::MAX) by (nonlinear_arith)
                requires
                    self.keep <= u64::MAX,
                    budget <= u32::MAX,
            ;
        }
        let kept: u128 = self.keep as u128 * budget as u128 * 85 / (tokens as u128 * 100);
        self.keep = kept as usize;
        false
    }
}

/// How many bytes of a transcript are kept when it took too many tokens.
pub open spec fn next_keep(keep: int, budget: int, tokens: int) -> nat {
    (keep * budget * 85 / (tokens * 100)) as nat
}

/// A cut aims at 85% of the projected fit and misses it by less than a byte: of
/// `keep` bytes that took `tokens` tokens, `budget` tokens' worth and 85% of that.
pub proof fn law_cuts_aim_at_the_budget(keep: int, budget: int, tokens: int)
    requires
        0 <= keep,
        0 < budget < tokens,
    ensures
        next_keep(keep, budget, tokens) * tokens * 100 <= keep * budget * 85,
        keep * budget * 85 < (next_keep(keep, budget, tokens) + 1) * tokens * 100,
{
    let top = keep * budget * 85;
    let bottom = tokens * 100;
    assert(0 <= top) by (nonlinear_arith)
        requires
            0 <= keep,
            0 < budget,
            top == keep * budget * 85,
    ;
    let q = top / bottom;
    assert(0 <= q && q * bottom <= top && top < (q + 1) * bottom) by (nonlinear_arith)
        requires
            q == top / bottom,
            0 <= top,
            bottom > 0,
    ;
    assert(q * bottom == q * tokens * 100) by (nonlinear_arith)
        requires
            bottom == tokens * 100,
    ;
    assert((q + 1) * bottom == (q + 1) * tokens * 100) by (nonlinear_arith)
        requires
            bottom == tokens * 100,
    ;
}

/// Each cut keeps at most 85% of what was kept before, so cutting converges.
pub proof fn law_cuts_converge(keep: int, budget: int, tokens: int)
    requires
        0 <= keep,
        0 < budget < tokens,
    ensures
        0 <= next_keep(keep, budget, tokens) * 100 <= keep * 85,
{
    let top = keep * budget * 85;
    let bottom = tokens * 100;
    assert(0 <= top) by (nonlinear_arith)
        requires
            0 <= keep,
            0 < budget,
            top == keep * budget * 85,
    ;
    assert(keep * budget <= keep * tokens) by (nonlinear_arith)
        requires
            0 <= keep,
            budget <= tokens,
    ;
    let q = top / bottom;
    assert(0 <= q && q * bottom <= top) by (nonlinear_arith)
        requires
            q == top / bottom,
            0 <= top,
            bottom > 0,
    ;
    assert(q * bottom == q * 100 * tokens) by (nonlinear_arith)
        requires
            bottom == tokens * 100,
    ;
    assert(keep * tokens * 85 == (keep * 85) * tokens) by (nonlinear_arith);
    assert((q * 100) * tokens <= (keep * 85) * tokens);
    assert(q * 100 <= keep * 85) by (nonlinear_arith)
        requires
            (q * 100) * tokens <= (keep * 85) * tokens,
            tokens > 0,
    ;
}

/// Ask for a summary of `transcript`. `context` is the user's free-form notes
/// about the recording; `vocabulary` the names and terms from vocabulary.md, so
/// the summary spells them the way the user does. An error where there is
/// nothing to summarize.
pub fn summarize(transcript: &str, context: &str, vocabulary: &str) -> (r: Result<
    Generation,
    String,
>)
    ensures
        r is Ok <==> trim(transcript@, Class::White).len() > 0,
        r matches Err(message) ==> message@ == "nothing to summarize"@,
        r matches Ok(generation) ==> {
            &&& generation.wf()
            &&& generation.told() == SYSTEM_PROMPT@
            &&& generation.lead() == summary_lead(context@, vocabulary@)
            &&& generation.transcript() == transcript@
            &&& generation.keep() == byte_len(transcript@)
            &&& generation.window() == N_CTX
            &&& generation.longest_answer() == MAX_OUTPUT_TOKENS
        },
{
    let chars = chars_of(transcript);
    if trim_of(&chars, Class::White).len() == 0 {
        return Err("nothing to summarize".to_owned());
    }
    let mut lead = String::new();
    let notes = chars_of(context);
    if trim_of(&notes, Class::White).len() > 0 {
        lead.push_str("Notes about the recording:\n");
        lead.push_str(context);
        lead.push_str("\n\n");
    }
    proof {
        assert(lead@ =~= recording_notes(context@));
    }
    push_spelling(&mut lead, vocabulary);
    lead.push_str("Summarize this transcript:\n\n");
    Ok(
        Generation {
            system: SYSTEM_PROMPT.to_owned(),
            lead,
            transcript: transcript.to_owned(),
            keep: transcript.as_bytes().len(),
            n_ctx: N_CTX,
            max_output: MAX_OUTPUT_TOKENS,
        },
    )
}

/// Ask for a title and a one-sentence gist of a finished transcript. An error
/// where there is nothing to label.
pub fn label(transcript: &str, vocabulary: &str) -> (r: Result<Generation, String>)
    ensures
        r is Ok <==> trim(transcript@, Class::White).len() > 0,
        r matches Err(message) ==> message@ == "nothing to summarize"@,
        r matches Ok(generation) ==> {
            &&& generation.wf()
            &&& generation.told() == LABEL_SYSTEM_PROMPT@
            &&& generation.lead() == label_lead(vocabulary@)
            &&& generation.transcript() == transcript@
            &&& generation.keep() == byte_len(transcript@)
            &&& generation.window() == LABEL_N_CTX
            &&& generation.longest_answer() == LABEL_MAX_OUTPUT_TOKENS
        },
{
    let chars = chars_of(transcript);
    if trim_of(&chars, Class::White).len() == 0 {
        return Err("nothing to summarize".to_owned());
    }
    let mut lead = String::new();
    push_spelling(&mut lead, vocabulary);
    lead.push_str("Label this transcript:\n\n");
    proof {
        assert(lead@ =~= label_lead(vocabulary@));
    }
    Ok(
        Generation {
            system: LABEL_SYSTEM_PROMPT.to_owned(),
            lead,
            transcript: transcript.to_owned(),
            keep: transcript.as_bytes().len(),
            n_ctx: LABEL_N_CTX,
            max_output: LABEL_MAX_OUTPUT_TOKENS,
        },
    )
}

/// What the answer is opened with. A reasoning model would spend the whole token
/// budget thinking before writing a word — for summarizing and titling there is
/// nothing to reason about. Opening the answer with an already-closed thinking
/// block is how these templates are told to skip it.
pub fn skip_thinking(template: Option<&str>) -> (r: String)
    ensures
        r@ == (if template matches Some(text) && contains(text@, "<think>"@) {
            "<think>\n\n</think>\n\n"@
        } else {
            Seq::empty()
        }),
{
    let thinks = match template {
        Some(text) => {
            let chars = chars_of(text);
            let tag = chars_of("<think>");
            find_in(&chars, &tag).is_some()
        },
        None => false,
    };
    if thinks {
        "<think>\n\n</think>\n\n".to_owned()
    } else {
        String::new()
    }
}

/// The ranges of prompt tokens that are fed to the model one after another.
pub open spec fn batches(tokens: int) -> Seq<(usize, usize)> {
    Seq::new(
        ((tokens + N_BATCH - 1) / N_BATCH as int) as nat,
        |i: int|
            (
                (i * N_BATCH) as usize,
                (if (i + 1) * N_BATCH < tokens {
                    (i + 1) * N_BATCH
                } else {
                    tokens
                }) as usize,
            ),
    )
}

/// The ranges of prompt tokens that are fed to the model one after another.
pub fn prompt_batches(tokens: usize) -> (r: Vec<(usize, usize)>)
    ensures
        r@ == batches(tokens as int),
{
    let mut out: Vec<(usize, usize)> = Vec::new();
    let mut start: usize = 0;
    while start < tokens
        invariant
            out@.len() <= batches(tokens as int).len(),
            start == (if out@.len() * N_BATCH < tokens {
                out@.len() * N_BATCH
            } else {
                tokens as int
            }),
            out@ == batches(tokens as int).take(out@.len() as int),
            start < tokens ==> out@.len() < batches(tokens as int).len(),
            start >= tokens ==> out@.len() == batches(tokens as int).len(),
        decreases tokens - start,
    {
        let end: usize = if tokens - start > N_BATCH {
            start + N_BATCH
        } else {
            tokens
        };
        out.push((start, end));
        start = end;
        proof {
            let all = batches(tokens as int);
            let k = out@.len() as int;
            assert(out@.last() == all[k - 1]);
            assert(all.take(k) =~= all.take(k - 1).push(all[k - 1]));
        }
    }
    proof {
        assert(batches(tokens as int).take(out@.len() as int) =~= batches(tokens as int));
    }
    out
}

/// An answer without the thinking that it starts with: a leading
/// `<think>…</think>` block (all of it, where the block does not end), or
/// everything up to a stray `</think>`.
pub open spec fn thought_out(text: Seq<char>) -> Seq<char> {
    let t = trim_start(text, Class::White);
    match find(t, "</think>"@) {
        Some(end) => t.skip(end + 8),
        None => if starts_with(t, "<think>"@) {
            Seq::empty()
        } else {
            t
        },
    }
}

/// An answer without the thinking that it starts with.
fn skip_thoughts<'a>(text: &'a [char]) -> (r: &'a [char])
    ensures
        r@ == thought_out(text@),
{
    proof {
        reveal_strlit("</think>");
    }
    let t = trim_start_of(text, Class::White);
    let open = chars_of("<think>");
    let close = chars_of("</think>");
    match find_in(t, &close) {
        Some(end) => {
            proof {
                assert(occurs_at(t@, close@, end as int));
                assert(end + 8 <= t.len());
            }
            slice_subrange(t, end + 8, t.len())
        },
        None => if stands_at(t, &open, 0) {
            slice_subrange(t, t.len(), t.len())
        } else {
            t
        },
    }
}

/// Drop a leading `<think>…</think>` block (a reasoning mode, off by default but
/// not to be trusted to stay off), or everything up to a stray `</think>` if the
/// opening tag was swallowed by the template.
pub fn without_thinking(text: &str) -> (r: String)
    ensures
        r@ == thought_out(text@),
{
    let chars = chars_of(text);
    text_of(skip_thoughts(&chars))
}

/// What the text of a finished generation answers.
pub fn answer_in(text: &str) -> (r: String)
    ensures
        r@ == trim(thought_out(text@), Class::White),
{
    let chars = chars_of(text);
    text_of(trim_of(skip_thoughts(&chars), Class::White))
}

/// Bytes as text, with a replacement character for what is no UTF-8.
pub uninterp spec fn lossy_text(bytes: Seq<u8>) -> Seq<char>;

/// `String::from_utf8_lossy`: the text that the bytes encode; valid UTF-8 is
/// decoded as it stands. What stands in place of an invalid sequence depends on
/// the bytes alone and is not spelled out.
#[verifier::external_body]
fn from_utf8_lossy(bytes: &[u8]) -> (r: String)
    ensures
        r@ == lossy_text(bytes@),
        valid_utf8(bytes@) ==> r@ == decode_utf8(bytes@),
{
    String::from_utf8_lossy(bytes).into_owned()
}

/// What has been generated so far, to be shown while more comes. Bytes, not a
/// text: a multi-byte char can span two tokens.
pub fn partial_answer(bytes: &[u8]) -> (r: String)
    ensures
        r@ == lossy_text(bytes@),
        valid_utf8(bytes@) ==> r@ == decode_utf8(bytes@),
{
    from_utf8_lossy(bytes)
}

/// What a finished generation answers.
pub fn answer(bytes: &[u8]) -> (r: String)
    ensures
        r@ == trim(thought_out(lossy_text(bytes@)), Class::White),
{
    answer_in(from_utf8_lossy(bytes).as_str())
}

/// A finished meeting's name and one-line gist, from the same model that writes
/// the long summaries.
#[derive(Debug, Clone, PartialEq)]
pub struct Label {
    pub title: String,
    pub summary: String,
}

impl Default for Label {
    fn default() -> (r: Self)
        ensures
            r.title@.len() == 0,
            r.summary@.len() == 0,
    {
        Label { title: String::new(), summary: String::new() }
    }
}

/// A line of the answer without markdown around it.
pub open spec fn unadorned(line: Seq<char>) -> Seq<char> {
    without_pattern(
        trim(trim_start(trim(line, Class::White), Class::Three('-', '*', '#')), Class::White),
        "**"@,
    )
}

/// The key of a line, in lower case, if it has one.
pub open spec fn line_key(line: Seq<char>) -> Option<Seq<char>> {
    let n = leading(line, Class::Except(':')) as int;
    if n < line.len() {
        Some(to_ascii_lower(trim(line.take(n), Class::White)))
    } else {
        None
    }
}

/// The value of a line that has a key, without quotes around it.
pub open spec fn line_value(line: Seq<char>) -> Seq<char> {
    let n = leading(line, Class::Except(':')) as int;
    trim(
        trim(trim(line.skip(n + 1), Class::White), Class::Three('"', '\'', '*')),
        Class::White,
    )
}

/// The first value, not empty, that the lines give a key.
pub open spec fn first_value(list: Seq<Seq<char>>, key: Seq<char>) -> Seq<char>
    decreases list.len(),
{
    if list.len() == 0 {
        Seq::empty()
    } else {
        let before = first_value(list.drop_last(), key);
        let line = unadorned(list.last());
        if before.len() == 0 && line_key(line) == Some(key) {
            line_value(line)
        } else {
            before
        }
    }
}

/// The lines that are not blank, without blanks at their ends.
pub open spec fn full_lines(list: Seq<Seq<char>>) -> Seq<Seq<char>>
    decreases list.len(),
{
    if list.len() == 0 {
        Seq::empty()
    } else {
        let before = full_lines(list.drop_last());
        let line = trim(list.last(), Class::White);
        if line.len() > 0 {
            before.push(line)
        } else {
            before
        }
    }
}

/// A title is a name, not a sentence.
pub open spec fn as_name(title: Seq<char>) -> Seq<char> {
    trim(trim_end(title, Class::One('.')), Class::White)
}

/// The title that an answer gives: behind its key, else the first line.
pub open spec fn label_title(text: Seq<char>) -> Seq<char> {
    let keyed = first_value(lines(text), "title"@);
    let full = full_lines(lines(text));
    if keyed.len() > 0 {
        as_name(keyed)
    } else if full.len() > 0 {
        as_name(trim(full[0], Class::Four('"', '#', '*', ' ')))
    } else {
        Seq::empty()
    }
}

/// The summary that an answer gives: behind its key, else, where no title has a
/// key either, what follows the first line.
pub open spec fn label_summary(text: Seq<char>) -> Seq<char> {
    let keyed = first_value(lines(text), "summary"@);
    let full = full_lines(lines(text));
    if keyed.len() > 0 || first_value(lines(text), "title"@).len() > 0 || full.len() == 0 {
        keyed
    } else {
        join(full.drop_first(), " "@)
    }
}

/// A text in lower case, as far as it is ASCII.
fn lowered(s: &[char]) -> (r: Vec<char>)
    ensures
        r@ == to_ascii_lower(s@),
{
    let mut out: Vec<char> = Vec::new();
    let mut i: usize = 0;
    while i < s.len()
        invariant
            i <= s@.len(),
            out@ == to_ascii_lower(s@).take(i as int),
        decreases s.len() - i,
    {
        out.push(lower_ascii_char(s[i]));
        i += 1;
        proof {
            let all = to_ascii_lower(s@);
            assert(all.take(i as int) =~= all.take(i - 1).push(all[i - 1]));
        }
    }
    proof {
        assert(to_ascii_lower(s@).take(i as int) =~= to_ascii_lower(s@));
    }
    out
}

/// Whether the key of a line is `key`; and the line's value.
fn value_for(line: &[char], key: &str) -> (r: Option<String>)
    ensures
        r is Some <==> line_key(line@) == Some(key@),
        r matches Some(value) ==> value@ == line_value(line@),
{
    let n = leading_of(line, Class::Except(':'));
    if n == line.len() {
        return None;
    }
    let front = slice_subrange(line, 0, n);
    proof {
        assert(front@ =~= line@.take(n as int));
    }
    let found = lowered(trim_of(front, Class::White));
    let wanted = chars_of(key);
    if !same_text(&found, &wanted) {
        return None;
    }
    let rest = slice_subrange(line, n + 1, line.len());
    proof {
        assert(rest@ =~= line@.skip(n + 1));
    }
    Some(
        text_of(
            trim_of(
                trim_of(trim_of(rest, Class::White), Class::Three('"', '\'', '*')),
                Class::White,
            ),
        ),
    )
}

/// The first value, not empty, that the lines give a key.
fn keyed_value(list: &Vec<&[char]>, key: &str) -> (r: String)
    ensures
        r@ == first_value(pieces(list@), key@),
{
    let ghost all = pieces(list@);
    let stars = chars_of("**");
    let mut out = String::new();
    let mut empty = true;
    let mut i: usize = 0;
    proof {
        reveal_strlit("**");
        assert(out@ =~= Seq::<char>::empty());
    }
    while i < list.len()
        invariant
            i <= list@.len(),
            all == pieces(list@),
            stars@ == "**"@,
            stars@.len() == 2,
            out@ == first_value(all.take(i as int), key@),
            empty == (out@.len() == 0),
        decreases list.len() - i,
    {
        proof {
            assert(all.take(i + 1).drop_last() =~= all.take(i as int));
            assert(all.take(i + 1).last() == list@[i as int]@);
        }
        if empty {
            let bare = trim_of(
                trim_start_of(trim_of(list[i], Class::White), Class::Three('-', '*', '#')),
                Class::White,
            );
            let line = remove_pattern(bare, &stars);
            match value_for(&line, key) {
                Some(value) => {
                    empty = chars_of(value.as_str()).len() == 0;
                    out = value;
                },
                None => {},
            }
        }
        i += 1;
    }
    proof {
        assert(all.take(i as int) =~= all);
    }
    out
}

/// The lines that are not blank, without blanks at their ends.
fn nonblank_lines<'a>(list: &Vec<&'a [char]>) -> (r: Vec<&'a [char]>)
    ensures
        pieces(r@) == full_lines(pieces(list@)),
{
    let ghost all = pieces(list@);
    let mut out: Vec<&'a [char]> = Vec::new();
    let mut i: usize = 0;
    proof {
        assert(pieces(out@) =~= Seq::<Seq<char>>::empty());
    }
    while i < list.len()
        invariant
            i <= list@.len(),
            all == pieces(list@),
            pieces(out@) == full_lines(all.take(i as int)),
        decreases list.len() - i,
    {
        proof {
            assert(all.take(i + 1).drop_last() =~= all.take(i as int));
            assert(all.take(i + 1).last() == list@[i as int]@);
        }
        let line = trim_of(list[i], Class::White);
        if line.len() > 0 {
            let ghost before = pieces(out@);
            out.push(line);
            proof {
                assert(pieces(out@) =~= before.push(line@));
            }
        }
        i += 1;
    }
    proof {
        assert(all.take(i as int) =~= all);
    }
    out
}

/// Pull the two labelled lines out of the model's answer, tolerating the ways a
/// small model strays: markdown bullets, bold keys, quotes, or just the bare
/// title on the first line.
pub fn parse_label(text: &str) -> (r: Label)
    ensures
        r.title@ == label_title(text@),
        r.summary@ == label_summary(text@),
{
    let chars = chars_of(text);
    let list = lines_of(&chars);
    let keyed = keyed_value(&list, "title");
    let summary = keyed_value(&list, "summary");
    let title = chars_of(keyed.as_str());
    if title.len() > 0 {
        let name = trim_of(trim_end_of(&title, Class::One('.')), Class::White);
        return Label { title: text_of(name), summary };
    }
    let mut full = nonblank_lines(&list);
    proof {
        assert(pieces(full@).len() == full@.len());
    }
    if full.len() == 0 {
        let r = Label { title: String::new(), summary };
        proof {
            assert(r.title@ =~= Seq::<char>::empty());
        }
        return r;
    }
    let ghost all = pieces(full@);
    let first = full.remove(0);
    proof {
        assert(first@ == all[0]);
        assert(pieces(full@) =~= all.drop_first());
    }
    let bare = trim_of(first, Class::Four('"', '#', '*', ' '));
    let name = trim_of(trim_end_of(bare, Class::One('.')), Class::White);
    let has_summary = chars_of(summary.as_str()).len() > 0;
    Label {
        title: text_of(name),
        summary: if has_summary {
            summary
        } else {
            join_slices(&full, " ")
        },
    }
}

/// Whether a value stands in a line of an answer as it is: on one line, without
/// blanks, quotes or stars at its ends, and without bold print in it.
pub open spec fn plain_value(value: Seq<char>) -> bool {
    &&& value.len() > 0
    &&& !value.contains('\n')
    &&& !Class::White.has(value[0]) && !Class::White.has(value.last())
    &&& !Class::Three('"', '\'', '*').has(value[0]) && !Class::Three('"', '\'', '*').has(
        value.last(),
    )
    &&& !contains(value, "**"@)
}

/// A text with nothing of a class at its ends is trimmed.
proof fn lemma_nothing_to_trim(s: Seq<char>, class: Class)
    requires
        s.len() > 0 ==> !class.has(s[0]) && !class.has(s.last()),
    ensures
        trim(s, class) == s,
        trim_start(s, class) == s,
{
    lemma_leading_is(s, class, 0);
    assert(s.skip(0) =~= s);
    lemma_trailing_is(s, class, 0);
    assert(s.take(s.len() as int) =~= s);
}

/// A text without a pattern keeps everything.
proof fn lemma_nothing_to_remove(s: Seq<char>, pattern: Seq<char>)
    requires
        pattern.len() > 0,
        !contains(s, pattern),
    ensures
        without_pattern(s, pattern) == s,
    decreases s.len(),
{
    if s.len() > 0 {
        let rest = s.drop_first();
        if starts_with(s, pattern) {
            assert(occurs_at(s, pattern, 0));
        }
        if contains(rest, pattern) {
            let i = choose|i: int| #[trigger] occurs_at(rest, pattern, i);
            assert(rest.subrange(i, i + pattern.len()) =~= s.subrange(
                i + 1,
                i + 1 + pattern.len(),
            ));
            assert(occurs_at(s, pattern, i + 1));
        }
        lemma_nothing_to_remove(rest, pattern);
        assert(seq![s[0]] + rest =~= s);
    }
}

/// A line of a key and a plain value gives the value for the key.
proof fn lemma_keyed_line(key: Seq<char>, value: Seq<char>)
    requires
        plain_value(value),
        key.len() > 0,
        forall|i: int|
            0 <= i < key.len() ==> #[trigger] key[i] != ':' && key[i] != '*' && key[i] != '-'
                && key[i] != '#' && key[i] != '\n' && !white(key[i]),
    ensures
        ({
            let line = key + ": "@ + value;
            &&& !line.contains('\n')
            &&& line.last() != '\r'
            &&& unadorned(line) == line
            &&& line_key(line) == Some(to_ascii_lower(key))
            &&& line_value(line) == value
        }),
{
    reveal_strlit(": ");
    reveal_strlit("**");
    let line = key + ": "@ + value;
    let k = key.len();
    assert(line[0] == key[0]);
    assert(line.last() == value.last());
    assert(!line.contains('\n')) by {
        if line.contains('\n') {
            let i = choose|i: int| 0 <= i < line.len() && line[i] == '\n';
            if i < k {
                assert(key[i] == '\n');
            } else if i >= k + 2 {
                assert(value[i - k - 2] == '\n');
            }
        }
    }
    lemma_nothing_to_trim(line, Class::White);
    assert(!Class::Three('-', '*', '#').has(line[0]));
    lemma_leading_is(line, Class::Three('-', '*', '#'), 0);
    assert(line.skip(0) =~= line);
    assert(!contains(line, "**"@)) by {
        if contains(line, "**"@) {
            let i = choose|i: int| #[trigger] occurs_at(line, "**"@, i);
            assert(line.subrange(i, i + 2)[0] == '*');
            assert(line.subrange(i, i + 2)[1] == '*');
            assert(line[i] == '*');
            if i < k {
                assert(key[i] == '*');
            } else if i >= k + 2 {
                let j = i - k - 2;
                assert(value.subrange(j, j + 2) =~= line.subrange(i, i + 2));
                assert(occurs_at(value, "**"@, j));
            }
        }
    }
    lemma_nothing_to_remove(line, "**"@);
    assert forall|i: int| 0 <= i < k implies Class::Except(':').has(#[trigger] line[i]) by {
        assert(line[i] == key[i]);
    }
    assert(line[k as int] == ':');
    lemma_leading_is(line, Class::Except(':'), k);
    assert(line.take(k as int) =~= key);
    assert(key.last() == key[k - 1]);
    lemma_nothing_to_trim(key, Class::White);
    let rest = line.skip(k as int + 1);
    assert(rest =~= " "@ + value) by {
        reveal_strlit(" ");
    }
    assert(trim(rest, Class::White) == value) by {
        reveal_strlit(" ");
        assert(rest[0] == ' ');
        lemma_leading_is(rest, Class::White, 1);
        assert(rest.skip(1) =~= value);
        lemma_nothing_to_trim(value, Class::White);
        lemma_trailing_is(value, Class::White, 0);
        assert(value.take(value.len() as int) =~= value);
    }
    lemma_nothing_to_trim(value, Class::Three('"', '\'', '*'));
    lemma_nothing_to_trim(value, Class::White);
}

/// A text of two lines.
proof fn lemma_two_lines(a: Seq<char>, b: Seq<char>)
    requires
        !a.contains('\n'),
        !b.contains('\n'),
        b.len() > 0,
        a.len() > 0,
        a.last() != '\r',
    ensures
        lines(a + seq!['\n'] + b) == seq![a, b],
{
    let text = a + seq!['\n'] + b;
    let n = a.len();
    assert(text[n as int] == '\n');
    assert forall|i: int| 0 <= i < n implies Class::Except('\n').has(#[trigger] text[i]) by {
        assert(text[i] == a[i]);
        assert(a.contains(a[i]));
    }
    lemma_leading_is(text, Class::Except('\n'), n);
    assert(text.take(n as int) =~= a);
    assert(text.skip(n as int + 1) =~= b);
    assert forall|i: int| 0 <= i < b.len() implies Class::Except('\n').has(#[trigger] b[i]) by {
        assert(b.contains(b[i]));
    }
    lemma_leading_is(b, Class::Except('\n'), b.len());
    assert(lines(b) == seq![b]);
    assert(seq![a] + seq![b] =~= seq![a, b]);
}

/// What the label prompt asks for is what is read back: an answer of a title
/// line and a summary line gives those two.
pub proof fn law_two_lines_make_a_label(title: Seq<char>, summary: Seq<char>)
    requires
        plain_value(title),
        plain_value(summary),
        title.last() != '.',
    ensures
        label_title("Title: "@ + title + "\n"@ + "Summary: "@ + summary) == title,
        label_summary("Title: "@ + title + "\n"@ + "Summary: "@ + summary) == summary,
{
    reveal_strlit("Title: ");
    reveal_strlit("Summary: ");
    reveal_strlit("\n");
    reveal_strlit(": ");
    reveal_strlit("title");
    reveal_strlit("summary");
    let text = "Title: "@ + title + "\n"@ + "Summary: "@ + summary;
    let t = seq!['T', 'i', 't', 'l', 'e'];
    let s = seq!['S', 'u', 'm', 'm', 'a', 'r', 'y'];
    let a = t + ": "@ + title;
    let b = s + ": "@ + summary;
    assert("Title: "@ + title =~= a);
    assert(text =~= a + seq!['\n'] + b);
    lemma_keyed_line(t, title);
    lemma_keyed_line(s, summary);
    lemma_two_lines(a, b);
    let list = seq![a, b];
    assert(to_ascii_lower(t) =~= "title"@);
    assert(to_ascii_lower(s) =~= "summary"@);
    assert("title"@ != "summary"@) by {
        assert("title"@.len() != "summary"@.len());
    }
    assert(list.drop_last() =~= seq![a]);
    assert(seq![a].drop_last() =~= Seq::<Seq<char>>::empty());
    reveal_with_fuel(first_value, 3);
    assert(first_value(seq![a], "title"@) == title);
    assert(first_value(list, "title"@) == title);
    assert(first_value(seq![a], "summary"@) == Seq::<char>::empty());
    assert(first_value(list, "summary"@) == summary);
    lemma_trailing_is(title, Class::One('.'), 0);
    assert(title.take(title.len() as int) =~= title);
    lemma_nothing_to_trim(title, Class::White);
}

/// Whether one of the lines gives `key` a value that is not empty.
pub open spec fn gives(list: Seq<Seq<char>>, key: Seq<char>) -> bool {
    exists|i: int|
        0 <= i < list.len() && line_key(unadorned(#[trigger] list[i])) == Some(key) && line_value(
            unadorned(list[i]),
        ).len() > 0
}

/// A line that gives a key a value makes the first value of the key.
proof fn lemma_given(list: Seq<Seq<char>>, key: Seq<char>)
    requires
        gives(list, key),
    ensures
        first_value(list, key).len() > 0,
    decreases list.len(),
{
    let i = choose|i: int|
        0 <= i < list.len() && line_key(unadorned(#[trigger] list[i])) == Some(key) && line_value(
            unadorned(list[i]),
        ).len() > 0;
    let shorter = list.drop_last();
    if i < shorter.len() {
        assert(shorter[i] == list[i]);
        lemma_given(shorter, key);
    }
}

/// Lines that read the same give a key the same value, and lines behind one that
/// gives a value change nothing.
proof fn lemma_first_value_stays(list: Seq<Seq<char>>, more: Seq<Seq<char>>, key: Seq<char>)
    requires
        list.len() <= more.len(),
        forall|i: int|
            0 <= i < list.len() ==> unadorned(#[trigger] more[i]) == unadorned(list[i]),
        list.len() == more.len() || first_value(list, key).len() > 0,
    ensures
        first_value(more, key) == first_value(list, key),
    decreases more.len(),
{
    if more.len() > 0 {
        let shorter = more.drop_last();
        if list.len() == more.len() {
            let front = list.drop_last();
            assert forall|i: int| 0 <= i < front.len() implies unadorned(#[trigger] shorter[i])
                == unadorned(front[i]) by {
                assert(shorter[i] == more[i]);
            }
            lemma_first_value_stays(front, shorter, key);
            assert(unadorned(more[more.len() - 1]) == unadorned(list.last()));
        } else {
            assert forall|i: int| 0 <= i < list.len() implies unadorned(#[trigger] shorter[i])
                == unadorned(list[i]) by {
                assert(shorter[i] == more[i]);
            }
            lemma_first_value_stays(list, shorter, key);
        }
    }
}

/// A carriage return at the end is no part of what a line reads.
proof fn lemma_unadorned_cr(line: Seq<char>)
    ensures
        unadorned(without_cr(line)) == unadorned(line),
{
    if line.len() > 0 && line.last() == '\r' {
        let short = line.drop_last();
        let n = leading(line, Class::White);
        lemma_leading(line, Class::White);
        if n == line.len() {
            assert forall|i: int| 0 <= i < short.len() implies Class::White.has(
                #[trigger] short[i],
            ) by {
                assert(short[i] == line[i]);
            }
            lemma_leading_is(short, Class::White, (n - 1) as nat);
            assert(trim(short, Class::White) =~= trim(line, Class::White));
        } else {
            assert(n < short.len()) by {
                assert(white('\r'));
            }
            assert forall|i: int| 0 <= i < n implies Class::White.has(#[trigger] short[i]) by {
                assert(short[i] == line[i]);
            }
            lemma_leading_is(short, Class::White, n);
            let t = trim_start(line, Class::White);
            assert(trim_start(short, Class::White) =~= t.drop_last());
            assert(t.last() == '\r');
            lemma_trailing(t.drop_last(), Class::White);
            assert(trailing(t, Class::White) == 1 + trailing(t.drop_last(), Class::White));
            assert(trim(short, Class::White) =~= trim(line, Class::White));
        }
    }
}

/// The lines of a text stay, but for how the last one ends, when others follow.
proof fn lemma_lines_behind(a: Seq<char>, b: Seq<char>)
    ensures
        lines(a).len() <= lines(a + seq!['\n'] + b).len(),
        forall|i: int|
            0 <= i < lines(a).len() ==> unadorned(#[trigger] lines(a + seq!['\n'] + b)[i])
                == unadorned(lines(a)[i]),
    decreases a.len(),
{
    let text = a + seq!['\n'] + b;
    let n = leading(a, Class::Except('\n'));
    lemma_leading(a, Class::Except('\n'));
    if a.len() > 0 {
        assert forall|i: int| 0 <= i < n implies Class::Except('\n').has(#[trigger] text[i]) by {
            assert(text[i] == a[i]);
        }
        assert(text[n as int] == '\n');
        lemma_leading_is(text, Class::Except('\n'), n);
        let line = a.take(n as int);
        assert(text.take(n as int) =~= line);
        if n == a.len() {
            assert(line =~= a);
            lemma_unadorned_cr(a);
            assert(lines(text)[0] == without_cr(a));
        } else {
            let rest = a.skip(n as int + 1);
            lemma_lines_behind(rest, b);
            assert(text.skip(n as int + 1) =~= rest + seq!['\n'] + b);
            assert forall|i: int| 0 <= i < lines(a).len() implies unadorned(
                #[trigger] lines(text)[i],
            ) == unadorned(lines(a)[i]) by {
                if i > 0 {
                    assert(lines(text)[i] == lines(rest + seq!['\n'] + b)[i - 1]);
                    assert(lines(a)[i] == lines(rest)[i - 1]);
                }
            }
        }
    }
}

/// Once an answer gives both a title and a summary behind their keys, the label
/// is settled: lines that follow, keyed or not, change nothing.
pub proof fn law_a_complete_label_is_settled(a: Seq<char>, b: Seq<char>)
    requires
        gives(lines(a), "title"@),
        gives(lines(a), "summary"@),
    ensures
        label_title(a + "\n"@ + b) == label_title(a),
        label_summary(a + "\n"@ + b) == label_summary(a),
{
    reveal_strlit("\n");
    assert("\n"@ =~= seq!['\n']);
    lemma_lines_behind(a, b);
    lemma_given(lines(a), "title"@);
    lemma_given(lines(a), "summary"@);
    lemma_first_value_stays(lines(a), lines(a + seq!['\n'] + b), "title"@);
    lemma_first_value_stays(lines(a), lines(a + seq!['\n'] + b), "summary"@);
}

/// Whether a value is more than blanks, quotes and stars.
pub open spec fn says_something(value: Seq<char>) -> bool {
    exists|i: int|
        0 <= i < value.len() && !white(#[trigger] value[i]) && !Class::Three('"', '\'', '*').has(
            value[i],
        )
}

/// Trimming keeps what is not of the class.
proof fn lemma_trim_keeps(s: Seq<char>, class: Class, c: char)
    requires
        s.contains(c),
        !class.has(c),
    ensures
        trim(s, class).contains(c),
{
    let i = choose|i: int| 0 <= i < s.len() && s[i] == c;
    let n = leading(s, class) as int;
    lemma_leading(s, class);
    if i < n {
        assert(class.has(s[i]));
    }
    let t = trim_start(s, class);
    lemma_trailing(t, class);
    assert(t[i - n] == c);
    if i - n >= t.len() - trailing(t, class) {
        assert(class.has(t[i - n]));
    }
    assert(trim(s, class)[i - n] == c);
}

/// Taking out stars keeps everything else.
proof fn lemma_stars_only(s: Seq<char>, c: char)
    requires
        s.contains(c),
        c != '*',
    ensures
        without_pattern(s, "**"@).contains(c),
    decreases s.len(),
{
    reveal_strlit("**");
    let i = choose|i: int| 0 <= i < s.len() && s[i] == c;
    let out = without_pattern(s, "**"@);
    if starts_with(s, "**"@) {
        assert(s.subrange(0, 2)[0] == s[0] && s.subrange(0, 2)[1] == s[1]);
        assert(s.skip(2)[i - 2] == c);
        lemma_stars_only(s.skip(2), c);
    } else if i > 0 {
        let rest = s.drop_first();
        assert(rest[i - 1] == c);
        lemma_stars_only(rest, c);
        let kept = without_pattern(rest, "**"@);
        let k = choose|k: int| 0 <= k < kept.len() && kept[k] == c;
        assert(out[k + 1] == c);
    } else {
        assert(out[0] == c);
    }
}

/// A front without stars stays.
proof fn lemma_front_without_stars(front: Seq<char>, rest: Seq<char>)
    requires
        forall|i: int| 0 <= i < front.len() ==> #[trigger] front[i] != '*',
    ensures
        without_pattern(front + rest, "**"@) == front + without_pattern(rest, "**"@),
    decreases front.len(),
{
    reveal_strlit("**");
    let s = front + rest;
    if front.len() == 0 {
        assert(s =~= rest);
        assert(front + without_pattern(rest, "**"@) =~= without_pattern(rest, "**"@));
    } else {
        assert(s[0] == front[0]);
        if starts_with(s, "**"@) {
            assert(s.subrange(0, 2)[0] == s[0]);
        }
        let less = front.drop_first();
        lemma_front_without_stars(less, rest);
        assert(s.drop_first() =~= less + rest);
        assert(front + without_pattern(rest, "**"@) =~= seq![s[0]] + (less + without_pattern(
            rest,
            "**"@,
        )));
    }
}

/// A line of a key and a value that says something gives the key a value,
/// whatever else stands in it.
proof fn lemma_key_gives(key: Seq<char>, value: Seq<char>)
    requires
        says_something(value),
        key.len() > 0,
        forall|i: int|
            0 <= i < key.len() ==> #[trigger] key[i] != ':' && key[i] != '*' && key[i] != '-'
                && key[i] != '#' && !white(key[i]),
    ensures
        ({
            let line = unadorned(key + ": "@ + value);
            &&& line_key(line) == Some(to_ascii_lower(key))
            &&& line_value(line).len() > 0
        }),
{
    reveal_strlit(": ");
    let line = key + ": "@ + value;
    let k = key.len() as int;
    let at = choose|i: int|
        0 <= i < value.len() && !white(#[trigger] value[i]) && !Class::Three('"', '\'', '*').has(
            value[i],
        );
    let c = value[at];
    assert(line[0] == key[0]);
    assert(line[k + 2 + at] == c);
    // Only the end of the line is trimmed.
    lemma_leading_is(line, Class::White, 0);
    assert(line.skip(0) =~= line);
    lemma_trailing(line, Class::White);
    let cut = trim(line, Class::White);
    if k + 2 + at >= cut.len() {
        assert(Class::White.has(line[k + 2 + at]));
    }
    assert(cut[0] == key[0]);
    lemma_leading_is(cut, Class::Three('-', '*', '#'), 0);
    assert(cut.skip(0) =~= cut);
    assert(cut.last() == line[line.len() - trailing(line, Class::White) - 1]);
    lemma_nothing_to_trim(cut, Class::White);
    // What stands behind the key keeps the character.
    let front = key + seq![':'];
    let rest = cut.skip(k + 1);
    assert(cut =~= front + rest);
    assert(rest[1 + at] == c);
    assert forall|i: int| 0 <= i < front.len() implies #[trigger] front[i] != '*' by {
        if i < k {
            assert(front[i] == key[i]);
        }
    }
    lemma_front_without_stars(front, rest);
    lemma_stars_only(rest, c);
    let kept = without_pattern(rest, "**"@);
    let bare = unadorned(line);
    assert(bare == front + kept);
    assert forall|i: int| 0 <= i < k implies Class::Except(':').has(#[trigger] bare[i]) by {
        assert(bare[i] == key[i]);
    }
    assert(bare[k] == ':');
    lemma_leading_is(bare, Class::Except(':'), k as nat);
    assert(bare.take(k) =~= key);
    assert(key.last() == key[k - 1]);
    lemma_nothing_to_trim(key, Class::White);
    assert(bare.skip(k + 1) =~= kept);
    lemma_trim_keeps(kept, Class::White, c);
    lemma_trim_keeps(trim(kept, Class::White), Class::Three('"', '\'', '*'), c);
    lemma_trim_keeps(
        trim(trim(kept, Class::White), Class::Three('"', '\'', '*')),
        Class::White,
        c,
    );
}

/// An answer with a title line and a summary line, in either order, whose values
/// say something: lines that follow change nothing.
pub proof fn law_lines_behind_a_label_change_nothing(
    a: Seq<char>,
    b: Seq<char>,
    title: Seq<char>,
    summary: Seq<char>,
)
    requires
        lines(a).contains("Title: "@ + title),
        lines(a).contains("Summary: "@ + summary),
        says_something(title),
        says_something(summary),
    ensures
        label_title(a + "\n"@ + b) == label_title(a),
        label_summary(a + "\n"@ + b) == label_summary(a),
{
    reveal_strlit("Title: ");
    reveal_strlit("Summary: ");
    reveal_strlit(": ");
    reveal_strlit("title");
    reveal_strlit("summary");
    let t = seq!['T', 'i', 't', 'l', 'e'];
    let s = seq!['S', 'u', 'm', 'm', 'a', 'r', 'y'];
    assert(t + ": "@ + title =~= "Title: "@ + title);
    assert(s + ": "@ + summary =~= "Summary: "@ + summary);
    assert(to_ascii_lower(t) =~= "title"@);
    assert(to_ascii_lower(s) =~= "summary"@);
    lemma_key_gives(t, title);
    lemma_key_gives(s, summary);
    assert(gives(lines(a), "title"@));
    assert(gives(lines(a), "summary"@));
    law_a_complete_label_is_settled(a, b);
}

/// What is asked for a summary holds the notes as they are, unless they are blank.
pub proof fn law_the_question_holds_the_notes(context: Seq<char>, vocabulary: Seq<char>, k: int)
    requires
        0 <= k < context.len(),
        !white(context[k]),
    ensures
        contains(summary_lead(context, vocabulary), context),
{
    let none = Seq::<char>::empty();
    let notes = recording_notes(context);
    let behind = spelling(vocabulary) + "Summarize this transcript:\n\n"@;
    assert(trim(context, Class::White).len() > 0) by {
        lemma_trim_keeps(context, Class::White, context[k]);
    }
    assert(contains(notes, context)) by {
        lemma_holds_itself(context);
        lemma_holds_middle("Notes about the recording:\n"@, context, "\n\n"@, context);
    }
    assert(contains(none + notes + behind, context)) by {
        lemma_holds_middle(none, notes, behind, context);
    }
    assert(none + notes + behind =~= notes + spelling(vocabulary)
        + "Summarize this transcript:\n\n"@);
}

/// What is asked for a summary or a label names every term of the vocabulary.
pub proof fn law_the_question_names_every_term(
    context: Seq<char>,
    vocabulary: Seq<char>,
    i: int,
)
    requires
        0 <= i < terms(lines(vocabulary)).len(),
    ensures
        contains(summary_lead(context, vocabulary), terms(lines(vocabulary))[i]),
        contains(label_lead(vocabulary), terms(lines(vocabulary))[i]),
{
    let none = Seq::<char>::empty();
    let all = terms(lines(vocabulary));
    let term = all[i];
    let names = spelling(vocabulary);
    assert(contains(names, term)) by {
        lemma_join_holds(all, ", "@, i);
        lemma_holds_middle(
            "Names and terms, spelled as they should appear: "@,
            join(all, ", "@),
            "\n\n"@,
            term,
        );
    }
    assert(contains(summary_lead(context, vocabulary), term)) by {
        lemma_holds_middle(
            recording_notes(context),
            names,
            "Summarize this transcript:\n\n"@,
            term,
        );
    }
    assert(contains(label_lead(vocabulary), term)) by {
        lemma_holds_middle(none, names, "Label this transcript:\n\n"@, term);
        assert(none + names =~= names);
    }
}

/// An answer loses the thinking that it starts with and nothing else: without
/// tags all of it stays but the blanks in front; up to the first closing tag
/// everything goes, and all that follows stays; a block that is never closed is
/// no answer.
pub proof fn law_only_thinking_goes(thought: Seq<char>, answer: Seq<char>)
    requires
        thought.len() > 0,
        !white(thought[0]),
    ensures
        !contains(thought, "</think>"@) && !starts_with(thought, "<think>"@) ==> thought_out(thought)
            == thought,
        !contains(thought, "</think>"@) && starts_with(thought, "<think>"@) ==> thought_out(
            thought,
        ).len() == 0,
        first_at(thought + "</think>"@ + answer, "</think>"@, thought.len() as int) ==> thought_out(
            thought + "</think>"@ + answer,
        ) == answer,
{
    reveal_strlit("</think>");
    let tag = "</think>"@;
    lemma_leading_is(thought, Class::White, 0);
    assert(thought.skip(0) =~= thought);
    let all = thought + tag + answer;
    let n = thought.len() as int;
    assert(all[0] == thought[0]);
    lemma_leading_is(all, Class::White, 0);
    assert(all.skip(0) =~= all);
    if first_at(all, tag, n) {
        lemma_find_is(all, tag, n);
        assert(all.skip(n + 8) =~= answer);
    }
}

/// The prompt is fed in batches that follow one another from the first token to
/// the last, each of at most 2048 tokens and all but the last of just as many.
pub proof fn law_batches_hold_the_prompt(tokens: int)
    requires
        0 <= tokens <= usize::MAX,
    ensures
        ({
            let all = batches(tokens);
            let n = all.len() as int;
            &&& tokens == 0 <==> n == 0
            &&& n > 0 ==> all[0].0 == 0 && all[n - 1].1 == tokens
            &&& forall|i: int|
                0 <= i < n ==> 0 < (#[trigger] all[i]).1 - all[i].0 <= 2_048 && (i < n - 1
                    ==> all[i].1 - all[i].0 == 2_048 && all[i + 1].0 == all[i].1)
        }),
{
    let all = batches(tokens);
    let n = (tokens + 2_047) / 2_048;
    assert(all.len() == n);
    assert forall|i: int| 0 <= i < n implies 0 < (#[trigger] all[i]).1 - all[i].0 <= 2_048 && (i < n
        - 1 ==> all[i].1 - all[i].0 == 2_048 && all[i + 1].0 == all[i].1) by {
        assert(all[i].0 == i * 2_048);
        if i < n - 1 {
            assert(all[i + 1].0 == (i + 1) * 2_048);
        }
    }
    if n > 0 {
        assert(all[n - 1].1 == tokens);
        assert(all[0].0 == 0);
    }
}

/// The lines of an answer that are not blank are all there, in order, without the
/// blanks around them.
pub proof fn law_full_lines_are_those_that_say_something(list: Seq<Seq<char>>)
    ensures
        full_lines(list) == list.filter(
            |line: Seq<char>| exists|k: int| 0 <= k < line.len() && !white(#[trigger] line[k]),
        ).map_values(|line: Seq<char>| trim(line, Class::White)),
    decreases list.len(),
{
    reveal(Seq::filter);
    let full = |line: Seq<char>| exists|k: int| 0 <= k < line.len() && !white(#[trigger] line[k]);
    let bare = |line: Seq<char>| trim(line, Class::White);
    if list.len() > 0 {
        let shorter = list.drop_last();
        let line = list.last();
        law_full_lines_are_those_that_say_something(shorter);
        law_trimming_takes_both_ends(line, Class::White);
        let (a, b) = choose|a: int, b: int|
            {
                &&& 0 <= a <= b <= line.len()
                &&& trim(line, Class::White) == #[trigger] line.subrange(a, b)
                &&& forall|i: int|
                    0 <= i < a || b <= i < line.len() ==> Class::White.has(#[trigger] line[i])
                &&& a < b ==> !Class::White.has(line[a]) && !Class::White.has(line[b - 1])
            };
        assert(full(line) <==> trim(line, Class::White).len() > 0) by {
            if a < b {
                assert(!white(line[a]));
            } else if full(line) {
                let k = choose|k: int| 0 <= k < line.len() && !white(#[trigger] line[k]);
                assert(Class::White.has(line[k]));
            }
        }
        if full(line) {
            assert(list.filter(full).map_values(bare) =~= shorter.filter(full).map_values(
                bare,
            ).push(bare(line)));
        }
        assert(full_lines(list) =~= list.filter(full).map_values(bare));
    } else {
        assert(full_lines(list) =~= list.filter(full).map_values(bare));
    }
}

/// An answer without a title behind its key has its first line for a title, and
/// without a summary behind its key the lines that follow for a summary.
pub proof fn law_a_bare_answer_is_a_label(text: Seq<char>)
    requires
        !gives(lines(text), "title"@),
        full_lines(lines(text)).len() > 0,
    ensures
        label_title(text) == as_name(
            trim(full_lines(lines(text))[0], Class::Four('"', '#', '*', ' ')),
        ),
        !gives(lines(text), "summary"@) ==> label_summary(text) == join(
            full_lines(lines(text)).drop_first(),
            " "@,
        ),
{
    lemma_not_given(lines(text), "title"@);
    if !gives(lines(text), "summary"@) {
        lemma_not_given(lines(text), "summary"@);
    }
}

/// Where no line gives a key a value, it has none.
proof fn lemma_not_given(list: Seq<Seq<char>>, key: Seq<char>)
    requires
        !gives(list, key),
    ensures
        first_value(list, key).len() == 0,
    decreases list.len(),
{
    if list.len() > 0 {
        let shorter = list.drop_last();
        assert(!gives(shorter, key)) by {
            if gives(shorter, key) {
                let i = choose|i: int|
                    0 <= i < shorter.len() && line_key(unadorned(#[trigger] shorter[i])) == Some(key)
                        && line_value(unadorned(shorter[i])).len() > 0;
                assert(list[i] == shorter[i]);
            }
        }
        lemma_not_given(shorter, key);
        let n = list.len() - 1;
        if line_key(unadorned(list.last())) == Some(key) {
            assert(list[n] == list.last());
        }
    }
}

/// The value of a key is that of the first line that gives it one.
pub proof fn law_the_first_value_counts(list: Seq<Seq<char>>, key: Seq<char>, i: int)
    requires
        0 <= i < list.len(),
        line_key(unadorned(list[i])) == Some(key),
        line_value(unadorned(list[i])).len() > 0,
        !gives(list.take(i), key),
    ensures
        first_value(list, key) == line_value(unadorned(list[i])),
    decreases list.len(),
{
    if i == list.len() - 1 {
        assert(list.drop_last() =~= list.take(i));
        lemma_not_given(list.take(i), key);
    } else {
        assert(list.drop_last().take(i) =~= list.take(i));
        law_the_first_value_counts(list.drop_last(), key, i);
    }
}

/// What is asked stands in this order: the notes, unless they are blank, the terms,
/// unless there are none, and the request, right before the transcript.
pub proof fn law_the_request_comes_last(context: Seq<char>, vocabulary: Seq<char>)
    ensures
        ({
            let list = terms(lines(vocabulary));
            let notes = if exists|k: int| 0 <= k < context.len() && !white(#[trigger] context[k]) {
                "Notes about the recording:\n"@ + context + "\n\n"@
            } else {
                Seq::empty()
            };
            let spelled = if list.len() > 0 {
                "Names and terms, spelled as they should appear: "@ + join(list, ", "@) + "\n\n"@
            } else {
                Seq::empty()
            };
            &&& summary_lead(context, vocabulary) == notes + spelled
                + "Summarize this transcript:\n\n"@
            &&& label_lead(vocabulary) == spelled + "Label this transcript:\n\n"@
        }),
{
    if exists|k: int| 0 <= k < context.len() && !white(#[trigger] context[k]) {
        let k = choose|k: int| 0 <= k < context.len() && !white(#[trigger] context[k]);
        lemma_trim_keeps(context, Class::White, context[k]);
    } else {
        law_trimming_takes_both_ends(context, Class::White);
        if trim(context, Class::White).len() > 0 {
            let (a, b) = choose|a: int, b: int|
                {
                    &&& 0 <= a <= b <= context.len()
                    &&& trim(context, Class::White) == #[trigger] context.subrange(a, b)
                    &&& a < b ==> !Class::White.has(context[a])
                };
            assert(white(context[a]));
        }
    }
}

/// A title loses the periods at its end and nothing else.
pub proof fn law_a_title_is_no_sentence(name: Seq<char>, periods: Seq<char>)
    requires
        name.len() > 0,
        !white(name[0]) && !white(name.last()),
        name.last() != '.',
        forall|i: int| 0 <= i < periods.len() ==> #[trigger] periods[i] == '.',
    ensures
        as_name(name + periods) == name,
{
    let s = name + periods;
    let class = Class::One('.');
    assert forall|i: int| s.len() - periods.len() <= i < s.len() implies class.has(
        #[trigger] s[i],
    ) by {
        assert(s[i] == periods[i - name.len()]);
    }
    assert(s[s.len() - periods.len() - 1] == name.last());
    lemma_trailing_is(s, class, periods.len());
    assert(trim_end(s, class) =~= name);
    lemma_leading_is(name, Class::White, 0);
    assert(trim_start(name, Class::White) =~= name);
    lemma_trailing_is(name, Class::White, 0);
    assert(trim(name, Class::White) =~= name);
}

/// The markers of a list item or a heading in front of a line go, with the blanks
/// around them, and a plain line stays as it is.
pub proof fn law_markers_in_front_go(
    front: Seq<char>,
    marks: Seq<char>,
    blanks: Seq<char>,
    line: Seq<char>,
    back: Seq<char>,
)
    requires
        forall|i: int| 0 <= i < front.len() ==> white(#[trigger] front[i]),
        forall|i: int|
            0 <= i < marks.len() ==> {
                let c = #[trigger] marks[i];
                c == '-' || c == '*' || c == '#'
            },
        forall|i: int| 0 <= i < blanks.len() ==> white(#[trigger] blanks[i]),
        marks.len() == 0 ==> blanks.len() == 0,
        forall|i: int| 0 <= i < back.len() ==> white(#[trigger] back[i]),
        line.len() > 0,
        !white(line[0]) && !white(line.last()),
        line[0] != '-' && line[0] != '*' && line[0] != '#',
        !contains(line, "**"@),
    ensures
        unadorned(front + marks + blanks + line + back) == line,
{
    reveal_strlit("**");
    let class = Class::Three('-', '*', '#');
    let core = marks + blanks + line;
    let s = front + marks + blanks + line + back;
    assert(s =~= front + core + back);
    assert(!white(core[0])) by {
        if marks.len() > 0 {
            assert(core[0] == marks[0]);
        } else {
            assert(core[0] == line[0]);
        }
    }
    assert(core.last() == line.last());
    lemma_trim_around(front, core, back);
    assert forall|i: int| 0 <= i < marks.len() implies class.has(#[trigger] core[i]) by {
        assert(core[i] == marks[i]);
    }
    if blanks.len() > 0 {
        assert(core[marks.len() as int] == blanks[0]);
    } else {
        assert(core[marks.len() as int] == line[0]);
    }
    lemma_leading_is(core, class, marks.len());
    let none = Seq::<char>::empty();
    assert(trim_start(core, class) =~= blanks + line + none);
    lemma_trim_around(blanks, line, none);
    law_patterns_go_one_by_one(line, "**"@, 0);
}

/// Blanks around a text that neither starts nor ends with one are all that is
/// trimmed.
proof fn lemma_trim_around(front: Seq<char>, core: Seq<char>, back: Seq<char>)
    requires
        forall|i: int| 0 <= i < front.len() ==> white(#[trigger] front[i]),
        forall|i: int| 0 <= i < back.len() ==> white(#[trigger] back[i]),
        core.len() > 0,
        !white(core[0]) && !white(core.last()),
    ensures
        trim(front + core + back, Class::White) == core,
{
    let s = front + core + back;
    let t = core + back;
    assert forall|i: int| 0 <= i < front.len() implies Class::White.has(#[trigger] s[i]) by {
        assert(s[i] == front[i]);
    }
    assert(s[front.len() as int] == core[0]);
    lemma_leading_is(s, Class::White, front.len());
    assert(trim_start(s, Class::White) =~= t);
    assert forall|i: int| t.len() - back.len() <= i < t.len() implies Class::White.has(
        #[trigger] t[i],
    ) by {
        assert(t[i] == back[i - core.len()]);
    }
    assert(t[t.len() - back.len() - 1] == core.last());
    lemma_trailing_is(t, Class::White, back.len());
    assert(trim_end(t, Class::White) =~= core);
}

/// A line gives the key before its first colon, in lower case, the value behind it,
/// without the quotes or stars around that.
pub proof fn law_a_line_gives_its_key_a_value(
    key: Seq<char>,
    blanks: Seq<char>,
    open: Seq<char>,
    value: Seq<char>,
    close: Seq<char>,
)
    requires
        key.len() > 0,
        !key.contains(':'),
        !white(key[0]) && !white(key.last()),
        forall|i: int| 0 <= i < blanks.len() ==> white(#[trigger] blanks[i]),
        forall|i: int| 0 <= i < open.len() ==> Class::Three('"', '\'', '*').has(#[trigger] open[i]),
        forall|i: int| 0 <= i < close.len() ==> Class::Three('"', '\'', '*').has(#[trigger] close[i]),
        value.len() > 0,
        !white(value[0]) && !white(value.last()),
        !Class::Three('"', '\'', '*').has(value[0]),
        !Class::Three('"', '\'', '*').has(value.last()),
    ensures
        line_key(key + seq![':'] + blanks + open + value + close) == Some(to_ascii_lower(key)),
        line_value(key + seq![':'] + blanks + open + value + close) == value,
{
    let line = key + seq![':'] + blanks + open + value + close;
    let quotes = Class::Three('"', '\'', '*');
    let none = Seq::<char>::empty();
    let n = key.len() as int;
    assert forall|i: int| 0 <= i < n implies Class::Except(':').has(#[trigger] line[i]) by {
        assert(line[i] == key[i]);
        assert(key.contains(key[i]));
    }
    assert(line[n] == ':');
    lemma_leading_is(line, Class::Except(':'), n as nat);
    assert(line.take(n) =~= none + key + none);
    lemma_trim_around(none, key, none);
    let core = open + value + close;
    assert(line.skip(n + 1) =~= blanks + core + none);
    assert(!white(core[0])) by {
        if open.len() > 0 {
            assert(core[0] == open[0]);
            assert(quotes.has(open[0]));
        } else {
            assert(core[0] == value[0]);
        }
    }
    assert(!white(core.last())) by {
        if close.len() > 0 {
            assert(core.last() == close[close.len() - 1]);
            assert(quotes.has(close[close.len() - 1]));
        } else {
            assert(core.last() == value.last());
        }
    }
    lemma_trim_around(blanks, core, none);
    assert(trim(core, quotes) =~= value) by {
        let t = value + close;
        assert forall|i: int| 0 <= i < open.len() implies quotes.has(#[trigger] core[i]) by {
            assert(core[i] == open[i]);
        }
        assert(core[open.len() as int] == value[0]);
        lemma_leading_is(core, quotes, open.len());
        assert(trim_start(core, quotes) =~= t);
        assert forall|i: int| t.len() - close.len() <= i < t.len() implies quotes.has(
            #[trigger] t[i],
        ) by {
            assert(t[i] == close[i - value.len()]);
        }
        assert(t[t.len() - close.len() - 1] == value.last());
        lemma_trailing_is(t, quotes, close.len());
        assert(trim_end(t, quotes) =~= value);
    }
    assert(none + value + none =~= value);
    lemma_trim_around(none, value, none);
}

} // verus!
