use transcribe::assembly::{assemble, can_stamp};
use transcribe::diarize::{Diarization, SpeakerSegment};
use transcribe::options::{speaker_limit, Sampling};
use transcribe::paths::PathStyle;
use transcribe::prefixes::{
    frequent_prefixes, is_made_up, leading_prefix, name_like, strip_hallucinated_prefix,
};
use transcribe::prompt::{chosen_prompt, prompt_sources};
use transcribe::segments::{
    group_words, reported_segments, streamed_text, ChunkedDecoding, Decoded, Word,
};
use transcribe::spans::{
    can_decode, can_merge, chunk_samples, clip_spans, merge_spans, pad_input, percent_done,
    speech_spans,
};
use transcribe::{
    build_prompt, format_timestamp, prompt_with_vocabulary, rename_speaker, vocabulary_terms,
    Engine, Options, DEFAULT_PROMPT,
};

#[test]
fn merges_speech_spans_into_bounded_chunks() {
    // Three spans; the first two fit one chunk, the third starts a new one.
    let any_gap = usize::MAX;
    assert_eq!(
        merge_spans(&[(0, 40), (50, 90), (100, 150)], 100, any_gap),
        vec![(0, 90), (100, 150)]
    );
    // A single overlong span is cut into equal pieces.
    assert_eq!(merge_spans(&[(0, 250)], 100, any_gap), vec![(0, 84), (84, 168), (168, 250)]);
    assert_eq!(merge_spans(&[], 100, any_gap), Vec::<(usize, usize)>::new());
    // A gap wider than max_gap always starts a new chunk.
    assert_eq!(
        merge_spans(&[(0, 40), (45, 60), (80, 90)], 1000, 10),
        vec![(0, 60), (80, 90)]
    );
}

#[test]
fn groups_words_at_pauses_and_sentence_ends() {
    let w = |s: i64, e: i64, t: &str| (s, e, t.to_owned());
    let words = vec![
        w(0, 300, "Hello"),
        w(300, 600, "there."),
        // short sentence: no break yet (under SENTENCE_MIN_MS)
        w(700, 1000, "Still"),
        w(1000, 1300, "going"),
        // long pause -> new segment
        w(3000, 3400, "After"),
        w(3400, 3800, "pause."),
    ];
    let segments = group_words(&words);
    assert_eq!(
        segments,
        vec![(0, 130, "Hello there. Still going".to_owned()), (300, 380, "After pause.".to_owned())]
    );
    assert!(group_words(&[]).is_empty());
}

#[test]
fn empty_vocabulary_keeps_default_prompt() {
    assert_eq!(prompt_with_vocabulary(""), DEFAULT_PROMPT);
    assert_eq!(
        prompt_with_vocabulary("# Only headings\n\n<!-- and comments -->"),
        DEFAULT_PROMPT
    );
}

#[test]
fn vocabulary_terms_become_glossary() {
    let md = "# Vocab\n- Kubernetes\n* `gRPC`\n2. Grafana\nplain term";
    assert_eq!(
        prompt_with_vocabulary(md),
        format!("Glossary: Kubernetes, gRPC, Grafana, plain term. {DEFAULT_PROMPT}")
    );
}

#[test]
fn hallucinated_name_prefixes_are_stripped() {
    let none: Vec<String> = Vec::new();
    let names = vec!["Jane Miller".to_string(), "John Carter".to_string()];
    assert_eq!(
        strip_hallucinated_prefix("Jane Miller: Sorry to hear that.", &names, "", &none),
        "Sorry to hear that."
    );
    assert_eq!(
        strip_hallucinated_prefix("john carter: Jane Miller: Yeah.", &names, "", &none),
        "Yeah."
    );
    // Names mid-sentence or other colons stay untouched.
    assert_eq!(
        strip_hallucinated_prefix("Note: Jane Miller is away.", &names, "", &none),
        "Note: Jane Miller is away."
    );
    assert_eq!(
        strip_hallucinated_prefix("Hello there.", &[], "", &none),
        "Hello there."
    );
}

#[test]
fn context_names_are_stripped_without_enrollment() {
    let none: Vec<String> = Vec::new();
    // Names can come from the context box or the vocabulary file.
    let sources = "## people\n- jane miller\n- john carter";
    assert_eq!(
        strip_hallucinated_prefix("Jane Miller: Going on and...", &[], sources, &none),
        "Going on and..."
    );
    // Lowercase or punctuated prefixes don't qualify as names.
    assert_eq!(
        strip_hallucinated_prefix("weekly sync: notes", &[], sources, &none),
        "weekly sync: notes"
    );
    assert_eq!(
        strip_hallucinated_prefix("Jane Miller: Yeah.", &[], "", &none),
        "Jane Miller: Yeah."
    );
}

#[test]
fn renaming_swaps_labels_at_line_starts_only() {
    let plain = "Speaker 1: Hello.\nSpeaker 2: I met Speaker 1: no.\n";
    assert_eq!(
        rename_speaker(plain, "Speaker 1", "John Doe"),
        "John Doe: Hello.\nSpeaker 2: I met Speaker 1: no.\n"
    );
    let stamped = "[00:00:01.000 --> 00:00:02.000]  Speaker 1: Hi.\n";
    assert_eq!(
        rename_speaker(stamped, "Speaker 1", "John Doe"),
        "[00:00:01.000 --> 00:00:02.000]  John Doe: Hi.\n"
    );
    // Speaker 10 must not be touched when renaming Speaker 1.
    let ten = "Speaker 10: Hi.\n";
    assert_eq!(rename_speaker(ten, "Speaker 1", "X"), ten);
}

#[test]
fn frequent_prefixes_are_stripped_regardless_of_source() {
    let frequent: Vec<String> = vec![String::from("Jane Miller")];
    assert_eq!(
        strip_hallucinated_prefix("Jane Miller: Yeah.", &[], "", &frequent),
        "Yeah."
    );
    assert_eq!(leading_prefix("Jane Miller: Yeah."), Some("Jane Miller".to_owned()));
    // Long clauses and sentence-punctuated prefixes aren't names.
    assert_eq!(leading_prefix("this is a much longer clause than a name: x"), None);
    assert_eq!(leading_prefix("Yes, well: x"), None);
}

#[test]
fn context_joins_glossary_and_nudge() {
    assert_eq!(
        build_prompt("- Grafana", "Weekly sync\nwith Thomas"),
        format!("Glossary: Grafana. Context: Weekly sync with Thomas. {DEFAULT_PROMPT}")
    );
    assert_eq!(
        build_prompt("", "Kickoff!"),
        format!("Context: Kickoff! {DEFAULT_PROMPT}")
    );
}

#[test]
fn a_long_glossary_still_ends_with_the_nudge() {
    let mut md = String::new();
    for i in 0..500 {
        md.push_str(&format!("- term {i}\n"));
    }
    assert!(build_prompt(&md, "notes").ends_with(DEFAULT_PROMPT));
}

#[test]
fn terms_lose_markers_and_backticks() {
    assert_eq!(
        vocabulary_terms("  - one\n+ two\n10. three\n.four\n`\n<!-- no -->\n#no\r\nfi`v`e\r\n"),
        vec!["one", "two", "three", ".four", "five"]
    );
    // Characters that are no marker belong to the term.
    assert_eq!(
        vocabulary_terms("*nix\n-5 dB\n+two\n-- x\n*\n-\n* * y\n-\tz"),
        vec!["*nix", "-5 dB", "+two", "-- x", "* y", "z"]
    );
    assert_eq!(
        vocabulary_terms("3D printing\n.NET\n- Kubernetes\n- 2. x\n1.5 GB\n7.\n42\n3.. a"),
        vec!["3D printing", ".NET", "Kubernetes", "x", "1.5 GB", "42", "3.. a"]
    );
}

#[test]
fn an_asked_prompt_wins() {
    assert_eq!(chosen_prompt(Some("mine".to_owned()), "- x"), "mine");
    assert_eq!(chosen_prompt(None, ""), DEFAULT_PROMPT);
    assert_eq!(chosen_prompt(None, "- x"), format!("Glossary: x. {DEFAULT_PROMPT}"));
}

#[test]
fn spans_that_run_backwards_cannot_be_merged() {
    assert!(can_merge(&[(0, 10), (12, 20)], 100, 5));
    assert!(!can_merge(&[(10, 5)], 100, 5));
    assert!(can_decode(&[(0, 5), (7, 9)], true));
    assert!(!can_decode(&[(9, 7)], false));
}

#[test]
fn detected_speech_is_padded_inside_the_recording() {
    assert_eq!(
        speech_spans(Some(vec![(5_000, 6_000), (90_000, 99_000)]), 100_000),
        vec![(1_000, 10_000), (86_000, 100_000)]
    );
    assert_eq!(speech_spans(Some(vec![(100, 200)]), 100_000), vec![(0, 4_200)]);
    assert_eq!(speech_spans(None, 77), vec![(0, 77)]);
    assert_eq!(clip_spans(&[(0, 10), (5, 200), (150, 180)], 100), vec![(0, 10), (5, 100)]);
}

#[test]
fn chunks_are_filled_up_to_a_second() {
    let samples: Vec<i16> = vec![7; 20_000];
    let chunk = chunk_samples(&samples, 100, 200, 0);
    assert_eq!(chunk.len(), 16_000);
    assert_eq!(chunk[99], 7);
    assert_eq!(chunk[100], 0);
    assert_eq!(chunk_samples(&samples, 0, 17_000, 0).len(), 17_000);
    assert_eq!(pad_input(vec![1i16; 5], 0).len(), 17_600);
    assert_eq!(pad_input(vec![1i16; 20_000], 0).len(), 20_000);
    assert_eq!(percent_done(250, 1000), 25);
    assert_eq!(percent_done(0, 0), 0);
}

fn word(t0_ms: i64, t1_ms: i64, text: &str) -> Word {
    Word { t0_ms, t1_ms, text: text.to_owned() }
}

#[test]
fn aligned_chunks_become_grouped_words() {
    // Two stretches that are too long together for one chunk.
    let spans = [(0, 2_400_000), (2_400_000, 4_800_000)];
    let mut decoding = ChunkedDecoding::new(&spans, 4_800_000, true);
    assert_eq!(decoding.next_chunk(), Some((0, 2_400_000)));
    assert_eq!(decoding.percent(), Some(0));
    decoding.feed(&Decoded {
        text: String::new(),
        words: vec![word(0, 400, " Hello "), word(400, 500, "  "), word(500, 900, "world.")],
    });
    assert_eq!(decoding.next_chunk(), Some((2_400_000, 4_800_000)));
    assert_eq!(decoding.percent(), Some(50));
    let late = |t1_ms: i64| Decoded { text: String::new(), words: vec![word(0, t1_ms, "x")] };
    assert!(decoding.can_feed(&late(i64::MAX - 150_000)));
    assert!(!decoding.can_feed(&late(i64::MAX - 149_999)));
    // A model that times its words but found none gives the chunk's text.
    decoding.feed(&Decoded { text: " Later. ".to_owned(), words: Vec::new() });
    assert_eq!(decoding.next_chunk(), None);
    assert_eq!(decoding.percent(), None);
    assert_eq!(
        decoding.finish(),
        vec![(0, 90, "Hello world.".to_owned()), (15_000, 30_000, "Later.".to_owned())]
    );
}

#[test]
fn untimed_models_are_timed_by_their_chunks() {
    let spans = [(16_000, 32_000), (48_000, 64_000)];
    let mut decoding = ChunkedDecoding::new(&spans, 80_000, false);
    assert_eq!(decoding.next_chunk(), Some((16_000, 32_000)));
    decoding.feed(&Decoded { text: "One.".to_owned(), words: vec![word(5, 6, "ignored")] });
    decoding.feed(&Decoded { text: "  ".to_owned(), words: Vec::new() });
    assert_eq!(decoding.finish(), vec![(100, 200, "One.".to_owned())]);
}

#[test]
fn reported_texts_are_trimmed() {
    assert_eq!(
        reported_segments(&[(1, 2, " a \n".to_owned())]),
        vec![(1, 2, "a".to_owned())]
    );
    assert_eq!(streamed_text("  hi "), Some("hi".to_owned()));
    assert_eq!(streamed_text(" \n "), None);
}

#[test]
fn a_segment_breaks_after_a_long_sentence_and_at_the_limit() {
    let w = |s: i64, e: i64, t: &str| (s, e, t.to_owned());
    assert_eq!(
        group_words(&[w(0, 4_000, "Long."), w(4_100, 4_500, "Next")]),
        vec![(0, 400, "Long.".to_owned()), (410, 450, "Next".to_owned())]
    );
    assert_eq!(
        group_words(&[w(0, 19_000, "a"), w(19_000, 20_001, "b"), w(20_001, 20_100, "c")]),
        vec![(0, 1_900, "a".to_owned()), (1_900, 2_010, "b c".to_owned())]
    );
    // Negative times are rounded toward zero.
    assert_eq!(group_words(&[w(-19, -1, "x")]), vec![(-1, 0, "x".to_owned())]);
    // A pause of over a second starts a new segment, one of a second does not.
    assert_eq!(
        group_words(&[w(0, 300, "One"), w(1_400, 1_700, "two")]),
        vec![(0, 30, "One".to_owned()), (140, 170, "two".to_owned())]
    );
    assert_eq!(
        group_words(&[w(0, 300, "One"), w(1_300, 1_700, "two")]),
        vec![(0, 170, "One two".to_owned())]
    );
}

#[test]
fn models_pick_their_engine_by_extension() {
    for (path, engine) in [
        ("models/x.gguf", Engine::TranscribeCpp),
        ("x.GGUF", Engine::TranscribeCpp),
        ("x.bin", Engine::Whisper),
        (".gguf", Engine::Whisper),
        ("a.gguf/b", Engine::Whisper),
        ("a.gguf/", Engine::TranscribeCpp),
        ("a.gguf/.", Engine::TranscribeCpp),
        ("a.gguf/..", Engine::Whisper),
        ("gguf", Engine::Whisper),
        ("a..gguf", Engine::TranscribeCpp),
        ("", Engine::Whisper),
        ("/", Engine::Whisper),
    ] {
        assert_eq!(Engine::for_model(path, PathStyle::Slashes), engine, "{path}");
        let ext = std::path::Path::new(path).extension().and_then(|e| e.to_str());
        let expected = ext.is_some_and(|e| e.eq_ignore_ascii_case("gguf"));
        assert_eq!(engine == Engine::TranscribeCpp, expected, "{path}");
    }
}

#[test]
fn options_say_what_an_engine_can_do() {
    let mut opts: Options<Vec<f32>> = Options::default();
    assert_eq!(opts.prompt, DEFAULT_PROMPT);
    assert_eq!((speaker_limit(None), speaker_limit(Some(3))), (8, 3));
    assert_eq!(prompt_sources("with Bo", "- Grafana"), "with Bo\n- Grafana");
    assert_eq!(opts.fixed_language(), None);
    assert_eq!(opts.sampling(), Sampling::Greedy { best_of: 5 });
    assert!(opts.check_transcribe_cpp().is_ok());
    assert_eq!(opts.thread_count(None), 4);
    assert_eq!(opts.thread_count(Some(3)), 3);
    assert_eq!(opts.thread_count(Some(32)), 8);
    opts.threads = Some(12);
    assert_eq!(opts.thread_count(Some(2)), 12);
    opts.language = "de".to_owned();
    assert_eq!(opts.fixed_language(), Some("de".to_owned()));
    opts.beam_size = Some(1);
    assert_eq!(opts.sampling(), Sampling::Greedy { best_of: 5 });
    opts.beam_size = Some(4);
    assert_eq!(opts.sampling(), Sampling::BeamSearch { beam_size: 4 });
    assert_eq!(
        opts.check_transcribe_cpp(),
        Err("beam search is a Whisper option; this model decodes greedily".to_owned())
    );
    opts.translate = true;
    assert_eq!(
        opts.check_transcribe_cpp(),
        Err("translation needs a Whisper model; this one only transcribes".to_owned())
    );
}

#[test]
fn prefixes_have_the_shape_of_names() {
    // Two bytes are too short, 48 are not too long, 49 are.
    assert_eq!(leading_prefix("Al: x"), None);
    assert_eq!(leading_prefix("Ale: x"), Some("Ale".to_owned()));
    assert_eq!(leading_prefix("é : x"), None);
    assert_eq!(leading_prefix("éé: x"), Some("éé".to_owned()));
    let long = "x".repeat(48);
    assert_eq!(leading_prefix(&format!("{long}: y")), Some(long.clone()));
    assert_eq!(leading_prefix(&format!("{long}x: y")), None);
    assert_eq!(leading_prefix(": y"), None);
    assert_eq!(leading_prefix("no colon"), None);
    assert_eq!(leading_prefix("one two three four: y"), Some("one two three four".to_owned()));
    assert_eq!(leading_prefix("a b c d e: y"), None);
    // What is known to be a name is stripped however short it is.
    let bo = ["bo".to_owned()];
    assert_eq!(strip_hallucinated_prefix("Bo: hi", &bo, "", &[]), "hi");
    assert_eq!(strip_hallucinated_prefix("Bo: Bo : hi", &bo, "", &[]), "hi");
    assert_eq!(strip_hallucinated_prefix("Bo: hi", &[], "with bo", &[]), "hi");
    assert_eq!(strip_hallucinated_prefix("Bo: hi", &[], "", &["Bo".to_owned()]), "hi");
    assert_eq!(strip_hallucinated_prefix("bo: hi", &[], "with bo", &["Bo".to_owned()]), "bo: hi");
    assert_eq!(strip_hallucinated_prefix(" : hi", &[String::new()], "", &[]), " : hi");
    assert!(name_like("Émile"));
    assert!(!name_like("émile"));
    assert!(!name_like(""));
}

#[test]
fn what_is_made_up_is_decided_by_three_rules() {
    let prefix: Vec<char> = "Jane".chars().collect();
    let sources: Vec<char> = "with jane and ben".chars().collect();
    let nobody: Vec<String> = Vec::new();
    assert!(is_made_up(&prefix, true, "jane", &nobody, &sources, &nobody));
    assert!(!is_made_up(&prefix, false, "jane", &nobody, &sources, &nobody));
    assert!(!is_made_up(&prefix, true, "joan", &nobody, &sources, &nobody));
    assert!(is_made_up(&prefix, false, "x", &["JANE".to_owned()], &[], &nobody));
    assert!(is_made_up(&prefix, false, "x", &nobody, &[], &["Jane".to_owned()]));
}

#[test]
fn three_lines_with_one_name_are_frequent() {
    let line = |t: &str| (0i64, 0i64, t.to_owned());
    let lines = vec![
        line("Jane: a"),
        line("Ben: a"),
        line("Jane: b"),
        line("jane: c"),
        line("Jane: d"),
        line("Ben: e"),
    ];
    assert_eq!(frequent_prefixes(&lines), vec!["Jane".to_owned()]);
}

fn segment(start: usize, end: usize, speaker: usize) -> SpeakerSegment {
    SpeakerSegment { start, end, speaker }
}

#[test]
fn speakers_are_numbered_as_they_appear() {
    let diarization: Diarization<u8> = Diarization {
        segments: vec![segment(0, 16_000, 3), segment(16_000, 32_000, 1), segment(32_000, 48_000, 2)],
        names: vec![(1, ("Anna".to_owned(), 900)), (9, ("Ben".to_owned(), 1000))],
        weak_matches: vec![("Carl".to_owned(), 800)],
        centroids: vec![11, 22, 33],
    };
    let raw = vec![
        (0, 100, "One.".to_owned()),
        (100, 200, "Two.".to_owned()),
        (200, 300, "Three.".to_owned()),
        (0, 100, "Four.".to_owned()),
    ];
    let transcript = assemble(&raw, &[], "", false, Some(diarization));
    assert_eq!(
        transcript.text,
        "Speaker 1: One.\nAnna: Two.\nSpeaker 2: Three.\nSpeaker 1: Four.\n"
    );
    assert_eq!(transcript.speakers, Some(3));
    assert_eq!(
        transcript.speaker_matches,
        vec![("Ben".to_owned(), 1000), ("Anna".to_owned(), 900)]
    );
    assert_eq!(transcript.weak_matches, vec![("Carl".to_owned(), 800)]);
    let voices: Vec<(String, u8)> =
        transcript.speaker_voices.into_iter().map(|v| (v.label, v.embedding)).collect();
    assert_eq!(
        voices,
        vec![
            ("Anna".to_owned(), 11),
            ("Speaker 1".to_owned(), 33),
            ("Speaker 2".to_owned(), 22),
        ]
    );
}

#[test]
fn nobody_known_is_a_question_mark() {
    let diarization: Diarization<u8> = Diarization {
        segments: Vec::new(),
        names: Vec::new(),
        weak_matches: Vec::new(),
        centroids: Vec::new(),
    };
    let raw = vec![(0, 100, "One.".to_owned())];
    let transcript = assemble(&raw, &[], "", true, Some(diarization));
    assert_eq!(transcript.text, "[00:00:00.000 --> 00:00:01.000]  Speaker ?: One.\n");
    assert_eq!(transcript.speakers, Some(0));
}

#[test]
fn loops_are_cut_and_made_up_names_stripped() {
    let line = |t: &str| (0i64, 0i64, t.to_owned());
    let raw = vec![
        line("Thank you."),
        line("Thank you."),
        line("Thank you."),
        line("Jane Miller:"),
        line("Thank you."),
        line("Ümit: Hello."),
        line("Thank you."),
    ];
    let transcript = assemble::<u8>(
        &raw,
        &["jane miller".to_owned()],
        "Notes: ÜMIT joins",
        false,
        None,
    );
    assert_eq!(transcript.text, "Thank you.\nThank you.\nHello.\nThank you.\n");
    assert_eq!(transcript.speakers, None);
    assert!(transcript.speaker_voices.is_empty());
}

#[test]
fn the_order_of_frequent_names_makes_no_difference() {
    let line = |t: &str| (0i64, 0i64, t.to_owned());
    let mut raw: Vec<(i64, i64, String)> = Vec::new();
    for i in 0..3 {
        raw.push(line(&format!("Jane: a{i}")));
        raw.push(line(&format!("Ben: Jane: b{i}")));
    }
    let transcript = assemble::<u8>(&raw, &[], "", false, None);
    assert_eq!(transcript.text, "a0\nb0\na1\nb1\na2\nb2\n");
    let mut frequent = frequent_prefixes(&raw);
    assert_eq!(frequent.len(), 2);
    for _ in 0..2 {
        assert_eq!(strip_hallucinated_prefix("Ben: Jane: x", &[], "", &frequent), "x");
        frequent.reverse();
    }
}

#[test]
fn earlier_timestamps_come_first() {
    let mut times: Vec<i64> = vec![0, 1, 9, 10, 99, 100, 599, 600, 5_999, 6_000, 59_999, 60_000];
    times.extend([359_999, 360_000, 3_599_999, 3_600_000, 35_999_998, 35_999_999]);
    let stamps: Vec<String> = times.iter().map(|t| format_timestamp(*t)).collect();
    assert!(stamps.windows(2).all(|pair| pair[0] < pair[1]));
    assert!(stamps.iter().all(|s| s.len() == 12));
    assert_eq!(stamps.last().unwrap(), "99:59:59.990");
}

#[test]
fn timestamps_count_up_to_hours() {
    assert_eq!(format_timestamp(0), "00:00:00.000");
    assert_eq!(format_timestamp(366_123), "01:01:01.230");
    assert_eq!(format_timestamp(36_000_000), "100:00:00.000");
    assert_eq!(format_timestamp(-123), "00:00:-1.-230");
    assert!(can_stamp(&[(0, 5, String::new())]));
    assert!(!can_stamp(&[(0, i64::MAX, String::new())]));
}

#[test]
fn stripping_again_changes_nothing() {
    let names = vec!["Ann Lee".to_owned()];
    for line in ["Ann Lee: ann lee: x: y", "Ann Lee:", "plain", ": a", "Ann Lee: Note: z"] {
        let once = strip_hallucinated_prefix(line, &names, "", &[]);
        assert!(line.ends_with(&once));
        assert_eq!(strip_hallucinated_prefix(&once, &names, "", &[]), once);
    }
}

#[test]
fn grouping_keeps_every_word() {
    let words: Vec<(i64, i64, String)> =
        (0..200i64).map(|i| (i * i * 7, i * i * 7 + 90, format!("w{i}."))).collect();
    let groups = group_words(&words);
    let said: Vec<&str> = words.iter().map(|w| w.2.as_str()).collect();
    let read: Vec<&str> = groups.iter().map(|g| g.2.as_str()).collect();
    assert_eq!(read.join(" "), said.join(" "));
    assert!(groups.iter().all(|g| g.1 - g.0 <= 2_000));
}

#[test]
fn chunks_hold_all_speech_and_stop_at_gaps() {
    let found = vec![(1_000, 30_000), (35_000, 700_000), (800_000, 800_100)];
    let spans = speech_spans(Some(found.clone()), 900_000);
    let chunks = merge_spans(&spans, 320_000, 9_600);
    for (start, end) in found {
        for t in [start, (start + end) / 2, end - 1] {
            assert_eq!(chunks.iter().filter(|c| c.0 <= t && t < c.1).count(), 1);
        }
    }
    assert!(chunks.iter().all(|c| c.0 < c.1 && c.1 - c.0 <= 320_000));
    assert!(chunks.iter().all(|c| !(c.0 <= 704_000 && 796_000 < c.1)));
}
