use transcribe::applog::{
    default_path, enabled, log_candidates, log_line, needs_rotation, timestamp, Level,
};
use transcribe::calendar::civil_date;
use transcribe::desk::{
    model_detail, no_prompt_reason, opening_status, recording_label, Desk, Enrolled, Job, Sample,
    NO_SIGNAL,
};
use transcribe::download::{
    check_complete, diarization_models, model_by_name, speech_models, takes_prompt, DEFAULT_MODEL,
};
use transcribe::filing::{is_transcript, listed, sanitize, sorted_newest_first, NameSearch, Saved};
use transcribe::panel::{
    after_download, declares_microphone, done_status, download_status, eta, format_eta,
    format_mmss, Panel,
};
use transcribe::paths::{
    file_place, join_path, models_dir_in, models_place, next_to_models, parent, transcripts_dir,
    upward, user_dir_in, PathStyle,
};
use transcribe::recording::{enrollment_range, is_silent, needs_resampling, Decoding};
use transcribe::settings::Settings;
use transcribe::summarize::{
    answer, answer_in, char_floor, label, parse_label, partial_answer, prompt_batches,
    skip_thinking, summarize, trimmed, without_thinking, Label,
};
use transcribe::text::{chars_of, is_white, lines_of, trimmed_text, words_of};
use transcribe::transcripts::{parse, render, Meta, DIVIDER};
use transcribe::{Engine, Progress, SpeakerVoice, Transcript};

#[test]
fn strips_reasoning_blocks() {
    assert_eq!(without_thinking("<think>\nhmm\n</think>\n\nSummary."), "\n\nSummary.");
    assert_eq!(without_thinking("Summary only."), "Summary only.");
    assert_eq!(without_thinking("<think>unterminated"), "");
    assert_eq!(without_thinking("\nhmm</think>Summary."), "Summary.");
}

#[test]
fn header_survives_a_round_trip() {
    let meta = Meta {
        title: "Sprint planning".into(),
        date: "2026-09-17 14:32".into(),
        duration: "33:04".into(),
        summary: "The team agreed to ship on Friday.".into(),
    };
    let body = "Anna: Morning everyone.\nBen: Release is tagged.";
    let stored = render(&meta, body);
    let (parsed, parsed_body) = parse(&stored);
    assert_eq!(parsed, meta);
    assert_eq!(parsed_body.trim_end(), body);
}

/// A model-written title is untrusted text: a newline in it must not
/// be able to break the header apart.
#[test]
fn multi_line_header_values_are_flattened() {
    let meta = Meta {
        title: "Sprint\nplanning".into(),
        summary: "First line.\nSecond line.".into(),
        date: "2026-09-17 14:32".into(),
        ..Meta::default()
    };
    let stored = render(&meta, "body text");
    let (parsed, body) = parse(&stored);
    assert_eq!(parsed.title, "Sprint planning");
    assert_eq!(parsed.summary, "First line. Second line.");
    assert_eq!(body.trim_end(), "body text");
}

#[test]
fn a_plain_transcript_parses_as_body_only() {
    let text = "Anna: Morning everyone.\nBen: Release is tagged.\n";
    let (meta, body) = parse(text);
    assert_eq!(meta, Meta::default());
    assert_eq!(body, text);
}

/// A transcript line that happens to look like a header key — a
/// speaker called "Date", say — must not be eaten as one.
#[test]
fn unknown_keys_end_the_header() {
    let text = "Title: Standup\n\nDate of birth: not a header\n";
    let (meta, body) = parse(text);
    assert_eq!(meta.title, "Standup");
    assert!(body.contains("Date of birth"));
}

#[test]
fn titles_become_safe_file_names() {
    assert_eq!(sanitize("Q3 planning: budget/scope"), "Q3 planning budget scope");
    assert_eq!(sanitize("Grüße aus München"), "Grüße aus München");
    assert!(sanitize(&"x".repeat(200)).len() <= 80);
    // A model-written title is untrusted text: it must not be able to
    // walk out of the transcripts directory.
    let hostile = sanitize("  ../../etc/passwd  ");
    assert_eq!(hostile, "etc passwd");
    assert!(!hostile.contains(['/', '\\', ':']) && !hostile.starts_with('.'));
}

#[test]
fn a_rendered_meeting_has_this_form() {
    let meta = Meta { title: " A\tB ".into(), date: " ".into(), ..Meta::default() };
    assert_eq!(render(&meta, "text \n\n"), format!("Title: A B\nDate: \n\n{DIVIDER}\n\ntext\n"));
    assert_eq!(render(&Meta::default(), ""), "\n");
    // Windows line endings and a hand-edited file without a divider.
    let (meta, body) = parse("Title: T\r\nSummary:  S \r\n\r\nHello: you\r\n");
    assert_eq!((meta.title.as_str(), meta.summary.as_str()), ("T", "S"));
    assert_eq!(body, "Hello: you\r\n");
    assert_eq!(parse("Date: today").0.date, "today");
}

#[test]
fn long_names_are_cut_between_characters() {
    assert_eq!(sanitize(&"é".repeat(100)), "é".repeat(40));
    assert_eq!(sanitize(&format!("a{}", "é".repeat(100))), format!("a{}", "é".repeat(39)));
    assert_eq!(sanitize(&format!("{} b", "x".repeat(79))), "x".repeat(79));
    for code in 0..0x500u32 {
        let c = char::from_u32(code).unwrap();
        if c.is_control() {
            assert_eq!(sanitize(&format!("a{c}b")), "a b", "{code:x}");
        }
    }
}

#[test]
fn a_name_is_not_changed_again() {
    for title in ["  ../../etc/passwd  ", "a\t b\n\nc", ". x . y .", "Q3: plans?", "...", "é\u{3000}è"] {
        let name = sanitize(title);
        assert_eq!(sanitize(&name), name);
        assert!(!name.contains("  ") && !name.ends_with(['.', ' ']) && !name.starts_with(['.', ' ']));
        assert!(name.chars().all(|c| c == ' ' || !c.is_whitespace()));
    }
    assert_eq!(sanitize(". x . y ."), "x . y");
}

#[test]
fn a_taken_name_gets_a_number() {
    let meta = Meta { title: "Standup".into(), date: "2026-09-17 14:32".into(), ..Meta::default() };
    let mut search = NameSearch::new(&meta);
    assert_eq!(search.name(), "2026-09-17 1432 Standup.txt");
    search.taken();
    assert_eq!(search.name(), "2026-09-17 1432 Standup (2).txt");
    search.taken();
    assert_eq!(search.name(), "2026-09-17 1432 Standup (3).txt");
    let only = |title: &str, date: &str| {
        NameSearch::new(&Meta { title: title.into(), date: date.into(), ..Meta::default() }).name()
    };
    assert_eq!(only("", ""), "transcript.txt");
    assert_eq!(only("...", "1:2"), "12.txt");
    assert_eq!(only("T", ""), "T.txt");
}

#[test]
fn the_history_is_newest_first() {
    let entry = |stem: &str, contents: Option<&str>, modified: i128| {
        listed(format!("{stem}.txt"), stem, contents, 5, modified)
    };
    let list = sorted_newest_first(vec![
        entry("old", Some("Title: Old\nDate: 2025-01-01 10:00\n"), 1),
        entry("plain", Some("just text"), 5),
        entry("new", Some("Date: 2026-01-01 10:00\n"), 6),
        entry("unreadable", None, 3),
        entry("longer", Some("Date: 2026-01-01 10:00 x\n"), 9),
    ]);
    let titles = |list: &[Saved]| -> Vec<String> {
        list.iter().map(|s| s.meta.title.clone()).collect()
    };
    assert_eq!(titles(&list), vec!["longer", "new", "plain", "unreadable", "Old"]);
    // Where all have a date, the date decides; equal dates leave it to the time.
    let list = sorted_newest_first(vec![
        entry("a", Some("Date: 2025-01-01 10:00\n"), 9),
        entry("b", Some("Date: 2026-01-01 10:00\n"), 2),
        entry("c", Some("Date: 2026-01-01 10:00\n"), 3),
    ]);
    assert_eq!(titles(&list), vec!["c", "b", "a"]);
    // A file without a date is sorted by its time.
    let list = sorted_newest_first(vec![
        entry("a", Some("Title: A\nDate: 2026-09-17 14:32\n\nx\n"), 1_000),
        entry("b", Some("plain\n"), 2_000),
    ]);
    assert_eq!(titles(&list), vec!["b", "A"]);
    // No order suits these three: each is newer than the next.
    let list = sorted_newest_first(vec![
        entry("a", Some("Date: 2026-01-01 10:00\n"), 1),
        entry("b", Some("Date: 2025-01-01 10:00\n"), 3),
        entry("c", Some("plain\n"), 2),
    ]);
    assert_eq!(list.len(), 3);
    for pair in list.windows(2) {
        let dated = pair.iter().all(|s| !s.meta.date.is_empty());
        assert!(if dated {
            pair[0].meta.date >= pair[1].meta.date
        } else {
            pair[0].modified >= pair[1].modified
        });
    }
    for (path, listed) in [("dir/a.b.txt", true), ("a.TXT", false), (".txt", false), ("txt", false)] {
        assert_eq!(is_transcript(path, PathStyle::Slashes), listed, "{path}");
        assert_eq!(is_transcript(path, PathStyle::Drives), listed, "{path}");
    }
    assert!(is_transcript("d\\.txt", PathStyle::Slashes));
    assert!(!is_transcript("d\\.txt", PathStyle::Drives));
    assert!(is_transcript("C:d.txt\\", PathStyle::Drives));
}

#[test]
fn labels_are_read_from_straying_answers() {
    let read = |text: &str| {
        let Label { title, summary } = parse_label(text);
        (title, summary)
    };
    let pair = |a: &str, b: &str| (a.to_owned(), b.to_owned());
    assert_eq!(read("Title: Budget\nSummary: Cuts."), pair("Budget", "Cuts."));
    assert_eq!(
        read("- **Title:** \"Q3: plans.\"\n* **SUMMARY**: 'It went well.'\nTitle: other"),
        pair("Q3: plans", "It went well.")
    );
    assert_eq!(read("# \"Bare title.\"\n\n one \n two"), pair("Bare title", "one two"));
    assert_eq!(read("Summary: S\nX"), pair("Summary: S", "S"));
    assert_eq!(read("Title: \nTitle: T..\nsummary:"), pair("T", ""));
    assert_eq!(read(" \n"), pair("", ""));
    assert_eq!(parse_label(""), Label::default());
}

#[test]
fn lines_behind_a_label_change_nothing() {
    let answer = "Summary: Cuts.\n**Title:** Budget\r";
    for more in ["", "Title: other", "Summary: no\nTitle: x", "and more\n\n"] {
        assert_eq!(parse_label(&format!("{answer}\n{more}")), parse_label(answer));
    }
    assert_eq!(parse_label(answer).title, "Budget");
}

#[test]
fn answers_lose_their_thinking() {
    assert_eq!(answer(b"<think>\n\n</think>\n\nDone.\n"), "Done.");
    // The opening tag was swallowed: everything up to the closing one goes.
    assert_eq!(answer_in("a\nb</think>c "), "c");
    assert_eq!(without_thinking("first thought\nsecond thought</think>Summary."), "Summary.");
    assert_eq!(without_thinking("a</think>b</think>c"), "b</think>c");
    // Half a character at the end of what has been generated.
    assert_eq!(partial_answer(&[b'a', 0xc3]), "a\u{fffd}");
    assert_eq!(partial_answer("é".as_bytes()), "é");
}

#[test]
fn the_middle_of_a_long_transcript_is_dropped() {
    let marker = "\n[... middle of the transcript omitted ...]\n";
    assert_eq!(trimmed("abcdefghij", 10), "abcdefghij");
    assert_eq!(trimmed("abcdefghij", 4), format!("ab{marker}ij"));
    assert_eq!(trimmed("abcdefghij", 5), format!("ab{marker}hij"));
    assert_eq!(trimmed("ééééé", 6), format!("é{marker}éé"));
    assert_eq!(trimmed("abc", 0), marker);
    for at in 0..8 {
        let text = "aé€x";
        let mut floor = at.min(text.len());
        while !text.is_char_boundary(floor) {
            floor -= 1;
        }
        assert_eq!(char_floor(text, at), floor);
    }
}

#[test]
fn a_summary_is_asked_for_with_notes_and_terms() {
    let mut ask = summarize("Words.", " Kickoff ", "- Grafana\n- gRPC").unwrap();
    assert_eq!(
        ask.user(),
        "Notes about the recording:\n Kickoff \n\nNames and terms, spelled as they should appear: \
         Grafana, gRPC\n\nSummarize this transcript:\n\nWords."
    );
    assert!(ask.system().starts_with("You summarize meeting"));
    assert_eq!((ask.n_ctx(), ask.max_output()), (32_768, 1_024));
    assert!(ask.fits(31_680));
    assert!(!ask.fits(31_681));
    // 6 bytes became 5.
    assert!(ask.user().ends_with("Wo\n[... middle of the transcript omitted ...]\nds."));
    assert!(matches!(summarize(" \n", "x", "y"), Err(e) if e == "nothing to summarize"));
}

#[test]
fn cutting_a_prompt_converges() {
    let text = "word ".repeat(4_000);
    let mut ask = summarize(&text, "", "").unwrap();
    let mut before = ask.user().len();
    let mut cuts = 0;
    // Four tokens for every byte are too many at first.
    while !ask.fits(ask.user().len() * 4) {
        let now = ask.user().len();
        assert!(now < before);
        before = now;
        cuts += 1;
    }
    assert!((1..5).contains(&cuts));
}

#[test]
fn a_label_is_asked_for_in_a_small_window() {
    let mut ask = label("Words.", "").unwrap();
    assert_eq!(ask.user(), "Label this transcript:\n\nWords.");
    assert!(ask.system().contains("exactly two lines"));
    assert!(ask.fits(8_000) && !ask.fits(8_001));
    assert!(matches!(label("", "y"), Err(e) if e == "nothing to summarize"));
    assert_eq!(skip_thinking(Some("a <think> b")), "<think>\n\n</think>\n\n");
    assert_eq!(skip_thinking(Some("plain")), "");
    assert_eq!(skip_thinking(None), "");
    assert_eq!(prompt_batches(5_000), vec![(0, 2_048), (2_048, 4_096), (4_096, 5_000)]);
    assert_eq!(prompt_batches(2_048), vec![(0, 2_048)]);
    assert!(prompt_batches(0).is_empty());
}

#[test]
fn dates_are_counted_from_1970() {
    for (days, date) in [
        (0, (1970, 1, 1)),
        (58, (1970, 2, 28)),
        (59, (1970, 3, 1)),
        (789, (1972, 2, 29)),
        (10_957, (2000, 1, 1)),
        (11_016, (2000, 2, 29)),
        (20_454, (2026, 1, 1)),
        (47_540, (2100, 2, 28)),
        (47_541, (2100, 3, 1)),
    ] {
        let found = civil_date(days);
        assert_eq!((found.year, found.month, found.day), date);
    }
    assert_eq!(timestamp(0, 0), "1970-01-01 00:00:00.000");
    assert_eq!(timestamp(1_789_655_523, 45), "2026-09-17 14:32:03.045");
}

#[test]
fn the_log_keeps_our_lines_and_warnings() {
    assert!(enabled("transcribe::test", Level::Info));
    assert!(!enabled("transcribe", Level::Debug));
    assert!(!enabled("wgpu_core", Level::Info));
    assert!(enabled("wgpu_core", Level::Warn) && enabled("x", Level::Error));
    assert!(!enabled("transcribe", Level::Trace));
    assert_eq!(
        log_line("now", Level::Info, "transcribe::test", "hello"),
        "now INFO  [transcribe::test] hello\n"
    );
    assert_eq!(log_line("t", Level::Error, "a", "b"), "t ERROR [a] b\n");
    assert!(needs_rotation((2 << 20) + 1) && !needs_rotation(2 << 20));
    let style = PathStyle::Slashes;
    assert_eq!(default_path(Some("/opt/app/gui"), "/u", style), "/opt/app/transcribe.log");
    assert_eq!(default_path(Some("/A.app/Contents/MacOS/gui"), "/u", style), "/u/transcribe.log");
    assert_eq!(default_path(None, "/u", style), "/u/transcribe.log");
    assert_eq!(
        log_candidates(Some("/opt/gui"), "/u", "/tmp/", style),
        vec!["/opt/transcribe.log", "/u/transcribe.log", "/tmp/transcribe.log"]
    );
}

#[test]
fn paths_are_taken_apart_as_the_system_does() {
    for path in [
        "", "/", "a", "a/b", "/a", "/a/b/", "a//b", "a/./b", "a/.", ".", "./a", "..", "a/..", "//a",
        "/.", "a/b/./", "a.b/c",
    ] {
        let expected = std::path::Path::new(path).parent();
        let found = parent(path, PathStyle::Slashes);
        assert_eq!(found.is_some(), expected.is_some(), "{path}");
        if let (Some(found), Some(expected)) = (found, expected) {
            assert_eq!(std::path::Path::new(&found), expected, "{path}");
        }
        let joined = std::path::Path::new(path).join("x.md");
        assert_eq!(std::path::Path::new(&join_path(path, "x.md", PathStyle::Slashes)), joined);
    }
    let style = PathStyle::Slashes;
    assert_eq!(upward("/a/b/exe", "models", style), vec!["/a/b/models", "/a/models", "/models"]);
    assert_eq!(upward("b/exe", "models", style), vec!["b/models", "models"]);
    assert_eq!(parent("a\\b", style), Some(String::new()));
}

#[test]
fn drives_and_backslashes_are_understood() {
    let style = PathStyle::Drives;
    assert_eq!(
        upward("C:\\Program Files\\app\\gui.exe", "models", style),
        vec!["C:\\Program Files\\app\\models", "C:\\Program Files\\models", "C:\\models"]
    );
    assert_eq!(parent("C:\\", style), None);
    assert_eq!(parent("C:", style), None);
    assert_eq!(parent("C:gui.exe", style), Some("C:".to_owned()));
    assert_eq!(parent("\\gui.exe", style), Some("\\".to_owned()));
    assert_eq!(parent("a/b\\c\\", style), Some("a/b".to_owned()));
    // A share and a device are roots, and so are the verbatim forms.
    let up = |path: &str| upward(path, "m", style);
    assert_eq!(
        up("\\\\server\\share\\a\\gui.exe"),
        vec!["\\\\server\\share\\a\\m", "\\\\server\\share\\m"]
    );
    assert_eq!(up("//server/share/gui.exe"), vec!["//server/share/m"]);
    assert_eq!(parent("\\\\server\\share", style), None);
    assert_eq!(join_path("\\\\server\\share", "x", style), "\\\\server\\share\\x");
    assert_eq!(up("\\\\server\\"), vec!["\\m"]);
    assert_eq!(up("\\\\.\\NS\\a"), vec!["\\\\.\\NS\\m"]);
    assert_eq!(
        up("\\\\?\\C:\\a\\gui.exe"),
        vec!["\\\\?\\C:\\a\\m", "\\\\?\\C:\\m"]
    );
    assert_eq!(parent("\\\\?\\C:", style), None);
    assert_eq!(
        up("\\\\?\\UNC\\server\\share\\gui.exe"),
        vec!["\\\\?\\UNC\\server\\share\\m"]
    );
    assert_eq!(up("\\\\?\\pictures\\kittens"), vec!["\\\\?\\pictures\\m"]);
    // There, a slash divides nothing, and a dot is a part.
    assert_eq!(parent("\\\\?\\C:\\a/b\\.", style), Some("\\\\?\\C:\\a/b".to_owned()));
    assert_eq!(join_path("\\\\?\\C:\\a\\\\b\\", "x", style), "\\\\?\\C:\\a\\b\\x");
    assert_eq!(join_path("\\\\?\\C:", "x", style), "\\\\?\\C:\\x");
    for (path, engine) in [
        ("a\\.gguf", Engine::Whisper),
        ("dir.gguf\\", Engine::TranscribeCpp),
        ("dir.gguf\\.", Engine::TranscribeCpp),
        ("C:m.GGUF", Engine::TranscribeCpp),
        ("\\\\server\\m.gguf", Engine::Whisper),
        ("\\\\server\\d\\m.gguf", Engine::TranscribeCpp),
        ("\\\\?\\C:\\m.gguf\\.", Engine::Whisper),
        ("d.gguf\\..", Engine::Whisper),
    ] {
        assert_eq!(Engine::for_model(path, style), engine, "{path}");
    }
    assert_eq!(join_path("C:", "x", style), "C:x");
    assert_eq!(join_path("C:\\u", "x", style), "C:\\u\\x");
    assert_eq!(join_path("C:/u/", "x", style), "C:/u/x");
    assert_eq!(models_dir_in("C:\\Users\\u", style), "C:\\Users\\u\\.transcribe\\models");
    assert_eq!(transcripts_dir(Some("D:\\t\\models"), style), "D:\\t\\transcripts");
    assert_eq!(default_path(Some("D:\\t\\gui.exe"), "C:\\u", style), "D:\\t\\transcribe.log");
}

#[test]
fn files_live_next_to_the_models() {
    let style = PathStyle::Slashes;
    assert_eq!(
        transcripts_dir(Some("/home/u/.transcribe/models"), style),
        "/home/u/.transcribe/transcripts"
    );
    assert_eq!(transcripts_dir(Some("models"), style), "transcripts");
    assert_eq!(transcripts_dir(None, style), "transcripts");
    assert_eq!(next_to_models(Some("/"), "f", style), "f");
    assert_eq!(file_place(true, Some("/x/f".to_owned()), Some("a/models"), "f", style), "f");
    assert_eq!(file_place(false, Some("/x/f".to_owned()), Some("a/models"), "f", style), "/x/f");
    assert_eq!(file_place(false, None, Some("a/models"), "f", style), "a/f");
    assert_eq!(user_dir_in("/home/u", style), "/home/u/.transcribe");
    assert_eq!(models_dir_in("/home/u/", style), "/home/u/.transcribe/models");
    let some = |s: &str| Some(s.to_owned());
    assert_eq!(models_place(true, some("/x/models"), some("/u")), some("models"));
    assert_eq!(models_place(false, some("/x/models"), some("/u")), some("/x/models"));
    assert_eq!(models_place(false, None, some("/u")), some("/u"));
    assert_eq!(models_place(false, None, None), None);
}

#[test]
fn models_are_found_by_name() {
    let models = speech_models();
    assert_eq!(models.len(), 8);
    for m in &models {
        assert_eq!(model_by_name(m.name).unwrap().file, m.file);
    }
    let tiny = model_by_name("tiny").unwrap();
    assert_eq!((tiny.size, tiny.note, tiny.file), ("75 MB", "", "ggml-tiny.bin"));
    assert_eq!(
        tiny.url,
        "https://huggingface.co/ggerganov/whisper.cpp/resolve/main/ggml-tiny.bin"
    );
    assert!(model_by_name("huge").is_none());
    assert!(takes_prompt("tiny") && takes_prompt("huge"));
    assert!(!takes_prompt("parakeet-tdt-0.6b-v3"));
    assert_eq!(diarization_models()[1].file, "wespeaker_en_voxceleb_CAM++.onnx");
    assert_eq!(Settings::default().chosen_model(), DEFAULT_MODEL);
    let picked = |name: &str| Settings { model: Some(name.to_owned()) }.chosen_model();
    assert_eq!(picked("tiny"), "tiny");
    assert_eq!(picked("gone"), DEFAULT_MODEL);
}

#[test]
fn short_downloads_are_refused() {
    assert!(check_complete(5, Some(5)).is_ok());
    assert!(check_complete(5, None).is_ok());
    assert_eq!(
        check_complete(5, Some(7)),
        Err("incomplete download: got 5 of 7 bytes".to_owned())
    );
}

#[test]
fn decoded_packets_are_put_together() {
    let mut decoding: Decoding<u8> = Decoding::new();
    decoding.packet(44_100, 2, &[1, 2]);
    decoding.packet(8_000, 1, &[3]);
    let pcm = decoding.finish().ok().unwrap();
    assert_eq!((pcm.samples, pcm.rate, pcm.channels), (vec![1, 2, 3], 44_100, 2));
    assert!(matches!(Decoding::<u8>::new().finish(), Err(e) if e == "no audio frames decoded"));
    assert!(needs_resampling(1, 44_100));
    assert!(!needs_resampling(0, 44_100) && !needs_resampling(1, 16_000));
    assert_eq!(enrollment_range(None, None, 9), Ok((0, 9)));
    assert_eq!(enrollment_range(Some(2), Some(50), 9), Ok((2, 9)));
    assert_eq!(
        enrollment_range(Some(9), None, 9),
        Err("the time range contains no audio".to_owned())
    );
}

fn idle() -> Panel {
    Panel {
        running: false,
        recording: false,
        enroll_recording: false,
        enrolling: false,
        downloading: false,
        summarizing: false,
        has_source: true,
        has_models_dir: true,
        model_ready: true,
        diarize: false,
        diarization_ready: false,
    }
}

#[test]
fn one_thing_at_a_time() {
    let panel = idle();
    assert!(!panel.busy() && !panel.moves());
    assert!(panel.can_record() && panel.can_pick_model() && panel.can_transcribe());
    assert!(panel.can_summarize("x") && !panel.can_summarize(" "));
    assert!(!panel.can_enroll("Ann"));
    let ready = Panel { diarize: true, diarization_ready: true, ..panel };
    assert!(ready.can_transcribe() && ready.can_enroll("Ann") && !ready.can_enroll(" "));
    assert!(!Panel { diarize: true, ..panel }.can_transcribe());
    let running = Panel { running: true, ..ready };
    assert!(running.busy() && running.moves());
    assert!(!running.can_record() && !running.can_transcribe() && !running.can_summarize("x"));
    assert!(!Panel { recording: true, ..ready }.can_enroll("Ann"));
    assert!(!Panel { downloading: true, ..ready }.can_pick_model());
    let next = after_download(true, true, true, false);
    assert!(next.fetch_diarization && !next.summarize && next.summarize_pending);
    let next = after_download(true, false, true, true);
    assert!(!next.fetch_diarization && next.summarize && !next.summarize_pending);
    let next = after_download(false, true, true, true);
    assert!(!next.fetch_diarization && !next.summarize && !next.summarize_pending);
}

#[test]
fn the_status_line_reads_well() {
    assert_eq!(format_mmss(754), "12:34");
    assert_eq!(format_mmss(6_000), "100:00");
    assert_eq!(format_eta(1), "1 second remaining");
    assert_eq!(format_eta(0), "0 seconds remaining");
    assert_eq!(format_eta(62), "1 minute 2 seconds remaining");
    assert_eq!(format_eta(7_260), "2 hours 1 minute remaining");
    assert_eq!(done_status(None, &Vec::new(), &Vec::new()), "done");
    assert_eq!(
        done_status(
            Some(3),
            &vec!["Anna (0.84)".to_owned(), "Ben (0.60)".to_owned()],
            &vec!["Cy (0.50)".to_owned()]
        ),
        "done — 3 speaker(s) detected, recognized: Anna (0.84), Ben (0.60) — Cy (0.50) matched too \
         weakly and stayed numbered; consider re-enrolling"
    );
    assert_eq!(download_status("model tiny", 3 << 20), "downloading model tiny — 3 MB");
}

#[test]
fn the_remaining_time_is_extrapolated() {
    assert_eq!(eta(1_999, 50, 100), None);
    assert_eq!(eta(9_000, 0, 100), None);
    assert_eq!(eta(9_000, 100, 100), None);
    assert_eq!(eta(9_000, 9, 1_000), None);
    assert_eq!(eta(2_000, 1, 100).as_deref(), Some("3 minutes 18 seconds remaining"));
    assert_eq!(eta(2_000, 99, 100).as_deref(), Some("1 second remaining"));
    assert_eq!(eta(u64::MAX, u64::MAX / 2, u64::MAX).is_some(), true);
}

#[test]
fn a_dead_input_is_silent() {
    let bits = |samples: &[f32]| samples.iter().map(|s| s.to_bits()).collect::<Vec<u32>>();
    assert!(is_silent(&bits(&[0.0, -0.0, 0.00009, -0.00009])));
    for loud in [0.0001f32, -0.0001, 1.0, f32::INFINITY, f32::NAN] {
        assert!(!is_silent(&bits(&[0.0, loud])));
        assert!(!(loud.abs() < 1e-4));
    }
    assert!(is_silent(&[]));
}

#[test]
fn a_bundle_must_declare_the_microphone() {
    assert!(declares_microphone(b"<key>NSMicrophoneUsageDescription</key>"));
    assert!(!declares_microphone(b"<key>NSMicrophoneUsage</key>"));
    assert!(!declares_microphone(b""));
}

#[test]
fn text_is_taken_apart_as_the_standard_library_does() {
    for code in 0..=0x10ffffu32 {
        if let Some(c) = char::from_u32(code) {
            assert_eq!(is_white(c), c.is_whitespace(), "{code:x}");
        }
    }
    for text in ["", "a", "a\n", "\n", "a\r\nb", "a\rb\r\n\r\n", " a  b\u{a0}c \n", "\n\nx"] {
        let chars = chars_of(text);
        let lines: Vec<String> = lines_of(&chars).iter().map(|l| l.iter().collect()).collect();
        assert_eq!(lines, text.lines().collect::<Vec<_>>());
        let words: Vec<String> = words_of(&chars).iter().map(|w| w.iter().collect()).collect();
        assert_eq!(words, text.split_whitespace().collect::<Vec<_>>());
        assert_eq!(trimmed_text(text), text.trim());
    }
}

fn desk() -> Desk<u8> {
    let mut desk: Desk<u8> = Desk::new();
    desk.transcript = "old".to_owned();
    desk.status = "old".to_owned();
    desk.enroll_name = " Ann ".to_owned();
    desk
}

#[test]
fn a_job_tells_how_far_it_is() {
    let mut job = Job::new(true);
    assert_eq!(job.status, "decoding ...");
    assert_eq!(Job::new(false).status, "transcribing ...");
    job.fetching_vad();
    assert_eq!(job.status, "downloading voice activity model ...");
    job.note(Progress::Decoded { samples: 16_000 * 90, took_ms: 5 });
    assert_eq!(job.status, "decoded 90s of audio");
    job.note(Progress::DetectingSpeakers);
    assert_eq!(job.status, "detecting speakers ...");
    job.note(Progress::Diarized { segments: 7, took_ms: 5 });
    assert_eq!(job.status, "diarized 7 speech segments");
    assert!(!job.started);
    job.note(Progress::Transcribing { percent: 12 });
    assert_eq!((job.status.as_str(), job.percent, job.started), ("transcribing ...", Some(12), true));
    job.note(Progress::Segment { text: "a".to_owned() });
    job.note(Progress::Segment { text: "b".to_owned() });
    assert_eq!(job.live, "a\nb\n");
    job.note(Progress::Transcribed { samples: 5, took_ms: 5 });
    assert_eq!(job.percent, Some(100));
}

#[test]
fn a_finished_transcript_comes_with_its_voices() {
    let mut desk = desk();
    desk.begin_transcription();
    assert_eq!((desk.transcript.as_str(), desk.status.as_str()), ("", ""));
    desk.mirror("ab");
    desk.mirror("cd");
    assert_eq!(desk.transcript, "ab");
    desk.mirror("abc");
    assert_eq!(desk.transcript, "abc");
    let transcript = Transcript {
        text: "Speaker 1: Hi.\n".to_owned(),
        speakers: Some(1),
        speaker_matches: Vec::new(),
        weak_matches: Vec::new(),
        speaker_voices: vec![SpeakerVoice { label: "Speaker 1".to_owned(), embedding: 9u8 }],
    };
    desk.transcribed(Ok(transcript), &Vec::new(), &vec!["Bo (0.50)".to_owned()]);
    assert_eq!(
        desk.status,
        "done — 1 speaker(s) detected — Bo (0.50) matched too weakly and stayed numbered; consider \
         re-enrolling"
    );
    assert_eq!(desk.rename_inputs, vec!["".to_owned()]);
    desk.rename_inputs[0] = "Jo".to_owned();
    assert_eq!(desk.rename(), vec![0]);
    assert_eq!(desk.transcript, "Jo: Hi.\n");
    assert_eq!(desk.voices[0].label, "Jo");
    desk.renamed(1, None);
    assert_eq!(desk.status, "renamed 1 speaker(s)");
    desk.transcribed(Err("no model".to_owned()), &Vec::new(), &Vec::new());
    assert_eq!((desk.transcript.as_str(), desk.status.as_str()), ("Jo: Hi.\n", "error: no model"));
}

#[test]
fn the_desk_says_what_ended() {
    let mut desk = desk();
    desk.clear();
    assert_eq!((desk.transcript.as_str(), desk.status.as_str()), ("", ""));
    desk.recording_failed("gone");
    assert_eq!(desk.status, "error: recording failed: gone");
    assert!(desk.recorded(Ok(false), 61));
    assert_eq!(desk.status, "recorded 01:01");
    assert!(!desk.recorded(Ok(true), 61));
    assert_eq!(desk.status, NO_SIGNAL);
    assert!(!desk.recorded(Err("x".to_owned()), 61));
    assert_eq!(desk.status, "error: x");
    assert_eq!(desk.name_to_enroll(), "Ann");
    desk.enrolled("Ann", Enrolled::Failed("short".to_owned()));
    assert_eq!(desk.status, "error: enrollment failed: short");
    desk.enrolled("Ann", Enrolled::NotStored("full".to_owned()));
    assert_eq!((desk.status.as_str(), desk.enroll_name.as_str()), ("error: full", " Ann "));
    // A recording leaves the times of a part of a file as they were typed.
    desk.enroll_from = "1:00".to_owned();
    desk.enroll_to = "2:00".to_owned();
    desk.enrolled("Ann", Enrolled::Stored(Sample::Recording));
    assert_eq!((desk.status.as_str(), desk.enroll_name.as_str()), ("enrolled Ann", ""));
    assert_eq!((desk.enroll_from.as_str(), desk.enroll_to.as_str()), ("1:00", "2:00"));
    desk.enroll_name = "Bo".to_owned();
    desk.enrolled("Bo", Enrolled::Stored(Sample::File));
    assert_eq!((desk.status.as_str(), desk.enroll_name.as_str()), ("enrolled Bo", ""));
    assert_eq!((desk.enroll_from.as_str(), desk.enroll_to.as_str()), ("", ""));
    desk.bad_time("start", "abc");
    assert_eq!(desk.status, "error: can't parse start time \"abc\" — use mm:ss");
}

#[test]
fn a_summary_waits_for_its_model() {
    let mut desk = desk();
    assert!(!desk.begin_summary(false));
    let next = desk.downloaded("model tiny", None, true, false);
    assert!(next.fetch_diarization && !next.summarize && desk.summarize_pending);
    assert_eq!(desk.status, "model tiny downloaded");
    let next = desk.downloaded("summary model", None, false, true);
    assert!(next.summarize && !desk.summarize_pending);
    assert!(desk.begin_summary(true) && desk.show_summary);
    desk.summary_so_far("Par");
    assert_eq!(desk.summary, "Par");
    desk.summarized(Ok("Part.".to_owned()));
    assert_eq!((desk.summary.as_str(), desk.status.as_str()), ("Part.", "summary ready"));
    desk.summarized(Err("x".to_owned()));
    assert_eq!(desk.status, "error: summarization failed: x");
    desk.begin_summary(false);
    let next = desk.downloaded("summary model", Some("offline".to_owned()), true, true);
    assert!(!next.fetch_diarization && !next.summarize && !desk.summarize_pending);
    assert_eq!(desk.status, "error: downloading summary model failed: offline");
}

#[test]
fn small_texts_of_the_window() {
    assert!(opening_status(false, true).starts_with("error: models/ directory not found"));
    assert!(opening_status(true, false).starts_with("no speech model downloaded yet"));
    assert_eq!(opening_status(true, true), "");
    assert_eq!(model_detail(&model_by_name("tiny").unwrap()), "75 MB");
    assert_eq!(
        model_detail(&model_by_name("distil-large-v3.5").unwrap()),
        "1.5 GB · English only"
    );
    assert!(no_prompt_reason("m").starts_with("m takes no prompt"));
    assert_eq!(recording_label(65), "recording (01:05)");
}
