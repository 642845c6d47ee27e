use transcribe::clusters::Clusters;
use transcribe::diarize::{
    assign, enrollment_speech, labeled_segments, match_profiles, place_of_bits, samples_of_turn,
    score_of_bits, speaker_for_range, SpeakerProfile, SpeakerSegment, PROFILE_MATCH_THRESHOLD,
    WEAK_MATCH_SIMILARITY,
};
use transcribe::options::DEFAULT_THRESHOLD;
use transcribe::ranking::{index_of_last_max, ranking};
use transcribe::speakers::{apply_renames, enroll, rename_status};
use transcribe::turns::{padded_len, speech_turns};
use transcribe::{rename_speaker, DiarizeModels, SpeakerVoice};

fn cosine(a: &[f32], b: &[f32]) -> f32 {
    if a.len() != b.len() {
        return 0.0;
    }
    let dot: f32 = a.iter().zip(b).map(|(x, y)| x * y).sum();
    let norm =
        (a.iter().map(|x| x * x).sum::<f32>() * b.iter().map(|x| x * x).sum::<f32>()).sqrt();
    if norm > 0.0 {
        dot / norm
    } else {
        0.0
    }
}

fn scores(centroids: &[Vec<f32>], profiles: &[SpeakerProfile<Vec<f32>>]) -> Vec<Vec<i32>> {
    centroids
        .iter()
        .map(|c| {
            profiles.iter().map(|p| score_of_bits(cosine(c, &p.embedding).to_bits())).collect()
        })
        .collect()
}

#[test]
fn profiles_assign_greedily_and_uniquely() {
    let centroids = vec![vec![1.0, 0.0], vec![0.9, 0.4], vec![0.0, 1.0]];
    let profiles = vec![
        SpeakerProfile { name: "Alice".into(), embedding: vec![1.0, 0.05] },
        SpeakerProfile { name: "Bob".into(), embedding: vec![0.05, 1.0] },
    ];
    let (names, weak) = match_profiles(&scores(&centroids, &profiles), &profiles);
    let get = |id: usize| names.iter().find(|(i, _)| *i == id).map(|(_, (n, _))| n.as_str());
    // Alice matches cluster 1 best; cluster 2 also resembles her but
    // each profile is used once. Bob matches cluster 3.
    assert_eq!(get(1), Some("Alice"));
    assert_eq!(get(2), None);
    assert_eq!(get(3), Some("Bob"));
    assert!(weak.is_empty());
}

#[test]
fn dissimilar_voices_stay_unnamed() {
    let centroids = vec![vec![1.0, 0.0]];
    let profiles = vec![SpeakerProfile { name: "Alice".into(), embedding: vec![0.0, 1.0] }];
    let (names, weak) = match_profiles(&scores(&centroids, &profiles), &profiles);
    assert!(names.is_empty());
    assert!(weak.is_empty());
}

#[test]
fn borderline_match_is_reported_but_not_applied() {
    // cosine ≈ 0.5: above the candidate threshold, below confident.
    let centroids = vec![vec![1.0, 0.0]];
    let profiles = vec![SpeakerProfile { name: "Alice".into(), embedding: vec![0.5, 0.866] }];
    let (names, weak) = match_profiles(&scores(&centroids, &profiles), &profiles);
    assert!(names.is_empty());
    assert_eq!(weak.len(), 1);
    assert_eq!(weak[0].0, "Alice");
}

#[test]
fn scores_order_as_floats_do() {
    assert_eq!(score_of_bits(0.45f32.to_bits()), PROFILE_MATCH_THRESHOLD);
    assert_eq!(score_of_bits(0.55f32.to_bits()), WEAK_MATCH_SIMILARITY);
    assert_eq!(score_of_bits(0.5f32.to_bits()), DEFAULT_THRESHOLD);
    assert_eq!(DiarizeModels::<u8>::default().threshold, DEFAULT_THRESHOLD);
    let all = [f32::NEG_INFINITY, -2.5, -1e-40, -0.0, 0.0, 1e-40, 0.3, 1.0, f32::INFINITY];
    for a in all {
        for b in all {
            let (x, y) = (score_of_bits(a.to_bits()), score_of_bits(b.to_bits()));
            assert_eq!(a < b, x < y);
            assert_eq!(a == b, x == y);
        }
    }
    assert_eq!(score_of_bits(f32::NAN.to_bits()), i32::MIN);
    let total = [-f32::NAN, f32::NEG_INFINITY, -2.5, -0.0, 0.0, 0.3, f32::INFINITY, f32::NAN];
    for a in total {
        for b in total {
            let places = place_of_bits(a.to_bits()).cmp(&place_of_bits(b.to_bits()));
            assert_eq!(a.total_cmp(&b), places);
        }
    }
}

#[test]
fn ties_go_to_the_first_cluster_and_profile() {
    let s = 2_000_000_000;
    let taken = assign(&[vec![s, s], vec![s, s], vec![1, s - 1]], 2);
    let pairs: Vec<(usize, usize)> = taken.iter().map(|m| (m.cluster, m.profile)).collect();
    assert_eq!(pairs, vec![(0, 0), (1, 1)]);
}

fn segment(start: usize, end: usize, speaker: usize) -> SpeakerSegment {
    SpeakerSegment { start, end, speaker }
}

#[test]
fn the_greatest_overlap_decides() {
    let segments = [segment(0, 16_000, 1), segment(16_000, 48_000, 2), segment(48_000, 64_000, 3)];
    assert_eq!(speaker_for_range(&segments, 50, 150), Some(2));
    assert_eq!(speaker_for_range(&segments, 0, 90), Some(1));
    // No overlap: the nearest one, the first of two.
    assert_eq!(speaker_for_range(&segments, 900, 1000), Some(3));
    let gap = [segment(0, 16_000, 1), segment(32_000, 48_000, 2)];
    assert_eq!(speaker_for_range(&gap, 140, 160), Some(1));
    assert_eq!(speaker_for_range(&gap, 160, 170), Some(2));
    assert_eq!(speaker_for_range(&[], 0, 1), None);
}

#[test]
fn enrollment_needs_speech_and_is_capped() {
    let samples: Vec<i16> = (0..1000).map(|i| i as i16).collect();
    assert_eq!(samples_of_turn(&samples, (990, 2000)), &samples[990..]);
    let speech = enrollment_speech(&samples, &[(0, 2), (5, 8), (998, 5000)], 2).unwrap();
    assert_eq!(speech, vec![0, 1, 5, 6, 7, 998, 999]);
    assert_eq!(
        enrollment_speech(&samples, &[(0, 5)], 2),
        Err("need at least ~3 seconds of speech in the sample".to_owned())
    );
    assert_eq!(enrollment_speech(&samples, &[(0, 500)], 2).unwrap().len(), 120);
}

/// Scores of a frame in which one of the seven classes is the best.
fn frame(class: usize) -> Vec<i32> {
    (0..7).map(|i| if i == class { 100 } else { 10 - i as i32 }).collect()
}

#[test]
fn turns_follow_the_floor() {
    // Speaker 1, then both (a backchannel), then 2 alone, then silence.
    let window = vec![frame(0), frame(1), frame(4), frame(2), frame(0), frame(0)];
    let at = |n: usize| 721 + 270 * n;
    assert_eq!(speech_turns(&[window], 100_000), vec![(at(1), at(3)), (at(3), at(4))]);
    // An overlap that nobody held before goes to the better scored speaker.
    let mut both = frame(5);
    both[3] = 50;
    let window = vec![both, frame(1), frame(3)];
    assert_eq!(
        speech_turns(&[window], 100_000),
        vec![(at(0), at(1)), (at(1), at(2)), (at(2), 100_000)]
    );
}

#[test]
fn turns_end_at_windows_and_at_the_end() {
    let window = vec![frame(1), frame(1)];
    let at = |n: usize| 721 + 270 * n;
    assert_eq!(
        speech_turns(&[window.clone(), window.clone()], 10_000),
        vec![(at(0), at(2)), (at(2), 10_000)]
    );
    assert_eq!(speech_turns(&[window], 721), Vec::<(usize, usize)>::new());
    // Of an unknown layout every class is a speaker of its own.
    assert_eq!(speech_turns(&[vec![vec![0, 0, 9], vec![0, 9, 0]]], 2_000), vec![
        (at(0), at(1)),
        (at(1), 2_000)
    ]);
    assert_eq!(padded_len(0, 16_000), 0);
    assert_eq!(padded_len(160_000, 16_000), 160_000);
    assert_eq!(padded_len(160_001, 16_000), 320_000);
}

fn cluster_all(linkage: &dyn Fn(usize, usize) -> i32, mut clusters: Clusters, threshold: i32) -> Clusters {
    loop {
        let n = clusters.len();
        let table: Vec<Vec<i32>> = (0..n)
            .map(|a| {
                (0..n)
                    .map(|b| linkage(clusters.cluster(a).members[0], clusters.cluster(b).members[0]))
                    .collect()
            })
            .collect();
        match clusters.next_merge(&table, threshold) {
            Some((a, b)) => clusters.merge(a, b),
            None => return clusters,
        }
    }
}

#[test]
fn the_greatest_come_first() {
    assert_eq!(ranking(&[3, 1, 3, 2]), vec![0, 2, 3, 1]);
    assert!(ranking(&[]).is_empty());
    assert_eq!(index_of_last_max(&[1, 5, 5, 2]), 2);
    assert_eq!(index_of_last_max(&[-7]), 0);
}

#[test]
fn similar_turns_are_one_speaker() {
    // Even turns are one voice, odd ones another; turn 4 is too short.
    let turns = vec![(0, 10), (20, 30), (40, 52), (60, 75), (80, 85)];
    let clusters = Clusters::new(turns, 10);
    assert_eq!(clusters.len(), 4);
    assert_eq!(clusters.next_leftover(), Some(4));
    let same = |a: usize, b: usize| if a % 2 == b % 2 { 90 } else { 10 };
    let mut clusters = cluster_all(&same, clusters, 50);
    assert_eq!(clusters.len(), 2);
    clusters.attach(&[1, 2]);
    assert_eq!(clusters.next_leftover(), None);
    let (speaker_of, found) = clusters.finish();
    assert_eq!(speaker_of, vec![1, 2, 1, 2, 2]);
    assert_eq!(found[0].members, vec![0, 2]);
    assert_eq!(found[1].members, vec![1, 3, 4]);
    assert_eq!((found[0].count, found[1].count), (2, 2));
    assert_eq!(
        labeled_segments(&[(0, 10), (20, 30)], &[1, 2]).iter().map(|s| s.speaker).sum::<usize>(),
        3
    );
}

#[test]
fn the_longest_speakers_are_kept() {
    let turns = vec![(0, 10), (10, 40), (40, 60), (60, 61)];
    let mut clusters = Clusters::new(turns, 5);
    clusters.limit(2);
    assert_eq!(clusters.len(), 2);
    // The leftovers: the short turn, then the cluster that was dropped.
    assert_eq!(clusters.next_leftover(), Some(3));
    clusters.attach(&[7, 7]);
    assert_eq!(clusters.next_leftover(), Some(0));
    clusters.attach(&[7, 6]);
    let (speaker_of, _) = clusters.finish();
    assert_eq!(speaker_of, vec![1, 1, 2, 2]);
}

#[test]
fn short_turns_alone_are_clustered_too() {
    let clusters = Clusters::new(vec![(0, 1), (5, 7)], 100);
    assert_eq!(clusters.len(), 2);
    assert_eq!(clusters.next_leftover(), None);
    let (speaker_of, _) = clusters.finish();
    assert_eq!(speaker_of, vec![1, 2]);
}

#[test]
fn speakers_are_numbered_by_their_first_turn() {
    // Turn 0 is short; its speaker's first long turn comes after turn 1.
    let mut clusters = Clusters::new(vec![(0, 2), (10, 30), (40, 60)], 10);
    clusters.attach(&[1, 5]);
    let (speaker_of, _) = clusters.finish();
    assert_eq!(speaker_of, vec![1, 2, 1]);
}

#[test]
fn renaming_back_gives_the_transcript_again() {
    let text = "[00:00 --> 00:01]  Speaker 1: Hi.\nSpeaker 2: Ho.\nno label";
    let there = rename_speaker(text, "Speaker 1", "Jo");
    assert_eq!(there, "[00:00 --> 00:01]  Jo: Hi.\nSpeaker 2: Ho.\nno label");
    assert_eq!(rename_speaker(&there, "Jo", "Speaker 1"), text);
    assert_eq!(rename_speaker("a\r\nb", "x", "y"), "a\nb");
    for text in ["", "\n", "A: x\n\n", "A: x\n\nno: label\n", "A: \n[1]  A: y", "x\nA: z"] {
        let there = rename_speaker(text, "A", "B");
        assert_eq!(there.lines().count(), text.lines().count());
        assert_eq!(there.ends_with('\n'), text.ends_with('\n'));
        assert_eq!(rename_speaker(&there, "B", "A"), text);
    }
}

#[test]
fn enrolling_replaces_a_voice() {
    let profile = |name: &str, embedding: u8| SpeakerProfile { name: name.to_owned(), embedding };
    let profiles = vec![profile("Ann", 1), profile("Bo", 2), profile("Cy", 3)];
    let now = enroll(profiles, profile("Bo", 9));
    let list: Vec<(String, u8)> = now.into_iter().map(|p| (p.name, p.embedding)).collect();
    assert_eq!(
        list,
        vec![("Ann".to_owned(), 1), ("Cy".to_owned(), 3), ("Bo".to_owned(), 9)]
    );
}

#[test]
fn typed_names_are_applied() {
    let voice = |label: &str| SpeakerVoice { label: label.to_owned(), embedding: 0u8 };
    let mut voices = vec![voice("Speaker 1"), voice("Anna"), voice("Speaker 2")];
    let mut inputs = vec![" Ben ".to_owned(), "Anna".to_owned(), "  ".to_owned()];
    let text = "Speaker 1: a\nAnna: b\nSpeaker 2: c\n".to_owned();
    let (text, changed) = apply_renames(text, &mut voices, &mut inputs);
    assert_eq!(text, "Ben: a\nAnna: b\nSpeaker 2: c\n");
    assert_eq!(changed, vec![0]);
    assert_eq!(voices[0].label, "Ben");
    assert_eq!(inputs, vec!["".to_owned(), "Anna".to_owned(), "  ".to_owned()]);
    assert_eq!(rename_status(2, None), "renamed 2 speaker(s)");
    assert_eq!(
        rename_status(1, Some(None)),
        "renamed and enrolled 1 speaker(s) — future transcripts will use these names"
    );
    assert_eq!(
        rename_status(1, Some(Some("disk full".to_owned()))),
        "renamed, but enrolling failed: disk full"
    );
}
