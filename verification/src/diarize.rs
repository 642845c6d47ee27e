//! Who speaks when: voices that match enrolled profiles, and the speaker of a
//! stretch of time.
//!
//! Voice fingerprints are opaque here. How much two of them resemble each other
//! is a 32-bit float, held as an integer that orders as the float does (see
//! [`score_of_bits`]). Times are sample positions.

use vstd::prelude::*;
use vstd::set_lib::{lemma_int_range, set_int_range};

use crate::ranking::lemma_distinct_below;

verus! {

/// The size of a 32-bit float with these bits, as an integer that grows with it.
pub open spec fn magnitude(bits: u32) -> int {
    if bits < 0x8000_0000 {
        bits as int
    } else {
        bits - 0x8000_0000
    }
}

/// The 32-bit float with these bits, as an integer that orders as the float
/// does: both zeros are 0, and what is no number comes before everything.
pub open spec fn score(bits: u32) -> i32 {
    if magnitude(bits) > 0x7f80_0000 {
        i32::MIN
    } else if bits < 0x8000_0000 {
        bits as i32
    } else {
        (-magnitude(bits)) as i32
    }
}

/// The 32-bit float with these bits, as an integer that orders as the float
/// does: both zeros are 0, and what is no number comes before everything.
pub fn score_of_bits(bits: u32) -> (r: i32)
    ensures
        r == score(bits),
{
    let size: u32 = if bits < 0x8000_0000 {
        bits
    } else {
        bits - 0x8000_0000
    };
    if size > 0x7f80_0000 {
        i32::MIN
    } else if bits < 0x8000_0000 {
        bits as i32
    } else {
        -(size as i32)
    }
}

/// The place of the 32-bit float with these bits in the total order of all of
/// them, in which the negative zero stands below the other one and what is no
/// number stands at both ends.
pub open spec fn place(bits: u32) -> i32 {
    if bits < 0x8000_0000 {
        bits as i32
    } else {
        (-magnitude(bits) - 1) as i32
    }
}

/// The place of the 32-bit float with these bits in the total order of all of
/// them.
pub fn place_of_bits(bits: u32) -> (r: i32)
    ensures
        r == place(bits),
{
    if bits < 0x8000_0000 {
        bits as i32
    } else {
        -((bits - 0x8000_0000) as i32) - 1
    }
}

/// Minimum similarity between a diarized voice and an enrolled profile to
/// assign the profile's name: 0.45. Enrollment and meeting audio often differ in
/// mic and distance, so this sits below the clustering threshold — but high
/// enough not to mislabel a stranger.
pub const PROFILE_MATCH_THRESHOLD: i32 = 0x3ee6_6666;

/// Candidate matches below this similarity, 0.55, are NOT applied — the speaker
/// keeps their "Speaker N" number and the near-miss is reported instead,
/// usually a sign the person should be re-enrolled from audio recorded under
/// the same conditions as the meeting.
pub const WEAK_MATCH_SIMILARITY: i32 = 0x3f0c_cccd;

/// A diarized range of samples attributed to one speaker (1-based id).
#[derive(Clone, Copy)]
pub struct SpeakerSegment {
    pub start: usize,
    pub end: usize,
    pub speaker: usize,
}

/// An enrolled voice: a name plus a reference fingerprint computed from a short
/// recording of that person.
pub struct SpeakerProfile<E> {
    pub name: String,
    pub embedding: E,
}

/// Speaker id and (enrolled name, match similarity); no id stands twice.
pub type NamedSpeakers = Vec<(usize, (String, i32))>;

/// Diarization result: who-speaks-when segments, plus names (with match
/// similarity) for the speaker ids whose voice confidently matched an enrolled
/// profile. Near-misses land in `weak_matches` instead and are not applied to
/// the transcript.
pub struct Diarization<E> {
    pub segments: Vec<SpeakerSegment>,
    pub names: NamedSpeakers,
    pub weak_matches: Vec<(String, i32)>,
    /// Mean voice fingerprint per speaker (`centroids[id - 1]`), usable as an
    /// enrollment fingerprint for that voice.
    pub centroids: Vec<E>,
}

/// A profile that a cluster of turns resembles.
#[derive(Clone, Copy)]
pub struct Match {
    pub score: i32,
    pub cluster: usize,
    pub profile: usize,
}

/// Whether `a` is taken before `b`: the greater resemblance first, then the
/// earlier cluster, then the earlier profile.
pub open spec fn taken_before(a: Match, b: Match) -> bool {
    ||| a.score > b.score
    ||| a.score == b.score && a.cluster < b.cluster
    ||| a.score == b.score && a.cluster == b.cluster && a.profile < b.profile
}

/// Whether `a` is taken before `b`.
fn goes_before(a: Match, b: Match) -> (r: bool)
    ensures
        r == taken_before(a, b),
{
    a.score > b.score || (a.score == b.score && (a.cluster < b.cluster || (a.cluster == b.cluster
        && a.profile < b.profile)))
}

/// Whether two matches want the same profile or the same cluster.
pub open spec fn compete(a: Match, b: Match) -> bool {
    a.cluster == b.cluster || a.profile == b.profile
}

/// Whether there is a score for each of `profiles` profiles in every row.
pub open spec fn full_table(scores: Seq<Vec<i32>>, profiles: nat) -> bool {
    forall|c: int| 0 <= c < scores.len() ==> (#[trigger] scores[c])@.len() == profiles
}

/// Whether `m` is a pair of cluster and profile that resemble each other enough.
pub open spec fn candidate(scores: Seq<Vec<i32>>, profiles: nat, m: Match) -> bool {
    &&& m.cluster < scores.len()
    &&& m.profile < profiles
    &&& m.score == scores[m.cluster as int]@[m.profile as int]
    &&& m.score >= PROFILE_MATCH_THRESHOLD
}

/// Whether some match of `taken` that goes before `m` competes with it.
pub open spec fn blocked(taken: Seq<Match>, m: Match) -> bool {
    exists|k: int|
        0 <= k < taken.len() && taken_before(#[trigger] taken[k], m) && compete(taken[k], m)
}

/// Whether `taken` are the matches of a greedy assignment, best first: the
/// candidates that no better match of the assignment competes with.
pub open spec fn greedy(scores: Seq<Vec<i32>>, profiles: nat, taken: Seq<Match>) -> bool {
    &&& forall|k: int, l: int|
        0 <= k < l < taken.len() ==> taken_before(#[trigger] taken[k], #[trigger] taken[l])
    &&& forall|m: Match| #[trigger]
        taken.contains(m) <==> candidate(scores, profiles, m) && !blocked(taken, m)
}

/// Whether a match competes with none of `taken`.
spec fn free(taken: Seq<Match>, m: Match) -> bool {
    forall|k: int| 0 <= k < taken.len() ==> !compete(#[trigger] taken[k], m)
}

/// The candidate to take next, if any is left.
fn best_free(scores: &[Vec<i32>], profiles: usize, taken: &Vec<Match>) -> (r: Option<Match>)
    requires
        full_table(scores@, profiles as nat),
    ensures
        match r {
            Some(best) => candidate(scores@, profiles as nat, best) && free(taken@, best) && forall|
                m: Match,
            | #[trigger]
                candidate(scores@, profiles as nat, m) && free(taken@, m) && m != best
                    ==> taken_before(best, m),
            None => forall|m: Match| #[trigger]
                candidate(scores@, profiles as nat, m) ==> !free(taken@, m),
        },
{
    let mut best: Option<Match> = None;
    let mut c: usize = 0;
    while c < scores.len()
        invariant
            c <= scores.len(),
            full_table(scores@, profiles as nat),
            match best {
                Some(b) => candidate(scores@, profiles as nat, b) && free(taken@, b) && b.cluster
                    < c && forall|m: Match| #[trigger]
                    candidate(scores@, profiles as nat, m) && free(taken@, m) && m != b && m.cluster
                        < c ==> taken_before(b, m),
                None => forall|m: Match| #[trigger]
                    candidate(scores@, profiles as nat, m) && m.cluster < c ==> !free(taken@, m),
            },
        decreases scores.len() - c,
    {
        let mut p: usize = 0;
        while p < profiles
            invariant
                c < scores.len(),
                p <= profiles,
                full_table(scores@, profiles as nat),
                match best {
                    Some(b) => candidate(scores@, profiles as nat, b) && free(taken@, b) && (
                    b.cluster < c || b.cluster == c && b.profile < p) && forall|m: Match| #[trigger]
                        candidate(scores@, profiles as nat, m) && free(taken@, m) && m != b && (
                        m.cluster < c || m.cluster == c && m.profile < p) ==> taken_before(b, m),
                    None => forall|m: Match| #[trigger]
                        candidate(scores@, profiles as nat, m) && (m.cluster < c || m.cluster == c
                            && m.profile < p) ==> !free(taken@, m),
                },
            decreases profiles - p,
        {
            proof {
                assert(scores@[c as int]@.len() == profiles);
            }
            let m = Match { score: scores[c][p], cluster: c, profile: p };
            if m.score >= PROFILE_MATCH_THRESHOLD && is_free(taken, m) {
                let better = match best {
                    Some(b) => goes_before(m, b),
                    None => true,
                };
                if better {
                    best = Some(m);
                }
            }
            p += 1;
        }
        c += 1;
    }
    best
}

/// Whether a match competes with none of `taken`.
fn is_free(taken: &Vec<Match>, m: Match) -> (r: bool)
    ensures
        r == free(taken@, m),
{
    let mut k: usize = 0;
    while k < taken.len()
        invariant
            k <= taken.len(),
            forall|j: int| 0 <= j < k ==> !compete(#[trigger] taken@[j], m),
        decreases taken.len() - k,
    {
        if taken[k].cluster == m.cluster || taken[k].profile == m.profile {
            proof {
                assert(compete(taken@[k as int], m));
            }
            return false;
        }
        k += 1;
    }
    true
}

/// The pairs of cluster and profile that belong together, best first.
/// `scores[c][p]` says how much cluster `c` resembles profile `p`.
pub fn assign(scores: &[Vec<i32>], profiles: usize) -> (r: Vec<Match>)
    requires
        full_table(scores@, profiles as nat),
    ensures
        greedy(scores@, profiles as nat, r@),
{
    let mut taken: Vec<Match> = Vec::new();
    let ghost n = profiles as nat;
    loop
        invariant
            n == profiles,
            full_table(scores@, profiles as nat),
            taken@.len() <= scores@.len(),
            forall|k: int|
                0 <= k < taken@.len() ==> candidate(scores@, n, #[trigger] taken@[k]),
            forall|k: int, l: int|
                0 <= k < l < taken@.len() ==> taken_before(
                    #[trigger] taken@[k],
                    #[trigger] taken@[l],
                ) && !compete(taken@[k], taken@[l]),
            forall|m: Match| #[trigger]
                candidate(scores@, n, m) && free(taken@, m) ==> all_before(taken@, m),
            forall|m: Match| #[trigger]
                candidate(scores@, n, m) && !free(taken@, m) ==> blocked(taken@, m)
                    || taken@.contains(m),
        decreases scores@.len() - taken@.len(),
    {
        match best_free(scores, profiles, &taken) {
            Some(best) => {
                let ghost earlier = taken@;
                taken.push(best);
                proof {
                    lemma_one_more(scores@, n, earlier, best);
                }
            },
            None => {
                proof {
                    assert forall|m: Match| #[trigger] taken@.contains(m) <==> candidate(
                        scores@,
                        n,
                        m,
                    ) && !blocked(taken@, m) by {
                        if taken@.contains(m) && blocked(taken@, m) {
                            let i = choose|i: int| 0 <= i < taken@.len() && taken@[i] == m;
                            let k = choose|k: int|
                                0 <= k < taken@.len() && taken_before(#[trigger] taken@[k], m)
                                    && compete(taken@[k], m);
                            if i < k {
                                assert(taken_before(taken@[i], taken@[k]));
                            } else if k < i {
                                assert(!compete(taken@[k], taken@[i]));
                            }
                        }
                    }
                }
                return taken;
            },
        }
    }
}

/// Whether everything taken goes before `m`.
spec fn all_before(taken: Seq<Match>, m: Match) -> bool {
    forall|k: int| 0 <= k < taken.len() ==> taken_before(#[trigger] taken[k], m)
}

/// Taking the best free candidate keeps what holds of the matches taken.
proof fn lemma_one_more(scores: Seq<Vec<i32>>, profiles: nat, earlier: Seq<Match>, best: Match)
    requires
        earlier.len() <= scores.len(),
        forall|k: int|
            0 <= k < earlier.len() ==> candidate(scores, profiles, #[trigger] earlier[k]),
        forall|k: int, l: int|
            0 <= k < l < earlier.len() ==> taken_before(#[trigger] earlier[k], #[trigger] earlier[l])
                && !compete(earlier[k], earlier[l]),
        forall|m: Match| #[trigger]
            candidate(scores, profiles, m) && free(earlier, m) ==> all_before(earlier, m),
        forall|m: Match| #[trigger]
            candidate(scores, profiles, m) && !free(earlier, m) ==> blocked(earlier, m)
                || earlier.contains(m),
        candidate(scores, profiles, best),
        free(earlier, best),
        forall|m: Match| #[trigger]
            candidate(scores, profiles, m) && free(earlier, m) && m != best ==> taken_before(
                best,
                m,
            ),
    ensures
        earlier.push(best).len() <= scores.len(),
        forall|k: int, l: int|
            0 <= k < l < earlier.push(best).len() ==> taken_before(
                #[trigger] earlier.push(best)[k],
                #[trigger] earlier.push(best)[l],
            ) && !compete(earlier.push(best)[k], earlier.push(best)[l]),
        forall|m: Match| #[trigger]
            candidate(scores, profiles, m) && free(earlier.push(best), m) ==> all_before(
                earlier.push(best),
                m,
            ),
        forall|m: Match| #[trigger]
            candidate(scores, profiles, m) && !free(earlier.push(best), m) ==> blocked(
                earlier.push(best),
                m,
            ) || earlier.push(best).contains(m),
{
    let taken = earlier.push(best);
    assert(all_before(earlier, best));
    assert forall|k: int, l: int| 0 <= k < l < taken.len() implies taken_before(
        #[trigger] taken[k],
        #[trigger] taken[l],
    ) && !compete(taken[k], taken[l]) by {
        assert(taken[k] == earlier[k]);
        if l < earlier.len() {
            assert(taken[l] == earlier[l]);
        } else {
            assert(taken_before(earlier[k], best));
            assert(!compete(earlier[k], best));
        }
    }
    let clusters = Seq::new(taken.len(), |k: int| taken[k].cluster as int);
    assert forall|k: int| 0 <= k < taken.len() implies candidate(
        scores,
        profiles,
        #[trigger] taken[k],
    ) by {
        if k < earlier.len() {
            assert(taken[k] == earlier[k]);
        }
    }
    assert forall|k: int, l: int| 0 <= k < l < clusters.len() implies clusters[k]
        != clusters[l] by {
        assert(!compete(taken[k], taken[l]));
    }
    lemma_distinct_below(clusters, scores.len() as int);
    assert forall|m: Match| #[trigger] candidate(scores, profiles, m) && free(
        taken,
        m,
    ) implies all_before(taken, m) by {
        lemma_free_shorter(earlier, best, m);
        assert(compete(best, best));
        assert(!compete(taken[earlier.len() as int], m));
        assert(taken_before(best, m));
        assert forall|k: int| 0 <= k < taken.len() implies taken_before(#[trigger] taken[k], m) by {
            if k < earlier.len() {
                assert(taken[k] == earlier[k]);
                assert(taken_before(earlier[k], m));
            }
        }
    }
    assert forall|m: Match| #[trigger] candidate(scores, profiles, m) && !free(
        taken,
        m,
    ) implies blocked(taken, m) || taken.contains(m) by {
        assert(taken[earlier.len() as int] == best);
        if free(earlier, m) {
            lemma_free_longer(earlier, best, m);
            if m != best {
                assert(taken_before(best, m));
                assert(blocked(taken, m));
            }
        } else if blocked(earlier, m) {
            let k = choose|k: int|
                0 <= k < earlier.len() && taken_before(#[trigger] earlier[k], m) && compete(
                    earlier[k],
                    m,
                );
            assert(taken[k] == earlier[k]);
        } else {
            let k = choose|k: int| 0 <= k < earlier.len() && #[trigger] earlier[k] == m;
            assert(taken[k] == m);
        }
    }
}

/// What competes with none of more matches competes with none of fewer.
proof fn lemma_free_shorter(earlier: Seq<Match>, best: Match, m: Match)
    requires
        free(earlier.push(best), m),
    ensures
        free(earlier, m),
        !compete(best, m),
{
    assert forall|k: int| 0 <= k < earlier.len() implies !compete(#[trigger] earlier[k], m) by {
        assert(earlier.push(best)[k] == earlier[k]);
    }
    assert(earlier.push(best)[earlier.len() as int] == best);
}

/// What becomes unfree by one more match competes with that match.
proof fn lemma_free_longer(earlier: Seq<Match>, best: Match, m: Match)
    requires
        free(earlier, m),
        !free(earlier.push(best), m),
    ensures
        compete(best, m),
{
    let taken = earlier.push(best);
    let k = choose|k: int| 0 <= k < taken.len() && compete(#[trigger] taken[k], m);
    if k < earlier.len() {
        assert(taken[k] == earlier[k]);
    }
}

/// Named speakers with their names as characters.
pub open spec fn named_view(v: Seq<(usize, (String, i32))>) -> Seq<(usize, (Seq<char>, i32))> {
    Seq::new(v.len(), |i: int| (v[i].0, (v[i].1.0@, v[i].1.1)))
}

/// Names and similarities, the names as characters.
pub open spec fn scored_view(v: Seq<(String, i32)>) -> Seq<(Seq<char>, i32)> {
    Seq::new(v.len(), |i: int| (v[i].0@, v[i].1))
}

/// The names of profiles.
pub open spec fn profile_names<E>(profiles: Seq<SpeakerProfile<E>>) -> Seq<Seq<char>> {
    Seq::new(profiles.len(), |i: int| profiles[i].name@)
}

/// The matches that are good enough to name a speaker.
pub open spec fn applied(taken: Seq<Match>, names: Seq<Seq<char>>) -> Seq<
    (usize, (Seq<char>, i32)),
>
    decreases taken.len(),
{
    if taken.len() == 0 {
        Seq::empty()
    } else {
        let m = taken.last();
        let rest = applied(taken.drop_last(), names);
        if m.score >= WEAK_MATCH_SIMILARITY {
            rest.push(((m.cluster + 1) as usize, (names[m.profile as int], m.score)))
        } else {
            rest
        }
    }
}

/// The matches that are not.
pub open spec fn near_misses(taken: Seq<Match>, names: Seq<Seq<char>>) -> Seq<(Seq<char>, i32)>
    decreases taken.len(),
{
    if taken.len() == 0 {
        Seq::empty()
    } else {
        let m = taken.last();
        let rest = near_misses(taken.drop_last(), names);
        if m.score >= WEAK_MATCH_SIMILARITY {
            rest
        } else {
            rest.push((names[m.profile as int], m.score))
        }
    }
}

/// Greedily assign enrolled profile names to the speaker clusters they resemble
/// most (each profile and cluster used at most once). `scores[c][p]` says how
/// much the voice of speaker id `c + 1` resembles profile `p`. Assignments below
/// [`WEAK_MATCH_SIMILARITY`] are returned separately as near-misses rather than
/// applied — a wrong name is worse than "Speaker N".
pub fn match_profiles<E>(scores: &[Vec<i32>], profiles: &[SpeakerProfile<E>]) -> (r: (
    NamedSpeakers,
    Vec<(String, i32)>,
))
    requires
        full_table(scores@, profiles@.len()),
    ensures
        exists|taken: Seq<Match>| #[trigger]
            greedy(scores@, profiles@.len(), taken) && named_view(r.0@) == applied(
                taken,
                profile_names(profiles@),
            ) && scored_view(r.1@) == near_misses(taken, profile_names(profiles@)),
{
    let taken = assign(scores, profiles.len());
    let mut names: NamedSpeakers = Vec::new();
    let mut weak: Vec<(String, i32)> = Vec::new();
    let ghost list = profile_names(profiles@);
    let mut k: usize = 0;
    while k < taken.len()
        invariant
            k <= taken.len(),
            list == profile_names(profiles@),
            greedy(scores@, profiles@.len(), taken@),
            named_view(names@) == applied(taken@.take(k as int), list),
            scored_view(weak@) == near_misses(taken@.take(k as int), list),
        decreases taken.len() - k,
    {
        let m = taken[k];
        proof {
            assert(taken@.contains(taken@[k as int]));
            assert(candidate(scores@, profiles@.len(), m));
            assert(m.cluster < scores.len());
            assert(taken@.take(k + 1).drop_last() == taken@.take(k as int));
            assert(taken@.take(k + 1).last() == m);
        }
        let name = profiles[m.profile].name.clone();
        proof {
            assert(name@ == list[m.profile as int]);
        }
        if m.score >= WEAK_MATCH_SIMILARITY {
            let ghost earlier = named_view(names@);
            names.push((m.cluster + 1, (name, m.score)));
            proof {
                assert(named_view(names@) == earlier.push(named_view(names@).last()));
            }
        } else {
            let ghost earlier = scored_view(weak@);
            weak.push((name, m.score));
            proof {
                assert(scored_view(weak@) == earlier.push(scored_view(weak@).last()));
            }
        }
        k += 1;
    }
    proof {
        assert(taken@.take(k as int) == taken@);
    }
    (names, weak)
}

/// Each profile and each cluster is used at most once.
pub proof fn law_each_is_used_once(scores: Seq<Vec<i32>>, profiles: nat, taken: Seq<Match>)
    requires
        greedy(scores, profiles, taken),
    ensures
        forall|k: int, l: int|
            0 <= k < l < taken.len() ==> (#[trigger] taken[k]).cluster != (
            #[trigger] taken[l]).cluster && taken[k].profile != taken[l].profile,
{
    assert forall|k: int, l: int| 0 <= k < l < taken.len() implies (#[trigger] taken[k]).cluster
        != (#[trigger] taken[l]).cluster && taken[k].profile != taken[l].profile by {
        assert(taken_before(taken[k], taken[l]));
        assert(taken.contains(taken[l]));
        assert(!blocked(taken, taken[l]));
    }
}

/// A profile goes to the cluster that it resembles most, unless a profile that
/// resembles that cluster more has it: every candidate that is not assigned
/// lost its cluster or its profile to a better match.
pub proof fn law_losers_lost_to_a_better_match(
    scores: Seq<Vec<i32>>,
    profiles: nat,
    taken: Seq<Match>,
    m: Match,
)
    requires
        greedy(scores, profiles, taken),
        candidate(scores, profiles, m),
        !taken.contains(m),
    ensures
        exists|k: int|
            0 <= k < taken.len() && taken_before(#[trigger] taken[k], m) && compete(taken[k], m),
{
}

/// The similarities determine the assignment.
pub proof fn law_assignment_is_unique(
    scores: Seq<Vec<i32>>,
    profiles: nat,
    a: Seq<Match>,
    b: Seq<Match>,
)
    requires
        greedy(scores, profiles, a),
        greedy(scores, profiles, b),
    ensures
        a == b,
{
    if a.len() >= b.len() {
        lemma_same_matches(scores, profiles, a, b, b.len() as int);
        if a.len() > b.len() {
            lemma_not_ahead(scores, profiles, a, b, b.len() as int);
        }
        assert(a.take(b.len() as int) == a);
        assert(b.take(b.len() as int) == b);
    } else {
        lemma_same_matches(scores, profiles, b, a, a.len() as int);
        lemma_not_ahead(scores, profiles, b, a, a.len() as int);
    }
}

/// Two greedy assignments agree as far as both go.
proof fn lemma_same_matches(
    scores: Seq<Vec<i32>>,
    profiles: nat,
    a: Seq<Match>,
    b: Seq<Match>,
    n: int,
)
    requires
        greedy(scores, profiles, a),
        greedy(scores, profiles, b),
        0 <= n <= a.len(),
        n <= b.len(),
    ensures
        a.take(n) == b.take(n),
    decreases n,
{
    if n > 0 {
        lemma_same_matches(scores, profiles, a, b, n - 1);
        let x = a[n - 1];
        let y = b[n - 1];
        if x != y {
            if taken_before(x, y) {
                lemma_not_ahead(scores, profiles, a, b, n - 1);
            } else {
                assert(taken_before(y, x)) by {
                    if x.score == y.score && x.cluster == y.cluster && x.profile == y.profile {
                        assert(x == y);
                    }
                }
                lemma_not_ahead(scores, profiles, b, a, n - 1);
            }
        }
        assert(a.take(n) == a.take(n - 1).push(x));
        assert(b.take(n) == b.take(n - 1).push(y));
    }
}

/// Of two greedy assignments that agree up to `n`, neither has a match there
/// that goes before what the other has.
proof fn lemma_not_ahead(
    scores: Seq<Vec<i32>>,
    profiles: nat,
    a: Seq<Match>,
    b: Seq<Match>,
    n: int,
)
    requires
        greedy(scores, profiles, a),
        greedy(scores, profiles, b),
        0 <= n < a.len(),
        n <= b.len(),
        a.take(n) == b.take(n),
    ensures
        n < b.len(),
        !taken_before(a[n], b[n]),
{
    let m = a[n];
    assert(a.contains(m));
    assert(!blocked(a, m));
    if n == b.len() || taken_before(m, b[n]) {
        if blocked(b, m) {
            let k = choose|k: int|
                0 <= k < b.len() && taken_before(#[trigger] b[k], m) && compete(b[k], m);
            if k < n {
                assert(a.take(n)[k] == a[k] && b.take(n)[k] == b[k]);
            } else if k > n {
                assert(taken_before(b[n], b[k]));
            }
        }
        assert(b.contains(m));
        let i = choose|i: int| 0 <= i < b.len() && #[trigger] b[i] == m;
        if i < n {
            assert(a.take(n)[i] == a[i] && b.take(n)[i] == b[i]);
            assert(taken_before(a[i], a[n]));
        } else if i > n {
            assert(taken_before(b[n], b[i]));
        }
    }
}

/// The sample at a time in centiseconds, at 16 kHz.
pub open spec fn sample_at(centiseconds: i64) -> int {
    centiseconds * 160
}

/// For how many samples a segment and a range of centiseconds overlap; negative
/// across a gap.
pub open spec fn overlap(s: SpeakerSegment, start: i64, end: i64) -> int {
    let from = sample_at(start);
    let to = sample_at(end);
    (if s.end < to {
        s.end as int
    } else {
        to
    }) - (if s.start > from {
        s.start as int
    } else {
        from
    })
}

/// Twice the distance from a segment to the middle of a range of centiseconds,
/// in samples.
pub open spec fn distance(s: SpeakerSegment, start: i64, end: i64) -> int {
    let middle = sample_at(start) + sample_at(end);
    if middle < 2 * s.start {
        2 * s.start - middle
    } else if middle > 2 * s.end {
        middle - 2 * s.end
    } else {
        0
    }
}

/// Whether any segment overlaps the range.
pub open spec fn any_overlap(segments: Seq<SpeakerSegment>, start: i64, end: i64) -> bool {
    exists|k: int| 0 <= k < segments.len() && overlap(#[trigger] segments[k], start, end) > 0
}

/// Whether segment `k` decides who speaks in a range: the one that overlaps it
/// most, the last of several; without any overlap the one nearest to its
/// middle, the first of several.
pub open spec fn decides(segments: Seq<SpeakerSegment>, start: i64, end: i64, k: int) -> bool {
    &&& 0 <= k < segments.len()
    &&& if any_overlap(segments, start, end) {
        forall|j: int|
            0 <= j < segments.len() ==> {
                &&& overlap(#[trigger] segments[j], start, end) <= overlap(segments[k], start, end)
                &&& j > k ==> overlap(segments[j], start, end) < overlap(segments[k], start, end)
            }
    } else {
        forall|j: int|
            0 <= j < segments.len() ==> {
                &&& distance(#[trigger] segments[j], start, end) >= distance(
                    segments[k],
                    start,
                    end,
                )
                &&& j < k ==> distance(segments[j], start, end) > distance(segments[k], start, end)
            }
    }
}

/// Only one segment decides.
pub proof fn law_one_segment_decides(
    segments: Seq<SpeakerSegment>,
    start: i64,
    end: i64,
    k: int,
    l: int,
)
    requires
        decides(segments, start, end, k),
        decides(segments, start, end, l),
    ensures
        k == l,
{
    let a = segments[k];
    let b = segments[l];
    if any_overlap(segments, start, end) {
        assert(overlap(a, start, end) <= overlap(b, start, end));
        assert(overlap(b, start, end) <= overlap(a, start, end));
    } else {
        assert(distance(a, start, end) <= distance(b, start, end));
        assert(distance(b, start, end) <= distance(a, start, end));
    }
}

/// Who speaks in a range.
pub open spec fn speaker_at(segments: Seq<SpeakerSegment>, start: i64, end: i64) -> Option<usize> {
    if segments.len() == 0 {
        None
    } else {
        Some(segments[choose|k: int| decides(segments, start, end, k)].speaker)
    }
}

/// The samples that a segment and a range of centiseconds share, at 16 kHz.
pub open spec fn shared_samples(s: SpeakerSegment, start: i64, end: i64) -> Set<int> {
    Set::new(|t: int| s.start <= t < s.end && start * 160 <= t < end * 160)
}

/// How many samples they share.
proof fn lemma_shared_samples(s: SpeakerSegment, start: i64, end: i64)
    ensures
        shared_samples(s, start, end).finite(),
        shared_samples(s, start, end).len() == if overlap(s, start, end) > 0 {
            overlap(s, start, end)
        } else {
            0
        },
{
    let lo = if s.start > start * 160 {
        s.start as int
    } else {
        start * 160
    };
    let hi = if s.end < end * 160 {
        s.end as int
    } else {
        end * 160
    };
    if lo <= hi {
        lemma_int_range(lo, hi);
        assert(shared_samples(s, start, end) =~= set_int_range(lo, hi));
    } else {
        assert(shared_samples(s, start, end) =~= Set::<int>::empty());
    }
}

/// Of the first `n` segments, the last that overlaps a range most.
proof fn lemma_last_most(segments: Seq<SpeakerSegment>, start: i64, end: i64, n: int) -> (k: int)
    requires
        0 < n <= segments.len(),
    ensures
        0 <= k < n,
        forall|j: int|
            0 <= j < n ==> overlap(#[trigger] segments[j], start, end) <= overlap(
                segments[k],
                start,
                end,
            ) && (j > k ==> overlap(segments[j], start, end) < overlap(segments[k], start, end)),
    decreases n,
{
    if n == 1 {
        0
    } else {
        let k = lemma_last_most(segments, start, end, n - 1);
        if overlap(segments[n - 1], start, end) >= overlap(segments[k], start, end) {
            n - 1
        } else {
            k
        }
    }
}

/// Of the first `n` segments, the first that is nearest to the middle of a range.
proof fn lemma_first_nearest(segments: Seq<SpeakerSegment>, start: i64, end: i64, n: int) -> (k:
    int)
    requires
        0 < n <= segments.len(),
    ensures
        0 <= k < n,
        forall|j: int|
            0 <= j < n ==> distance(#[trigger] segments[j], start, end) >= distance(
                segments[k],
                start,
                end,
            ) && (j < k ==> distance(segments[j], start, end) > distance(segments[k], start, end)),
    decreases n,
{
    if n == 1 {
        0
    } else {
        let k = lemma_first_nearest(segments, start, end, n - 1);
        if distance(segments[n - 1], start, end) < distance(segments[k], start, end) {
            n - 1
        } else {
            k
        }
    }
}

/// Some segment decides.
proof fn lemma_one_decides(segments: Seq<SpeakerSegment>, start: i64, end: i64)
    requires
        segments.len() > 0,
    ensures
        exists|k: int| decides(segments, start, end, k),
{
    let n = segments.len() as int;
    let k = if any_overlap(segments, start, end) {
        lemma_last_most(segments, start, end, n)
    } else {
        lemma_first_nearest(segments, start, end, n)
    };
    assert(decides(segments, start, end, k));
}

/// Twice the distance of sample `t` from the middle of a range of centiseconds.
pub open spec fn off_middle(t: int, start: i64, end: i64) -> int {
    let d = 2 * t - (start * 160 + end * 160);
    if d < 0 {
        -d
    } else {
        d
    }
}

/// Who speaks in a range is who shares most samples with it: no segment shares
/// more, and of several that share as many the last one counts. Where none
/// shares any, it is the segment that comes nearest to the middle of the range,
/// the first of several.
pub proof fn law_the_speaker_shares_most(segments: Seq<SpeakerSegment>, start: i64, end: i64)
    requires
        segments.len() > 0,
        forall|j: int| 0 <= j < segments.len() ==> (#[trigger] segments[j]).start <= segments[j].end,
    ensures
        forall|j: int|
            0 <= j < segments.len() ==> shared_samples(#[trigger] segments[j], start, end).finite(),
        exists|k: int|
            {
                &&& 0 <= k < segments.len()
                &&& speaker_at(segments, start, end) == Some((#[trigger] segments[k]).speaker)
                &&& forall|j: int|
                    0 <= j < segments.len() ==> shared_samples(
                        #[trigger] segments[j],
                        start,
                        end,
                    ).len() <= shared_samples(segments[k], start, end).len()
                &&& shared_samples(segments[k], start, end).len() > 0 ==> forall|j: int|
                    k < j < segments.len() ==> shared_samples(
                        #[trigger] segments[j],
                        start,
                        end,
                    ).len() < shared_samples(segments[k], start, end).len()
                &&& shared_samples(segments[k], start, end).len() == 0 ==> exists|p: int|
                    {
                        &&& segments[k].start <= p <= segments[k].end
                        &&& 0 <= #[trigger] off_middle(p, start, end)
                        &&& forall|j: int, t: int|
                            0 <= j < segments.len() && (#[trigger] segments[j]).start <= t
                                <= segments[j].end ==> {
                                &&& off_middle(p, start, end) <= #[trigger] off_middle(t, start, end)
                                &&& j < k ==> off_middle(p, start, end) < off_middle(t, start, end)
                            }
                    }
            },
{
    assert forall|j: int| 0 <= j < segments.len() implies shared_samples(
        #[trigger] segments[j],
        start,
        end,
    ).finite() && shared_samples(segments[j], start, end).len() == if overlap(
        segments[j],
        start,
        end,
    ) > 0 {
        overlap(segments[j], start, end)
    } else {
        0
    } by {
        lemma_shared_samples(segments[j], start, end);
    }
    lemma_one_decides(segments, start, end);
    let k = choose|k: int| decides(segments, start, end, k);
    assert(speaker_at(segments, start, end) == Some(segments[k].speaker));
    if !any_overlap(segments, start, end) {
        let s = segments[k];
        assert(!(overlap(s, start, end) > 0));
        let middle = start * 160 + end * 160;
        let p = if middle < 2 * s.start {
            s.start as int
        } else if middle > 2 * s.end {
            s.end as int
        } else {
            middle / 2
        };
        assert(s.start <= p <= s.end);
        assert(off_middle(p, start, end) == distance(s, start, end));
        assert forall|j: int, t: int|
            0 <= j < segments.len() && (#[trigger] segments[j]).start <= t
                <= segments[j].end implies off_middle(p, start, end) <= #[trigger] off_middle(
            t,
            start,
            end,
        ) && (j < k ==> off_middle(p, start, end) < off_middle(t, start, end)) by {
            assert(off_middle(t, start, end) >= distance(segments[j], start, end));
        }
    } else {
        let m = choose|m: int|
            0 <= m < segments.len() && overlap(#[trigger] segments[m], start, end) > 0;
        assert(overlap(segments[m], start, end) <= overlap(segments[k], start, end));
    }
}

/// Speaker whose diarized range overlaps the time from `start` to `end`
/// centiseconds the most, falling back to the segment nearest to the range's
/// midpoint.
pub fn speaker_for_range(segments: &[SpeakerSegment], start: i64, end: i64) -> (r: Option<usize>)
    ensures
        r == speaker_at(segments@, start, end),
        segments@.len() > 0 ==> exists|k: int| decides(segments@, start, end, k),
{
    let mut best: Option<usize> = None;
    let mut most: i128 = 0;
    let mut nearest: Option<usize> = None;
    let mut least: i128 = 0;
    let range_start: i128 = start as i128 * 160;
    let range_end: i128 = end as i128 * 160;
    let mut i: usize = 0;
    while i < segments.len()
        invariant
            i <= segments.len(),
            range_start == sample_at(start),
            range_end == sample_at(end),
            match best {
                Some(k) => k < i && most == overlap(segments@[k as int], start, end) && most > 0
                    && forall|j: int|
                    0 <= j < i ==> overlap(#[trigger] segments@[j], start, end) <= most && (j > k
                        ==> overlap(segments@[j], start, end) < most),
                None => most == 0 && forall|j: int|
                    0 <= j < i ==> overlap(#[trigger] segments@[j], start, end) <= 0,
            },
            match nearest {
                Some(k) => k < i && least == distance(segments@[k as int], start, end) && forall|
                    j: int,
                |
                    0 <= j < i ==> distance(#[trigger] segments@[j], start, end) >= least && (j < k
                        ==> distance(segments@[j], start, end) > least),
                None => i == 0,
            },
        decreases segments.len() - i,
    {
        let s = segments[i];
        let from: i128 = s.start as i128;
        let to: i128 = s.end as i128;
        let last: i128 = if to < range_end {
            to
        } else {
            range_end
        };
        let first: i128 = if from > range_start {
            from
        } else {
            range_start
        };
        let common: i128 = last - first;
        if common > 0 && common >= most {
            best = Some(i);
            most = common;
        }
        let middle: i128 = range_start + range_end;
        let apart: i128 = if middle < 2 * from {
            2 * from - middle
        } else if middle > 2 * to {
            middle - 2 * to
        } else {
            0
        };
        if nearest.is_none() || apart < least {
            nearest = Some(i);
            least = apart;
        }
        i += 1;
    }
    match best {
        Some(k) => {
            proof {
                assert(overlap(segments@[k as int], start, end) > 0);
                assert(decides(segments@, start, end, k as int));
                lemma_decided(segments@, start, end, k as int);
            }
            Some(segments[k].speaker)
        },
        None => match nearest {
            Some(k) => {
                proof {
                    assert(decides(segments@, start, end, k as int));
                    lemma_decided(segments@, start, end, k as int);
                }
                Some(segments[k].speaker)
            },
            None => None,
        },
    }
}

/// A segment that decides says who speaks.
proof fn lemma_decided(segments: Seq<SpeakerSegment>, start: i64, end: i64, k: int)
    requires
        decides(segments, start, end, k),
    ensures
        speaker_at(segments, start, end) == Some(segments[k].speaker),
{
    let l = choose|l: int| decides(segments, start, end, l);
    law_one_segment_decides(segments, start, end, k, l);
}

/// Each range with the speaker that it was given.
pub fn labeled_segments(ranges: &[(usize, usize)], speaker_of: &[usize]) -> (r: Vec<SpeakerSegment>)
    requires
        ranges@.len() == speaker_of@.len(),
    ensures
        r@ == Seq::new(
            ranges@.len(),
            |i: int|
                (SpeakerSegment {
                    start: ranges@[i].0,
                    end: ranges@[i].1,
                    speaker: speaker_of@[i],
                }),
        ),
{
    let mut out: Vec<SpeakerSegment> = Vec::new();
    let mut i: usize = 0;
    while i < ranges.len()
        invariant
            i <= ranges.len(),
            ranges@.len() == speaker_of@.len(),
            out@ == Seq::new(
                i as nat,
                |k: int|
                    (SpeakerSegment {
                        start: ranges@[k].0,
                        end: ranges@[k].1,
                        speaker: speaker_of@[k],
                    }),
            ),
        decreases ranges.len() - i,
    {
        out.push(SpeakerSegment { start: ranges[i].0, end: ranges[i].1, speaker: speaker_of[i] });
        i += 1;
    }
    out
}

/// The samples of a turn, as far as the recording goes.
pub open spec fn turn_samples(samples: Seq<i16>, turn: (usize, usize)) -> Seq<i16> {
    let len = samples.len() as int;
    let from = if turn.0 < len {
        turn.0 as int
    } else {
        len
    };
    let to = if turn.1 < len {
        turn.1 as int
    } else {
        len
    };
    samples.subrange(from, to)
}

/// The samples of all turns, one after another.
pub open spec fn speech(samples: Seq<i16>, turns: Seq<(usize, usize)>) -> Seq<i16>
    decreases turns.len(),
{
    if turns.len() == 0 {
        Seq::empty()
    } else {
        speech(samples, turns.drop_last()) + turn_samples(samples, turns.last())
    }
}

/// The samples of a turn, as far as the recording goes.
pub fn samples_of_turn<'a>(samples: &'a [i16], turn: (usize, usize)) -> (r: &'a [i16])
    requires
        turn.0 <= turn.1,
    ensures
        r@ == turn_samples(samples@, turn),
{
    let from: usize = if turn.0 < samples.len() {
        turn.0
    } else {
        samples.len()
    };
    let to: usize = if turn.1 < samples.len() {
        turn.1
    } else {
        samples.len()
    };
    vstd::slice::slice_subrange(samples, from, to)
}

/// Fewer seconds of speech than this make no voice fingerprint.
pub const MIN_ENROLLMENT_SECS: u64 = 3;

/// Fingerprint quality saturates well below this many seconds of speech; the
/// cap keeps enrolling from a long recording fast and bounded.
pub const MAX_ENROLLMENT_SECS: u64 = 60;

/// The speech to enroll a voice from: what is said in the turns of a sample that
/// holds only this one person's voice. An error where there is too little of it.
pub fn enrollment_speech(samples: &[i16], turns: &[(usize, usize)], sample_rate: u32) -> (r: Result<
    Vec<i16>,
    String,
>)
    requires
        forall|i: int| 0 <= i < turns@.len() ==> (#[trigger] turns@[i]).0 <= turns@[i].1,
    ensures
        r is Ok <==> speech(samples@, turns@).len() >= MIN_ENROLLMENT_SECS * sample_rate,
        r matches Ok(kept) ==> {
            let all = speech(samples@, turns@);
            kept@ == if all.len() > MAX_ENROLLMENT_SECS * sample_rate {
                all.take(MAX_ENROLLMENT_SECS * sample_rate)
            } else {
                all
            }
        },
        r matches Err(message) ==> message@
            == "need at least ~3 seconds of speech in the sample"@,
{
    let mut out: Vec<i16> = Vec::new();
    let mut i: usize = 0;
    while i < turns.len()
        invariant
            i <= turns.len(),
            forall|k: int| 0 <= k < turns@.len() ==> (#[trigger] turns@[k]).0 <= turns@[k].1,
            out@ == speech(samples@, turns@.take(i as int)),
        decreases turns.len() - i,
    {
        let part = samples_of_turn(samples, turns[i]);
        proof {
            assert(turns@.take(i + 1).drop_last() == turns@.take(i as int));
            assert(turns@.take(i + 1).last() == turns@[i as int]);
        }
        out.extend_from_slice(part);
        i += 1;
    }
    proof {
        assert(turns@.take(i as int) == turns@);
    }
    let have: u64 = out.len() as u64;
    if have < MIN_ENROLLMENT_SECS * sample_rate as u64 {
        return Err("need at least ~3 seconds of speech in the sample".to_owned());
    }
    let most: u64 = MAX_ENROLLMENT_SECS * sample_rate as u64;
    if have > most {
        out.truncate(most as usize);
    }
    Ok(out)
}

/// Names go to the closest voices. An assignment holds only pairs of a voice and a
/// profile that resemble each other by at least 0.45, with how much they do, each
/// voice and each profile once; and any such pair that it does not hold lost its
/// voice or its profile to a pair that resembles each other at least as much.
pub proof fn law_names_go_to_the_closest_voices(
    scores: Seq<Vec<i32>>,
    profiles: nat,
    taken: Seq<Match>,
)
    requires
        greedy(scores, profiles, taken),
        scores.len() <= usize::MAX,
        profiles <= usize::MAX,
    ensures
        forall|k: int|
            0 <= k < taken.len() ==> {
                let m = #[trigger] taken[k];
                &&& m.cluster < scores.len()
                &&& m.profile < profiles
                &&& m.score == scores[m.cluster as int]@[m.profile as int]
                &&& m.score >= 0x3ee6_6666
            },
        forall|k: int, l: int|
            0 <= k < l < taken.len() ==> (#[trigger] taken[k]).cluster != (
            #[trigger] taken[l]).cluster && taken[k].profile != taken[l].profile
                && taken[k].score >= taken[l].score,
        forall|c: int, p: int|
            #![trigger scores[c]@[p]]
            0 <= c < scores.len() && 0 <= p < profiles && scores[c]@[p] >= 0x3ee6_6666
                ==> exists|k: int|
                {
                    &&& 0 <= k < taken.len()
                    &&& (#[trigger] taken[k]).cluster == c || taken[k].profile == p
                    &&& taken[k].score >= scores[c]@[p]
                },
{
    law_each_is_used_once(scores, profiles, taken);
    assert forall|k: int| 0 <= k < taken.len() implies candidate(
        scores,
        profiles,
        #[trigger] taken[k],
    ) by {
        assert(taken.contains(taken[k]));
    }
    assert forall|k: int, l: int| 0 <= k < l < taken.len() implies (#[trigger] taken[k]).score >= (
    #[trigger] taken[l]).score by {
        assert(taken_before(taken[k], taken[l]));
    }
    assert forall|c: int, p: int|
        #![trigger scores[c]@[p]]
        0 <= c < scores.len() && 0 <= p < profiles && scores[c]@[p]
            >= 0x3ee6_6666 implies exists|k: int|
        {
            &&& 0 <= k < taken.len()
            &&& (#[trigger] taken[k]).cluster == c || taken[k].profile == p
            &&& taken[k].score >= scores[c]@[p]
        } by {
        let m = Match { score: scores[c]@[p], cluster: c as usize, profile: p as usize };
        assert(candidate(scores, profiles, m));
        if taken.contains(m) {
            let k = choose|k: int| 0 <= k < taken.len() && #[trigger] taken[k] == m;
            assert(taken[k].cluster == c);
        } else {
            law_losers_lost_to_a_better_match(scores, profiles, taken, m);
            let k = choose|k: int|
                0 <= k < taken.len() && taken_before(#[trigger] taken[k], m) && compete(
                    taken[k],
                    m,
                );
            assert(taken[k].score >= m.score);
        }
    }
}

/// The pairs that resemble each other by at least 0.55 give their speakers a name,
/// under the number that follows that of the voice; the others are only reported.
pub proof fn law_only_confident_matches_are_applied(taken: Seq<Match>, names: Seq<Seq<char>>)
    ensures
        applied(taken, names) == taken.filter(|m: Match| m.score >= 0x3f0c_cccd).map_values(
            |m: Match| ((m.cluster + 1) as usize, (names[m.profile as int], m.score)),
        ),
        near_misses(taken, names) == taken.filter(|m: Match| m.score < 0x3f0c_cccd).map_values(
            |m: Match| (names[m.profile as int], m.score),
        ),
    decreases taken.len(),
{
    reveal(Seq::filter);
    let sure = |m: Match| m.score >= 0x3f0c_cccd;
    let weak = |m: Match| m.score < 0x3f0c_cccd;
    let name = |m: Match| ((m.cluster + 1) as usize, (names[m.profile as int], m.score));
    let report = |m: Match| (names[m.profile as int], m.score);
    if taken.len() > 0 {
        let shorter = taken.drop_last();
        law_only_confident_matches_are_applied(shorter, names);
        let m = taken.last();
        if m.score >= 0x3f0c_cccd {
            assert(taken.filter(sure).map_values(name) =~= shorter.filter(sure).map_values(
                name,
            ).push(name(m)));
        } else {
            assert(taken.filter(weak).map_values(report) =~= shorter.filter(weak).map_values(
                report,
            ).push(report(m)));
        }
        assert(applied(taken, names) =~= taken.filter(sure).map_values(name));
        assert(near_misses(taken, names) =~= taken.filter(weak).map_values(report));
    } else {
        assert(applied(taken, names) =~= taken.filter(sure).map_values(name));
        assert(near_misses(taken, names) =~= taken.filter(weak).map_values(report));
    }
}

/// The speech of a recording is what is said in its turns, one after another: of
/// some turns and then some more it is the one and then the other, and of a single
/// turn the samples from its start to its end, as far as the recording goes.
pub proof fn law_speech_is_what_is_said_in_turns(
    samples: Seq<i16>,
    a: Seq<(usize, usize)>,
    b: Seq<(usize, usize)>,
    turn: (usize, usize),
)
    requires
        turn.0 <= turn.1,
    ensures
        speech(samples, a + b) == speech(samples, a) + speech(samples, b),
        turn.1 <= samples.len() ==> speech(samples, seq![turn]) == samples.subrange(
            turn.0 as int,
            turn.1 as int,
        ),
        turn.0 <= samples.len() < turn.1 ==> speech(samples, seq![turn]) == samples.skip(
            turn.0 as int,
        ),
        turn.0 > samples.len() ==> speech(samples, seq![turn]).len() == 0,
    decreases b.len(),
{
    let one = seq![turn];
    assert(one.drop_last() =~= Seq::<(usize, usize)>::empty());
    assert(speech(samples, one.drop_last()) =~= Seq::<i16>::empty());
    assert(speech(samples, one) =~= turn_samples(samples, turn));
    if turn.0 <= samples.len() < turn.1 {
        assert(turn_samples(samples, turn) =~= samples.skip(turn.0 as int));
    }
    if b.len() == 0 {
        assert(a + b =~= a);
        assert(speech(samples, a) + speech(samples, b) =~= speech(samples, a));
    } else {
        law_speech_is_what_is_said_in_turns(samples, a, b.drop_last(), turn);
        assert((a + b).drop_last() =~= a + b.drop_last());
        assert((a + b).last() == b.last());
        let last = turn_samples(samples, b.last());
        assert(speech(samples, a) + speech(samples, b.drop_last()) + last =~= speech(samples, a) + (
        speech(samples, b.drop_last()) + last));
    }
}

/// Enough is three seconds, and what is kept is at most the first sixty.
pub proof fn law_enrollment_takes_three_to_sixty_seconds(rate: u32)
    ensures
        MIN_ENROLLMENT_SECS * rate == 3 * rate,
        MAX_ENROLLMENT_SECS * rate == 60 * rate,
{
}

/// Floats that are numbers are ordered as their scores are: of two that are not
/// negative the one with the greater bits is greater, of two negative ones the one
/// with the lesser bits, and a negative one is less than one that is not, unless
/// both are zero. What is no number scores lowest.
pub proof fn law_scores_order_as_floats_do(a: u32, b: u32)
    ensures
        a < b <= 0x7f80_0000 ==> score(a) < score(b),
        0x8000_0000 <= a < b <= 0xff80_0000 ==> score(a) > score(b),
        a <= 0x7f80_0000 && 0x8000_0000 < b <= 0xff80_0000 ==> score(b) < score(a),
        score(0) == score(0x8000_0000),
        0x7f80_0000 < a < 0x8000_0000 && b <= 0x7f80_0000 ==> score(a) < score(b),
        0xff80_0000 < a && 0x8000_0000 <= b <= 0xff80_0000 ==> score(a) < score(b),
        a < b < 0x8000_0000 ==> place(a) < place(b),
        0x8000_0000 <= a < b ==> place(a) > place(b),
        a < 0x8000_0000 <= b ==> place(b) < place(a),
{
}

} // verus!
