//! Speech turns grouped into speakers.
//!
//! Every (long enough) turn starts as its own cluster, then the two most similar
//! clusters merge until no pair is as similar as the threshold. Similarities
//! come from outside, as integers that order as the similarities do; what
//! belongs to a cluster outside is found by its first member, which never
//! changes.

use vstd::prelude::*;

use crate::ranking::{before, index_of_last_max, last_max, law_ranking_sorts, ranking, ranks};

verus! {

/// Turns that were said by one voice.
pub struct Cluster {
    /// How many turns the voice was heard in when similarities were taken:
    /// turns that were attached afterwards are not among them.
    pub count: usize,
    /// The turns, as positions in the list of turns.
    pub members: Vec<usize>,
}

/// A cluster as mathematical values.
pub struct Group {
    pub count: nat,
    pub members: Seq<usize>,
}

impl View for Cluster {
    type V = Group;

    open spec fn view(&self) -> Group {
        Group { count: self.count as nat, members: self.members@ }
    }
}

/// The clusters of a list as mathematical values.
pub open spec fn groups_of(list: Seq<Cluster>) -> Seq<Group> {
    Seq::new(list.len(), |i: int| list[i]@)
}

/// Whether two lists have nothing in common.
pub open spec fn disjoint(a: Seq<usize>, b: Seq<usize>) -> bool {
    forall|i: usize| !(#[trigger] a.contains(i) && #[trigger] b.contains(i))
}

/// Whether a list holds positions below `n`, each at most once.
pub open spec fn positions(list: Seq<usize>, n: nat) -> bool {
    &&& list.no_duplicates()
    &&& forall|k: int| 0 <= k < list.len() ==> (#[trigger] list[k]) < n
}

/// Whether some group holds turn `i`.
pub open spec fn held(groups: Seq<Group>, i: usize) -> bool {
    exists|c: int| 0 <= c < groups.len() && (#[trigger] groups[c]).members.contains(i)
}

/// Whether the groups and the turns left over share out `n` turns: each turn
/// stands in one group or is left over, and in one place only. No group is
/// empty.
pub open spec fn shared_out(groups: Seq<Group>, leftover: Seq<usize>, n: nat) -> bool {
    &&& positions(leftover, n)
    &&& forall|c: int|
        0 <= c < groups.len() ==> positions((#[trigger] groups[c]).members, n) && 0
            < groups[c].count <= groups[c].members.len() && disjoint(groups[c].members, leftover)
    &&& forall|c: int, d: int|
        0 <= c < d < groups.len() ==> disjoint(
            (#[trigger] groups[c]).members,
            (#[trigger] groups[d]).members,
        )
    &&& forall|i: usize| i < n ==> #[trigger] leftover.contains(i) || held(groups, i)
}

/// Whether a turn is long enough to produce a reliable voice fingerprint.
pub open spec fn long(turns: Seq<(usize, usize)>, min_len: usize, i: int) -> bool {
    turns[i].1 - turns[i].0 >= min_len
}

/// The turns that are long enough, or those that are not.
pub open spec fn those(turns: Seq<(usize, usize)>, min_len: usize, are_long: bool) -> Seq<usize>
    decreases turns.len(),
{
    if turns.len() == 0 {
        Seq::empty()
    } else {
        let rest = those(turns.drop_last(), min_len, are_long);
        if long(turns, min_len, turns.len() - 1) == are_long {
            rest.push((turns.len() - 1) as usize)
        } else {
            rest
        }
    }
}

/// Each turn of a list as a group of its own.
pub open spec fn singles(list: Seq<usize>) -> Seq<Group> {
    Seq::new(list.len(), |i: int| Group { count: 1, members: seq![list[i]] })
}

/// The groups with the one at `b` taken out, the last one in its place, and its
/// turns with those of the one at `a`.
pub open spec fn merged(groups: Seq<Group>, a: int, b: int) -> Seq<Group> {
    groups.update(b, groups.last()).drop_last().update(
        a,
        Group {
            count: groups[a].count + groups[b].count,
            members: groups[a].members + groups[b].members,
        },
    )
}

/// How similar clusters `a` and `b` are.
pub open spec fn link(linkage: Seq<Vec<i32>>, a: int, b: int) -> i32 {
    linkage[a]@[b]
}

/// Whether clusters `x` and `y` are the most similar of `n`, and the first such
/// pair, among the pairs that stand before row `a` and column `b`.
pub open spec fn strongest(
    linkage: Seq<Vec<i32>>,
    n: int,
    x: int,
    y: int,
    a: int,
    b: int,
) -> bool {
    &&& 0 <= x < y < n
    &&& x < a || x == a && y < b
    &&& forall|c: int, d: int|
        0 <= c < d < n && (c < a || c == a && d < b) ==> #[trigger] link(linkage, c, d) <= link(
            linkage,
            x,
            y,
        ) && (c < x || c == x && d < y ==> link(linkage, c, d) < link(linkage, x, y))
}

/// For how many samples a voice speaks.
pub open spec fn duration(turns: Seq<(usize, usize)>, members: Seq<usize>) -> int
    decreases members.len(),
{
    if members.len() == 0 {
        0
    } else {
        let turn = turns[members.last() as int];
        duration(turns, members.drop_last()) + (turn.1 - turn.0)
    }
}

/// The speaking time of each group.
pub open spec fn durations(turns: Seq<(usize, usize)>, groups: Seq<Group>) -> Seq<u128> {
    Seq::new(groups.len(), |c: int| duration(turns, groups[c].members) as u128)
}

/// The groups at some positions, in that order.
pub open spec fn picked(groups: Seq<Group>, order: Seq<usize>) -> Seq<Group> {
    Seq::new(order.len(), |k: int| groups[order[k] as int])
}

/// The turns of some groups, one group after another.
pub open spec fn spread(groups: Seq<Group>) -> Seq<usize>
    decreases groups.len(),
{
    if groups.len() == 0 {
        Seq::empty()
    } else {
        spread(groups.drop_last()) + groups.last().members
    }
}

/// Whether `f` is the turn in which a voice first appears.
pub open spec fn leads(members: Seq<usize>, f: usize) -> bool {
    &&& members.contains(f)
    &&& forall|k: int| 0 <= k < members.len() ==> f <= #[trigger] members[k]
}

/// Whether the voice of group `g` appears before that of group `h`.
pub open spec fn leads_before(g: Group, h: Group) -> bool {
    exists|x: usize, y: usize| #[trigger]
        leads(g.members, x) && #[trigger] leads(h.members, y) && x < y
}

/// Agglomerative clustering of turns into speakers.
pub struct Clusters {
    turns: Vec<(usize, usize)>,
    clusters: Vec<Cluster>,
    leftover: Vec<usize>,
}

impl Clusters {
    /// The turns, as sample ranges.
    pub closed spec fn turns(self) -> Seq<(usize, usize)> {
        self.turns@
    }

    /// The clusters so far.
    pub closed spec fn groups(self) -> Seq<Group> {
        groups_of(self.clusters@)
    }

    /// The turns that are in no cluster.
    pub closed spec fn leftover(self) -> Seq<usize> {
        self.leftover@
    }

    /// Every turn is in one cluster or left over.
    pub open spec fn wf(self) -> bool {
        &&& forall|i: int| 0 <= i < self.turns().len() ==> (#[trigger] self.turns()[i]).0
            <= self.turns()[i].1
        &&& self.turns().len() <= usize::MAX
        &&& shared_out(self.groups(), self.leftover(), self.turns().len())
    }

    /// Each turn of at least `min_len` samples is a cluster of its own, the
    /// others are left over. Where no turn is long enough, cluster everything.
    pub fn new(turns: Vec<(usize, usize)>, min_len: usize) -> (r: Clusters)
        requires
            forall|i: int| 0 <= i < turns@.len() ==> (#[trigger] turns@[i]).0 <= turns@[i].1,
        ensures
            r.wf(),
            r.turns() == turns@,
            ({
                let substantial = those(turns@, min_len, true);
                let short = those(turns@, min_len, false);
                if substantial.len() > 0 {
                    r.groups() == singles(substantial) && r.leftover() == short
                } else {
                    r.groups() == singles(short) && r.leftover() == Seq::<usize>::empty()
                }
            }),
    {
        let mut substantial: Vec<usize> = Vec::new();
        let mut short: Vec<usize> = Vec::new();
        let mut i: usize = 0;
        while i < turns.len()
            invariant
                i <= turns.len(),
                forall|k: int| 0 <= k < turns@.len() ==> (#[trigger] turns@[k]).0 <= turns@[k].1,
                substantial@ == those(turns@.take(i as int), min_len, true),
                short@ == those(turns@.take(i as int), min_len, false),
            decreases turns.len() - i,
        {
            proof {
                assert(turns@.take(i + 1).drop_last() == turns@.take(i as int));
                assert(turns@.take(i + 1)[i as int] == turns@[i as int]);
                assert(turns@[i as int].0 <= turns@[i as int].1);
            }
            if turns[i].1 - turns[i].0 >= min_len {
                substantial.push(i);
            } else {
                short.push(i);
            }
            i += 1;
        }
        proof {
            assert(turns@.take(i as int) == turns@);
            lemma_those(turns@, min_len);
        }
        if substantial.len() > 0 {
            let clusters = single_clusters(&substantial);
            proof {
                lemma_singles_shared_out(substantial@, short@, turns@.len());
            }
            Clusters { turns, clusters, leftover: short }
        } else {
            let clusters = single_clusters(&short);
            proof {
                assert forall|i: usize| i < turns@.len() implies #[trigger] short@.contains(i) by {
                    assert(!substantial@.contains(i));
                }
                lemma_singles_shared_out(short@, Seq::empty(), turns@.len());
            }
            Clusters { turns, clusters, leftover: Vec::new() }
        }
    }

    /// How many clusters there are.
    pub fn len(&self) -> (r: usize)
        ensures
            r == self.groups().len(),
    {
        self.clusters.len()
    }

    /// A cluster.
    pub fn cluster(&self, c: usize) -> (r: &Cluster)
        requires
            c < self.groups().len(),
        ensures
            r@ == self.groups()[c as int],
    {
        &self.clusters[c]
    }

    /// The pair of clusters to merge next: the most similar one, the first of
    /// several, unless even that one is less similar than the threshold.
    /// `linkage[a][b]` is the similarity of clusters `a` and `b`, for `a < b`.
    pub fn next_merge(&self, linkage: &[Vec<i32>], threshold: i32) -> (r: Option<(usize, usize)>)
        requires
            linkage@.len() == self.groups().len(),
            forall|a: int| 0 <= a < linkage@.len() ==> (#[trigger] linkage@[a])@.len()
                == self.groups().len(),
        ensures
            r is None <==> forall|a: int, b: int|
                0 <= a < b < self.groups().len() ==> #[trigger] link(linkage@, a, b) < threshold,
            r matches Some((a, b)) ==> link(linkage@, a as int, b as int) >= threshold && strongest(
                linkage@,
                self.groups().len() as int,
                a as int,
                b as int,
                self.groups().len() as int,
                0,
            ),
    {
        let n = self.clusters.len();
        let mut best: Option<(usize, usize)> = None;
        let mut a: usize = 0;
        while a < n
            invariant
                a <= n,
                n == linkage@.len(),
                forall|c: int| 0 <= c < n ==> (#[trigger] linkage@[c])@.len() == n,
                match best {
                    Some((x, y)) => strongest(
                        linkage@,
                        n as int,
                        x as int,
                        y as int,
                        a as int,
                        0,
                    ),
                    None => a == 0 || n <= 1,
                },
            decreases n - a,
        {
            let mut b: usize = a + 1;
            while b < n
                invariant
                    a < b <= n,
                    n == linkage@.len(),
                    forall|c: int| 0 <= c < n ==> (#[trigger] linkage@[c])@.len() == n,
                    match best {
                        Some((x, y)) => strongest(
                            linkage@,
                            n as int,
                            x as int,
                            y as int,
                            a as int,
                            b as int,
                        ),
                        None => a == 0 && b <= 1 || n <= 1,
                    },
                decreases n - b,
            {
                let better = match best {
                    Some((x, y)) => {
                        proof {
                            assert(linkage@[x as int]@.len() == n && linkage@[a as int]@.len() == n);
                        }
                        linkage[a][b] > linkage[x][y]
                    },
                    None => true,
                };
                if better {
                    best = Some((a, b));
                }
                b += 1;
            }
            a += 1;
        }
        match best {
            Some((x, y)) => {
                proof {
                    assert(linkage@[x as int]@.len() == n);
                    assert(link(linkage@, x as int, y as int) == linkage@[x as int]@[y as int]);
                }
                if linkage[x][y] < threshold {
                    None
                } else {
                    Some((x, y))
                }
            },
            None => None,
        }
    }

    /// Merge cluster `b` into cluster `a`; the last cluster takes its place.
    pub fn merge(&mut self, a: usize, b: usize)
        requires
            old(self).wf(),
            a < b < old(self).groups().len(),
        ensures
            final(self).wf(),
            final(self).turns() == old(self).turns(),
            final(self).leftover() == old(self).leftover(),
            final(self).groups() == merged(old(self).groups(), a as int, b as int),
    {
        let ghost earlier = self.groups();
        let mut taken = self.clusters.swap_remove(b);
        let ghost mid = groups_of(self.clusters@);
        proof {
            assert(mid == earlier.update(b as int, earlier.last()).drop_last());
            assert(taken@ == earlier[b as int]);
            assert(mid[a as int] == earlier[a as int]);
        }
        let kept = &mut self.clusters[a];
        proof {
            assert(earlier[a as int].count <= earlier[a as int].members.len());
            assert(earlier[b as int].count <= earlier[b as int].members.len());
        }
        kept.members.append(&mut taken.members);
        proof {
            assert(kept.members.len() == earlier[a as int].members.len()
                + earlier[b as int].members.len());
        }
        kept.count = kept.count + taken.count;
        proof {
            assert(self.groups() == merged(earlier, a as int, b as int));
            lemma_merged_shared_out(
                earlier,
                self.leftover@,
                self.turns@.len(),
                a as int,
                b as int,
            );
        }
    }

    /// Keep at most `max_speakers` clusters: the ones with the most speaking
    /// time. The rest are noise (crosstalk, window-boundary fragments) whose
    /// turns are left over. Folding turn by turn avoids chaining two real voices
    /// together the way forced pairwise merging would.
    pub fn limit(&mut self, max_speakers: usize)
        requires
            old(self).wf(),
        ensures
            final(self).wf(),
            final(self).turns() == old(self).turns(),
            final(self).groups().len() <= max_speakers,
            old(self).groups().len() <= max_speakers ==> final(self).groups() == old(self).groups()
                && final(self).leftover() == old(self).leftover(),
            old(self).groups().len() > max_speakers ==> exists|order: Seq<usize>| #[trigger]
                ranks(durations(old(self).turns(), old(self).groups()), order)
                    && final(self).groups() == picked(
                    old(self).groups(),
                    order.take(max_speakers as int),
                ) && final(self).leftover() == old(self).leftover() + spread(
                    picked(old(self).groups(), order.skip(max_speakers as int)),
                ),
    {
        if self.clusters.len() <= max_speakers {
            return ;
        }
        let ghost earlier = self.groups();
        let ghost n = self.turns@.len();
        let mut keys: Vec<u128> = Vec::new();
        let mut c: usize = 0;
        while c < self.clusters.len()
            invariant
                c <= self.clusters.len(),
                earlier == groups_of(self.clusters@),
                n == self.turns@.len(),
                forall|i: int| 0 <= i < self.turns@.len() ==> (#[trigger] self.turns@[i]).0
                    <= self.turns@[i].1,
                shared_out(earlier, self.leftover@, n),
                keys@ == durations(self.turns@, earlier).take(c as int),
            decreases self.clusters.len() - c,
        {
            proof {
                assert(positions(earlier[c as int].members, n));
            }
            keys.push(total_duration(&self.turns, &self.clusters[c].members));
            c += 1;
            proof {
                let all = durations(self.turns@, earlier);
                assert(all.take(c as int) == all.take(c - 1).push(all[c - 1]));
            }
        }
        proof {
            assert(keys@ == durations(self.turns@, earlier));
        }
        let order = ranking(&keys);
        proof {
            lemma_picked_shared_out(earlier, self.leftover@, n, order@);
        }
        let mut kept: Vec<Cluster> = Vec::new();
        let mut k: usize = 0;
        while k < max_speakers
            invariant
                k <= max_speakers < order@.len(),
                order@.len() == self.clusters@.len(),
                earlier == groups_of(self.clusters@),
                forall|j: int| 0 <= j < order@.len() ==> (#[trigger] order@[j]) < order@.len(),
                groups_of(kept@) == picked(earlier, order@.take(k as int)),
            decreases max_speakers - k,
        {
            let ghost so_far = groups_of(kept@);
            let copy = copied(&self.clusters[order[k]]);
            kept.push(copy);
            k += 1;
            proof {
                assert(groups_of(kept@) == so_far.push(earlier[order@[k - 1] as int]));
                assert(picked(earlier, order@.take(k as int)) == picked(
                    earlier,
                    order@.take(k - 1),
                ).push(earlier[order@[k - 1] as int]));
            }
        }
        let ghost left = self.leftover@;
        let mut leftover: Vec<usize> = Vec::new();
        leftover.append(&mut self.leftover);
        proof {
            assert(order@.take(k as int) + order@.skip(k as int) == order@);
            assert(picked(earlier, order@.skip(max_speakers as int).take(0)) =~= Seq::<
                Group,
            >::empty());
            assert(leftover@ == left);
        }
        while k < order.len()
            invariant
                max_speakers <= k <= order@.len(),
                order@.len() == self.clusters@.len(),
                earlier == groups_of(self.clusters@),
                forall|j: int| 0 <= j < order@.len() ==> (#[trigger] order@[j]) < order@.len(),
                leftover@ == left + spread(
                    picked(earlier, order@.skip(max_speakers as int).take(k - max_speakers)),
                ),
                shared_out(
                    picked(earlier, order@.take(max_speakers as int) + order@.skip(k as int)),
                    leftover@,
                    n,
                ),
            decreases order.len() - k,
        {
            let ghost so_far = leftover@;
            let ghost rest = order@.take(max_speakers as int) + order@.skip(k as int);
            let mut members = copied(&self.clusters[order[k]]).members;
            leftover.append(&mut members);
            k += 1;
            proof {
                let group = earlier[order@[k - 1] as int];
                let gone = order@.skip(max_speakers as int);
                assert(rest[max_speakers as int] == order@[k - 1]);
                assert(leftover@ == so_far + group.members);
                lemma_dropped_shared_out(picked(earlier, rest), so_far, n, max_speakers as int);
                assert(picked(earlier, rest).remove(max_speakers as int) == picked(
                    earlier,
                    order@.take(max_speakers as int) + order@.skip(k as int),
                ));
                let longer = picked(earlier, gone.take(k - max_speakers));
                assert(longer.drop_last() == picked(earlier, gone.take(k - 1 - max_speakers)));
                assert(longer.last() == group);
            }
        }
        proof {
            assert(order@.take(max_speakers as int) + order@.skip(k as int) == order@.take(
                max_speakers as int,
            ));
            assert(order@.skip(max_speakers as int).take(k - max_speakers) == order@.skip(
                max_speakers as int,
            ));
        }
        self.clusters = kept;
        self.leftover = leftover;
    }

    /// The turn to attach next, if any is left over.
    pub fn next_leftover(&self) -> (r: Option<usize>)
        ensures
            r == (if self.leftover().len() > 0 {
                Some(self.leftover()[0])
            } else {
                None
            }),
    {
        if self.leftover.len() > 0 {
            Some(self.leftover[0])
        } else {
            None
        }
    }

    /// Attach the next leftover turn to the closest speaker (without growing
    /// it), given how similar the turn is to each cluster.
    pub fn attach(&mut self, similarity: &[i32])
        requires
            old(self).wf(),
            old(self).leftover().len() > 0,
            old(self).groups().len() > 0,
            similarity@.len() == old(self).groups().len(),
        ensures
            final(self).wf(),
            final(self).turns() == old(self).turns(),
            final(self).leftover() == old(self).leftover().drop_first(),
            final(self).groups() == attached(
                old(self).groups(),
                last_max(similarity@),
                old(self).leftover()[0],
            ),
    {
        let ghost earlier = self.groups();
        let ghost left = self.leftover@;
        let at = index_of_last_max(similarity);
        let turn = self.leftover.remove(0);
        let nearest = &mut self.clusters[at];
        nearest.members.push(turn);
        proof {
            assert(self.leftover@ == left.drop_first());
            assert(self.groups() == attached(earlier, at as int, turn));
            lemma_attached_shared_out(earlier, left, self.turns@.len(), at as int);
        }
    }

    /// The 1-based speaker id per turn, numbered by order of first appearance,
    /// plus each speaker's cluster (the one of `id` stands at `id - 1`).
    pub fn finish(self) -> (r: (Vec<usize>, Vec<Cluster>))
        requires
            self.wf(),
            self.leftover().len() == 0,
        ensures
            r.0@.len() == self.turns().len(),
            r.1@.len() == self.groups().len(),
            forall|g: Group| #[trigger]
                groups_of(r.1@).contains(g) <==> self.groups().contains(g),
            forall|k: int, l: int|
                0 <= k < l < r.1@.len() ==> leads_before(
                    (#[trigger] r.1@[k])@,
                    (#[trigger] r.1@[l])@,
                ),
            forall|i: int|
                0 <= i < r.0@.len() ==> 1 <= (#[trigger] r.0@[i]) <= r.1@.len() && r.1@[r.0@[i]
                    - 1]@.members.contains(i as usize),
            forall|k: int, m: int|
                0 <= k < r.1@.len() && 0 <= m < r.1@[k]@.members.len()
                    ==> r.0@[#[trigger] r.1@[k]@.members[m] as int] == k + 1,
            forall|i: int|
                0 <= i < r.0@.len() && (#[trigger] r.0@[i]) > 1 ==> exists|j: int|
                    0 <= j < i && #[trigger] r.0@[j] == r.0@[i] - 1,
    {
        let ghost groups = self.groups();
        let ghost n = self.turns@.len();
        let count = self.clusters.len();
        let mut firsts: Vec<usize> = Vec::new();
        let mut keys: Vec<u128> = Vec::new();
        let mut c: usize = 0;
        while c < count
            invariant
                c <= count,
                count == self.clusters@.len(),
                groups == groups_of(self.clusters@),
                n == self.turns@.len(),
                self.wf(),
                groups == self.groups(),
                firsts@.len() == c,
                keys@.len() == c,
                forall|d: int| #![trigger firsts@[d]] #![trigger keys@[d]]
                    0 <= d < c ==> keys@[d] == (usize::MAX - firsts@[d]) as u128 && leads(
                        groups[d].members,
                        firsts@[d],
                    ),
            decreases count - c,
        {
            proof {
                assert(positions(groups[c as int].members, n));
                assert(groups[c as int].count <= groups[c as int].members.len());
            }
            let first = leading_turn(&self.clusters[c].members);
            firsts.push(first);
            keys.push((usize::MAX - first) as u128);
            c += 1;
        }
        let order = ranking(&keys);
        proof {
            lemma_picked_shared_out(groups, self.leftover@, n, order@);
        }
        let ghost out_groups = picked(groups, order@);
        let mut out: Vec<Cluster> = Vec::new();
        let mut speaker_of: Vec<usize> = Vec::new();
        let mut z: usize = 0;
        while z < self.turns.len()
            invariant
                z <= self.turns@.len(),
                speaker_of@.len() == z,
            decreases self.turns.len() - z,
        {
            speaker_of.push(0);
            z += 1;
        }
        let mut k: usize = 0;
        while k < count
            invariant
                k <= count,
                count == order@.len(),
                count == self.clusters@.len(),
                groups == groups_of(self.clusters@),
                forall|j: int| 0 <= j < order@.len() ==> (#[trigger] order@[j]) < order@.len(),
                out_groups == picked(groups, order@),
                shared_out(out_groups, self.leftover@, n),
                groups_of(out@) == out_groups.take(k as int),
                speaker_of@.len() == n,
                forall|d: int, m: int|
                    0 <= d < k && 0 <= m < out_groups[d].members.len()
                        ==> speaker_of@[#[trigger] out_groups[d].members[m] as int] == d + 1,
            decreases count - k,
        {
            let cluster = copied(&self.clusters[order[k]]);
            let ghost group = out_groups[k as int];
            proof {
                assert(cluster@ == group);
                assert(positions(group.members, n));
            }
            let mut m: usize = 0;
            while m < cluster.members.len()
                invariant
                    k < count,
                    count == out_groups.len(),
                    m <= cluster.members@.len(),
                    cluster@ == group,
                    group == out_groups[k as int],
                    shared_out(out_groups, self.leftover@, n),
                    positions(group.members, n),
                    speaker_of@.len() == n,
                    forall|d: int, j: int|
                        0 <= d < k && 0 <= j < out_groups[d].members.len()
                            ==> speaker_of@[#[trigger] out_groups[d].members[j] as int] == d + 1,
                    forall|j: int|
                        0 <= j < m ==> speaker_of@[#[trigger] group.members[j] as int] == k + 1,
                decreases cluster.members.len() - m,
            {
                let turn = cluster.members[m];
                proof {
                    assert(group.members[m as int] == turn);
                    assert(group.members.contains(turn));
                    assert forall|d: int, j: int|
                        0 <= d < k && 0 <= j
                            < out_groups[d].members.len() implies #[trigger] out_groups[d].members[j]
                        != turn by {
                        assert(disjoint(out_groups[d].members, out_groups[k as int].members));
                        assert(out_groups[d].members.contains(out_groups[d].members[j]));
                    }
                    assert(turn < n);
                    assert(k < out_groups.len());
                }
                speaker_of.set(turn, k + 1);
                m += 1;
            }
            let ghost so_far = groups_of(out@);
            out.push(cluster);
            k += 1;
            proof {
                assert(groups_of(out@) == so_far.push(group));
                assert(out_groups.take(k as int) == out_groups.take(k - 1).push(group));
            }
        }
        proof {
            assert(out_groups.take(k as int) == out_groups);
            assert forall|i: int| 0 <= i < speaker_of@.len() implies 1 <= (
            #[trigger] speaker_of@[i]) <= out@.len() && out@[speaker_of@[i]
                - 1]@.members.contains(i as usize) by {
                assert(!self.leftover@.contains(i as usize));
                assert(held(out_groups, i as usize));
                let d = choose|d: int|
                    0 <= d < out_groups.len() && (#[trigger] out_groups[d]).members.contains(
                        i as usize,
                    );
                let m = choose|m: int|
                    0 <= m < out_groups[d].members.len() && out_groups[d].members[m] == i as usize;
                assert(speaker_of@[out_groups[d].members[m] as int] == d + 1);
                assert(groups_of(out@)[d] == out@[d]@);
            }
            assert forall|k: int, m: int|
                0 <= k < out@.len() && 0 <= m
                    < out@[k]@.members.len() implies speaker_of@[#[trigger] out@[k]@.members[m] as int]
                == k + 1 by {
                assert(groups_of(out@)[k] == out@[k]@);
                assert(speaker_of@[out_groups[k].members[m] as int] == k + 1);
            }
            assert forall|g: Group| #[trigger] groups_of(out@).contains(g) <==> groups.contains(
                g,
            ) by {
                lemma_picked_same(groups, keys@, order@, g);
            }
            assert forall|x: int, y: int| 0 <= x < y < out@.len() implies leads_before(
                (#[trigger] out@[x])@,
                (#[trigger] out@[y])@,
            ) by {
                let a = order@[x];
                let b = order@[y];
                assert(before(keys@, a as int, b as int));
                assert(groups_of(out@)[x] == out@[x]@ && groups_of(out@)[y] == out@[y]@);
                let f = firsts@[a as int];
                let g = firsts@[b as int];
                assert(leads(groups[a as int].members, f));
                assert(leads(groups[b as int].members, g));
                assert(a != b);
                lemma_two_disjoint(groups, self.leftover@, n, a as int, b as int);
                assert(groups[a as int].members.contains(f));
                assert(groups[b as int].members.contains(g));
                assert(f < g);
            }
            assert forall|i: int|
                0 <= i < speaker_of@.len() && (#[trigger] speaker_of@[i]) > 1 implies exists|j: int|
                    0 <= j < i && #[trigger] speaker_of@[j] == speaker_of@[i] - 1 by {
                let k = speaker_of@[i] - 1;
                let (g, h) = (out@[k - 1]@, out@[k]@);
                assert(leads_before(g, h));
                let (x, y) = choose|x: usize, y: usize| #[trigger]
                    leads(g.members, x) && #[trigger] leads(h.members, y) && x < y;
                let at = choose|m: int| 0 <= m < h.members.len() && h.members[m] == i as usize;
                assert(y <= h.members[at]);
                let from = choose|m: int| 0 <= m < g.members.len() && g.members[m] == x;
                assert(speaker_of@[out@[k - 1]@.members[from] as int] == k);
            }
        }
        (speaker_of, out)
    }
}

/// The groups with one more turn in the one at `at`.
pub open spec fn attached(groups: Seq<Group>, at: int, turn: usize) -> Seq<Group> {
    groups.update(at, Group { count: groups[at].count, members: groups[at].members.push(turn) })
}

/// The same cluster once more.
fn copied(cluster: &Cluster) -> (r: Cluster)
    ensures
        r@ == cluster@,
{
    let mut members: Vec<usize> = Vec::new();
    let mut i: usize = 0;
    while i < cluster.members.len()
        invariant
            i <= cluster.members@.len(),
            members@ == cluster.members@.take(i as int),
        decreases cluster.members.len() - i,
    {
        members.push(cluster.members[i]);
        i += 1;
    }
    proof {
        assert(members@ == cluster.members@);
    }
    Cluster { count: cluster.count, members }
}

/// For how many samples a voice speaks.
fn total_duration(turns: &Vec<(usize, usize)>, members: &Vec<usize>) -> (r: u128)
    requires
        forall|i: int| 0 <= i < turns@.len() ==> (#[trigger] turns@[i]).0 <= turns@[i].1,
        positions(members@, turns@.len()),
    ensures
        r == duration(turns@, members@),
        r == duration(turns@, members@) as u128,
{
    let mut total: u128 = 0;
    let mut i: usize = 0;
    while i < members.len()
        invariant
            i <= members@.len(),
            forall|k: int| 0 <= k < turns@.len() ==> (#[trigger] turns@[k]).0 <= turns@[k].1,
            positions(members@, turns@.len()),
            total == duration(turns@, members@.take(i as int)),
            total <= i * 0xffff_ffff_ffff_ffffu128,
        decreases members.len() - i,
    {
        proof {
            assert(members@.take(i + 1).drop_last() == members@.take(i as int));
            assert(members@.take(i + 1).last() == members@[i as int]);
            assert(members@[i as int] < turns@.len());
            assert(turns@[members@[i as int] as int].0 <= turns@[members@[i as int] as int].1);
            assert(i < 0xffff_ffff_ffff_ffffu128);
            assert(i * 0xffff_ffff_ffff_ffffu128 + 0xffff_ffff_ffff_ffffu128 == (i + 1)
                * 0xffff_ffff_ffff_ffffu128) by (nonlinear_arith);
            assert((i + 1) * 0xffff_ffff_ffff_ffffu128 <= 0xffff_ffff_ffff_ffffu128
                * 0xffff_ffff_ffff_ffffu128) by (nonlinear_arith)
                requires
                    i < 0xffff_ffff_ffff_ffffu128,
            ;
        }
        let (start, end) = turns[members[i]];
        total = total + (end - start) as u128;
        i += 1;
    }
    proof {
        assert(members@.take(i as int) == members@);
    }
    total
}

/// The turn in which a voice first appears.
fn leading_turn(members: &Vec<usize>) -> (r: usize)
    requires
        members@.len() > 0,
    ensures
        leads(members@, r),
{
    let mut first: usize = members[0];
    let mut i: usize = 1;
    while i < members.len()
        invariant
            1 <= i <= members@.len(),
            members@.contains(first),
            forall|k: int| 0 <= k < i ==> first <= #[trigger] members@[k],
        decreases members.len() - i,
    {
        if members[i] < first {
            first = members[i];
        }
        i += 1;
    }
    first
}

/// Groups in another order share out the same turns.
proof fn lemma_picked_shared_out(
    groups: Seq<Group>,
    leftover: Seq<usize>,
    n: nat,
    order: Seq<usize>,
)
    requires
        shared_out(groups, leftover, n),
        groups.len() <= usize::MAX,
        exists|keys: Seq<u128>| keys.len() == groups.len() && #[trigger] ranks(keys, order),
    ensures
        shared_out(picked(groups, order), leftover, n),
{
    let keys = choose|keys: Seq<u128>|
        keys.len() == groups.len() && #[trigger] ranks(keys, order);
    let now = picked(groups, order);
    assert forall|c: int| 0 <= c < now.len() implies positions((#[trigger] now[c]).members, n) && 0
        < now[c].count <= now[c].members.len() && disjoint(now[c].members, leftover) by {
        assert(now[c] == groups[order[c] as int]);
    }
    assert forall|c: int, d: int| 0 <= c < d < now.len() implies disjoint(
        (#[trigger] now[c]).members,
        (#[trigger] now[d]).members,
    ) by {
        assert(before(keys, order[c] as int, order[d] as int));
        lemma_two_disjoint(groups, leftover, n, order[c] as int, order[d] as int);
    }
    assert forall|i: usize| i < n implies #[trigger] leftover.contains(i) || held(now, i) by {
        if !leftover.contains(i) {
            assert(held(groups, i));
            let c = choose|c: int|
                0 <= c < groups.len() && (#[trigger] groups[c]).members.contains(i);
            assert(order.contains(c as usize));
            let k = choose|k: int| 0 <= k < order.len() && #[trigger] order[k] == c as usize;
            assert(now[k].members.contains(i));
        }
    }
}

/// Groups in another order are the same groups.
proof fn lemma_picked_same(groups: Seq<Group>, keys: Seq<u128>, order: Seq<usize>, g: Group)
    requires
        ranks(keys, order),
        keys.len() == groups.len(),
        groups.len() <= usize::MAX,
    ensures
        picked(groups, order).contains(g) <==> groups.contains(g),
{
    let now = picked(groups, order);
    if now.contains(g) {
        let k = choose|k: int| 0 <= k < now.len() && #[trigger] now[k] == g;
        assert(groups[order[k] as int] == g);
    }
    if groups.contains(g) {
        let c = choose|c: int| 0 <= c < groups.len() && #[trigger] groups[c] == g;
        assert(order.contains(c as usize));
        let k = choose|k: int| 0 <= k < order.len() && #[trigger] order[k] == c as usize;
        assert(now[k] == g);
    }
}

/// A group that is dropped leaves its turns over.
proof fn lemma_dropped_shared_out(groups: Seq<Group>, leftover: Seq<usize>, n: nat, at: int)
    requires
        shared_out(groups, leftover, n),
        0 <= at < groups.len(),
    ensures
        shared_out(groups.remove(at), leftover + groups[at].members, n),
{
    let now = groups.remove(at);
    let gone = groups[at].members;
    let left = leftover + gone;
    let from = |c: int|
        if c < at {
            c
        } else {
            c + 1
        };
    assert(disjoint(gone, leftover));
    lemma_positions_sum(leftover, gone, n);
    assert forall|i: usize| #[trigger] left.contains(i) <==> leftover.contains(i) || gone.contains(
        i,
    ) by {
        lemma_contains_sum(leftover, gone, i);
    }
    assert forall|c: int| 0 <= c < now.len() implies positions((#[trigger] now[c]).members, n) && 0
        < now[c].count <= now[c].members.len() && disjoint(now[c].members, left) by {
        assert(now[c] == groups[from(c)]);
        lemma_two_disjoint(groups, leftover, n, from(c), at);
        assert(disjoint(groups[from(c)].members, leftover));
    }
    assert forall|c: int, d: int| 0 <= c < d < now.len() implies disjoint(
        (#[trigger] now[c]).members,
        (#[trigger] now[d]).members,
    ) by {
        assert(now[c] == groups[from(c)] && now[d] == groups[from(d)]);
        lemma_two_disjoint(groups, leftover, n, from(c), from(d));
    }
    assert forall|i: usize| i < n implies #[trigger] left.contains(i) || held(now, i) by {
        if !left.contains(i) {
            assert(!leftover.contains(i));
            assert(held(groups, i));
            let c = choose|c: int|
                0 <= c < groups.len() && (#[trigger] groups[c]).members.contains(i);
            let k = if c < at {
                c
            } else {
                c - 1
            };
            assert(now[k] == groups[c]);
            assert(now[k].members.contains(i));
        }
    }
}

/// A turn that is attached is no longer left over.
proof fn lemma_attached_shared_out(groups: Seq<Group>, leftover: Seq<usize>, n: nat, at: int)
    requires
        shared_out(groups, leftover, n),
        leftover.len() > 0,
        0 <= at < groups.len(),
    ensures
        shared_out(attached(groups, at, leftover[0]), leftover.drop_first(), n),
{
    let turn = leftover[0];
    let left = leftover.drop_first();
    let now = attached(groups, at, turn);
    assert(leftover.contains(turn));
    assert forall|i: usize| #[trigger] left.contains(i) <==> leftover.contains(i) && i != turn by {
        if left.contains(i) {
            let k = choose|k: int| 0 <= k < left.len() && #[trigger] left[k] == i;
            assert(leftover[k + 1] == i);
        }
        if leftover.contains(i) && i != turn {
            let k = choose|k: int| 0 <= k < leftover.len() && #[trigger] leftover[k] == i;
            assert(left[k - 1] == i);
        }
    }
    assert forall|k: int, l: int| 0 <= k < left.len() && 0 <= l < left.len() && k
        != l implies left[k] != left[l] by {
        assert(leftover[k + 1] != leftover[l + 1]);
    }
    assert forall|k: int| 0 <= k < left.len() implies (#[trigger] left[k]) < n by {
        assert(left[k] == leftover[k + 1]);
    }
    let members = groups[at].members;
    assert forall|i: usize| #[trigger] members.push(turn).contains(i) <==> members.contains(i) || i
        == turn by {
        lemma_contains_one_more(members, turn, i);
    }
    assert(disjoint(members, leftover));
    assert(!members.contains(turn));
    assert forall|c: int| 0 <= c < now.len() implies positions((#[trigger] now[c]).members, n) && 0
        < now[c].count <= now[c].members.len() && disjoint(now[c].members, left) by {
        assert(positions(groups[c].members, n));
        assert(disjoint(groups[c].members, leftover));
        if c == at {
            assert forall|k: int, l: int|
                0 <= k < now[c].members.len() && 0 <= l < now[c].members.len() && k
                    != l implies now[c].members[k] != now[c].members[l] by {
                if k < members.len() && l < members.len() {
                    assert(members[k] != members[l]);
                } else if k < members.len() {
                    assert(members.contains(members[k]));
                } else {
                    assert(members.contains(members[l]));
                }
            }
        }
    }
    assert forall|c: int, d: int| 0 <= c < d < now.len() implies disjoint(
        (#[trigger] now[c]).members,
        (#[trigger] now[d]).members,
    ) by {
        assert(disjoint(groups[c].members, groups[d].members));
        assert(disjoint(groups[c].members, leftover));
        assert(disjoint(groups[d].members, leftover));
    }
    assert forall|i: usize| i < n implies #[trigger] left.contains(i) || held(now, i) by {
        if i == turn {
            assert(now[at].members.contains(i));
        } else if !leftover.contains(i) {
            assert(held(groups, i));
            let c = choose|c: int|
                0 <= c < groups.len() && (#[trigger] groups[c]).members.contains(i);
            assert(now[c].members.contains(i));
        }
    }
}

/// A voice first appears in one turn only.
pub proof fn law_one_turn_leads(members: Seq<usize>, f: usize, g: usize)
    requires
        leads(members, f),
        leads(members, g),
    ensures
        f == g,
{
    let k = choose|k: int| 0 <= k < members.len() && #[trigger] members[k] == f;
    let l = choose|l: int| 0 <= l < members.len() && #[trigger] members[l] == g;
    assert(members[k] == f && members[l] == g);
}

/// Each turn of a list as a cluster of its own.
fn single_clusters(list: &Vec<usize>) -> (r: Vec<Cluster>)
    ensures
        groups_of(r@) == singles(list@),
{
    let mut out: Vec<Cluster> = Vec::new();
    let mut i: usize = 0;
    while i < list.len()
        invariant
            i <= list.len(),
            groups_of(out@) == singles(list@.take(i as int)),
        decreases list.len() - i,
    {
        let mut members: Vec<usize> = Vec::new();
        members.push(list[i]);
        let ghost earlier = groups_of(out@);
        out.push(Cluster { count: 1, members });
        i += 1;
        proof {
            assert(out@.last()@.members == seq![list@[i - 1]]);
            assert(groups_of(out@) == earlier.push(out@.last()@));
            assert(singles(list@.take(i as int)) == singles(list@.take(i - 1)).push(
                Group { count: 1, members: seq![list@[i - 1]] },
            ));
        }
    }
    proof {
        assert(list@.take(i as int) == list@);
    }
    out
}

/// Every turn is either long or short.
proof fn lemma_those(turns: Seq<(usize, usize)>, min_len: usize)
    requires
        turns.len() <= usize::MAX,
    ensures
        positions(those(turns, min_len, true), turns.len()),
        positions(those(turns, min_len, false), turns.len()),
        disjoint(those(turns, min_len, true), those(turns, min_len, false)),
        forall|i: usize|
            i < turns.len() ==> #[trigger] those(turns, min_len, true).contains(i)
                || #[trigger] those(turns, min_len, false).contains(i),
    decreases turns.len(),
{
    if turns.len() > 0 {
        let shorter = turns.drop_last();
        lemma_those(shorter, min_len);
        let last = (turns.len() - 1) as usize;
        let is_long = long(turns, min_len, turns.len() - 1);
        let grown = those(shorter, min_len, is_long);
        let same = those(shorter, min_len, !is_long);
        assert(those(turns, min_len, is_long) == grown.push(last));
        assert(those(turns, min_len, !is_long) == same);
        assert forall|i: usize| #[trigger] grown.push(last).contains(i) <==> grown.contains(i) || i
            == last by {
            lemma_contains_one_more(grown, last, i);
        }
        if same.contains(last) {
            let k = choose|k: int| 0 <= k < same.len() && #[trigger] same[k] == last;
        }
        if grown.contains(last) {
            let k = choose|k: int| 0 <= k < grown.len() && #[trigger] grown[k] == last;
        }
        assert forall|k: int| 0 <= k < grown.len() implies grown[k] != last by {
            assert(grown[k] < shorter.len());
        }
        assert forall|i: usize| i < turns.len() implies #[trigger] those(
            turns,
            min_len,
            true,
        ).contains(i) || #[trigger] those(turns, min_len, false).contains(i) by {
            if i < shorter.len() {
                assert(those(shorter, min_len, true).contains(i) || those(
                    shorter,
                    min_len,
                    false,
                ).contains(i));
            }
        }
        assert(positions(same, turns.len()));
    }
}

/// What a list with one more entry holds.
proof fn lemma_contains_one_more(list: Seq<usize>, last: usize, i: usize)
    ensures
        list.push(last).contains(i) <==> list.contains(i) || i == last,
{
    if list.contains(i) {
        let k = choose|k: int| 0 <= k < list.len() && #[trigger] list[k] == i;
        assert(list.push(last)[k] == i);
    }
    assert(list.push(last)[list.len() as int] == last);
    if list.push(last).contains(i) && i != last {
        let k = choose|k: int| 0 <= k < list.len() + 1 && #[trigger] list.push(last)[k] == i;
        assert(list[k] == i);
    }
}

/// Groups of one turn each share out the turns with those that are left over.
proof fn lemma_singles_shared_out(list: Seq<usize>, leftover: Seq<usize>, n: nat)
    requires
        positions(list, n),
        positions(leftover, n),
        disjoint(list, leftover),
        forall|i: usize| i < n ==> #[trigger] list.contains(i) || leftover.contains(i),
    ensures
        shared_out(singles(list), leftover, n),
{
    let groups = singles(list);
    assert forall|c: int| 0 <= c < groups.len() implies positions(
        (#[trigger] groups[c]).members,
        n,
    ) && 0 < groups[c].count <= groups[c].members.len() && disjoint(
        groups[c].members,
        leftover,
    ) by {
        assert(list.contains(list[c]));
        assert forall|i: usize| !(#[trigger] groups[c].members.contains(i)
            && #[trigger] leftover.contains(i)) by {
            if groups[c].members.contains(i) {
                assert(i == list[c]);
            }
        }
    }
    assert forall|c: int, d: int| 0 <= c < d < groups.len() implies disjoint(
        (#[trigger] groups[c]).members,
        (#[trigger] groups[d]).members,
    ) by {
        assert(list[c] != list[d]);
    }
    assert forall|i: usize| i < n implies #[trigger] leftover.contains(i) || held(groups, i) by {
        if list.contains(i) {
            let k = choose|k: int| 0 <= k < list.len() && #[trigger] list[k] == i;
            assert(groups[k].members[0] == i);
            assert(groups[k].members.contains(i));
        }
    }
}

/// What two lists hold together.
proof fn lemma_contains_sum(a: Seq<usize>, b: Seq<usize>, i: usize)
    ensures
        (a + b).contains(i) <==> a.contains(i) || b.contains(i),
{
    if a.contains(i) {
        let k = choose|k: int| 0 <= k < a.len() && #[trigger] a[k] == i;
        assert((a + b)[k] == i);
    }
    if b.contains(i) {
        let k = choose|k: int| 0 <= k < b.len() && #[trigger] b[k] == i;
        assert((a + b)[a.len() + k] == i);
    }
    if (a + b).contains(i) {
        let k = choose|k: int| 0 <= k < a.len() + b.len() && #[trigger] (a + b)[k] == i;
        if k < a.len() {
            assert(a[k] == i);
        } else {
            assert(b[k - a.len()] == i);
        }
    }
}

/// Two lists of positions that have nothing in common are one.
proof fn lemma_positions_sum(a: Seq<usize>, b: Seq<usize>, n: nat)
    requires
        positions(a, n),
        positions(b, n),
        disjoint(a, b),
    ensures
        positions(a + b, n),
{
    let c = a + b;
    assert forall|k: int, l: int| 0 <= k < c.len() && 0 <= l < c.len() && k != l implies c[k]
        != c[l] by {
        if k < a.len() && l < a.len() {
            assert(a[k] != a[l]);
        } else if k >= a.len() && l >= a.len() {
            assert(b[k - a.len()] != b[l - a.len()]);
        } else if k < a.len() {
            assert(a.contains(a[k]) && b.contains(b[l - a.len()]));
        } else {
            assert(a.contains(a[l]) && b.contains(b[k - a.len()]));
        }
    }
}

/// Merging two groups leaves every turn where it can be found once.
proof fn lemma_merged_shared_out(
    groups: Seq<Group>,
    leftover: Seq<usize>,
    n: nat,
    a: int,
    b: int,
)
    requires
        shared_out(groups, leftover, n),
        0 <= a < b < groups.len(),
    ensures
        shared_out(merged(groups, a, b), leftover, n),
{
    let now = merged(groups, a, b);
    let x = groups[a].members;
    let y = groups[b].members;
    lemma_positions_sum(x, y, n);
    assert forall|i: usize| #[trigger] (x + y).contains(i) <==> x.contains(i) || y.contains(i) by {
        lemma_contains_sum(x, y, i);
    }
    // Where each of the new groups was before.
    let from = |c: int|
        if c == b {
            groups.len() - 1
        } else {
            c
        };
    assert forall|c: int| 0 <= c < now.len() && c != a implies now[c] == groups[#[trigger] from(
        c,
    )] by {}
    assert(now[a].members == x + y);
    assert forall|c: int| 0 <= c < now.len() implies positions((#[trigger] now[c]).members, n) && 0
        < now[c].count <= now[c].members.len() && disjoint(now[c].members, leftover) by {
        if c != a {
            assert(now[c] == groups[from(c)]);
        } else {
            assert(disjoint(groups[a].members, leftover));
            assert(disjoint(groups[b].members, leftover));
        }
    }
    assert forall|c: int, d: int| 0 <= c < d < now.len() implies disjoint(
        (#[trigger] now[c]).members,
        (#[trigger] now[d]).members,
    ) by {
        if c != a && d != a {
            lemma_two_disjoint(groups, leftover, n, from(c), from(d));
            assert(now[c] == groups[from(c)] && now[d] == groups[from(d)]);
        } else if c == a {
            lemma_two_disjoint(groups, leftover, n, a, from(d));
            lemma_two_disjoint(groups, leftover, n, b, from(d));
            assert(now[d] == groups[from(d)]);
        } else {
            lemma_two_disjoint(groups, leftover, n, a, from(c));
            lemma_two_disjoint(groups, leftover, n, b, from(c));
            assert(now[c] == groups[from(c)]);
        }
    }
    assert forall|i: usize| i < n implies #[trigger] leftover.contains(i) || held(now, i) by {
        if !leftover.contains(i) {
            assert(held(groups, i));
            let c = choose|c: int|
                0 <= c < groups.len() && (#[trigger] groups[c]).members.contains(i);
            if c == a || c == b {
                assert(now[a].members.contains(i));
            } else if c == groups.len() - 1 {
                assert(now[b] == groups[from(b)]);
                assert(now[b].members.contains(i));
            } else {
                assert(now[c] == groups[from(c)]);
                assert(now[c].members.contains(i));
            }
        }
    }
}

/// Two groups have nothing in common, whichever comes first.
proof fn lemma_two_disjoint(groups: Seq<Group>, leftover: Seq<usize>, n: nat, c: int, d: int)
    requires
        shared_out(groups, leftover, n),
        0 <= c < groups.len(),
        0 <= d < groups.len(),
        c != d,
    ensures
        disjoint(groups[c].members, groups[d].members),
{
    if c < d {
        assert(disjoint(groups[c].members, groups[d].members));
    } else {
        assert(disjoint(groups[d].members, groups[c].members));
    }
}

/// The turns that last at least `min_len` samples are those that are, in order, and
/// the others are the others.
pub proof fn law_turns_are_told_by_length(
    turns: Seq<(usize, usize)>,
    min_len: usize,
    are_long: bool,
    i: usize,
)
    requires
        turns.len() <= usize::MAX,
    ensures
        those(turns, min_len, are_long).contains(i) <==> i < turns.len() && (turns[i as int].1
            - turns[i as int].0 >= min_len) == are_long,
        forall|k: int, l: int|
            0 <= k < l < those(turns, min_len, are_long).len() ==> (#[trigger] those(
                turns,
                min_len,
                are_long,
            )[k]) < (#[trigger] those(turns, min_len, are_long)[l]),
    decreases turns.len(),
{
    if turns.len() > 0 {
        let shorter = turns.drop_last();
        let rest = those(shorter, min_len, are_long);
        let all = those(turns, min_len, are_long);
        let last = (turns.len() - 1) as usize;
        law_turns_are_told_by_length(shorter, min_len, are_long, i);
        assert forall|k: int| 0 <= k < rest.len() implies #[trigger] rest[k] < last by {
            law_turns_are_told_by_length(shorter, min_len, are_long, rest[k]);
            assert(rest.contains(rest[k]));
        }
        lemma_contains_one_more(rest, last, i);
        if i < last {
            assert(shorter[i as int] == turns[i as int]);
        }
        assert forall|k: int, l: int| 0 <= k < l < all.len() implies (#[trigger] all[k]) < (
        #[trigger] all[l]) by {
            if l < rest.len() {
                assert(all[k] == rest[k] && all[l] == rest[l]);
            } else {
                assert(all[k] == rest[k]);
            }
        }
    }
}

/// Whether two turns are in the same group.
pub open spec fn together(groups: Seq<Group>, i: usize, j: usize) -> bool {
    exists|c: int|
        0 <= c < groups.len() && (#[trigger] groups[c]).members.contains(i)
            && groups[c].members.contains(j)
}

/// Merging two groups brings their turns together and nothing else: one group
/// less, turns that were together still are, turns of the two are now, and no
/// others. The merged group starts with the turn that the first of them did, and
/// counts the turns of both.
pub proof fn law_merging_joins_two_voices(
    groups: Seq<Group>,
    leftover: Seq<usize>,
    n: nat,
    a: int,
    b: int,
    i: usize,
    j: usize,
)
    requires
        shared_out(groups, leftover, n),
        0 <= a < b < groups.len(),
    ensures
        ({
            let now = merged(groups, a, b);
            let either = |t: usize| groups[a].members.contains(t) || groups[b].members.contains(t);
            &&& now.len() == groups.len() - 1
            &&& together(now, i, j) <==> together(groups, i, j) || either(i) && either(j)
            &&& now[a].count == groups[a].count + groups[b].count
            &&& now[a].members[0] == groups[a].members[0]
            &&& now[a].members.len() == groups[a].members.len() + groups[b].members.len()
        }),
{
    let now = merged(groups, a, b);
    let last = groups.len() - 1;
    assert(positions(groups[a].members, n));
    lemma_contains_sum(groups[a].members, groups[b].members, i);
    lemma_contains_sum(groups[a].members, groups[b].members, j);
    assert(now[a].members == groups[a].members + groups[b].members);
    if together(groups, i, j) {
        let c = choose|c: int|
            0 <= c < groups.len() && (#[trigger] groups[c]).members.contains(i)
                && groups[c].members.contains(j);
        if c == a || c == b {
            assert(now[a].members.contains(i) && now[a].members.contains(j));
        } else if c == last {
            assert(now[b] == groups[last]);
        } else {
            assert(now[c] == groups[c]);
        }
    }
    if together(now, i, j) {
        let c = choose|c: int|
            0 <= c < now.len() && (#[trigger] now[c]).members.contains(i)
                && now[c].members.contains(j);
        if c == a {
        } else if c == b {
            assert(now[b] == groups[last]);
            assert(groups[last].members.contains(i));
        } else {
            assert(now[c] == groups[c]);
            assert(groups[c].members.contains(i));
        }
    }
    if (groups[a].members.contains(i) || groups[b].members.contains(i)) && (
    groups[a].members.contains(j) || groups[b].members.contains(j)) {
        assert(now[a].members.contains(i) && now[a].members.contains(j));
    }
}

/// The pair that is merged next is at least as similar as any other pair.
pub proof fn law_no_pair_is_more_similar(linkage: Seq<Vec<i32>>, n: int, x: int, y: int)
    requires
        strongest(linkage, n, x, y, n, 0),
    ensures
        0 <= x < y < n,
        forall|c: int, d: int|
            0 <= c < d < n ==> #[trigger] linkage[c]@[d] <= linkage[x]@[y] && (c < x || c == x && d
                < y ==> linkage[c]@[d] < linkage[x]@[y]),
{
    assert forall|c: int, d: int| 0 <= c < d < n implies #[trigger] linkage[c]@[d]
        <= linkage[x]@[y] && (c < x || c == x && d < y ==> linkage[c]@[d] < linkage[x]@[y]) by {
        assert(link(linkage, c, d) <= link(linkage, x, y));
    }
}

/// A voice speaks for as long as its turns last, taken together.
pub proof fn law_speaking_time_adds_up(
    turns: Seq<(usize, usize)>,
    a: Seq<usize>,
    b: Seq<usize>,
    i: usize,
)
    ensures
        duration(turns, a + b) == duration(turns, a) + duration(turns, b),
        duration(turns, seq![i]) == turns[i as int].1 - turns[i as int].0,
        duration(turns, Seq::empty()) == 0,
    decreases b.len(),
{
    assert(seq![i].drop_last() =~= Seq::<usize>::empty());
    assert(duration(turns, seq![i].drop_last()) == 0);
    if b.len() == 0 {
        assert(a + b =~= a);
    } else {
        law_speaking_time_adds_up(turns, a, b.drop_last(), i);
        assert((a + b).drop_last() =~= a + b.drop_last());
    }
}

/// A turn that is attached joins the group that it is attached to, behind the turns
/// that it had, and changes no other group.
pub proof fn law_an_attached_turn_joins_one_voice(groups: Seq<Group>, at: int, turn: usize)
    requires
        0 <= at < groups.len(),
    ensures
        attached(groups, at, turn).len() == groups.len(),
        attached(groups, at, turn)[at].members == groups[at].members.push(turn),
        attached(groups, at, turn)[at].count == groups[at].count,
        forall|c: int|
            0 <= c < groups.len() && c != at ==> #[trigger] attached(groups, at, turn)[c]
                == groups[c],
{
}

/// The turns of groups that are dropped are all left over, group by group.
pub proof fn law_dropped_turns_are_left_over(groups: Seq<Group>, i: usize)
    ensures
        spread(groups).contains(i) <==> held(groups, i),
    decreases groups.len(),
{
    if groups.len() > 0 {
        let shorter = groups.drop_last();
        let n = shorter.len() as int;
        law_dropped_turns_are_left_over(shorter, i);
        lemma_contains_sum(spread(shorter), groups.last().members, i);
        assert(groups[n] == groups.last());
        if held(shorter, i) {
            let c = choose|c: int|
                0 <= c < shorter.len() && (#[trigger] shorter[c]).members.contains(i);
            assert(groups[c] == shorter[c]);
        }
        if held(groups, i) && !groups.last().members.contains(i) {
            let c = choose|c: int|
                0 <= c < groups.len() && (#[trigger] groups[c]).members.contains(i);
            assert(shorter[c] == groups[c]);
        }
    } else {
        assert(!spread(groups).contains(i));
    }
}

/// Of too many voices those that speak longest are kept: none that is dropped
/// speaks longer than one that is kept.
pub proof fn law_the_longest_voices_are_kept(
    turns: Seq<(usize, usize)>,
    groups: Seq<Group>,
    order: Seq<usize>,
    most: int,
)
    requires
        ranks(durations(turns, groups), order),
        0 <= most <= order.len(),
        forall|c: int|
            0 <= c < groups.len() ==> 0 <= duration(turns, (#[trigger] groups[c]).members)
                <= u128::MAX,
    ensures
        order.len() == groups.len(),
        forall|k: int, l: int|
            0 <= k < most <= l < order.len() ==> duration(
                turns,
                groups[(#[trigger] order[k]) as int].members,
            ) >= duration(turns, groups[(#[trigger] order[l]) as int].members),
        picked(groups, order.take(most)).len() == most,
        forall|k: int|
            0 <= k < most ==> #[trigger] picked(groups, order.take(most))[k]
                == groups[order[k] as int],
{
    let keys = durations(turns, groups);
    law_ranking_sorts(keys, order);
    assert forall|k: int, l: int| 0 <= k < most <= l < order.len() implies duration(
        turns,
        groups[(#[trigger] order[k]) as int].members,
    ) >= duration(turns, groups[(#[trigger] order[l]) as int].members) by {
        let (x, y) = (order[k] as int, order[l] as int);
        assert(keys[x] >= keys[y]);
        assert(groups[x].members == groups[x].members && groups[y].members == groups[y].members);
    }
}

/// Each turn that is clustered starts as a voice of its own.
pub proof fn law_each_turn_starts_alone(list: Seq<usize>, i: int)
    requires
        0 <= i < list.len(),
    ensures
        singles(list).len() == list.len(),
        singles(list)[i].count == 1,
        singles(list)[i].members == seq![list[i]],
{
}

/// A voice is numbered by the earliest of its turns.
pub proof fn law_voices_are_numbered_by_their_earliest_turn(g: Group, h: Group, i: usize)
    requires
        leads_before(g, h),
        h.members.contains(i),
    ensures
        exists|k: int| 0 <= k < g.members.len() && #[trigger] g.members[k] < i,
{
    let (x, y) = choose|x: usize, y: usize| #[trigger]
        leads(g.members, x) && #[trigger] leads(h.members, y) && x < y;
    let k = choose|k: int| 0 <= k < g.members.len() && #[trigger] g.members[k] == x;
    let m = choose|m: int| 0 <= m < h.members.len() && #[trigger] h.members[m] == i;
    assert(y <= h.members[m]);
    assert(g.members[k] < i);
}

} // verus!
