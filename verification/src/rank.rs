//! Scored pairs and their ranking, most similar first.

use crate::metric::DistanceMetric;
use crate::pairs::{canonical, canonical_pair};
use crate::score::{lemma_rank_total, Score};
use vstd::prelude::*;
use vstd::seq_lib::*;

verus! {

/// One unordered pair of documents with its score. The documents are named by
/// their positions in the input list, the smaller position first.
#[derive(Clone, Debug, PartialEq, Eq)]
pub struct ScoredPair {
    /// The score of the pair under the chosen metric.
    pub distance: Score,
    /// The position of the first document.
    pub first: usize,
    /// The position of the second document.
    pub second: usize,
    /// The score as it is printed.
    pub rendered: String,
}

impl ScoredPair {
    /// A scored pair joins two different documents, the earlier one first.
    pub open spec fn wf(&self) -> bool {
        self.first < self.second
    }

    /// The pair of `a` and `b` in canonical order, or nothing where the two
    /// are one document: a document is not paired with itself.
    pub fn new(a: usize, b: usize, distance: Score, rendered: String) -> (pair: Option<ScoredPair>)
        ensures
            a == b <==> pair.is_none(),
            pair matches Some(p) ==> {
                &&& p.wf()
                &&& (p.first as int, p.second as int) == canonical((a as int, b as int))
                &&& p.distance == distance
                &&& p.rendered == rendered
            },
    {
        let (first, second) = canonical_pair(a, b);
        if first == second {
            None
        } else {
            Some(ScoredPair { distance, first, second, rendered })
        }
    }
}

/// The positions that a list of scored pairs joins.
pub open spec fn scored_indices(s: Seq<ScoredPair>) -> Seq<(int, int)> {
    s.map_values(|p: ScoredPair| (p.first as int, p.second as int))
}

/// Whether no pair of `s` stands behind one that it is strictly ahead of:
/// the scores never rise along `s` where higher is better, and never fall
/// where lower is better.
pub open spec fn is_ranked(s: Seq<ScoredPair>, higher_is_better: bool) -> bool {
    forall|k: int, l: int|
        0 <= k < l < s.len() ==> !(#[trigger] s[l]).distance.ahead_of(
            &(#[trigger] s[k]).distance,
            higher_is_better,
        )
}

/// Where `p` is put into the ranked list `s`: behind every pair that it is
/// not strictly ahead of, so that pairs with one score keep the order in
/// which they came.
pub open spec fn place_of(s: Seq<ScoredPair>, p: ScoredPair, higher_is_better: bool) -> int
    decreases s.len(),
{
    if s.len() == 0 {
        0
    } else if p.distance.ahead_of(&s.last().distance, higher_is_better) {
        place_of(s.drop_last(), p, higher_is_better)
    } else {
        s.len() as int
    }
}

/// The pairs of `s` from the most similar to the least, pairs with one score
/// in the order in which `s` has them.
pub open spec fn ranking(s: Seq<ScoredPair>, higher_is_better: bool) -> Seq<ScoredPair>
    decreases s.len(),
{
    if s.len() == 0 {
        Seq::empty()
    } else {
        let before = ranking(s.drop_last(), higher_is_better);
        before.insert(place_of(before, s.last(), higher_is_better), s.last())
    }
}

/// The place of `p` lies within the list; every pair before it is at least as
/// similar as `p`, and `p` is strictly ahead of every pair from it on.
pub proof fn lemma_place_of(s: Seq<ScoredPair>, p: ScoredPair, higher_is_better: bool)
    requires
        is_ranked(s, higher_is_better),
    ensures
        0 <= place_of(s, p, higher_is_better) <= s.len(),
        forall|k: int|
            0 <= k < place_of(s, p, higher_is_better) ==> !p.distance.ahead_of(
                &(#[trigger] s[k]).distance,
                higher_is_better,
            ),
        forall|k: int|
            place_of(s, p, higher_is_better) <= k < s.len() ==> p.distance.ahead_of(
                &(#[trigger] s[k]).distance,
                higher_is_better,
            ),
    decreases s.len(),
{
    if s.len() > 0 {
        let front = s.drop_last();
        assert forall|k: int, l: int| 0 <= k < l < front.len() implies !(#[trigger] front[l])
            .distance.ahead_of(&(#[trigger] front[k]).distance, higher_is_better) by {
            assert(front[l] == s[l] && front[k] == s[k]);
        }
        if p.distance.ahead_of(&s.last().distance, higher_is_better) {
            lemma_place_of(front, p, higher_is_better);
            assert forall|k: int| 0 <= k < place_of(s, p, higher_is_better) implies !p
                .distance.ahead_of(&(#[trigger] s[k]).distance, higher_is_better) by {
                assert(s[k] == front[k]);
            }
            assert forall|k: int| place_of(s, p, higher_is_better) <= k < s.len() implies p
                .distance.ahead_of(&(#[trigger] s[k]).distance, higher_is_better) by {
                if k < front.len() {
                    assert(s[k] == front[k]);
                }
            }
        } else {
            assert forall|k: int| 0 <= k < s.len() implies !p.distance.ahead_of(
                &(#[trigger] s[k]).distance,
                higher_is_better,
            ) by {
                let last = s[s.len() - 1];
                if k < s.len() - 1 {
                    assert(!last.distance.ahead_of(&s[k].distance, higher_is_better));
                }
            }
        }
    }
}

/// Putting a pair at its place keeps a ranked list ranked and adds that pair
/// and nothing else.
pub proof fn lemma_insert_ranked(s: Seq<ScoredPair>, p: ScoredPair, higher_is_better: bool)
    requires
        is_ranked(s, higher_is_better),
    ensures
        is_ranked(s.insert(place_of(s, p, higher_is_better), p), higher_is_better),
        s.insert(place_of(s, p, higher_is_better), p).to_multiset() == s.to_multiset().insert(p),
{
    lemma_place_of(s, p, higher_is_better);
    let at = place_of(s, p, higher_is_better);
    let t = s.insert(at, p);
    assert forall|k: int, l: int| 0 <= k < l < t.len() implies !(#[trigger] t[l]).distance.ahead_of(
        &(#[trigger] t[k]).distance,
        higher_is_better,
    ) by {
        if l < at {
            assert(t[l] == s[l] && t[k] == s[k]);
        } else if l == at {
            assert(t[k] == s[k]);
        } else if k < at {
            assert(t[l] == s[l - 1] && t[k] == s[k]);
        } else if k == at {
            assert(t[l] == s[l - 1]);
        } else {
            assert(t[l] == s[l - 1] && t[k] == s[k - 1]);
        }
    }
    assert(t.remove(at) =~= s);
    to_multiset_remove(t, at);
    assert(t[at] == p);
    t.to_multiset_ensures();
    assert(t.contains(p));
    assert(t.to_multiset() =~= s.to_multiset().insert(p));
}

/// The ranking holds the pairs of the input, each as often as the input does,
/// and no pair of it stands behind one that it is strictly ahead of: where
/// higher is better the scores never rise along it, where lower is better they
/// never fall.
pub proof fn lemma_ranking(s: Seq<ScoredPair>, higher_is_better: bool)
    ensures
        is_ranked(ranking(s, higher_is_better), higher_is_better),
        ranking(s, higher_is_better).to_multiset() == s.to_multiset(),
        ranking(s, higher_is_better).len() == s.len(),
    decreases s.len(),
{
    broadcast use group_to_multiset_ensures;

    if s.len() > 0 {
        let before = ranking(s.drop_last(), higher_is_better);
        lemma_ranking(s.drop_last(), higher_is_better);
        lemma_insert_ranked(before, s.last(), higher_is_better);
        lemma_place_of(before, s.last(), higher_is_better);
        assert(s.drop_last().push(s.last()) =~= s);
    } else {
        assert(s =~= Seq::empty());
    }
}

/// What being ranked means for each metric: under the cosine similarity and
/// the dot product the places of the scores never rise along the list, under
/// the Euclidean and the Manhattan distance they never fall.
pub proof fn lemma_ranked_by_metric(s: Seq<ScoredPair>, metric: DistanceMetric)
    ensures
        metric == DistanceMetric::Cosine || metric == DistanceMetric::Dot ==> (is_ranked(
            s,
            metric.spec_higher_is_better(),
        ) <==> forall|k: int, l: int|
            0 <= k < l < s.len() ==> (#[trigger] s[k]).distance.rank() >= (#[trigger] s[l])
                .distance.rank()),
        metric == DistanceMetric::L2 || metric == DistanceMetric::Manhattan ==> (is_ranked(
            s,
            metric.spec_higher_is_better(),
        ) <==> forall|k: int, l: int|
            0 <= k < l < s.len() ==> (#[trigger] s[k]).distance.rank() <= (#[trigger] s[l])
                .distance.rank()),
{
}

/// A list that is ranked already is its own ranking.
pub proof fn lemma_ranking_of_ranked(s: Seq<ScoredPair>, higher_is_better: bool)
    requires
        is_ranked(s, higher_is_better),
    ensures
        ranking(s, higher_is_better) == s,
    decreases s.len(),
{
    if s.len() > 0 {
        let front = s.drop_last();
        assert forall|k: int, l: int| 0 <= k < l < front.len() implies !(#[trigger] front[l])
            .distance.ahead_of(&(#[trigger] front[k]).distance, higher_is_better) by {
            assert(front[l] == s[l] && front[k] == s[k]);
        }
        lemma_ranking_of_ranked(front, higher_is_better);
        if front.len() > 0 {
            assert(front.last() == s[s.len() - 2]);
            assert(s.last() == s[s.len() - 1]);
        }
        assert(place_of(front, s.last(), higher_is_better) == front.len());
        assert(front.insert(front.len() as int, s.last()) =~= s);
    } else {
        assert(s =~= Seq::empty());
    }
}

/// Ranking is idempotent: to rank a ranking again changes nothing, so the
/// order that a list of pairs is given is the same however often it is ranked.
pub proof fn lemma_ranking_idempotent(s: Seq<ScoredPair>, higher_is_better: bool)
    ensures
        ranking(ranking(s, higher_is_better), higher_is_better) == ranking(s, higher_is_better),
{
    lemma_ranking(s, higher_is_better);
    lemma_ranking_of_ranked(ranking(s, higher_is_better), higher_is_better);
}

/// The pairs of `s` that have the score `x`, in the order of `s`.
pub open spec fn run_of(s: Seq<ScoredPair>, x: Score) -> Seq<ScoredPair>
    decreases s.len(),
{
    if s.len() == 0 {
        Seq::empty()
    } else if s.last().distance == x {
        run_of(s.drop_last(), x).push(s.last())
    } else {
        run_of(s.drop_last(), x)
    }
}

/// Whether two lists hold, for every score, the same pairs with that score
/// in the same order. Two such lists hold the same pairs, and differ at most
/// in how pairs with different scores are interleaved.
pub open spec fn same_runs(a: Seq<ScoredPair>, b: Seq<ScoredPair>) -> bool {
    forall|x: Score| #[trigger] run_of(a, x) == run_of(b, x)
}

proof fn lemma_run_of_concat(a: Seq<ScoredPair>, b: Seq<ScoredPair>, x: Score)
    ensures
        run_of(a + b, x) == run_of(a, x) + run_of(b, x),
    decreases b.len(),
{
    if b.len() == 0 {
        assert(a + b =~= a);
        assert(run_of(a, x) + run_of(b, x) =~= run_of(a, x));
    } else {
        assert((a + b).drop_last() =~= a + b.drop_last());
        assert((a + b).last() == b.last());
        lemma_run_of_concat(a, b.drop_last(), x);
        if b.last().distance == x {
            assert((run_of(a, x) + run_of(b.drop_last(), x)).push(b.last()) =~= run_of(a, x)
                + run_of(b.drop_last(), x).push(b.last()));
        }
    }
}

proof fn lemma_run_of_members(s: Seq<ScoredPair>, x: Score)
    ensures
        (exists|k: int| 0 <= k < s.len() && (#[trigger] s[k]).distance == x) <==> run_of(s, x).len()
            > 0,
    decreases s.len(),
{
    if s.len() > 0 {
        let front = s.drop_last();
        lemma_run_of_members(front, x);
        if s.last().distance == x {
            assert(s[s.len() - 1].distance == x);
        } else {
            if exists|k: int| 0 <= k < s.len() && (#[trigger] s[k]).distance == x {
                let k = choose|k: int| 0 <= k < s.len() && (#[trigger] s[k]).distance == x;
                assert(front[k].distance == x);
            }
            if run_of(front, x).len() > 0 {
                let k = choose|k: int| 0 <= k < front.len() && (#[trigger] front[k]).distance == x;
                assert(s[k].distance == x);
            }
        }
    }
}

proof fn lemma_run_of_insert(s: Seq<ScoredPair>, p: ScoredPair, higher_is_better: bool, x: Score)
    requires
        is_ranked(s, higher_is_better),
    ensures
        run_of(s.insert(place_of(s, p, higher_is_better), p), x) == if p.distance == x {
            run_of(s, x).push(p)
        } else {
            run_of(s, x)
        },
{
    lemma_place_of(s, p, higher_is_better);
    let at = place_of(s, p, higher_is_better);
    let head = s.take(at);
    let tail = s.skip(at);
    let one = seq![p];
    assert(s =~= head + tail);
    assert(s.insert(at, p) =~= head + one + tail);
    lemma_run_of_concat(head, tail, x);
    lemma_run_of_concat(head + one, tail, x);
    lemma_run_of_concat(head, one, x);
    assert(one.drop_last() =~= Seq::empty());
    assert(run_of(one.drop_last(), x) =~= Seq::empty());
    if p.distance == x {
        lemma_run_of_members(tail, x);
        if run_of(tail, x).len() > 0 {
            let k = choose|k: int| 0 <= k < tail.len() && (#[trigger] tail[k]).distance == x;
            assert(tail[k] == s[at + k]);
            assert(p.distance.ahead_of(&s[at + k].distance, higher_is_better));
        }
        assert(run_of(tail, x) =~= Seq::empty());
        assert(run_of(one, x) =~= seq![p]);
        assert(run_of(head, x) + seq![p] + Seq::empty() =~= run_of(head, x).push(p));
        assert(run_of(head, x) + Seq::<ScoredPair>::empty() =~= run_of(head, x));
    } else {
        assert(run_of(one, x) =~= Seq::empty());
        assert(run_of(head, x) + Seq::<ScoredPair>::empty() =~= run_of(head, x));
    }
}

/// Ranking only moves pairs with different scores past each other: for every
/// score the ranking holds the pairs with that score that the input holds, in
/// the order of the input.
pub proof fn lemma_ranking_keeps_runs(s: Seq<ScoredPair>, higher_is_better: bool)
    ensures
        same_runs(ranking(s, higher_is_better), s),
    decreases s.len(),
{
    if s.len() > 0 {
        let before = ranking(s.drop_last(), higher_is_better);
        lemma_ranking_keeps_runs(s.drop_last(), higher_is_better);
        lemma_ranking(s.drop_last(), higher_is_better);
        assert forall|x: Score| #[trigger]
            run_of(ranking(s, higher_is_better), x) == run_of(s, x) by {
            lemma_run_of_insert(before, s.last(), higher_is_better, x);
            assert(run_of(before, x) == run_of(s.drop_last(), x));
        }
    } else {
        assert(ranking(s, higher_is_better) =~= s);
    }
}

proof fn lemma_ranked_prefix(s: Seq<ScoredPair>, higher_is_better: bool)
    requires
        is_ranked(s, higher_is_better),
        s.len() > 0,
    ensures
        is_ranked(s.drop_last(), higher_is_better),
        forall|k: int|
            0 <= k < s.len() ==> !s.last().distance.ahead_of(
                &(#[trigger] s[k]).distance,
                higher_is_better,
            ),
{
    let front = s.drop_last();
    assert forall|k: int, l: int| 0 <= k < l < front.len() implies !(#[trigger] front[l])
        .distance.ahead_of(&(#[trigger] front[k]).distance, higher_is_better) by {
        assert(front[l] == s[l] && front[k] == s[k]);
    }
    assert forall|k: int| 0 <= k < s.len() implies !s.last().distance.ahead_of(
        &(#[trigger] s[k]).distance,
        higher_is_better,
    ) by {
        let last = s[s.len() - 1];
        if k < s.len() - 1 {
            assert(!last.distance.ahead_of(&s[k].distance, higher_is_better));
        }
    }
}

/// Two ranked lists that hold, for every score, the same pairs in the same
/// order are one list.
pub proof fn lemma_ranked_runs_unique(
    a: Seq<ScoredPair>,
    b: Seq<ScoredPair>,
    higher_is_better: bool,
)
    requires
        is_ranked(a, higher_is_better),
        is_ranked(b, higher_is_better),
        same_runs(a, b),
    ensures
        a == b,
    decreases a.len(),
{
    if a.len() == 0 {
        if b.len() > 0 {
            let y = b.last().distance;
            assert(run_of(a, y) == run_of(b, y));
            assert(run_of(b, y).len() > 0);
        }
        assert(a =~= b);
    } else {
        let x = a.last().distance;
        assert(run_of(a, x) == run_of(b, x));
        assert(run_of(a, x).last() == a.last());
        assert(b.len() > 0);
        let y = b.last().distance;
        lemma_ranked_prefix(a, higher_is_better);
        lemma_ranked_prefix(b, higher_is_better);
        if y != x {
            lemma_run_of_members(b, x);
            let k = choose|k: int| 0 <= k < b.len() && (#[trigger] b[k]).distance == x;
            assert(!y.ahead_of(&x, higher_is_better));
            assert(run_of(a, y) == run_of(b, y));
            assert(run_of(b, y).len() > 0);
            lemma_run_of_members(a, y);
            let m = choose|m: int| 0 <= m < a.len() && (#[trigger] a[m]).distance == y;
            assert(!x.ahead_of(&y, higher_is_better));
            lemma_rank_total(x, y, higher_is_better);
        }
        let front_a = a.drop_last();
        let front_b = b.drop_last();
        assert(run_of(front_a, x).push(a.last()).drop_last() =~= run_of(front_a, x));
        assert(run_of(front_b, x).push(b.last()).drop_last() =~= run_of(front_b, x));
        assert(run_of(b, x).last() == b.last());
        assert forall|z: Score| #[trigger] run_of(front_a, z) == run_of(front_b, z) by {
            assert(run_of(a, z) == run_of(b, z));
        }
        lemma_ranked_runs_unique(front_a, front_b, higher_is_better);
        assert(a =~= front_a.push(a.last()));
        assert(b =~= front_b.push(b.last()));
    }
}

/// The ranking is the one list that is ranked and holds, for every score, the
/// pairs of the input with that score in the order of the input.
pub proof fn lemma_ranking_unique(s: Seq<ScoredPair>, r: Seq<ScoredPair>, higher_is_better: bool)
    requires
        is_ranked(r, higher_is_better),
        same_runs(r, s),
    ensures
        r == ranking(s, higher_is_better),
{
    lemma_ranking(s, higher_is_better);
    lemma_ranking_keeps_runs(s, higher_is_better);
    assert forall|x: Score| #[trigger] run_of(r, x) == run_of(ranking(s, higher_is_better), x) by {
        assert(run_of(r, x) == run_of(s, x));
    }
    lemma_ranked_runs_unique(r, ranking(s, higher_is_better), higher_is_better);
}

/// Ranks the pairs from the most similar to the least. Where
/// `higher_is_better` the scores never rise along the result, otherwise they
/// never fall; pairs with one score keep the order in which they came.
pub fn rank(pairs: Vec<ScoredPair>, higher_is_better: bool) -> (ranked: Vec<ScoredPair>)
    ensures
        is_ranked(ranked@, higher_is_better),
        same_runs(ranked@, pairs@),
        ranked@.to_multiset() == pairs@.to_multiset(),
        ranked@.len() == pairs@.len(),
        ranked@ == ranking(pairs@, higher_is_better),
{
    let ghost all = pairs@;
    let mut rest = pairs;
    let mut ranked: Vec<ScoredPair> = Vec::new();
    let mut done: usize = 0;
    assert(all.len() == rest.len());
    while rest.len() > 0
        invariant
            all.len() <= usize::MAX,
            done + rest@.len() == all.len(),
            rest@ == all.skip(done as int),
            ranked@ == ranking(all.take(done as int), higher_is_better),
        decreases rest@.len(),
    {
        assert(done < all.len());
        let pair = rest.remove(0);
        proof {
            assert(ranked@.take(ranked@.len() as int) =~= ranked@);
            lemma_ranking(all.take(done as int), higher_is_better);
            assert(all.take(done as int + 1).drop_last() =~= all.take(done as int));
            assert(all.take(done as int + 1).last() == pair);
            assert(all.skip(done as int).remove(0) =~= all.skip(done as int + 1));
        }
        let mut at: usize = ranked.len();
        while at > 0 && pair.distance.is_ahead_of(&ranked[at - 1].distance, higher_is_better)
            invariant
                done < all.len() <= usize::MAX,
                at <= ranked@.len(),
                place_of(ranked@, pair, higher_is_better) == place_of(
                    ranked@.take(at as int),
                    pair,
                    higher_is_better,
                ),
            decreases at,
        {
            proof {
                assert(ranked@.take(at as int).drop_last() =~= ranked@.take(at as int - 1));
            }
            at -= 1;
        }
        proof {
            if at > 0 {
                assert(ranked@.take(at as int).last() == ranked@[at - 1]);
            }
        }
        ranked.insert(at, pair);
        done += 1;
    }
    proof {
        assert(all.take(done as int) =~= all);
        lemma_ranking(all, higher_is_better);
        lemma_ranking_keeps_runs(all, higher_is_better);
    }
    ranked
}

} // verus!
