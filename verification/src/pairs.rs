//! Enumeration of the unordered pairs of documents.
//!
//! Documents are named by their position in the input list. A pair is held in
//! canonical order, the smaller position first, and that ordered pair of
//! positions is the one key by which two pairs are told apart.

use itertools::Itertools;
use vstd::prelude::*;

verus! {

/// A list of position pairs, read as pairs of mathematical integers.
pub open spec fn index_pairs(v: Seq<(usize, usize)>) -> Seq<(int, int)> {
    v.map_values(|p: (usize, usize)| (p.0 as int, p.1 as int))
}

/// The pairs `(i, from)`, `(i, from + 1)`, ..., `(i, n - 1)`.
pub open spec fn row_pairs(i: int, from: int, n: int) -> Seq<(int, int)> {
    Seq::new(
        if from < n {
            (n - from) as nat
        } else {
            0
        },
        |c: int| (i, from + c),
    )
}

/// The rows `0`, `1`, ..., `m - 1` one after the other, where row `i` holds
/// the pairs `(i, j)` with `i + gap <= j < n` by rising `j`.
pub open spec fn pairs_below(m: int, gap: int, n: int) -> Seq<(int, int)>
    decreases m,
{
    if m <= 0 {
        Seq::empty()
    } else {
        pairs_below(m - 1, gap, n) + row_pairs(m - 1, m - 1 + gap, n)
    }
}

/// Every `(i, j)` with `i <= j < n`, in lexicographic order.
pub open spec fn pairs_with_repeats(n: int) -> Seq<(int, int)> {
    pairs_below(n, 0, n)
}

/// Every `(i, j)` with `i < j < n`, in lexicographic order: one entry for each
/// unordered pair of distinct positions.
pub open spec fn distinct_pairs(n: int) -> Seq<(int, int)> {
    pairs_below(n, 1, n)
}

/// Where `(i, j)` stands in `pairs_below(m, gap, n)`, for any `m` above `i`.
pub open spec fn position_below(i: int, j: int, gap: int, n: int) -> int {
    pairs_below(i, gap, n).len() + (j - i - gap)
}

/// Where `(i, j)` stands in `distinct_pairs(n)`.
pub open spec fn pair_position(i: int, j: int, n: int) -> int {
    position_below(i, j, 1, n)
}

/// The number of unordered pairs among `n` documents.
pub open spec fn pair_count(n: int) -> int {
    n * (n - 1) / 2
}

/// A pair with its smaller position first.
pub open spec fn canonical(p: (int, int)) -> (int, int) {
    if p.0 <= p.1 {
        p
    } else {
        (p.1, p.0)
    }
}

/// The canonical forms of the pairs of `s` that join two different positions,
/// in the order of `s`.
pub open spec fn proper_pairs(s: Seq<(int, int)>) -> Seq<(int, int)>
    decreases s.len(),
{
    if s.len() == 0 {
        Seq::empty()
    } else {
        let rest = proper_pairs(s.drop_last());
        let p = canonical(s.last());
        if p.0 != p.1 {
            rest.push(p)
        } else {
            rest
        }
    }
}

/// `s` without the entries that already occur earlier in it.
pub open spec fn first_occurrences(s: Seq<(int, int)>) -> Seq<(int, int)>
    decreases s.len(),
{
    if s.len() == 0 {
        Seq::empty()
    } else if s.drop_last().contains(s.last()) {
        first_occurrences(s.drop_last())
    } else {
        first_occurrences(s.drop_last()).push(s.last())
    }
}

/// Whether the list of all pairs with repetition among `n` positions can be
/// held in memory at all.
pub open spec fn enumerable(n: usize) -> bool {
    n * (n + 1) / 2 <= usize::MAX
}

/// Tests whether the pairs among `n` positions can be enumerated.
pub fn can_enumerate(n: usize) -> (ok: bool)
    ensures
        ok == enumerable(n),
{
    let wide: u128 = n as u128;
    assert(wide * (wide + 1) <= u128::MAX) by (nonlinear_arith)
        requires
            0 <= wide <= 0xffff_ffff_ffff_ffff,
    ;
    wide * (wide + 1) / 2 <= usize::MAX as u128
}

/// `Itertools::combinations_with_replacement(2)` over the range `0..n`, each
/// combination handed out as a tuple. Trusted: the combinations come in
/// lexicographic order of non-decreasing positions, `(0, 0)`, `(0, 1)`, ...,
/// `(0, n - 1)`, `(1, 1)`, ..., `(n - 1, n - 1)`.
#[verifier::external_body]
fn index_combinations(n: usize) -> (combos: Vec<(usize, usize)>)
    requires
        enumerable(n),
    ensures
        index_pairs(combos@) == pairs_with_repeats(n as int),
{
    (0..n).combinations_with_replacement(2).map(|c| (c[0], c[1])).collect()
}

/// `Itertools::unique_by` keyed on the pair of positions. Trusted: the adaptor
/// is stable and keeps, of the entries with one key, the first it meets.
#[verifier::external_body]
fn unique_pairs(pairs: Vec<(usize, usize)>) -> (kept: Vec<(usize, usize)>)
    ensures
        index_pairs(kept@) == first_occurrences(index_pairs(pairs@)),
{
    pairs.into_iter().unique_by(|pair| (pair.0, pair.1)).collect()
}

/// Puts the smaller of two positions first, so that `(a, b)` and `(b, a)`
/// become the same pair.
pub fn canonical_pair(a: usize, b: usize) -> (pair: (usize, usize))
    ensures
        (pair.0 as int, pair.1 as int) == canonical((a as int, b as int)),
        pair.0 <= pair.1,
{
    if a <= b {
        (a, b)
    } else {
        (b, a)
    }
}

proof fn lemma_row_pairs_step(i: int, from: int, n: int)
    requires
        from < n,
    ensures
        row_pairs(i, from, n).drop_last() == row_pairs(i, from, n - 1),
        row_pairs(i, from, n).last() == (i, n - 1),
        row_pairs(i, from, n) == seq![(i, from)] + row_pairs(i, from + 1, n),
{
    assert(row_pairs(i, from, n).drop_last() =~= row_pairs(i, from, n - 1));
    assert(row_pairs(i, from, n) =~= seq![(i, from)] + row_pairs(i, from + 1, n));
}

proof fn lemma_proper_pairs_concat(a: Seq<(int, int)>, b: Seq<(int, int)>)
    ensures
        proper_pairs(a + b) == proper_pairs(a) + proper_pairs(b),
    decreases b.len(),
{
    if b.len() == 0 {
        assert(a + b =~= a);
        assert(proper_pairs(a) + proper_pairs(b) =~= proper_pairs(a));
    } else {
        assert((a + b).drop_last() =~= a + b.drop_last());
        assert((a + b).last() == b.last());
        lemma_proper_pairs_concat(a, b.drop_last());
        let p = canonical(b.last());
        if p.0 != p.1 {
            assert((proper_pairs(a) + proper_pairs(b.drop_last())).push(p) =~= proper_pairs(a)
                + proper_pairs(b.drop_last()).push(p));
        }
    }
}

proof fn lemma_proper_pairs_of_row(i: int, from: int, n: int)
    requires
        i < from,
    ensures
        proper_pairs(row_pairs(i, from, n)) == row_pairs(i, from, n),
    decreases n - from,
{
    if from < n {
        lemma_row_pairs_step(i, from, n);
        lemma_proper_pairs_of_row(i, from, n - 1);
        assert(row_pairs(i, from, n - 1).push((i, n - 1)) =~= row_pairs(i, from, n));
    } else {
        assert(row_pairs(i, from, n) =~= Seq::empty());
    }
}

proof fn lemma_proper_pairs_of_repeats(m: int, n: int)
    ensures
        proper_pairs(pairs_below(m, 0, n)) == pairs_below(m, 1, n),
    decreases m,
{
    if m > 0 {
        let i = m - 1;
        lemma_proper_pairs_of_repeats(i, n);
        lemma_proper_pairs_concat(pairs_below(i, 0, n), row_pairs(i, i, n));
        if i < n {
            lemma_row_pairs_step(i, i, n);
            lemma_proper_pairs_concat(seq![(i, i)], row_pairs(i, i + 1, n));
            lemma_proper_pairs_of_row(i, i + 1, n);
            let single = seq![(i, i)];
            assert(single.drop_last() =~= Seq::empty());
            assert(proper_pairs(single.drop_last()) =~= Seq::empty());
            assert(proper_pairs(single) =~= Seq::empty());
            assert(proper_pairs(row_pairs(i, i, n)) =~= row_pairs(i, i + 1, n));
        } else {
            assert(row_pairs(i, i, n) =~= Seq::empty());
            assert(row_pairs(i, i + 1, n) =~= Seq::empty());
        }
    }
}

/// Where each row of `pairs_below` starts, what stands at each place, and that
/// nothing else does.
pub proof fn lemma_pairs_below(m: int, gap: int, n: int)
    requires
        0 <= m,
        0 <= gap,
    ensures
        forall|k: int|
            0 <= k < pairs_below(m, gap, n).len() ==> {
                let p = #[trigger] pairs_below(m, gap, n)[k];
                &&& 0 <= p.0 < m
                &&& p.0 + gap <= p.1 < n
                &&& k == position_below(p.0, p.1, gap, n)
            },
        forall|i: int, j: int|
            0 <= i < m && i + gap <= j < n ==> {
                let k = #[trigger] position_below(i, j, gap, n);
                &&& 0 <= k < pairs_below(m, gap, n).len()
                &&& pairs_below(m, gap, n)[k] == (i, j)
            },
        forall|i: int|
            0 <= i <= m ==> #[trigger] pairs_below(i, gap, n).len() <= pairs_below(m, gap, n).len(),
    decreases m,
{
    if m > 0 {
        lemma_pairs_below(m - 1, gap, n);
        let before = pairs_below(m - 1, gap, n);
        let row = row_pairs(m - 1, m - 1 + gap, n);
        assert forall|k: int| 0 <= k < pairs_below(m, gap, n).len() implies {
            let p = #[trigger] pairs_below(m, gap, n)[k];
            &&& 0 <= p.0 < m
            &&& p.0 + gap <= p.1 < n
            &&& k == position_below(p.0, p.1, gap, n)
        } by {
            if k < before.len() {
                assert(pairs_below(m, gap, n)[k] == before[k]);
            } else {
                assert(pairs_below(m, gap, n)[k] == row[k - before.len()]);
            }
        }
        assert forall|i: int, j: int| 0 <= i < m && i + gap <= j < n implies {
            let k = #[trigger] position_below(i, j, gap, n);
            &&& 0 <= k < pairs_below(m, gap, n).len()
            &&& pairs_below(m, gap, n)[k] == (i, j)
        } by {
            let k = position_below(i, j, gap, n);
            if i < m - 1 {
                assert(before[k] == (i, j));
                assert(pairs_below(m, gap, n)[k] == before[k]);
            } else {
                assert(row[j - i - gap] == (i, j));
                assert(pairs_below(m, gap, n)[k] == row[k - before.len()]);
            }
        }
    }
}

/// The number of pairs in the first `m` rows of `distinct_pairs(n)`.
pub proof fn lemma_pairs_below_len(m: int, n: int)
    requires
        0 <= m <= n,
    ensures
        2 * pairs_below(m, 1, n).len() == m * (2 * n - m - 1),
    decreases m,
{
    if m > 0 {
        lemma_pairs_below_len(m - 1, n);
        assert(row_pairs(m - 1, m, n).len() == n - m);
        assert((m - 1) * (2 * n - (m - 1) - 1) + 2 * (n - m) == m * (2 * n - m - 1))
            by (nonlinear_arith);
    } else {
        assert(m * (2 * n - m - 1) == 0) by (nonlinear_arith)
            requires
                m == 0,
        ;
    }
}

/// Among `n` documents there are exactly `n * (n - 1) / 2` pairs; each joins
/// two different positions below `n`, the smaller first; no pair occurs twice,
/// in either order; and every two different positions below `n` are joined by
/// one of them.
pub proof fn lemma_distinct_pairs(n: int)
    requires
        0 <= n,
    ensures
        distinct_pairs(n).len() == pair_count(n),
        forall|k: int|
            0 <= k < distinct_pairs(n).len() ==> 0 <= (#[trigger] distinct_pairs(n)[k]).0
                < distinct_pairs(n)[k].1 < n,
        forall|k: int, l: int|
            0 <= k < distinct_pairs(n).len() && 0 <= l < distinct_pairs(n).len() && k != l ==> {
                &&& #[trigger] distinct_pairs(n)[k] != #[trigger] distinct_pairs(n)[l]
                &&& distinct_pairs(n)[k] != (distinct_pairs(n)[l].1, distinct_pairs(n)[l].0)
            },
        distinct_pairs(n).no_duplicates(),
        forall|i: int, j: int|
            0 <= i < n && 0 <= j < n && i != j ==> distinct_pairs(n).contains(
                #[trigger] canonical((i, j)),
            ),
        forall|i: int, j: int|
            0 <= i < j < n ==> 0 <= #[trigger] pair_position(i, j, n) < distinct_pairs(n).len()
                && distinct_pairs(n)[pair_position(i, j, n)] == (i, j),
{
    lemma_pairs_below(n, 1, n);
    lemma_pairs_below_len(n, n);
    assert(n * (2 * n - n - 1) == n * (n - 1)) by (nonlinear_arith);
    let all = distinct_pairs(n);
    assert forall|i: int, j: int| 0 <= i < n && 0 <= j < n && i != j implies all.contains(
        #[trigger] canonical((i, j)),
    ) by {
        let p = canonical((i, j));
        assert(all[pair_position(p.0, p.1, n)] == (p.0, p.1));
    }
    assert forall|i: int, j: int| 0 <= i < j < n implies 0 <= #[trigger] pair_position(i, j, n)
        < all.len() && all[pair_position(i, j, n)] == (i, j) by {
        assert(all[pair_position(i, j, n)] == (i, j));
    }
}

proof fn lemma_first_occurrences_keeps(s: Seq<(int, int)>)
    requires
        s.no_duplicates(),
    ensures
        first_occurrences(s) == s,
    decreases s.len(),
{
    if s.len() > 0 {
        lemma_first_occurrences_keeps(s.drop_last());
        if s.drop_last().contains(s.last()) {
            let k = choose|k: int| 0 <= k < s.drop_last().len() && s.drop_last()[k] == s.last();
            assert(s[k] == s[s.len() - 1]);
        }
        assert(s.drop_last().push(s.last()) =~= s);
    } else {
        assert(s =~= Seq::empty());
    }
}

/// What `first_occurrences` keeps: every entry of `s` once, and nothing else.
pub proof fn lemma_first_occurrences(s: Seq<(int, int)>)
    ensures
        first_occurrences(s).no_duplicates(),
        forall|p: (int, int)| first_occurrences(s).contains(p) <==> s.contains(p),
    decreases s.len(),
{
    if s.len() > 0 {
        let front = s.drop_last();
        let kept = first_occurrences(front);
        lemma_first_occurrences(front);
        assert forall|p: (int, int)| first_occurrences(s).contains(p) <==> s.contains(p) by {
            if s.contains(p) {
                let k = choose|k: int| 0 <= k < s.len() && s[k] == p;
                if k < front.len() {
                    assert(front[k] == p);
                    assert(front.contains(p));
                }
            }
            if front.contains(p) {
                let k = choose|k: int| 0 <= k < front.len() && front[k] == p;
                assert(s[k] == p);
            }
            if !front.contains(s.last()) {
                assert(kept.push(s.last()).last() == s.last());
                if kept.contains(p) {
                    let k = choose|k: int| 0 <= k < kept.len() && kept[k] == p;
                    assert(kept.push(s.last())[k] == p);
                }
                if kept.push(s.last()).contains(p) {
                    let k = choose|k: int|
                        0 <= k < kept.push(s.last()).len() && kept.push(s.last())[k] == p;
                    if k < kept.len() {
                        assert(kept[k] == p);
                    }
                }
            }
            assert(s[s.len() - 1] == s.last());
        }
    }
}

/// What `proper_pairs` keeps: pairs of two different positions, the smaller
/// first.
pub proof fn lemma_proper_pairs(s: Seq<(int, int)>)
    ensures
        forall|k: int|
            0 <= k < proper_pairs(s).len() ==> (#[trigger] proper_pairs(s)[k]).0 < proper_pairs(
                s,
            )[k].1,
        forall|k: int|
            0 <= k < proper_pairs(s).len() ==> exists|l: int|
                0 <= l < s.len() && #[trigger] proper_pairs(s)[k] == canonical(#[trigger] s[l]),
    decreases s.len(),
{
    if s.len() > 0 {
        let front = s.drop_last();
        lemma_proper_pairs(front);
        assert forall|k: int| 0 <= k < proper_pairs(s).len() implies exists|l: int|
            0 <= l < s.len() && #[trigger] proper_pairs(s)[k] == canonical(#[trigger] s[l]) by {
            if k < proper_pairs(front).len() {
                let l = choose|l: int|
                    0 <= l < front.len() && #[trigger] proper_pairs(front)[k] == canonical(
                        #[trigger] front[l],
                    );
                assert(proper_pairs(s)[k] == canonical(s[l]));
            } else {
                assert(proper_pairs(s)[k] == canonical(s[s.len() - 1]));
            }
        }
    }
}

/// Brings a list of pairs into canonical form: each pair gets its smaller
/// position first, a pair of a position with itself is left out, and of the
/// pairs that then are equal only the first stays.
pub fn canonical_pairs(pairs: Vec<(usize, usize)>) -> (kept: Vec<(usize, usize)>)
    ensures
        index_pairs(kept@) == first_occurrences(proper_pairs(index_pairs(pairs@))),
        kept@.no_duplicates(),
        forall|k: int| 0 <= k < kept@.len() ==> (#[trigger] kept@[k]).0 < kept@[k].1,
{
    let mut proper: Vec<(usize, usize)> = Vec::new();
    let mut k: usize = 0;
    while k < pairs.len()
        invariant
            k <= pairs@.len(),
            index_pairs(proper@) == proper_pairs(index_pairs(pairs@).take(k as int)),
        decreases pairs@.len() - k,
    {
        let (a, b) = pairs[k];
        let pair = canonical_pair(a, b);
        proof {
            let seen = index_pairs(pairs@).take(k as int + 1);
            assert(seen.drop_last() =~= index_pairs(pairs@).take(k as int));
            assert(seen.last() == (a as int, b as int));
            assert(index_pairs(proper@.push(pair)) =~= index_pairs(proper@).push(
                (pair.0 as int, pair.1 as int),
            ));
        }
        if pair.0 != pair.1 {
            proper.push(pair);
        }
        k += 1;
    }
    let kept = unique_pairs(proper);
    proof {
        assert(index_pairs(pairs@).take(k as int) =~= index_pairs(pairs@));
        let all = proper_pairs(index_pairs(pairs@));
        let unique = first_occurrences(all);
        lemma_first_occurrences(all);
        lemma_proper_pairs(index_pairs(pairs@));
        assert(index_pairs(kept@).len() == kept@.len());
        assert forall|k: int, l: int|
            0 <= k < kept@.len() && 0 <= l < kept@.len() && k != l implies kept@[k]
            != kept@[l] by {
            assert(index_pairs(kept@)[k] == unique[k]);
            assert(index_pairs(kept@)[l] == unique[l]);
        }
        assert forall|k: int| 0 <= k < kept@.len() implies (#[trigger] kept@[k]).0
            < kept@[k].1 by {
            assert(index_pairs(kept@)[k] == unique[k]);
            assert(unique.contains(unique[k]));
            assert(all.contains(unique[k]));
            let l = choose|l: int| 0 <= l < all.len() && all[l] == unique[k];
            assert(all[l].0 < all[l].1);
        }
    }
    kept
}

/// Enumerates the pairs: every unordered pair of distinct positions below `n`,
/// once, the smaller position first, in lexicographic order.
pub fn enumerate_pairs(n: usize) -> (pairs: Vec<(usize, usize)>)
    requires
        enumerable(n),
    ensures
        index_pairs(pairs@) == distinct_pairs(n as int),
        pairs@.len() == pair_count(n as int),
        forall|k: int| 0 <= k < pairs@.len() ==> (#[trigger] pairs@[k]).0 < pairs@[k].1 < n,
        pairs@.no_duplicates(),
        forall|i: usize, j: usize| i < j < n ==> #[trigger] pairs@.contains((i, j)),
{
    let combos = index_combinations(n);
    proof {
        lemma_proper_pairs_of_repeats(n as int, n as int);
        lemma_distinct_pairs(n as int);
        lemma_first_occurrences_keeps(distinct_pairs(n as int));
    }
    let pairs = canonical_pairs(combos);
    proof {
        let all = distinct_pairs(n as int);
        assert(index_pairs(pairs@).len() == pairs@.len());
        assert forall|k: int| 0 <= k < pairs@.len() implies (#[trigger] pairs@[k]).0 < pairs@[k].1
            < n by {
            assert(index_pairs(pairs@)[k] == all[k]);
        }
        assert forall|i: usize, j: usize| i < j < n implies #[trigger] pairs@.contains((i, j)) by {
            let at = pair_position(i as int, j as int, n as int);
            assert(all[at] == (i as int, j as int));
            assert(index_pairs(pairs@)[at] == all[at]);
            assert(pairs@[at] == (i, j));
        }
    }
    pairs
}

} // verus!
