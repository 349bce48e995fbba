use pairwise_distance::rank::{rank, ScoredPair};
use pairwise_distance::score::{Score, SIGN_BIT};
use semanticsimilarity_rs::{cosine_similarity, euclidean_distance};

fn scored(first: usize, second: usize, distance: f64) -> ScoredPair {
    ScoredPair::new(
        first,
        second,
        Score::from_bits(distance.to_bits()),
        distance.to_string(),
    )
    .unwrap()
}

fn positions(pairs: &[ScoredPair]) -> Vec<(usize, usize)> {
    pairs.iter().map(|p| (p.first, p.second)).collect()
}

fn values(pairs: &[ScoredPair]) -> Vec<f64> {
    pairs.iter().map(|p| f64::from_bits(p.distance.bits)).collect()
}

#[test]
fn key_of_zero_patterns() {
    assert_eq!(Score::from_bits(0).key(), 0);
    assert_eq!(Score::from_bits(SIGN_BIT).key(), -1);
    assert_eq!(Score::from_bits(1).key(), 1);
    assert_eq!(Score::from_bits(SIGN_BIT + 1).key(), -2);
    assert_eq!(Score::from_bits(SIGN_BIT - 1).key(), i64::MAX);
    assert_eq!(Score::from_bits(u64::MAX).key(), i64::MIN);
}

#[test]
fn key_orders_as_the_numbers_do() {
    let numbers = [
        f64::NEG_INFINITY,
        -1.0e300,
        -2.5,
        -1.0,
        -1.0e-300,
        -0.0,
        0.0,
        1.0e-300,
        0.5,
        1.0,
        2.0_f64.sqrt(),
        1.0e300,
        f64::INFINITY,
    ];
    for pair in numbers.windows(2) {
        let low = Score::from_bits(pair[0].to_bits());
        let high = Score::from_bits(pair[1].to_bits());
        assert!(low.key() < high.key());
        assert!(low.is_ahead_of(&high, false));
        assert!(high.is_ahead_of(&low, true));
        assert!(!low.is_ahead_of(&high, true));
        assert!(!high.is_ahead_of(&low, false));
        assert!(!low.is_ahead_of(&low, true));
        assert!(!low.is_ahead_of(&low, false));
    }
}

#[test]
fn new_puts_the_earlier_document_first() {
    let pair = ScoredPair::new(4, 1, Score::from_bits(7), "x".to_string()).unwrap();
    assert_eq!(pair.first, 1);
    assert_eq!(pair.second, 4);
    assert_eq!(pair.distance, Score { bits: 7 });
    assert_eq!(pair.rendered, "x");
}

#[test]
fn new_refuses_a_self_pair() {
    assert_eq!(ScoredPair::new(3, 3, Score::from_bits(0), "0".to_string()), None);
}

#[test]
fn lower_is_better_ranks_ascending() {
    let ranked = rank(
        vec![
            scored(0, 1, 3.0),
            scored(0, 2, 1.0),
            scored(1, 2, 2.0),
            scored(0, 3, 0.5),
        ],
        false,
    );
    assert_eq!(values(&ranked), vec![0.5, 1.0, 2.0, 3.0]);
    assert_eq!(positions(&ranked), vec![(0, 3), (0, 2), (1, 2), (0, 1)]);
}

#[test]
fn higher_is_better_ranks_descending() {
    let ranked = rank(
        vec![
            scored(0, 1, 0.25),
            scored(0, 2, -0.5),
            scored(1, 2, 0.75),
            scored(0, 3, 0.0),
        ],
        true,
    );
    assert_eq!(values(&ranked), vec![0.75, 0.25, 0.0, -0.5]);
    assert_eq!(positions(&ranked), vec![(1, 2), (0, 1), (0, 3), (0, 2)]);
}

#[test]
fn equal_scores_keep_their_order() {
    let given = vec![
        scored(0, 1, 1.0),
        scored(0, 2, 0.0),
        scored(1, 2, 1.0),
        scored(0, 3, 0.0),
        scored(1, 3, 1.0),
    ];
    let ascending = rank(given.clone(), false);
    assert_eq!(
        positions(&ascending),
        vec![(0, 2), (0, 3), (0, 1), (1, 2), (1, 3)]
    );
    let descending = rank(given, true);
    assert_eq!(
        positions(&descending),
        vec![(0, 1), (1, 2), (1, 3), (0, 2), (0, 3)]
    );
}

#[test]
fn ranking_keeps_every_pair() {
    let given = vec![
        scored(2, 3, 9.0),
        scored(0, 1, 4.0),
        scored(1, 3, 4.0),
        scored(0, 2, 6.5),
    ];
    let ranked = rank(given.clone(), false);
    assert_eq!(ranked.len(), given.len());
    for pair in &given {
        assert_eq!(
            ranked.iter().filter(|p| *p == pair).count(),
            given.iter().filter(|p| *p == pair).count()
        );
    }
}

#[test]
fn ranking_nothing_gives_nothing() {
    assert_eq!(rank(vec![], true), vec![]);
    assert_eq!(rank(vec![], false), vec![]);
}

#[test]
fn ranking_twice_changes_nothing() {
    let given = vec![
        scored(0, 1, 0.3),
        scored(0, 2, 0.9),
        scored(1, 2, 0.3),
        scored(0, 3, -0.1),
        scored(1, 3, 0.9),
    ];
    for higher_is_better in [true, false] {
        let once = rank(given.clone(), higher_is_better);
        let twice = rank(once.clone(), higher_is_better);
        assert_eq!(once, twice);
        let again = rank(given.clone(), higher_is_better);
        assert_eq!(once, again);
    }
}

#[test]
fn bananas_rank_before_good_morning() {
    let texts = ["bananas", "bananas", "good morning"];
    let vectors = [vec![1.0, 0.0], vec![1.0, 0.0], vec![0.0, 1.0]];
    let pairs = pairwise_distance::pairs::enumerate_pairs(texts.len());
    let scored_pairs: Vec<ScoredPair> = pairs
        .iter()
        .map(|&(i, j)| scored(i, j, euclidean_distance(&vectors[i], &vectors[j])))
        .collect();
    let ranked = rank(scored_pairs, false);
    assert_eq!(positions(&ranked), vec![(0, 1), (0, 2), (1, 2)]);
    assert_eq!(values(&ranked), vec![0.0, 2.0_f64.sqrt(), 2.0_f64.sqrt()]);
    assert_eq!(texts[ranked[0].first], "bananas");
    assert_eq!(texts[ranked[0].second], "bananas");
    assert_eq!(texts[ranked[1].second], "good morning");
    assert_eq!(texts[ranked[2].second], "good morning");
}

#[test]
fn cosine_ranks_the_identical_pair_first() {
    let vectors = [vec![1.0, 0.0], vec![0.0, 1.0], vec![1.0, 0.0]];
    let pairs = pairwise_distance::pairs::enumerate_pairs(vectors.len());
    let scored_pairs: Vec<ScoredPair> = pairs
        .iter()
        .map(|&(i, j)| scored(i, j, cosine_similarity(&vectors[i], &vectors[j], false)))
        .collect();
    let ranked = rank(scored_pairs, true);
    assert_eq!(positions(&ranked), vec![(0, 2), (0, 1), (1, 2)]);
    assert_eq!(values(&ranked), vec![1.0, 0.0, 0.0]);
}
