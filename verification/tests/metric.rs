use pairwise_distance::metric::{DistanceMetric, Provider};

#[test]
fn metric_names() {
    assert_eq!(DistanceMetric::Cosine.name(), "cosine");
    assert_eq!(DistanceMetric::L2.name(), "l2");
    assert_eq!(DistanceMetric::Dot.name(), "dot");
    assert_eq!(DistanceMetric::Manhattan.name(), "manhattan");
}

#[test]
fn similarities_rank_high_and_distances_low() {
    assert!(DistanceMetric::Cosine.higher_is_better());
    assert!(DistanceMetric::Dot.higher_is_better());
    assert!(!DistanceMetric::L2.higher_is_better());
    assert!(!DistanceMetric::Manhattan.higher_is_better());
}

#[test]
fn provider_names() {
    assert_eq!(Provider::Openai.name(), "openai");
    assert_eq!(Provider::Cohere.name(), "cohere");
}

#[test]
fn provider_credential_variables() {
    assert_eq!(Provider::Openai.credential_variable(), "OPENAI_API_KEY");
    assert_eq!(Provider::Cohere.credential_variable(), "COHERE_API_HERE");
}

fn bits(value: f64) -> pairwise_distance::score::Score {
    pairwise_distance::score::Score::from_bits(value.to_bits())
}

#[test]
fn a_vector_is_closest_to_itself() {
    let vectors = [vec![3.0, 4.0], vec![1.0, 0.0], vec![-2.0, 0.0], vec![0.0, 8.0]];
    for v in &vectors {
        assert_eq!(semanticsimilarity_rs::cosine_similarity(v, v, false), 1.0);
        assert_eq!(semanticsimilarity_rs::euclidean_distance(v, v), 0.0);
        assert_eq!(semanticsimilarity_rs::manhattan_distance(v, v), 0.0);
    }
}

#[test]
fn metrics_are_symmetric() {
    let vectors = [vec![3.0, 4.0], vec![1.0, 0.5], vec![-2.0, 0.25], vec![0.0, 8.0]];
    for a in &vectors {
        for b in &vectors {
            assert_eq!(
                bits(semanticsimilarity_rs::cosine_similarity(a, b, false)),
                bits(semanticsimilarity_rs::cosine_similarity(b, a, false))
            );
            assert_eq!(
                bits(semanticsimilarity_rs::euclidean_distance(a, b)),
                bits(semanticsimilarity_rs::euclidean_distance(b, a))
            );
            assert_eq!(
                bits(semanticsimilarity_rs::dot_product_distance(a, b)),
                bits(semanticsimilarity_rs::dot_product_distance(b, a))
            );
            assert_eq!(
                bits(semanticsimilarity_rs::manhattan_distance(a, b)),
                bits(semanticsimilarity_rs::manhattan_distance(b, a))
            );
        }
    }
}

#[test]
fn metric_values() {
    let a = vec![1.0, 0.0];
    let b = vec![0.0, 1.0];
    let c = vec![3.0, 4.0];
    assert_eq!(semanticsimilarity_rs::euclidean_distance(&a, &b), 2.0_f64.sqrt());
    assert_eq!(semanticsimilarity_rs::euclidean_distance(&a, &c), 20.0_f64.sqrt());
    assert_eq!(semanticsimilarity_rs::manhattan_distance(&a, &c), 6.0);
    assert_eq!(semanticsimilarity_rs::dot_product_distance(&b, &c), 4.0);
    assert_eq!(semanticsimilarity_rs::cosine_similarity(&a, &c, false), 0.6);
    assert_eq!(semanticsimilarity_rs::cosine_similarity(&a, &b, false), 0.0);
}
