use pairwise_distance::rank::ScoredPair;
use pairwise_distance::render::{list_blocks, pair_block, render_table, table_lines};
use pairwise_distance::score::Score;

fn strings(texts: &[&str]) -> Vec<String> {
    texts.iter().map(|t| t.to_string()).collect()
}

fn scored(first: usize, second: usize, distance: f64) -> ScoredPair {
    ScoredPair::new(
        first,
        second,
        Score::from_bits(distance.to_bits()),
        distance.to_string(),
    )
    .unwrap()
}

#[test]
fn render_table_draws_borders() {
    let lines = render_table(vec![strings(&["", "0: a"]), strings(&["0: a", "-"])]).unwrap();
    assert_eq!(
        lines,
        strings(&[
            "+======+======+",
            "|      | 0: a |",
            "+======+======+",
            "| 0: a |  -   |",
            "+------+------+",
        ])
    );
}

#[test]
fn render_table_accepts_a_short_row() {
    let lines = render_table(vec![strings(&["a", "b"]), strings(&["c"])]).unwrap();
    assert_eq!(
        lines,
        strings(&["+===+===+", "| a | b |", "+===+===+", "| c |", "+---+---+"])
    );
}

#[test]
fn render_table_refuses_an_empty_table() {
    assert_eq!(render_table(vec![]), None);
}

#[test]
fn render_table_refuses_a_row_longer_than_the_first() {
    assert_eq!(
        render_table(vec![strings(&["a"]), strings(&["b", "c"])]),
        None
    );
    assert_eq!(render_table(vec![vec![], strings(&["b"])]), None);
}

#[test]
fn table_lines_of_two_documents() {
    let lines = table_lines(strings(&["a", "b"]), &vec![scored(0, 1, 1.5)]).unwrap();
    assert_eq!(
        lines,
        strings(&[
            "+======+======+======+",
            "|      | 0: a | 1: b |",
            "+======+======+======+",
            "| 0: a |  -   | 1.5  |",
            "+------+------+------+",
            "| 1: b |  -   |  -   |",
            "+------+------+------+",
        ])
    );
}

#[test]
fn table_lines_need_the_pairs_of_the_enumerator() {
    assert_eq!(table_lines(strings(&["a", "b"]), &vec![]), None);
    assert_eq!(
        table_lines(strings(&["a", "b"]), &vec![scored(0, 1, 1.0), scored(0, 1, 1.0)]),
        None
    );
}

#[test]
fn pair_block_shows_score_and_both_texts() {
    let texts = strings(&["bananas", "good morning"]);
    assert_eq!(
        pair_block(&scored(0, 1, 0.5), &texts),
        Some("0.5: \n* bananas\n* good morning".to_string())
    );
}

#[test]
fn pair_block_needs_both_documents() {
    let texts = strings(&["a", "b"]);
    assert_eq!(pair_block(&scored(0, 2, 0.5), &texts), None);
    assert_eq!(pair_block(&scored(2, 3, 0.5), &texts), None);
}

#[test]
fn list_blocks_are_ranked() {
    let texts = strings(&["bananas", "bananas", "good morning"]);
    let given = vec![scored(0, 2, 1.5), scored(0, 1, 0.0), scored(1, 2, 1.25)];
    assert_eq!(
        list_blocks(&texts, given.clone(), false),
        Some(strings(&[
            "0: \n* bananas\n* bananas",
            "1.25: \n* bananas\n* good morning",
            "1.5: \n* bananas\n* good morning",
        ]))
    );
    assert_eq!(
        list_blocks(&texts, given, true),
        Some(strings(&[
            "1.5: \n* bananas\n* good morning",
            "1.25: \n* bananas\n* good morning",
            "0: \n* bananas\n* bananas",
        ]))
    );
}

#[test]
fn list_blocks_need_every_document() {
    let texts = strings(&["a", "b"]);
    assert_eq!(
        list_blocks(&texts, vec![scored(0, 1, 1.0), scored(1, 2, 0.5)], false),
        None
    );
    assert_eq!(list_blocks(&texts, vec![], false), Some(vec![]));
}
