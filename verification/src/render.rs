//! The two forms of output as lines of text: the bordered table and the
//! ranked list.

use crate::strings::{grid, texts};
use crate::pairs::distinct_pairs;
use crate::rank::{rank, ranking, scored_indices, ScoredPair};
use crate::table::{distance_grid, distance_table, lemma_distance_grid, renderings};
use pretty_table::table::generate_table_string_vec;
use vstd::prelude::*;
use vstd::string::*;

verus! {

/// The lines in which `pretty_table` draws a table given as rows of cells.
pub uninterp spec fn table_text(cells: Seq<Seq<Seq<char>>>) -> Seq<Seq<char>>;

/// Whether a table can be drawn: it has a first row, which sets the number of
/// columns, and no row has more cells than the first.
pub open spec fn drawable(cells: Seq<Seq<Seq<char>>>) -> bool {
    &&& cells.len() > 0
    &&& forall|r: int| 0 <= r < cells.len() ==> (#[trigger] cells[r]).len() <= cells[0].len()
}

/// `pretty_table::table::generate_table_string_vec` with no options, the
/// function behind that crate's printing macro. Trusted: on a table with a
/// first row and no row longer than the first it returns, and what it returns
/// is a function of the cells alone; it is named `table_text`.
#[verifier::external_body]
fn draw_table(table: Vec<Vec<String>>) -> (lines: Vec<String>)
    requires
        drawable(grid(table@)),
    ensures
        texts(lines@) == table_text(grid(table@)),
{
    generate_table_string_vec(table, None)
}

/// Draws a table, or nothing where the table cannot be drawn.
pub fn render_table(table: Vec<Vec<String>>) -> (lines: Option<Vec<String>>)
    ensures
        lines.is_some() <==> drawable(grid(table@)),
        lines matches Some(l) ==> texts(l@) == table_text(grid(table@)),
{
    if table.len() == 0 {
        return None;
    }
    let width = table[0].len();
    let mut r: usize = 1;
    while r < table.len()
        invariant
            1 <= r <= table@.len(),
            width == table@[0]@.len(),
            forall|q: int| 0 <= q < r ==> (#[trigger] grid(table@)[q]).len() <= width,
        decreases table@.len() - r,
    {
        if table[r].len() > width {
            assert(grid(table@)[r as int].len() > grid(table@)[0].len());
            return None;
        }
        r += 1;
    }
    Some(draw_table(table))
}

/// The distance table of the documents, drawn. A distance table can always
/// be drawn, so the lines are there whenever the table is: whenever the pairs
/// are those that `enumerate_pairs` gives for the documents, in its order.
pub fn table_lines(input_strings: Vec<String>, scored: &Vec<ScoredPair>) -> (lines: Option<
    Vec<String>,
>)
    ensures
        lines.is_some() <==> scored_indices(scored@) == distinct_pairs(
            input_strings@.len() as int,
        ),
        lines matches Some(l) ==> texts(l@) == table_text(
            distance_grid(texts(input_strings@), renderings(scored@)),
        ),
{
    proof {
        lemma_distance_grid(texts(input_strings@), renderings(scored@));
    }
    match distance_table(input_strings, scored) {
        Some(table) => render_table(table),
        None => None,
    }
}

/// How one scored pair is printed in the ranked list: the score, a colon and
/// a space, then on a line each, after an asterisk, the texts of the two
/// documents.
pub open spec fn block_text(score: Seq<char>, first: Seq<char>, second: Seq<char>) -> Seq<char> {
    score + seq![':', ' ', '\n', '*', ' '] + first + seq!['\n', '*', ' '] + second
}

/// Whether both documents of every pair are among the first `n`.
pub open spec fn within(s: Seq<ScoredPair>, n: int) -> bool {
    forall|k: int| 0 <= k < s.len() ==> (#[trigger] s[k]).first < n && s[k].second < n
}

/// The printed form of one scored pair, or nothing where one of its documents
/// is not among the given ones.
pub fn pair_block(pair: &ScoredPair, input_strings: &Vec<String>) -> (block: Option<String>)
    ensures
        block.is_some() <==> pair.first < input_strings@.len() && pair.second
            < input_strings@.len(),
        block matches Some(b) ==> b@ == block_text(
            pair.rendered@,
            input_strings@[pair.first as int]@,
            input_strings@[pair.second as int]@,
        ),
{
    if pair.first >= input_strings.len() || pair.second >= input_strings.len() {
        return None;
    }
    let mut block = pair.rendered.clone();
    block.append(": \n* ");
    block.append(input_strings[pair.first].as_str());
    block.append("\n* ");
    block.append(input_strings[pair.second].as_str());
    proof {
        reveal_strlit(": \n* ");
        reveal_strlit("\n* ");
        assert(block@ =~= block_text(
            pair.rendered@,
            input_strings@[pair.first as int]@,
            input_strings@[pair.second as int]@,
        ));
    }
    Some(block)
}

/// The ranked list: the pairs from the most similar to the least, each in
/// its printed form; or nothing where a pair names a document that is not
/// among the given ones.
pub fn list_blocks(
    input_strings: &Vec<String>,
    scored: Vec<ScoredPair>,
    higher_is_better: bool,
) -> (blocks: Option<Vec<String>>)
    ensures
        blocks.is_some() <==> within(scored@, input_strings@.len() as int),
        blocks matches Some(b) ==> {
            &&& b@.len() == scored@.len()
            &&& forall|k: int|
                0 <= k < b@.len() ==> {
                    let pair = ranking(scored@, higher_is_better)[k];
                    (#[trigger] b@[k])@ == block_text(
                        pair.rendered@,
                        input_strings@[pair.first as int]@,
                        input_strings@[pair.second as int]@,
                    )
                }
        },
{
    let ghost given = scored@;
    let ranked = rank(scored, higher_is_better);
    let mut blocks: Vec<String> = Vec::new();
    let mut k: usize = 0;
    while k < ranked.len()
        invariant
            k <= ranked@.len() == given.len(),
            given == scored@,
            ranked@ == ranking(given, higher_is_better),
            ranked@.to_multiset() == given.to_multiset(),
            blocks@.len() == k,
            within(ranked@.take(k as int), input_strings@.len() as int),
            forall|m: int|
                0 <= m < k ==> (#[trigger] blocks@[m])@ == block_text(
                    ranked@[m].rendered@,
                    input_strings@[ranked@[m].first as int]@,
                    input_strings@[ranked@[m].second as int]@,
                ),
        decreases ranked@.len() - k,
    {
        let ghost earlier = blocks@;
        match pair_block(&ranked[k], input_strings) {
            Some(block) => {
                blocks.push(block);
            },
            None => {
                proof {
                    ranked@.to_multiset_ensures();
                    given.to_multiset_ensures();
                    let missing = ranked@[k as int];
                    assert(ranked@.contains(missing));
                    assert(ranked@.to_multiset().count(missing) > 0);
                    assert(given.to_multiset().count(missing) > 0);
                    assert(given.contains(missing));
                    let at = choose|at: int| 0 <= at < given.len() && given[at] == missing;
                    assert(!(given[at].first < input_strings@.len() && given[at].second
                        < input_strings@.len()));
                }
                return None;
            },
        }
        assert forall|m: int| 0 <= m < k + 1 implies (#[trigger] blocks@[m])@ == block_text(
            ranked@[m].rendered@,
            input_strings@[ranked@[m].first as int]@,
            input_strings@[ranked@[m].second as int]@,
        ) by {
            if m < k {
                assert(blocks@[m] == earlier[m]);
            }
        }
        assert forall|m: int| 0 <= m < k + 1 implies (#[trigger] ranked@.take(k + 1)[m]).first
            < input_strings@.len() && ranked@.take(k + 1)[m].second < input_strings@.len() by {
            if m < k {
                assert(ranked@.take(k as int)[m] == ranked@[m]);
            }
        }
        k += 1;
    }
    proof {
        assert(ranked@.take(k as int) =~= ranked@);
        assert forall|m: int| 0 <= m < given.len() implies (#[trigger] given[m]).first
            < input_strings@.len() && given[m].second < input_strings@.len() by {
            ranked@.to_multiset_ensures();
            given.to_multiset_ensures();
            assert(given.contains(given[m]));
            assert(given.to_multiset().count(given[m]) > 0);
            assert(ranked@.to_multiset().count(given[m]) > 0);
            assert(ranked@.contains(given[m]));
        }
    }
    Some(blocks)
}

} // verus!
