//! Scored pairs laid out as a distance table.

use crate::frame::{absent, header_line, DataFrame};
use crate::strings::{copy_texts, grid, texts};
use crate::header::header_text;
use crate::pairs::{
    distinct_pairs, lemma_pairs_below, pair_position, pairs_below, position_below, row_pairs,
};
use crate::rank::{scored_indices, ScoredPair};
use vstd::prelude::*;

verus! {

/// The scores of a list of scored pairs as they are printed.
pub open spec fn renderings(s: Seq<ScoredPair>) -> Seq<Seq<char>> {
    s.map_values(|p: ScoredPair| p.rendered@)
}

/// The first `width` cells of the row of document `r` among `n` documents:
/// its label; an absent marker under each document up to `r` itself; and
/// under each later document the distance between the two, taken from
/// `cells`, which holds the distances in the order of `distinct_pairs(n)`.
pub open spec fn scored_row(
    r: int,
    width: int,
    label: Seq<char>,
    cells: Seq<Seq<char>>,
    n: int,
) -> Seq<Seq<char>> {
    Seq::new(
        width as nat,
        |c: int|
            if c == 0 {
                label
            } else if c <= r + 1 {
                absent()
            } else {
                cells[pair_position(r, c - 1, n)]
            },
    )
}

/// The distance table of the documents with texts `labels`, where `cells`
/// holds the distances in the order of `distinct_pairs`. The table has a row
/// and a column more than there are documents. Row 0 is the header row. Row
/// `r + 1` belongs to document `r`: only the cells to the right of the
/// diagonal hold a distance.
pub open spec fn distance_grid(labels: Seq<Seq<char>>, cells: Seq<Seq<char>>) -> Seq<
    Seq<Seq<char>>,
> {
    let n = labels.len() as int;
    seq![header_line(labels)] + Seq::new(
        labels.len(),
        |r: int| scored_row(r, n + 1, header_text(r as nat, labels[r]), cells, n),
    )
}

/// The table cell by cell.
pub proof fn lemma_distance_grid(labels: Seq<Seq<char>>, cells: Seq<Seq<char>>)
    ensures
        distance_grid(labels, cells).len() == labels.len() + 1,
        forall|r: int|
            0 <= r <= labels.len() ==> (#[trigger] distance_grid(labels, cells)[r]).len()
                == labels.len() + 1,
        distance_grid(labels, cells)[0][0] == Seq::<char>::empty(),
        forall|c: int|
            0 <= c < labels.len() ==> {
                &&& #[trigger] distance_grid(labels, cells)[0][c + 1] == header_text(
                    c as nat,
                    labels[c],
                )
                &&& #[trigger] distance_grid(labels, cells)[c + 1][0] == header_text(
                    c as nat,
                    labels[c],
                )
            },
        forall|r: int, c: int|
            0 <= r < labels.len() && 0 <= c < labels.len() ==> #[trigger] distance_grid(
                labels,
                cells,
            )[r + 1][c + 1] == if r < c {
                cells[pair_position(r, c, labels.len() as int)]
            } else {
                absent()
            },
{
}

spec fn rows_so_far(
    rows: Seq<Seq<Seq<char>>>,
    i: int,
    skip: int,
    labels: Seq<Seq<char>>,
    cells: Seq<Seq<char>>,
) -> bool {
    let n = labels.len() as int;
    forall|r: int|
        0 <= r < n && r != skip ==> #[trigger] rows[r] == if r < i && r + 1 < n {
            scored_row(r, n + 1, header_text(r as nat, labels[r]), cells, n)
        } else {
            Seq::empty()
        }
}

/// Lays the scored pairs out as a table with a header row and a header
/// column. The pairs must be those that `enumerate_pairs` gives for the given
/// documents, in its order; for any other list there is no table.
pub fn distance_table(input_strings: Vec<String>, scored: &Vec<ScoredPair>) -> (table: Option<
    Vec<Vec<String>>,
>)
    ensures
        table.is_some() <==> scored_indices(scored@) == distinct_pairs(
            input_strings@.len() as int,
        ),
        table matches Some(t) ==> grid(t@) == distance_grid(
            texts(input_strings@),
            renderings(scored@),
        ),
{
    let n = input_strings.len();
    let ghost labels = texts(input_strings@);
    let ghost cells = renderings(scored@);
    let ghost all = distinct_pairs(n as int);
    let ghost given = scored_indices(scored@);
    let mut frame = DataFrame::set_headers(copy_texts(&input_strings));
    proof {
        lemma_pairs_below(n as int, 1, n as int);
    }
    let mut k: usize = 0;
    let mut i: usize = 0;
    while i < n
        invariant
            i <= n == labels.len(),
            labels == texts(input_strings@),
            cells == renderings(scored@),
            all == distinct_pairs(n as int),
            given == scored_indices(scored@),
            frame.wf(),
            frame.header_row() == header_line(labels),
            frame.rows().len() == n,
            k == pairs_below(i as int, 1, n as int).len(),
            k <= scored@.len(),
            forall|m: int| 0 <= m < k ==> given[m] == all[m],
            rows_so_far(frame.rows(), i as int, -1, labels, cells),
        ensures
            i == n,
            k == all.len(),
            k <= scored@.len(),
            frame.wf(),
            frame.header_row() == header_line(labels),
            frame.rows().len() == n,
            forall|m: int| 0 <= m < k ==> given[m] == all[m],
            rows_so_far(frame.rows(), n as int, -1, labels, cells),
        decreases n - i,
    {
        let ghost label = header_text(i as nat, labels[i as int]);
        let mut j: usize = i + 1;
        proof {
            lemma_pairs_below(n as int, 1, n as int);
        }
        while j < n
            invariant
                i < j <= n == labels.len(),
                labels == texts(input_strings@),
                cells == renderings(scored@),
                all == distinct_pairs(n as int),
                given == scored_indices(scored@),
                label == header_text(i as nat, labels[i as int]),
                frame.wf(),
                frame.header_row() == header_line(labels),
                frame.rows().len() == n,
                k == position_below(i as int, j as int, 1, n as int),
                k <= scored@.len(),
                forall|m: int| 0 <= m < k ==> given[m] == all[m],
                rows_so_far(frame.rows(), i as int, i as int, labels, cells),
                frame.rows()[i as int] == if j == i + 1 {
                    Seq::<Seq<char>>::empty()
                } else {
                    scored_row(i as int, j + 1, label, cells, n as int)
                },
                forall|a: int, b: int|
                    0 <= a < b < n ==> {
                        let at = #[trigger] position_below(a, b, 1, n as int);
                        0 <= at < all.len() && all[at] == (a, b)
                    },
            decreases n - j,
        {
            assert(k < all.len() && all[k as int] == (i as int, j as int));
            if k >= scored.len() {
                return None;
            }
            let pair = &scored[k];
            assert(given[k as int] == (pair.first as int, pair.second as int));
            if pair.first != i || pair.second != j {
                return None;
            }
            let ghost rows_before = frame.rows();
            frame.add_row_header(&i, input_strings[i].as_str());
            frame.add_row_distances(&i, &j, pair.rendered.clone());
            proof {
                assert(cells[k as int] == pair.rendered@);
                assert(k == pair_position(i as int, j as int, n as int));
                assert(frame.rows()[i as int] =~= scored_row(
                    i as int,
                    j + 2,
                    label,
                    cells,
                    n as int,
                ));
                assert forall|r: int| 0 <= r < n && r != i implies #[trigger] frame.rows()[r]
                    == rows_before[r] by {}
            }
            k += 1;
            j += 1;
        }
        proof {
            assert(row_pairs(i as int, i + 1, n as int).len() == n - i - 1);
            assert(k == pairs_below(i + 1, 1, n as int).len());
            assert forall|r: int| 0 <= r < n implies #[trigger] frame.rows()[r] == if r < i + 1 && r
                + 1 < n {
                scored_row(r, n + 1, header_text(r as nat, labels[r]), cells, n as int)
            } else {
                Seq::empty()
            } by {}
        }
        i += 1;
    }
    if k != scored.len() {
        return None;
    }
    assert(given =~= all);
    let ghost rows_before = frame.rows();
    frame.fill_absent();
    let table = frame.as_dataframe();
    proof {
        let wanted = distance_grid(labels, cells);
        assert forall|r: int| 0 <= r < n implies #[trigger] frame.rows()[r] == wanted[r + 1] by {
            assert(header_line(labels)[r + 1] == header_text(r as nat, labels[r]));
            if r + 1 < n {
                assert(rows_before[r] == scored_row(
                    r,
                    n + 1,
                    header_text(r as nat, labels[r]),
                    cells,
                    n as int,
                ));
            } else {
                assert(rows_before[r] == Seq::<Seq<char>>::empty());
            }
            assert(frame.rows()[r] =~= wanted[r + 1]);
        }
        assert(grid(table@) =~= wanted);
    }
    Some(table)
}

} // verus!
