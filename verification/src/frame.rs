//! The distance table and the frame it is built in.

use crate::header::{format_header, header_text};
use crate::strings::{copy_texts, grid, texts};
use vstd::prelude::*;
use vstd::string::*;

verus! {

/// What a cell shows for which no distance was computed.
pub const EMPTY: &'static str = "-";

/// The text of the absent marker.
pub open spec fn absent() -> Seq<char> {
    seq!['-']
}

/// The header row over the given document texts: an empty corner cell, then
/// the label of each document.
pub open spec fn header_line(labels: Seq<Seq<char>>) -> Seq<Seq<char>> {
    Seq::new(
        labels.len() + 1,
        |c: int|
            if c == 0 {
                Seq::empty()
            } else {
                header_text((c - 1) as nat, labels[c - 1])
            },
    )
}

/// A row grown with absent markers until it has `width` cells; a row that has
/// that many already is left as it is.
pub open spec fn padded(row: Seq<Seq<char>>, width: int) -> Seq<Seq<char>> {
    row + Seq::new(
        if row.len() < width {
            (width - row.len()) as nat
        } else {
            0
        },
        |c: int| absent(),
    )
}

/// A row made ready for display: an empty row first gets its label, then the
/// row is padded to `width` cells.
pub open spec fn completed(row: Seq<Seq<char>>, label: Seq<char>, width: int) -> Seq<Seq<char>> {
    padded(
        if row.len() == 0 {
            seq![label]
        } else {
            row
        },
        width,
    )
}

/// A table under construction: the header row, and one data row for each
/// document, filled from the left.
#[derive(Clone, Debug)]
pub struct DataFrame {
    headers: Vec<String>,
    data: Vec<Vec<String>>,
}

impl DataFrame {
    /// The texts of the header row.
    pub closed spec fn header_row(&self) -> Seq<Seq<char>> {
        texts(self.headers@)
    }

    /// The texts of the data rows.
    pub closed spec fn rows(&self) -> Seq<Seq<Seq<char>>> {
        grid(self.data@)
    }

    /// There is a header for the corner and one for each data row.
    pub open spec fn wf(&self) -> bool {
        self.header_row().len() == self.rows().len() + 1
    }

    /// A frame for the given documents: the header row holds an empty corner
    /// cell and the label of each document; there is one data row for each
    /// document, and it is empty.
    pub fn set_headers(input_strings: Vec<String>) -> (frame: Self)
        ensures
            frame.wf(),
            frame.header_row() == header_line(texts(input_strings@)),
            frame.rows() == Seq::new(input_strings@.len(), |r: int| Seq::<Seq<char>>::empty()),
    {
        let mut headers: Vec<String> = Vec::new();
        headers.push(String::new());
        let mut data: Vec<Vec<String>> = Vec::new();
        let mut i: usize = 0;
        while i < input_strings.len()
            invariant
                i <= input_strings@.len(),
                headers@.len() == i + 1,
                data@.len() == i,
                texts(headers@) == header_line(texts(input_strings@)).take(i as int + 1),
                grid(data@) == Seq::new(i as nat, |r: int| Seq::<Seq<char>>::empty()),
            decreases input_strings@.len() - i,
        {
            let ghost labels = headers@;
            let ghost started = data@;
            headers.push(format_header(i, input_strings[i].as_str()));
            data.push(Vec::new());
            proof {
                assert(texts(headers@) =~= texts(labels).push(
                    header_text(i as nat, input_strings@[i as int]@),
                ));
                assert(texts(Seq::<String>::empty()) =~= Seq::empty());
                assert(grid(data@) =~= grid(started).push(Seq::empty()));
                assert(texts(headers@) =~= header_line(texts(input_strings@)).take(i as int + 2));
                assert(grid(data@) =~= Seq::new((i + 1) as nat, |r: int| Seq::<Seq<char>>::empty()));
            }
            i += 1;
        }
        proof {
            let line = header_line(texts(input_strings@));
            assert(line.take(i as int + 1) =~= line);
        }
        DataFrame { headers, data }
    }

    /// The data row of the document at position `i`, to be changed in place.
    pub fn get_row(&mut self, i: &usize) -> (row: &mut Vec<String>)
        requires
            *i < old(self).rows().len(),
        ensures
            texts(row@) == old(self).rows()[*i as int],
            final(self).rows() == old(self).rows().update(*i as int, texts(final(row)@)),
            final(self).header_row() == old(self).header_row(),
    {
        &mut self.data[*i]
    }

    /// Starts the row of the document at position `i` with its label, unless
    /// the row has been started already.
    pub fn add_row_header(&mut self, i: &usize, string: &str)
        requires
            *i < old(self).rows().len(),
        ensures
            final(self).header_row() == old(self).header_row(),
            final(self).rows() == if old(self).rows()[*i as int].len() == 0 {
                old(self).rows().update(*i as int, seq![header_text(*i as nat, string@)])
            } else {
                old(self).rows()
            },
    {
        let row_i = self.get_row(i);
        if row_i.is_empty() {
            row_i.push(format_header(*i, string));
            assert(texts(row_i@) =~= seq![header_text(*i as nat, string@)]);
        }
        assert(final(self).rows() =~= old(self).rows().update(*i as int, texts(row_i@)));
    }

    /// Puts a distance, already rendered, at the end of the row of the
    /// document at position `i`. Where the row has fewer than `j + 1` cells it
    /// is first padded to that width with absent markers, so that in a row
    /// filled by rising `j` the distance to document `j` comes to stand under
    /// the label of document `j`.
    pub fn add_row_distances(&mut self, i: &usize, j: &usize, distance: String)
        requires
            *i < old(self).rows().len(),
            *j < usize::MAX,
        ensures
            final(self).header_row() == old(self).header_row(),
            final(self).rows() == old(self).rows().update(
                *i as int,
                padded(old(self).rows()[*i as int], *j + 1).push(distance@),
            ),
    {
        let ghost before = self.rows()[*i as int];
        let row_i = self.get_row(i);
        while row_i.len() < *j + 1
            invariant
                *j < usize::MAX,
                before.len() <= row_i@.len(),
                texts(row_i@) == before + Seq::new(
                    (row_i@.len() - before.len()) as nat,
                    |c: int| absent(),
                ),
                row_i@.len() > before.len() ==> row_i@.len() <= *j + 1,
            decreases *j + 1 - row_i@.len(),
        {
            proof {
                reveal_strlit("-");
            }
            let ghost shorter = row_i@;
            row_i.push(String::from_str(EMPTY));
            assert(texts(row_i@) =~= before + Seq::new(
                (row_i@.len() - before.len()) as nat,
                |c: int| absent(),
            )) by {
                assert(EMPTY@ =~= absent());
                assert(texts(row_i@) =~= texts(shorter).push(absent()));
            }
        }
        assert(texts(row_i@) =~= padded(before, *j + 1));
        let ghost full = row_i@;
        row_i.push(distance);
        assert(texts(row_i@) =~= texts(full).push(distance@));
    }

    /// Makes every row ready for display: a row that was never started gets
    /// its label from the header row, and every row shorter than the header
    /// row is padded to its width with absent markers.
    pub fn fill_absent(&mut self)
        requires
            old(self).wf(),
        ensures
            final(self).wf(),
            final(self).header_row() == old(self).header_row(),
            final(self).rows() == Seq::new(
                old(self).rows().len(),
                |r: int|
                    completed(
                        old(self).rows()[r],
                        old(self).header_row()[r + 1],
                        old(self).header_row().len() as int,
                    ),
            ),
    {
        let width = self.headers.len();
        let mut r: usize = 0;
        while r < self.data.len()
            invariant
                r <= self.data@.len() == old(self).data@.len(),
                self.headers == old(self).headers,
                width == self.headers@.len() == self.data@.len() + 1,
                forall|q: int|
                    0 <= q < r ==> #[trigger] self.rows()[q] == completed(
                        old(self).rows()[q],
                        old(self).header_row()[q + 1],
                        width as int,
                    ),
                forall|q: int| r <= q < self.data@.len() ==> self.data@[q] == old(self).data@[q],
            decreases self.data@.len() - r,
        {
            let ghost rows_before = self.rows();
            let ghost start = rows_before[r as int];
            let ghost frame = self.data@;
            assert(start == old(self).rows()[r as int]);
            let label = self.headers[r + 1].clone();
            let row = &mut self.data[r];
            if row.is_empty() {
                row.push(label);
            }
            assert(texts(row@) =~= if start.len() == 0 {
                seq![old(self).header_row()[r + 1]]
            } else {
                start
            });
            let ghost begun = texts(row@);
            while row.len() < width
                invariant
                    begun.len() <= row@.len(),
                    texts(row@) == begun + Seq::new(
                        (row@.len() - begun.len()) as nat,
                        |c: int| absent(),
                    ),
                    row@.len() > begun.len() ==> row@.len() <= width,
                decreases width - row@.len(),
            {
                proof {
                    reveal_strlit("-");
                }
                let ghost shorter = row@;
                row.push(String::from_str(EMPTY));
                assert(texts(row@) =~= begun + Seq::new(
                    (row@.len() - begun.len()) as nat,
                    |c: int| absent(),
                )) by {
                    assert(EMPTY@ =~= absent());
                    assert(texts(row@) =~= texts(shorter).push(absent()));
                }
            }
            assert(texts(row@) =~= padded(begun, width as int));
            proof {
                assert(self.data@ =~= frame.update(r as int, *row));
                assert forall|q: int| 0 <= q < r + 1 implies #[trigger] self.rows()[q] == completed(
                    old(self).rows()[q],
                    old(self).header_row()[q + 1],
                    width as int,
                ) by {
                    if q < r {
                        assert(self.rows()[q] == rows_before[q]);
                    } else {
                        assert(self.rows()[q] == texts(row@));
                        assert(old(self).header_row()[r + 1] == label@);
                    }
                }
            }
            r += 1;
        }
        assert(self.rows() =~= Seq::new(
            old(self).rows().len(),
            |r: int|
                completed(
                    old(self).rows()[r],
                    old(self).header_row()[r + 1],
                    old(self).header_row().len() as int,
                ),
        ));
    }

    /// The table as rows of cells: the header row, then the data rows.
    pub fn as_dataframe(&self) -> (table: Vec<Vec<String>>)
        ensures
            grid(table@) == seq![self.header_row()] + self.rows(),
    {
        let mut table: Vec<Vec<String>> = Vec::new();
        table.push(copy_texts(&self.headers));
        let mut r: usize = 0;
        while r < self.data.len()
            invariant
                r <= self.data@.len(),
                table@.len() == r + 1,
                grid(table@) == seq![self.header_row()] + self.rows().take(r as int),
            decreases self.data@.len() - r,
        {
            let ghost above = table@;
            table.push(copy_texts(&self.data[r]));
            assert(grid(table@) =~= grid(above).push(texts(self.data@[r as int]@)));
            assert(grid(table@) =~= seq![self.header_row()] + self.rows().take(r as int + 1));
            r += 1;
        }
        assert(self.rows().take(r as int) =~= self.rows());
        table
    }
}

} // verus!
