//! Lists of strings and what they say.
//!
//! A string is known by its text, a sequence of characters; contracts speak
//! of the texts of a list of strings and of the texts of the cells of a table.

use vstd::prelude::*;

verus! {

/// The texts of a list of strings.
pub open spec fn texts(v: Seq<String>) -> Seq<Seq<char>> {
    v.map_values(|s: String| s@)
}

/// The texts of the cells of a list of rows.
pub open spec fn grid(v: Seq<Vec<String>>) -> Seq<Seq<Seq<char>>> {
    v.map_values(|row: Vec<String>| texts(row@))
}

/// A copy of a list of strings.
pub fn copy_texts(strings: &Vec<String>) -> (copy: Vec<String>)
    ensures
        texts(copy@) == texts(strings@),
{
    let mut copy: Vec<String> = Vec::new();
    let mut k: usize = 0;
    while k < strings.len()
        invariant
            k <= strings@.len(),
            copy@.len() == k,
            texts(copy@) == texts(strings@).take(k as int),
        decreases strings@.len() - k,
    {
        let ghost shorter = copy@;
        copy.push(strings[k].clone());
        assert(texts(copy@) =~= texts(shorter).push(strings@[k as int]@));
        assert(texts(copy@) =~= texts(strings@).take(k as int + 1));
        k += 1;
    }
    assert(texts(strings@).take(k as int) =~= texts(strings@));
    copy
}

} // verus!
