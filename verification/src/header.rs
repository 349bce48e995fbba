//! Row and column labels of the distance table.

use vstd::prelude::*;
use vstd::string::*;

verus! {

/// The longest text, in characters, that a label shows in full.
pub const LABEL_WIDTH: usize = 10;

/// The decimal digit for a number below ten.
pub open spec fn digit(d: int) -> char {
    if d == 0 {
        '0'
    } else if d == 1 {
        '1'
    } else if d == 2 {
        '2'
    } else if d == 3 {
        '3'
    } else if d == 4 {
        '4'
    } else if d == 5 {
        '5'
    } else if d == 6 {
        '6'
    } else if d == 7 {
        '7'
    } else if d == 8 {
        '8'
    } else {
        '9'
    }
}

/// A number in decimal, without sign or leading zeros.
pub open spec fn decimal(n: nat) -> Seq<char>
    decreases n,
{
    if n < 10 {
        seq![digit(n as int)]
    } else {
        decimal(n / 10).push(digit((n % 10) as int))
    }
}

/// The mark that stands where a text was cut short.
pub open spec fn ellipsis() -> Seq<char> {
    seq!['.', '.', '.']
}

/// A text as a label shows it. A text of at most ten characters is shown in
/// full. A longer one is cut before its first period, or after ten characters
/// where it holds no period, and the ellipsis follows.
pub open spec fn truncated(s: Seq<char>) -> Seq<char> {
    if s.len() <= LABEL_WIDTH {
        s
    } else {
        match s.index_of_first('.') {
            Some(period) => s.take(period) + ellipsis(),
            None => s.take(LABEL_WIDTH as int) + ellipsis(),
        }
    }
}

/// The label of the document at position `i`: the position, a colon, a space
/// and the document's text as a label shows it.
pub open spec fn header_text(i: nat, s: Seq<char>) -> Seq<char> {
    decimal(i) + seq![':', ' '] + truncated(s)
}

fn digit_text(d: usize) -> (text: &'static str)
    requires
        d < 10,
    ensures
        text@ == seq![digit(d as int)],
{
    proof {
        reveal_strlit("0");
        reveal_strlit("1");
        reveal_strlit("2");
        reveal_strlit("3");
        reveal_strlit("4");
        reveal_strlit("5");
        reveal_strlit("6");
        reveal_strlit("7");
        reveal_strlit("8");
        reveal_strlit("9");
    }
    let text = if d == 0 {
        "0"
    } else if d == 1 {
        "1"
    } else if d == 2 {
        "2"
    } else if d == 3 {
        "3"
    } else if d == 4 {
        "4"
    } else if d == 5 {
        "5"
    } else if d == 6 {
        "6"
    } else if d == 7 {
        "7"
    } else if d == 8 {
        "8"
    } else {
        "9"
    };
    assert(text@ =~= seq![digit(d as int)]);
    text
}

/// Writes a position in decimal.
pub fn decimal_string(n: usize) -> (text: String)
    ensures
        text@ == decimal(n as nat),
    decreases n,
{
    if n < 10 {
        String::from_str(digit_text(n))
    } else {
        let mut text = decimal_string(n / 10);
        text.append(digit_text(n % 10));
        assert(text@ =~= decimal((n / 10) as nat).push(digit((n % 10) as int)));
        text
    }
}

/// Cuts a text down to what a label shows of it.
pub fn truncate_label(string: &str) -> (label: String)
    ensures
        label@ == truncated(string@),
{
    let len = string.unicode_len();
    if len <= LABEL_WIDTH {
        return String::from_str(string);
    }
    let mut k: usize = 0;
    while k < len && string.get_char(k) != '.'
        invariant
            k <= len == string@.len(),
            forall|m: int| 0 <= m < k ==> string@[m] != '.',
        decreases len - k,
    {
        k += 1;
    }
    proof {
        string@.index_of_first_ensures('.');
        reveal_strlit("...");
        if k < len {
            assert(string@[k as int] == '.');
            assert(string@.contains('.'));
            assert(string@.index_of_first('.') == Some(k as int));
        } else {
            assert(string@.index_of_first('.').is_none());
        }
    }
    let kept = if k < len {
        string.substring_char(0, k)
    } else {
        string.substring_char(0, LABEL_WIDTH)
    };
    let mut label = String::from_str(kept);
    label.append("...");
    assert(label@ =~= truncated(string@));
    label
}

/// The label of the document at position `i` with text `string`.
pub fn format_header(i: usize, string: &str) -> (header: String)
    ensures
        header@ == header_text(i as nat, string@),
{
    let mut header = decimal_string(i);
    header.append(": ");
    let label = truncate_label(string);
    header.append(label.as_str());
    proof {
        reveal_strlit(": ");
        assert(header@ =~= header_text(i as nat, string@));
    }
    header
}

} // verus!
