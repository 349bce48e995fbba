use pairwise_distance::header::{decimal_string, format_header, truncate_label};

#[test]
fn short_text_passes_through() {
    assert_eq!(format_header(0, "hello"), "0: hello");
    assert_eq!(format_header(1, "world"), "1: world");
}

#[test]
fn empty_text_gives_a_bare_index() {
    assert_eq!(format_header(3, ""), "3: ");
}

#[test]
fn ten_characters_are_kept_whole() {
    assert_eq!(format_header(0, "0123456789"), "0: 0123456789");
    assert_eq!(truncate_label("0123456789"), "0123456789");
}

#[test]
fn eleven_characters_are_cut_to_ten() {
    assert_eq!(truncate_label("0123456789a"), "0123456789...");
}

#[test]
fn long_text_without_period_is_cut_to_ten() {
    assert_eq!(
        format_header(2, "hello world example"),
        "2: hello worl..."
    );
}

#[test]
fn long_text_is_cut_before_its_first_period() {
    assert_eq!(truncate_label("Hi. This is long."), "Hi...");
    assert_eq!(format_header(7, "one.two.three"), "7: one...");
}

#[test]
fn a_period_beyond_ten_characters_still_cuts() {
    assert_eq!(
        truncate_label("a sentence of some length. And more"),
        "a sentence of some length..."
    );
}

#[test]
fn a_leading_period_leaves_only_the_ellipsis() {
    assert_eq!(truncate_label(".hidden file name"), "...");
}

#[test]
fn a_period_in_a_short_text_is_kept() {
    assert_eq!(truncate_label("a.b"), "a.b");
    assert_eq!(truncate_label("v1.2.3"), "v1.2.3");
}

#[test]
fn length_is_counted_in_characters() {
    assert_eq!(truncate_label("äöüäöüäöüä"), "äöüäöüäöüä");
    assert_eq!(truncate_label("äöüäöüäöüäö"), "äöüäöüäöüä...");
    assert_eq!(truncate_label("ñandú grande. Otro"), "ñandú grande...");
}

#[test]
fn index_is_written_in_decimal() {
    assert_eq!(decimal_string(0), "0");
    assert_eq!(decimal_string(9), "9");
    assert_eq!(decimal_string(10), "10");
    assert_eq!(decimal_string(1234567890), "1234567890");
    assert_eq!(decimal_string(usize::MAX), usize::MAX.to_string());
    assert_eq!(format_header(120, "x"), "120: x");
}
