use pairwise_distance::input::{accept_parsed, parse_input_strings, InputError};

#[test]
fn array_of_strings_is_read_in_order() {
    assert_eq!(
        parse_input_strings("[\"bananas\", \"good morning\", \"bananas\"]"),
        Ok(vec![
            "bananas".to_string(),
            "good morning".to_string(),
            "bananas".to_string()
        ])
    );
}

#[test]
fn escapes_are_resolved() {
    assert_eq!(
        parse_input_strings("  [ \"a\\nb\", \"\\u00e9\" ]\n"),
        Ok(vec!["a\nb".to_string(), "é".to_string()])
    );
}

#[test]
fn empty_array_is_an_empty_list() {
    assert_eq!(parse_input_strings("[]"), Ok(vec![]));
}

#[test]
fn invalid_json_is_malformed() {
    assert_eq!(parse_input_strings("[\"a\", "), Err(InputError::Malformed));
    assert_eq!(parse_input_strings(""), Err(InputError::Malformed));
    assert_eq!(parse_input_strings("[\"a\"] x"), Err(InputError::Malformed));
}

#[test]
fn json_of_another_shape_is_malformed() {
    assert_eq!(parse_input_strings("[1, 2]"), Err(InputError::Malformed));
    assert_eq!(parse_input_strings("\"a\""), Err(InputError::Malformed));
    assert_eq!(
        parse_input_strings("{\"a\": \"b\"}"),
        Err(InputError::Malformed)
    );
    assert_eq!(
        parse_input_strings("[\"a\", null]"),
        Err(InputError::Malformed)
    );
}

#[test]
fn accept_parsed_keeps_the_strings() {
    assert_eq!(
        accept_parsed(Ok(vec!["a".to_string(), "b".to_string()])),
        Ok(vec!["a".to_string(), "b".to_string()])
    );
}

#[test]
fn accept_parsed_turns_any_failure_into_malformed() {
    let syntax = serde_json::from_str::<Vec<String>>("[").unwrap_err();
    assert_eq!(accept_parsed(Err(syntax)), Err(InputError::Malformed));
    let shape = serde_json::from_str::<Vec<String>>("[1]").unwrap_err();
    assert_eq!(accept_parsed(Err(shape)), Err(InputError::Malformed));
}
