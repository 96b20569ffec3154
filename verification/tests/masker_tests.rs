use digit_redactor::masker::masker;

#[test]
fn test_replaces_digits_with_stars() {
    let input = String::from("123\n");

    let output = masker(&input, 3);

    assert_eq!("***\n", output.as_str());
}

#[test]
fn masker_test_does_not_replace_non_digits() {
    let output = masker(&String::from("abc\n"), 3);

    assert_eq!("abc\n", output.as_str());
}

#[test]
fn masker_test_replaces_only_digits() {
    let output = masker(&String::from("a123b\n"), 3);

    assert_eq!("a***b\n", output.as_str());
}

#[test]
fn masker_test_does_not_replace_fewer_digits_than_intended() {
    let output = masker(&String::from("a12bc\n"), 3);

    assert_eq!("a12bc\n", output.as_str());
}

#[test]
fn masker_test_does_not_replace_more_digits_than_intended() {
    let output = masker(&String::from("a1234bc\n"), 3);

    assert_eq!("a1234bc\n", output.as_str());
}

#[test]
fn masker_test_replaces_multiple_occurrences_on_line() {
    let output = masker(&String::from("abc123de456fgh789xyz\n"), 3);

    assert_eq!("abc***de***fgh***xyz\n", output.as_str());
}

#[test]
fn masker_test_replaces_digits_at_start_of_line() {
    let output = masker(&String::from("123abc\n"), 3);

    assert_eq!("***abc\n", output.as_str());
}

#[test]
fn masker_test_replaces_digits_at_end_of_line() {
    let output = masker(&String::from("abc123\n"), 3);

    assert_eq!("abc***\n", output.as_str());
}

#[test]
fn masker_test_includes_fewer_that_intended_digits_at_end_of_line() {
    let output = masker(&String::from("abc12\n"), 3);

    assert_eq!("abc12\n", output.as_str());
}

#[test]
fn masker_test_replaces_digits_on_multiple_lines() {
    let output = masker(&String::from("abc123\n456def789\n"), 3);

    assert_eq!("abc***\n***def***\n", output.as_str());
}

#[test]
fn test_add() {
    assert_eq!(digit_redactor::masker::add(1, 2), 3);
}
