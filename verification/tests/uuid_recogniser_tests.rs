use digit_redactor::uuid_recogniser::is_in_uuid;

#[test]
fn uuid_recogniser_test_recognises_that_ten_digit_sequence_is_in_uuid_when_position_is_at_start_of_last_sequence_of_a_uuid(
) {
    let single_uuid_line = String::from("2523fa52-1719-4300-9bb0-1234567890ab");
    let in_uuid = is_in_uuid(24, &single_uuid_line);

    assert_eq!(single_uuid_line.chars().nth(24).unwrap(), '1');
    assert_eq!(in_uuid, true);
}

#[test]
fn uuid_recogniser_test_recognises_that_ten_digit_sequence_is_not_in_uuid_when_not_enough_room_for_uuid_to_left(
) {
    let single_uuid_line = String::from("1234567-1719-4300-9bb0-1234567890ab");
    let in_uuid = is_in_uuid(23, &single_uuid_line);

    assert_eq!(single_uuid_line.chars().nth(23).unwrap(), '1');
    assert_eq!(in_uuid, false);
}

#[test]
fn uuid_recogniser_test_recognises_that_ten_digit_sequence_is_not_in_uuid_when_contains_a_non_hex_char_with_position_at_24th_char(
) {
    let single_uuid_line = String::from("g1234567-1719-4300-9bb0-1234567890ab");
    let in_uuid = is_in_uuid(24, &single_uuid_line);

    assert_eq!(single_uuid_line.chars().nth(24).unwrap(), '1');
    assert_eq!(in_uuid, false);
}

#[test]
fn uuid_recogniser_test_recognises_that_ten_digit_sequence_is_not_in_uuid_when_contains_non_hex_chars_with_position_at_25th_char(
) {
    let single_uuid_line = String::from("01234567-1719-43_X_9bb0-1234567890ab");
    let in_uuid = is_in_uuid(25, &single_uuid_line);

    assert_eq!(single_uuid_line.chars().nth(25).unwrap(), '2');
    assert_eq!(in_uuid, false);
}

#[test]
fn uuid_recogniser_test_recognises_that_ten_digit_sequence_is_in_uuid_when_position_is_at_second_char_of_last_sequence_of_a_uuid(
) {
    let single_uuid_line = String::from("2523fa52-1719-4300-9bb0-1234567890aB");
    let in_uuid = is_in_uuid(25, &single_uuid_line);

    assert_eq!(single_uuid_line.chars().nth(25).unwrap(), '2');
    assert_eq!(in_uuid, true);
}

#[test]
fn uuid_recogniser_test_recognises_that_ten_digit_sequence_is_in_uuid_when_position_is_at_third_char_of_last_sequence_of_a_uuid(
) {
    let single_uuid_line = String::from("2523fa52-1719-4300-9bb0-1234567890aB");
    let in_uuid = is_in_uuid(26, &single_uuid_line);

    assert_eq!(single_uuid_line.chars().nth(26).unwrap(), '3');
    assert_eq!(in_uuid, true);
}

#[test]
fn uuid_recogniser_test_recognises_that_ten_digit_sequence_is_not_in_uuid_when_there_is_not_enough_chars_at_end_for_uuid(
) {
    let single_uuid_line = String::from("2523fa52-1719-4300-9bb0-1234567890a");
    let in_uuid = is_in_uuid(26, &single_uuid_line);

    assert_eq!(single_uuid_line.chars().nth(26).unwrap(), '3');
    assert_eq!(in_uuid, false);
}

#[test]
fn uuid_recogniser_test_recognises_that_ten_digit_sequence_is_in_uuid_when_some_way_into_line() {
    let single_uuid_line = String::from(
        "this is a line with a UUID in it 2523fa52-1719-4300-9bb0-1234567890ab and some way after",
    );
    let in_uuid = is_in_uuid(57, &single_uuid_line);

    assert_eq!(single_uuid_line.chars().nth(57).unwrap(), '1');
    assert_eq!(in_uuid, true);
}

#[test]
fn test_recognises_that_ten_digit_sequence_is_not_in_uuid_when_position_is_possible_but_previous_hyphen_is_misleading(
) {
    let single_uuid_line = String::from("2523fa52-1719-4300-9b-ef1234567890ab");
    let in_uuid = is_in_uuid(24, &single_uuid_line);

    assert_eq!(single_uuid_line.chars().nth(24).unwrap(), '1');
    assert_eq!(in_uuid, false);
}
