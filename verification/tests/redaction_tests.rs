use digit_redactor::digit_sequence_finder::find_digit_sequences;
use digit_redactor::masker::masker;
use digit_redactor::redaction::redact_line;
use digit_redactor::redaction::redact_text;
use digit_redactor::redactor::redactor;

#[test]
fn test_finds_every_run_of_exactly_the_requested_length() {
    let line = String::from("ab123cd45 678");

    let positions = find_digit_sequences(3, &line);

    assert_eq!(positions, vec![2, 10]);
}

#[test]
fn test_finds_run_that_ends_with_the_line() {
    let line = String::from("abc123");

    let positions = find_digit_sequences(3, &line);

    assert_eq!(positions, vec![3]);
}

#[test]
fn test_ignores_longer_and_shorter_runs() {
    let line = String::from("1234 12 123 12345");

    let positions = find_digit_sequences(3, &line);

    assert_eq!(positions, vec![8]);
}

#[test]
fn test_finds_nothing_in_text_without_digits() {
    let line = String::from("no digits here\n");

    let positions = find_digit_sequences(3, &line);

    assert_eq!(positions, Vec::<usize>::new());
}

#[test]
fn test_empty_input_stays_empty() {
    assert_eq!("", masker(&String::new(), 3).as_str());
    assert_eq!("", redactor(&String::new()).as_str());
}

#[test]
fn test_line_without_terminator_gains_one() {
    let output = redactor(&String::from("1234567890"));

    assert_eq!("[REDACTED]\n", output.as_str());
}

#[test]
fn test_masker_is_a_no_op_on_already_masked_text() {
    let once = masker(&String::from("abc123\n456def789\n"), 3);

    let twice = masker(&once, 3);

    assert_eq!(once, twice);
}

#[test]
fn test_redactor_is_a_no_op_on_already_redacted_text_without_uuids() {
    let once = redactor(&String::from("abc1234567890de55\n6667778889 end\n"));

    let twice = redactor(&once);

    assert_eq!(once, twice);
}

#[test]
fn test_line_of_exactly_one_uuid_is_left_alone() {
    let output = redactor(&String::from("2523fa52-1719-4300-9bb0-1234567890ab\n"));

    assert_eq!("2523fa52-1719-4300-9bb0-1234567890ab\n", output.as_str());
}

#[test]
fn test_all_digit_uuid_tail_block_is_left_alone() {
    let output = redactor(&String::from("11111111-2222-3333-4444-555566667777\n"));

    assert_eq!("11111111-2222-3333-4444-555566667777\n", output.as_str());
}

#[test]
fn test_embedded_uuid_is_left_alone() {
    let output = redactor(&String::from("see 12345678-1719-4300-9bb0-1234567890ab ok\n"));

    assert_eq!("see 12345678-1719-4300-9bb0-1234567890ab ok\n", output.as_str());
}

#[test]
fn test_misplaced_hyphen_breaks_the_uuid_and_the_run_is_redacted() {
    let output = redactor(&String::from("2523fa52-1719-4300-9b-ef1234567890ab\n"));

    assert_eq!("2523fa52-1719-4300-9b-ef[REDACTED]ab\n", output.as_str());
}

#[test]
fn test_redact_line_with_a_custom_mask() {
    let output = redact_line(&String::from("call 1234 now"), 4, "####", false);

    assert_eq!("call #### now", output.as_str());
}

#[test]
fn test_redact_line_uuid_awareness_can_be_turned_off() {
    let line = String::from("2523fa52-1719-4300-9bb0-1234567890ab");

    let aware = redact_line(&line, 10, "[REDACTED]", true);
    let unaware = redact_line(&line, 10, "[REDACTED]", false);

    assert_eq!("2523fa52-1719-4300-9bb0-1234567890ab", aware.as_str());
    assert_eq!("2523fa52-1719-4300-9bb0-[REDACTED]ab", unaware.as_str());
}

#[test]
fn test_redact_text_normalizes_each_line_terminator() {
    let output = redact_text("12\n345\n6789", 3, "xyz", false);

    assert_eq!("12\nxyz\n6789\n", output.as_str());
}

#[test]
fn test_masker_with_non_positive_length_only_normalizes() {
    let output = masker(&String::from("abc123"), -2);

    assert_eq!("abc123\n", output.as_str());
}
