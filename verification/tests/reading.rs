use bankers::{read_description, safe_check, MalformedInput};

const TEXTBOOK: &str = "3
5
3 3 2
7 5 3 | 0 1 0 | 7 4 3
3 2 2 | 2 0 0 | 1 2 2
9 0 2 | 3 0 2 | 6 0 0
2 2 2 | 2 1 1 | 0 1 1
4 3 3 | 0 0 2 | 4 3 1
";

#[test]
fn textbook_description_is_read() {
    let state = read_description(TEXTBOOK.as_bytes()).unwrap();
    assert_eq!(state.resource_count(), 3);
    assert_eq!(state.process_count(), 5);
    assert_eq!(state.available(), &vec![3, 3, 2]);
    assert_eq!(
        state.max(),
        &vec![vec![7, 5, 3], vec![3, 2, 2], vec![9, 0, 2], vec![2, 2, 2], vec![4, 3, 3]]
    );
    assert_eq!(
        state.allocated(),
        &vec![vec![0, 1, 0], vec![2, 0, 0], vec![3, 0, 2], vec![2, 1, 1], vec![0, 0, 2]]
    );
    assert_eq!(
        state.need(),
        &vec![vec![7, 4, 3], vec![1, 2, 2], vec![6, 0, 0], vec![0, 1, 1], vec![4, 3, 1]]
    );
    assert_eq!(state.completed_process(), &vec![false; 5]);
    assert!(safe_check(&state));
}

#[test]
fn need_is_derived_and_the_third_part_is_not_read() {
    let state = read_description(b"2\n1\n1 1\n5 6 | 2 3 | anything at all").unwrap();
    assert_eq!(state.need(), &vec![vec![3, 3]]);
    let state = read_description(b"2\n1\n1 1\n5 6 | 2 3 |").unwrap();
    assert_eq!(state.need(), &vec![vec![3, 3]]);
}

#[test]
fn last_line_needs_no_line_feed() {
    let state = read_description(b"1\n1\n2\n2 | 0 | 2").unwrap();
    assert_eq!(state.available(), &vec![2]);
    assert_eq!(state.max(), &vec![vec![2]]);
}

#[test]
fn carriage_returns_before_line_feeds_are_dropped() {
    let state = read_description(b"1\r\n1\r\n2\r\n2 | 0 | 2\r\n").unwrap();
    assert_eq!(state.available(), &vec![2]);
    assert_eq!(state.need(), &vec![vec![2]]);
}

#[test]
fn blanks_around_amounts_do_not_matter() {
    let state = read_description(b"2\n1\n \t 4   5 \n  7\t8|1 2  |x\n").unwrap();
    assert_eq!(state.available(), &vec![4, 5]);
    assert_eq!(state.max(), &vec![vec![7, 8]]);
    assert_eq!(state.allocated(), &vec![vec![1, 2]]);
}

#[test]
fn plus_sign_and_leading_zeros_are_read() {
    let state = read_description(b"+1\n01\n+007\n+9 | 004 | -").unwrap();
    assert_eq!(state.available(), &vec![7]);
    assert_eq!(state.max(), &vec![vec![9]]);
    assert_eq!(state.need(), &vec![vec![5]]);
}

#[test]
fn lines_after_the_last_process_are_not_read() {
    let text = b"1\n1\n2\n2 | 0 | 2\nthis is | not a | process | line\n\n";
    let state = read_description(text).unwrap();
    assert_eq!(state.process_count(), 1);
}

#[test]
fn largest_amount_is_read_and_the_next_is_not() {
    let state = read_description(b"1\n1\n0\n2147483647 | 2147483647 | 0").unwrap();
    assert_eq!(state.max(), &vec![vec![2147483647]]);
    assert_eq!(state.need(), &vec![vec![0]]);
    assert_eq!(read_description(b"1\n1\n0\n2147483648 | 0 | 0").err(), Some(MalformedInput));
    assert_eq!(
        read_description(b"1\n1\n0\n99999999999999999999999999 | 0 | 0").err(),
        Some(MalformedInput)
    );
}

#[test]
fn negative_amounts_are_read_but_give_no_ledger() {
    assert!(read_description(b"1\n1\n-1\n2 | 0 | 2").is_err());
    assert!(read_description(b"1\n1\n1\n2 | -1 | 3").is_err());
    assert!(read_description(b"1\n1\n1\n-2147483648 | -2147483648 | 0").is_err());
}

#[test]
fn empty_text_is_malformed() {
    assert_eq!(read_description(b"").err(), Some(MalformedInput));
    assert_eq!(read_description(b"1\n1\n").err(), Some(MalformedInput));
}

#[test]
fn count_must_be_the_whole_line() {
    assert!(read_description(b"1 \n1\n2\n2 | 0 | 2").is_err());
    assert!(read_description(b" 1\n1\n2\n2 | 0 | 2").is_err());
    assert!(read_description(b"1\n1 1\n2\n2 | 0 | 2").is_err());
    assert!(read_description(b"\n1\n2\n2 | 0 | 2").is_err());
    assert!(read_description(b"-1\n1\n2\n2 | 0 | 2").is_err());
    assert!(read_description(b"-0\n1\n\n | | ").is_err());
    assert!(read_description(b"+\n1\n2\n2 | 0 | 2").is_err());
    assert!(read_description(b"one\n1\n2\n2 | 0 | 2").is_err());
    assert!(read_description(b"99999999999999999999999999\n1\n2\n2 | 0 | 2").is_err());
}

#[test]
fn zero_counts_give_no_ledger() {
    assert!(read_description(b"0\n1\n\n | | ").is_err());
    assert!(read_description(b"1\n0\n2\n").is_err());
}

#[test]
fn available_must_have_one_amount_per_resource_type() {
    assert!(read_description(b"2\n1\n2\n2 2 | 0 0 | 2 2").is_err());
    assert!(read_description(b"1\n1\n2 2\n2 | 0 | 2").is_err());
    assert!(read_description(b"1\n1\n\n2 | 0 | 2").is_err());
}

#[test]
fn process_rows_must_have_one_amount_per_resource_type() {
    assert!(read_description(b"2\n1\n1 1\n2 | 0 0 | x").is_err());
    assert!(read_description(b"2\n1\n1 1\n2 2 | 0 | x").is_err());
    assert!(read_description(b"2\n1\n1 1\n2 2 2 | 0 0 0 | x").is_err());
}

#[test]
fn process_line_must_have_three_parts() {
    assert!(read_description(b"1\n1\n2\n2 | 0").is_err());
    assert!(read_description(b"1\n1\n2\n2 | 0 | 2 | 9").is_err());
    assert!(read_description(b"1\n1\n2\n2 0 2").is_err());
}

#[test]
fn missing_process_lines_are_malformed() {
    assert!(read_description(b"1\n2\n2\n2 | 0 | 2\n").is_err());
    assert!(read_description(b"1\n1\n2\n").is_err());
}

#[test]
fn amount_that_is_no_number_is_malformed() {
    assert!(read_description(b"1\n1\n2\n2 | zero | 2").is_err());
    assert!(read_description(b"1\n1\n2x\n2 | 0 | 2").is_err());
    assert!(read_description(b"1\n1\n2\n2 | 0.5 | 2").is_err());
    assert!(read_description(b"1\n1\n2\n+-2 | 0 | 2").is_err());
    assert!(read_description(b"1\n1\n2\n- | 0 | 2").is_err());
    assert!(read_description(b"1\n1\n2\n2 | 1,0 | 2").is_err());
}

#[test]
fn holdings_above_the_maximum_are_malformed() {
    assert!(read_description(b"1\n1\n2\n2 | 3 | 0").is_err());
}
