use advent_puzzles::day1_lib::get_sum_of_top_n;
use advent_puzzles::day1_lib::parse_string_to_elves;
use advent_puzzles::day1_lib::ElvesError;

#[test]
fn lib_test_parse_string_to_elves() {
    let input = "1\n2\n\n4\n\n";
    let actual = parse_string_to_elves(input).unwrap();
    let expected = vec![3, 4];
    assert_eq!(expected, actual);
}

#[test]
fn lib_test_get_sum_of_top_n() {
    let mut input = vec![1, 2, 3];
    let actual = get_sum_of_top_n(&mut input, 2);
    let expected = 5;
    assert_eq!(expected, actual);
}

#[test]
fn lib_test_gets_sum_of_n() {}

#[test]
fn integration_main() {
    let input = "1000\n2000\n3000\n\n4000\n\n5000\n6000\n\n7000\n8000\n9000\n\n10000\n\n";
    let mut parsed_elves = parse_string_to_elves(input).unwrap();
    assert_eq!(parsed_elves, vec![6000, 4000, 11000, 24000, 10000]);
    let combined_cals_from_richest_elves = get_sum_of_top_n(&mut parsed_elves, 4);
    println!(
        "The sum of the calories of the top 4 richest elves is {}",
        combined_cals_from_richest_elves
    );
    assert_eq!(combined_cals_from_richest_elves, 51000);
}

#[test]
fn a_group_without_closing_line_is_left_out() {
    assert_eq!(parse_string_to_elves("1\n2\n\n4"), Ok(vec![3]));
    assert_eq!(parse_string_to_elves("\n\n"), Ok(vec![0, 0]));
    assert_eq!(parse_string_to_elves(""), Ok(vec![]));
    assert_eq!(parse_string_to_elves("-5\n+2\n\n"), Ok(vec![-3]));
}

#[test]
fn first_invalid_line_is_reported() {
    assert_eq!(parse_string_to_elves("1\nx\n\ny\n"), Err(ElvesError::InvalidLine { line: 1 }));
    assert_eq!(
        parse_string_to_elves("1\n\n2147483648\n"),
        Err(ElvesError::InvalidLine { line: 2 })
    );
    assert_eq!(parse_string_to_elves("-2147483648\n\n"), Ok(vec![i32::MIN]));
}

#[test]
fn a_total_that_is_too_large_is_reported() {
    assert_eq!(
        parse_string_to_elves("2147483647\n1\n\n"),
        Err(ElvesError::TotalTooLarge { line: 2 })
    );
    assert_eq!(
        parse_string_to_elves("1\n\n-2147483648\n-1\n\nx\n"),
        Err(ElvesError::TotalTooLarge { line: 4 })
    );
    // Only the total counts, not the sums on the way to it.
    assert_eq!(parse_string_to_elves("2147483647\n1\n-5\n\n"), Ok(vec![2147483643]));
    // A group that no empty line closes is not added up.
    assert_eq!(parse_string_to_elves("2147483647\n1"), Ok(vec![]));
    // What comes first in the text is reported.
    assert_eq!(
        parse_string_to_elves("x\n2147483647\n1\n\n"),
        Err(ElvesError::InvalidLine { line: 0 })
    );
}

#[test]
fn sorting_leaves_the_input_ascending() {
    let mut input = vec![5, -1, 9, 3, 9];
    assert_eq!(get_sum_of_top_n(&mut input, 3), 23);
    assert_eq!(input, vec![-1, 3, 5, 9, 9]);
    assert_eq!(get_sum_of_top_n(&mut input, 0), 0);
    assert_eq!(get_sum_of_top_n(&mut input, 9), 25);
    let mut empty: Vec<i32> = vec![];
    assert_eq!(get_sum_of_top_n(&mut empty, 2), 0);
}
