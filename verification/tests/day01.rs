use advent_puzzles::day01::checked_elf_totals;
use advent_puzzles::day01::get_sum_of_top_n;
use advent_puzzles::day01::parse_string_to_elves;

#[test]
fn test_parse_string_to_elves() {
    let input = "1\n2\n\n4\n\n";
    let actual = parse_string_to_elves(input);
    let expected = vec![3, 4];
    assert_eq!(expected, actual);
}

#[test]
fn test_get_sum_of_top_n() {
    let input = vec![1, 2, 3];
    let actual = get_sum_of_top_n(input, 2);
    let expected = 5;
    assert_eq!(expected, actual);
}

#[test]
fn test_gets_sum_of_n() {}

#[test]
fn totals_end_at_the_first_missing_group() {
    assert_eq!(parse_string_to_elves("1\n\n\n4\n"), vec![1]);
    assert_eq!(parse_string_to_elves("\n4\n"), Vec::<u32>::new());
    assert_eq!(parse_string_to_elves(""), Vec::<u32>::new());
}

#[test]
fn last_group_needs_no_closing_line() {
    assert_eq!(parse_string_to_elves("1000\n2000\n3000\n\n4000\n\n5000\n6000"), vec![6000, 4000, 11000]);
    assert_eq!(parse_string_to_elves("7\r\n8\r\n\r\n9"), vec![15, 9]);
}

#[test]
fn a_line_that_is_no_number_separates_groups() {
    assert_eq!(parse_string_to_elves("1\nx\n2\n-3\n4"), vec![1, 2, 4]);
}

#[test]
fn largest_unsigned_number_is_read() {
    assert_eq!(parse_string_to_elves("4294967295\n\n4294967296\n"), vec![4294967295]);
    assert_eq!(parse_string_to_elves("+5\n6"), vec![11]);
}

#[test]
fn sum_of_top_n_takes_the_largest() {
    assert_eq!(get_sum_of_top_n(vec![5, -1, 9, 3, 9], 3), 23);
    assert_eq!(get_sum_of_top_n(vec![5, -1, 9], 0), 0);
    assert_eq!(get_sum_of_top_n(vec![5, -1, 9], 7), 13);
    assert_eq!(get_sum_of_top_n(vec![], 2), 0);
    assert_eq!(get_sum_of_top_n(vec![-4, -2, -9], 1), -2);
    assert_eq!(get_sum_of_top_n(vec![i32::MAX, 1, -1], 3), i32::MAX);
}

#[test]
fn totals_that_are_too_large() {
    assert_eq!(checked_elf_totals("4294967295\n1\n"), None);
    assert_eq!(checked_elf_totals("1\n\n4294967295\n0\n1\n\n2\n"), None);
    assert_eq!(checked_elf_totals("4294967295\n0\n\n7\n"), Some(vec![4294967295, 7]));
    // A group that is not reached does not count.
    assert_eq!(checked_elf_totals("1\n\n\n4294967295\n1\n"), Some(vec![1]));
}
