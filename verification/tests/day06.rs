use advent_puzzles::day06::add;
use advent_puzzles::day06::get_char_at_index;
use advent_puzzles::day06::get_end_index_of_first_unique_chunk;
use advent_puzzles::day06::get_position_of_input;
use advent_puzzles::day06::TestInput;

#[test]
fn lib_main() {
    let input = "mjqjpqmgbljsphdztnvjfqwrcgsmlb\n";
    let unique_chunk = get_end_index_of_first_unique_chunk(input, 14);
    println!("The first unique chunk is: {:?}", unique_chunk);
    println!("Finished");
    assert_eq!(unique_chunk, Some(19));
}

#[test]
fn check_inputs() {
    let inputs = vec![
        TestInput {
            input: "bvwbjplbgvbhsrlpgdmjqwftvncz",
            expected_index: 23,
        },
        TestInput {
            input: "nppdvjthqldpwncqszvftbrmjlhg",
            expected_index: 23,
        },
        TestInput {
            input: "nznrnfrfntjfmvfwmzdfjlvtqnbhcprsg",
            expected_index: 29,
        },
        TestInput {
            input: "zcfzfwzzqfrljwzlrfnpqdbhtmscgvjw",
            expected_index: 26,
        },
    ];

    for input in &inputs {
        assert_eq!(
            get_position_of_input(&input, 14),
            Some(input.expected_index)
        );
    }
}

#[test]
fn windows_of_four() {
    assert_eq!(get_end_index_of_first_unique_chunk("mjqjpqmgbljsphdztnvjfqwrcgsmlb", 4), Some(7));
    assert_eq!(get_end_index_of_first_unique_chunk("bvwbjplbgvbhsrlpgdmjqwftvncz", 4), Some(5));
    assert_eq!(get_end_index_of_first_unique_chunk("abcd", 4), Some(4));
    assert_eq!(get_end_index_of_first_unique_chunk("abca", 4), None);
    assert_eq!(get_end_index_of_first_unique_chunk("abc", 4), None);
    assert_eq!(get_end_index_of_first_unique_chunk("", 1), None);
    assert_eq!(get_end_index_of_first_unique_chunk("aab", 1), Some(1));
    assert_eq!(get_end_index_of_first_unique_chunk("aab", 2), Some(3));
}

#[test]
fn windows_are_counted_in_bytes() {
    // "é" takes two bytes that differ.
    assert_eq!(get_end_index_of_first_unique_chunk("éé", 2), Some(2));
    assert_eq!(get_end_index_of_first_unique_chunk("éé", 3), None);
}

#[test]
fn characters_by_index() {
    assert_eq!(get_char_at_index("héllo", 1), Some('é'));
    assert_eq!(get_char_at_index("héllo", 4), Some('o'));
    assert_eq!(get_char_at_index("héllo", 5), None);
    assert_eq!(get_char_at_index("", 0), None);
}

#[test]
fn adds_two_numbers() {
    assert_eq!(add(2, 2), 4);
    assert_eq!(add(0, usize::MAX), usize::MAX);
}
