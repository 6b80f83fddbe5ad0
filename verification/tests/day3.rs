use advent_puzzles::day3::get_char_priority;
use advent_puzzles::day3::get_shared_chars;
use advent_puzzles::day3::parse_input_to_groups;
use advent_puzzles::day3::split_str_to_compartments;
use advent_puzzles::day3::sum_of_group_priorities;
use advent_puzzles::day3::BadgeError;
use advent_puzzles::day3::RucksackError;

const RUCKSACKS: &str = "vJrwpWtwJgWrhcsFMMfFFhFp\njqHRNqRjqzjGDLGLrsFMfFZSrLrFZsSL\nPmmdzqPrVvPwwTWBwg\nwMqvLMZHhHMvwLHjbvcjnnSBnvTQFn\nttgJtRGJQctTZtZT\nCrZsJsPPZsGzwwsLwLmpwMDw\n";

#[test]
fn should_get_char_priority() {
    assert_eq!(get_char_priority('a'), 1);
    assert_eq!(get_char_priority('A'), 27);
}

#[test]
fn should_get_intersecting_chars() {
    let str_one = "ABCE";
    let str_two = "CDE";
    let str_three = "EFGC";

    let intersect = get_shared_chars(vec![str_one, str_two, str_three]);

    assert_eq!(intersect, vec!['C', 'E']);
}

#[test]
fn test_rucksack_parsing() {
    let input_str = "AABB";
    let rucksack = split_str_to_compartments(input_str).unwrap();
    assert_eq!(rucksack.compartment_one, "AA");
    assert_eq!(rucksack.compartment_two, "BB");
}

#[test]
#[should_panic(expected = "Input string must be of even length")]
fn test_rucksack_incorrect_length() {
    let input_str = "AAB";
    match split_str_to_compartments(input_str) {
        Ok(_) => {}
        Err(e) => panic!("{}", e.message()),
    }
}

#[test]
fn test_parse_input_into_groups() {
    let groups = parse_input_to_groups("1\n2\n3\n4");
    assert_eq!(groups, vec![vec!["1", "2", "3"]]);
}

#[test]
fn priorities_of_all_letters() {
    assert_eq!(get_char_priority('z'), 26);
    assert_eq!(get_char_priority('Z'), 52);
    assert_eq!(get_char_priority('p'), 16);
    assert_eq!(get_char_priority('L'), 38);
    for (i, c) in ('a'..='z').chain('A'..='Z').enumerate() {
        assert_eq!(get_char_priority(c), i as u32 + 1);
    }
}

#[test]
fn groups_of_three_lines() {
    assert_eq!(parse_input_to_groups("1\n2"), Vec::<Vec<&str>>::new());
    assert_eq!(parse_input_to_groups(""), Vec::<Vec<&str>>::new());
    assert_eq!(
        parse_input_to_groups("a\r\nb\r\n\r\nd\ne\nf\n"),
        vec![vec!["a", "b", ""], vec!["d", "e", "f"]]
    );
    assert_eq!(parse_input_to_groups(RUCKSACKS).len(), 2);
}

#[test]
fn shared_characters_come_once_in_the_order_of_the_first_string() {
    assert_eq!(get_shared_chars(vec!["abcabc"]), vec!['a', 'b', 'c']);
    assert_eq!(get_shared_chars(vec!["zzya", "ayz"]), vec!['z', 'y', 'a']);
    assert_eq!(get_shared_chars(vec!["abc", "", "abc"]), Vec::<char>::new());
    assert_eq!(get_shared_chars(vec!["", "abc"]), Vec::<char>::new());
    assert_eq!(get_shared_chars(vec!["héllo", "é"]), vec!['é']);
}

#[test]
fn halves_of_a_rucksack() {
    let sack = split_str_to_compartments("vJrwpWtwJgWrhcsFMMfFFhFp").unwrap();
    assert_eq!(sack.compartment_one, "vJrwpWtwJgWr");
    assert_eq!(sack.compartment_two, "hcsFMMfFFhFp");
    let empty = split_str_to_compartments("").unwrap();
    assert_eq!(empty.compartment_one, "");
    assert_eq!(empty.compartment_two, "");
    assert_eq!(split_str_to_compartments("abc").err(), Some(RucksackError::OddLength));
    // "aé" has three bytes, "aéb" four with the middle inside "é".
    assert_eq!(split_str_to_compartments("aé").err(), Some(RucksackError::OddLength));
    assert_eq!(split_str_to_compartments("aéb").err(), Some(RucksackError::SplitCharacter));
    let accents = split_str_to_compartments("éab").unwrap();
    assert_eq!(accents.compartment_one, "é");
    assert_eq!(accents.compartment_two, "ab");
}

#[test]
fn sum_of_the_badges() {
    assert_eq!(sum_of_group_priorities(RUCKSACKS), Ok(70));
    assert_eq!(sum_of_group_priorities(""), Ok(0));
    assert_eq!(sum_of_group_priorities("a\na\n"), Ok(0));
    assert_eq!(sum_of_group_priorities("ab\nab\nab\n"), Err(BadgeError::NotOneSharedItem));
    assert_eq!(sum_of_group_priorities("a\nb\nc\n"), Err(BadgeError::NotOneSharedItem));
    assert_eq!(sum_of_group_priorities("1x\n1y\n1z\n"), Err(BadgeError::NotALetter));
    assert_eq!(sum_of_group_priorities("Zx\nZy\nZz\nqa\nqb\nqc\n"), Ok(52 + 17));
}
