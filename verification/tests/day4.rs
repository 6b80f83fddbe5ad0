use advent_puzzles::day4::parse_elf_pairs;
use advent_puzzles::day4::ZoneAssignment;
use advent_puzzles::day4::ZoneError;

const PAIRS: &str = "2-4,6-8\n2-3,4-5\n5-7,7-9\n2-8,3-7\n6-6,4-6\n2-6,4-8\n";

#[test]
fn run_main() {
    let input = PAIRS;
    let elf_pairs = input
        .lines()
        .map(|line| parse_elf_pairs(line).unwrap())
        .collect::<Vec<_>>();

    let mut has_overlap = 0;
    for pair in elf_pairs.iter() {
        let first = &pair[0];
        let second = &pair[1];
        if first.has_overlap(second.clone()) {
            has_overlap += 1;
        }
    }

    println!("{}", has_overlap);
    assert_eq!(has_overlap, 4);
}

#[test]
fn test_parse_elf_pair() {
    let input = "1-3,5-7";
    let result = parse_elf_pairs(input).unwrap();

    assert_eq!(
        result,
        vec![
            ZoneAssignment { range: 1..=3 },
            ZoneAssignment { range: 5..=7 }
        ]
    );
}

#[test]
fn test_no_overlap() {
    let assignment = ZoneAssignment { range: 1..=3 };
    let other = ZoneAssignment { range: 0..=4 };
    assert!(assignment.has_overlap(other));

    let other_no_overlap = ZoneAssignment { range: 4..=5 };
    assert!(!assignment.has_overlap(other_no_overlap));
}

#[test]
fn test_assignment_parsing() {
    let assignment = ZoneAssignment::try_from("1-3").unwrap();
    assert_eq!(assignment.range.start(), &1);
    assert_eq!(assignment.range.end(), &3);
}

#[test]
fn a_zone_runs_from_the_least_to_the_largest_number() {
    assert_eq!(ZoneAssignment::try_from("7-2"), Ok(ZoneAssignment { range: 2..=7 }));
    assert_eq!(ZoneAssignment::try_from("5"), Ok(ZoneAssignment { range: 5..=5 }));
    assert_eq!(ZoneAssignment::try_from("4-9-1-6"), Ok(ZoneAssignment { range: 1..=9 }));
    assert_eq!(ZoneAssignment::try_from("0-4294967295"), Ok(ZoneAssignment::new(0, u32::MAX)));
    assert_eq!(ZoneAssignment::new(3, 8), ZoneAssignment { range: 3..=8 });
}

#[test]
fn what_is_no_number_is_no_zone() {
    assert_eq!(ZoneAssignment::try_from(""), Err(ZoneError::InvalidNumber));
    assert_eq!(ZoneAssignment::try_from("1-"), Err(ZoneError::InvalidNumber));
    assert_eq!(ZoneAssignment::try_from("-1"), Err(ZoneError::InvalidNumber));
    assert_eq!(ZoneAssignment::try_from("1-x"), Err(ZoneError::InvalidNumber));
    assert_eq!(ZoneAssignment::try_from("1-4294967296"), Err(ZoneError::InvalidNumber));
    assert_eq!(parse_elf_pairs("1-3,,5-7"), Err(ZoneError::InvalidNumber));
    assert_eq!(parse_elf_pairs("1-3,5-7,"), Err(ZoneError::InvalidNumber));
    assert_eq!(parse_elf_pairs(""), Err(ZoneError::InvalidNumber));
    assert_eq!(ZoneError::InvalidNumber.message(), "Invalid input");
}

#[test]
fn zones_that_touch_at_one_section_overlap() {
    let zone = ZoneAssignment::new(5, 7);
    assert!(zone.has_overlap(ZoneAssignment::new(7, 9)));
    assert!(zone.has_overlap(ZoneAssignment::new(1, 5)));
    assert!(zone.has_overlap(ZoneAssignment::new(6, 6)));
    assert!(zone.has_overlap(ZoneAssignment::new(0, 100)));
    assert!(!zone.has_overlap(ZoneAssignment::new(8, 9)));
    assert!(!zone.has_overlap(ZoneAssignment::new(0, 4)));
}

#[test]
fn several_zones_on_a_line() {
    assert_eq!(
        parse_elf_pairs("1-1,2-2,3-3"),
        Ok(vec![ZoneAssignment::new(1, 1), ZoneAssignment::new(2, 2), ZoneAssignment::new(3, 3)])
    );
}
