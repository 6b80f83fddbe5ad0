use advent_puzzles::day10::draw_screen;
use advent_puzzles::day10::parse_program;
use advent_puzzles::day10::Instruction;
use advent_puzzles::day10::InstructionHistory;
use advent_puzzles::day10::ParseError;

const SMALL_PROGRAM: &str = "noop\naddx 3\naddx -5\n";

const LARGER_PROGRAM: &str = "addx 15\naddx -11\naddx 6\naddx -3\naddx 5\naddx -1\naddx -8\naddx 13\naddx 4\nnoop\naddx -1\naddx 5\naddx -1\naddx 5\naddx -1\naddx 5\naddx -1\naddx 5\naddx -1\naddx -35\naddx 1\naddx 24\naddx -19\naddx 1\naddx 16\naddx -11\nnoop\nnoop\naddx 21\naddx -15\nnoop\nnoop\naddx -3\naddx 9\naddx 1\naddx -3\naddx 8\naddx 1\naddx 5\nnoop\nnoop\nnoop\nnoop\nnoop\naddx -36\nnoop\naddx 1\naddx 7\nnoop\nnoop\nnoop\naddx 2\naddx 6\nnoop\nnoop\nnoop\nnoop\nnoop\naddx 1\nnoop\nnoop\naddx 7\naddx 1\nnoop\naddx -13\naddx 13\naddx 7\nnoop\naddx 1\naddx -33\nnoop\nnoop\nnoop\naddx 2\nnoop\nnoop\nnoop\naddx 8\nnoop\naddx -1\naddx 2\naddx 1\nnoop\naddx 17\naddx -9\naddx 1\naddx 1\naddx -3\naddx 11\nnoop\nnoop\naddx 1\nnoop\naddx 1\nnoop\nnoop\naddx -13\naddx -19\naddx 1\naddx 3\naddx 26\naddx -30\naddx 12\naddx -1\naddx 3\naddx 1\nnoop\nnoop\nnoop\naddx -9\naddx 18\naddx 1\naddx 2\nnoop\nnoop\naddx 9\nnoop\nnoop\nnoop\naddx -1\naddx 2\naddx -37\naddx 1\naddx 3\nnoop\naddx 15\naddx -21\naddx 22\naddx -6\naddx 1\nnoop\naddx 2\naddx 1\nnoop\naddx -10\nnoop\nnoop\naddx 20\naddx 1\naddx 2\naddx 2\naddx -6\naddx -11\nnoop\nnoop\nnoop\n";

fn screen_text(input: &str) -> String {
    let history = parse_program(input).unwrap();
    draw_screen(&history).into_iter().collect()
}

#[test]
fn test_main() {
    let screen = screen_text(LARGER_PROGRAM);
    println!("{}", screen);
    assert_eq!(screen.len(), 246);
}

#[test]
fn test_smaller_sample() {
    let screen = screen_text(SMALL_PROGRAM);
    println!("{}", screen);
    assert_eq!(screen.lines().count(), 6);
}

#[test]
fn test_sample_parsing() {
    let input = SMALL_PROGRAM;
    let instructions = input
        .lines()
        .map(|i| Instruction::parse(i).unwrap())
        .collect::<Vec<_>>();

    let n_cycles = instructions.iter().map(|i| i.cycle_count()).sum::<i32>();
    assert_eq!(n_cycles, 5);

    let history = InstructionHistory {
        instructions: instructions,
    };
    assert_eq!(history.register_value_during_cycle(&3), 1);
    assert_eq!(history.register_value_during_cycle(&4), 4);
    assert_eq!(history.register_value_during_cycle(&5), 4);
    assert_eq!(history.register_value_during_cycle(&6), -1);
}

#[test]
fn instructions_are_read() {
    assert_eq!(Instruction::parse("noop"), Ok(Instruction::Noop));
    assert_eq!(Instruction::parse("addx 3"), Ok(Instruction::Addx(3)));
    assert_eq!(Instruction::parse("addx -5 and more"), Ok(Instruction::Addx(-5)));
    assert_eq!(Instruction::parse("anything else"), Ok(Instruction::Noop));
    assert_eq!(Instruction::parse(""), Ok(Instruction::Noop));
    assert_eq!(Instruction::parse(" addx 3"), Ok(Instruction::Noop));
    assert_eq!(Instruction::parse("addx"), Err(ParseError::MissingAmount));
    assert_eq!(Instruction::parse("addx "), Err(ParseError::InvalidAmount));
    assert_eq!(Instruction::parse("addx  3"), Err(ParseError::InvalidAmount));
    assert_eq!(Instruction::parse("addx three"), Err(ParseError::InvalidAmount));
    assert_eq!(Instruction::parse("addx 2147483648"), Err(ParseError::InvalidAmount));
    assert_eq!(ParseError::MissingAmount.message(), "addx without an amount");
}

#[test]
fn program_stops_at_the_first_bad_line() {
    assert_eq!(parse_program("noop\naddx\naddx x\n").err(), Some(ParseError::MissingAmount));
    assert_eq!(parse_program("addx x\naddx\n").err(), Some(ParseError::InvalidAmount));
    assert_eq!(parse_program("").unwrap().instructions, vec![]);
}

#[test]
fn register_before_and_after_the_program() {
    let history = parse_program(SMALL_PROGRAM).unwrap();
    assert_eq!(history.register_value_during_cycle(&-7), 1);
    assert_eq!(history.register_value_during_cycle(&0), 1);
    assert_eq!(history.register_value_during_cycle(&1), 1);
    assert_eq!(history.register_value_during_cycle(&2), 1);
    assert_eq!(history.register_value_during_cycle(&1000), -1);
    assert_eq!(history.register_value(i32::MAX), -1);
}

#[test]
fn signal_strengths_of_the_larger_program() {
    let history = parse_program(LARGER_PROGRAM).unwrap();
    let values: Vec<i32> = [20, 60, 100, 140, 180, 220]
        .iter()
        .map(|cycle| history.register_value_during_cycle(cycle))
        .collect();
    assert_eq!(values, vec![21, 19, 18, 21, 16, 18]);
}

fn reference_screen(input: &str) -> String {
    let mut during: Vec<i64> = Vec::new();
    let mut x: i64 = 1;
    for line in input.lines() {
        during.push(x);
        if let Some(amount) = line.strip_prefix("addx ") {
            during.push(x);
            x += amount.parse::<i64>().unwrap();
        }
    }
    let mut screen = String::new();
    for cycle in 1..=240usize {
        let value = if cycle <= during.len() { during[cycle - 1] } else { x };
        let column = ((cycle - 1) % 40) as i64;
        screen.push(if column - 2 <= value && value < column + 2 { '#' } else { '.' });
        if cycle % 40 == 0 {
            screen.push('\n');
        }
    }
    screen
}

#[test]
fn screen_of_the_larger_program() {
    let screen = screen_text(LARGER_PROGRAM);
    assert_eq!(screen, reference_screen(LARGER_PROGRAM));
    assert_eq!(
        screen.lines().next().unwrap(),
        "##..##..##..##..##..###.###.###.###.###."
    );
}

#[test]
fn screen_of_the_small_program() {
    let screen = screen_text(SMALL_PROGRAM);
    assert_eq!(screen, reference_screen(SMALL_PROGRAM));
    assert!(screen.starts_with("####"));
}
