use advent_puzzles::day9::grid::GridPos;
use advent_puzzles::day9::instruction_parsing::parse_instructions;
use advent_puzzles::day9::instruction_parsing::parse_line;
use advent_puzzles::day9::instruction_parsing::Instruction;
use advent_puzzles::day9::instruction_parsing::LineError;
use advent_puzzles::day9::instruction_parsing::ParseError;
use advent_puzzles::day9::long_rope;
use advent_puzzles::day9::path_fits;
use advent_puzzles::day9::simulate;
use advent_puzzles::day9::short_rope;
use advent_puzzles::day9::update_position;
use advent_puzzles::day9::Rope;

const SAMPLE: &str = "R 4\nU 4\nL 3\nD 1\nR 4\nD 1\nL 5\nR 2\n";
const LARGER_SAMPLE: &str = "R 5\nU 8\nL 8\nD 3\nR 17\nD 10\nL 25\nU 20\n";

#[test]
fn test_starting_input() {
    let instructions = parse_instructions(SAMPLE).unwrap();
    let positions_visited = short_rope(instructions);
    assert_eq!(positions_visited, 13);
}

#[test]
fn lib_test_starting_input() {
    let instructions = parse_instructions(SAMPLE).unwrap();
    let positions_visited = long_rope(instructions);
    assert_eq!(positions_visited, 1);
}

#[test]
fn test_full_input() {
    let instructions = parse_instructions(LARGER_SAMPLE).unwrap();
    let positions_visited = short_rope(instructions);
    assert_eq!(positions_visited, 88);
}

#[test]
fn lib_test_full_input() {
    let instructions = parse_instructions(LARGER_SAMPLE).unwrap();
    let positions_visited = long_rope(instructions);
    assert_eq!(positions_visited, 36);
}

#[test]
fn test_parse_line() {
    let line = "U 10";
    let instructions = parse_line(line).unwrap();
    assert_eq!(instructions.len(), 10);
    assert_eq!(instructions[0], Instruction::Up);
    assert_eq!(instructions[1], Instruction::Up);
}

#[test]
fn lib_test_parse_line() {
    let line = "U 10";
    let instructions = parse_line(line).unwrap();
    assert_eq!(instructions.len(), 10);
    assert_eq!(instructions[0], Instruction::Up);
    assert_eq!(instructions[1], Instruction::Up);
}

#[test]
fn expanding_right_four_gives_four_right_steps() {
    assert_eq!(parse_line("R 4"), Ok(vec![Instruction::Right; 4]));
}

#[test]
fn invalid_letter_is_rejected_and_leaves_earlier_results_alone() {
    let earlier = parse_line("R 4").unwrap();
    assert_eq!(parse_line("X 3"), Err(LineError::InvalidDirection));
    assert_eq!(earlier, vec![Instruction::Right; 4]);
}

#[test]
fn count_zero_gives_no_step() {
    assert_eq!(parse_line("L 0"), Ok(vec![]));
    let mut rope = Rope::new(2).unwrap();
    let trail = rope.run(&parse_line("L 0").unwrap());
    assert_eq!(trail, vec![(0, 0)]);
    assert_eq!(rope.knot(0), GridPos { x: 0, y: 0 });
    assert_eq!(rope.knot(1), GridPos { x: 0, y: 0 });
}

#[test]
fn malformed_lines_are_rejected() {
    assert_eq!(parse_line(""), Err(LineError::InvalidDirection));
    assert_eq!(parse_line("Up 3"), Err(LineError::InvalidDirection));
    assert_eq!(parse_line("u 3"), Err(LineError::InvalidDirection));
    assert_eq!(parse_line("U"), Err(LineError::InvalidCount));
    assert_eq!(parse_line("U "), Err(LineError::InvalidCount));
    assert_eq!(parse_line("U x"), Err(LineError::InvalidCount));
    assert_eq!(parse_line("U -1"), Err(LineError::InvalidCount));
    assert_eq!(parse_line("U 1 2"), Err(LineError::InvalidCount));
    assert_eq!(parse_line("U  1"), Err(LineError::InvalidCount));
    assert_eq!(parse_line("U 2147483648"), Err(LineError::InvalidCount));
    assert_eq!(parse_line("D +2"), Ok(vec![Instruction::Down; 2]));
}

#[test]
fn text_with_carriage_returns_and_blank_end() {
    let steps = parse_instructions("R 1\r\nU 2\r\n\r\n\n").unwrap();
    assert_eq!(steps, vec![Instruction::Right, Instruction::Up, Instruction::Up]);
    assert_eq!(parse_instructions(""), Ok(vec![]));
}

#[test]
fn first_bad_line_is_reported() {
    assert_eq!(
        parse_instructions("R 1\nQ 2\nU x\n"),
        Err(ParseError { line: 1, kind: LineError::InvalidDirection })
    );
    assert_eq!(
        parse_instructions("R 1\n\nU 2\n"),
        Err(ParseError { line: 1, kind: LineError::InvalidDirection })
    );
    assert_eq!(
        parse_instructions("R 1\nU\n"),
        Err(ParseError { line: 1, kind: LineError::InvalidCount })
    );
}

#[test]
fn follow_rule_on_every_delta_up_to_two() {
    for dx in -2i32..=2 {
        for dy in -2i32..=2 {
            let touching = dx.abs() <= 1 && dy.abs() <= 1;
            let expected = if touching { (0, 0) } else { (dx.signum(), dy.signum()) };
            assert_eq!(update_position(GridPos { x: dx, y: dy }), expected);
        }
    }
    assert_eq!(update_position(GridPos { x: 7, y: -9 }), (1, -1));
    assert_eq!(update_position(GridPos { x: 0, y: 3 }), (0, 1));
}

#[test]
fn knots_stay_linked_after_every_step() {
    let instructions = parse_instructions(LARGER_SAMPLE).unwrap();
    let mut rope = Rope::new(10).unwrap();
    for instruction in instructions {
        rope.step(instruction);
        for i in 1..rope.len() {
            let a = rope.knot(i - 1);
            let b = rope.knot(i);
            assert!((a.x - b.x).abs() <= 1 && (a.y - b.y).abs() <= 1);
        }
    }
    assert_eq!(rope.tail(), rope.knot(9));
}

#[test]
fn same_stream_gives_same_trail_and_growing_count() {
    let instructions = parse_instructions(SAMPLE).unwrap();
    let first = Rope::new(2).unwrap().run(&instructions);
    let second = Rope::new(2).unwrap().run(&instructions);
    assert_eq!(first, second);
    let mut last = 0;
    for k in 0..=instructions.len() {
        let count = short_rope(instructions[..k].to_vec());
        assert!(count >= last);
        last = count;
    }
    assert_eq!(last, 13);
}

#[test]
fn positions_add_and_subtract() {
    let a = GridPos { x: 3, y: -4 };
    let b = GridPos { x: -1, y: 6 };
    assert_eq!(a + b, GridPos { x: 2, y: 2 });
    assert_eq!(a - b, GridPos { x: 4, y: -10 });
}

#[test]
fn the_head_needs_room() {
    let rope = Rope::new(3).unwrap();
    assert!(rope.can_step(Instruction::Up));
    assert!(rope.can_step(Instruction::Left));
}

#[test]
fn no_rope_without_a_knot() {
    assert!(Rope::new(0).is_none());
    assert_eq!(Rope::new(1).unwrap().len(), 1);
    assert_eq!(LineError::InvalidCount.message(), "the repeat count is missing or is not a number");
}

#[test]
fn ropes_of_any_length() {
    let instructions = parse_instructions(LARGER_SAMPLE).unwrap();
    assert!(path_fits(&instructions));
    assert_eq!(simulate(&instructions, 0), None);
    // A rope of one knot: the tail is the head.
    let mut head = (0i32, 0i32);
    let mut seen = std::collections::HashSet::new();
    seen.insert(head);
    for instruction in &instructions {
        match instruction {
            Instruction::Up => head.1 += 1,
            Instruction::Down => head.1 -= 1,
            Instruction::Left => head.0 -= 1,
            Instruction::Right => head.0 += 1,
        }
        seen.insert(head);
    }
    assert_eq!(simulate(&instructions, 1), Some(seen.len()));
    assert_eq!(seen.len(), 96);
    assert_eq!(simulate(&instructions, 2), Some(88));
    assert_eq!(simulate(&instructions, 10), Some(36));
    assert_eq!(simulate(&vec![], 10), Some(1));
    let sample = parse_instructions(SAMPLE).unwrap();
    assert_eq!(simulate(&sample, 2), Some(13));
    assert_eq!(simulate(&sample, 10), Some(1));
}
