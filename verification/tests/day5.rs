use advent_puzzles::day5::add;
use advent_puzzles::day5::top_crates;
use advent_puzzles::day5::Instruction;
use advent_puzzles::day5::InstructionError;
use advent_puzzles::day5::MoveError;
use advent_puzzles::day5::PuzzleError;
use advent_puzzles::day5::Stacks;
use advent_puzzles::day5::StacksError;

const STARTING_INPUT: &str = "    [D]    \n[N] [C]    \n[Z] [M] [P]\n 1   2   3 \n\nmove 1 from 2 to 1\nmove 3 from 1 to 3\nmove 2 from 2 to 1\nmove 1 from 1 to 2\n";

#[test]
fn test_apply_instructions() {
    let stacks = Stacks {
        stacks: vec![vec!['C', 'M'], vec!['C'], vec!['P', 'P']],
    };

    let instructions = vec![
        Instruction {
            n: 1,
            from: 2,
            to: 3,
        },
        Instruction {
            n: 2,
            from: 1,
            to: 3,
        },
    ];

    let result = stacks.apply_instructions(instructions).unwrap();
    let expected = Stacks {
        stacks: vec![vec![], vec![], vec!['P', 'P', 'C', 'M', 'C']],
    };

    assert_eq!(result, expected);
}

#[test]
fn test_starting_state_parsing() {
    let starting_state_input = "[C]     [P]\n[N] [C] [P]\n 1   2   3  ";
    let starting_stacks = Stacks::try_from(starting_state_input).unwrap();
    assert_eq!(
        starting_stacks.stacks,
        vec![vec!['N', 'C'], vec!['C'], vec!['P', 'P']]
    );
}

#[test]
fn test_instruction_parsing() {
    let instructions = "move 1 from 2 to 3\nmove 2 from 2 to 3\nmove 3 from 2 to 4\n"
        .lines()
        .map(|line| Instruction::try_from(line).unwrap())
        .collect::<Vec<_>>();

    assert_eq!(
        instructions,
        vec![
            Instruction {
                n: 1,
                from: 2,
                to: 3
            },
            Instruction {
                n: 2,
                from: 2,
                to: 3
            },
            Instruction {
                n: 3,
                from: 2,
                to: 4
            },
        ]
    )
}

#[test]
fn starting_example() {
    let starting_input = STARTING_INPUT;

    let result = top_crates(starting_input).unwrap();

    let top_elements_end_state = vec!['C', 'M', 'Z'];
    assert_eq!(result, top_elements_end_state);
}

#[test]
fn final_result() {
    let input = "[A] [B] [C] [D]\n 1   2   3   4 \n\nmove 1 from 1 to 4\nmove 2 from 4 to 2\nmove 1 from 3 to 1\n";
    let result = top_crates(input).unwrap();
    println!("{:?}", result);
    assert_eq!(result, vec!['C', 'D', ' ', ' ']);
}

#[test]
fn drawing_without_an_index_row() {
    assert_eq!(Stacks::try_from("[A] [B]\n[C] [D]").err(), Some(StacksError::NoIndexRow));
    assert_eq!(Stacks::try_from("").err(), Some(StacksError::NoIndexRow));
    assert_eq!(StacksError::NoIndexRow.message(), "No index row found");
}

#[test]
fn drawing_with_a_short_line() {
    assert_eq!(Stacks::try_from("[A]\n[C] [D]\n 1   2 ").err(), Some(StacksError::ShortLine));
    assert_eq!(Stacks::try_from("[A] [B]\n 1   2 \n\n").err(), Some(StacksError::ShortLine));
}

#[test]
fn an_empty_line_is_an_index_row_without_stacks() {
    let stacks = Stacks::try_from("\n[A]\n 1 ").unwrap();
    assert_eq!(stacks.stacks, Vec::<Vec<char>>::new());
    assert_eq!(stacks.get_top_elements(), Vec::<char>::new());
}

#[test]
fn every_line_is_read_in_every_column() {
    // Lines below the index row count as well, and a tab in the index row
    // marks a column.
    let stacks = Stacks::try_from("[A] [B]\n 1   2 \n x   y ").unwrap();
    assert_eq!(stacks.stacks, vec![vec!['x', 'A'], vec!['y', 'B']]);
    let tabbed = Stacks::try_from("ab\n\t1").unwrap();
    assert_eq!(tabbed.stacks, vec![vec!['\t', 'a'], vec!['b']]);
}

#[test]
fn words_of_an_instruction() {
    assert_eq!(Instruction::try_from("a 1 b 2 c 3"), Ok(Instruction { n: 1, from: 2, to: 3 }));
    assert_eq!(
        Instruction::try_from("  move\t10 from 2 to 3 and more "),
        Ok(Instruction { n: 10, from: 2, to: 3 })
    );
    assert_eq!(Instruction::try_from(""), Err(InstructionError::MissingWord));
    assert_eq!(Instruction::try_from("move"), Err(InstructionError::MissingWord));
    assert_eq!(Instruction::try_from("move x"), Err(InstructionError::InvalidNumber));
    assert_eq!(Instruction::try_from("move 1 from"), Err(InstructionError::MissingWord));
    assert_eq!(Instruction::try_from("move 1 from -2 to 3"), Err(InstructionError::InvalidNumber));
    assert_eq!(Instruction::try_from("move 1 from 2 to"), Err(InstructionError::MissingWord));
    assert_eq!(Instruction::try_from("move 1 from 2 to x"), Err(InstructionError::InvalidNumber));
    assert_eq!(
        Instruction::try_from("move 1 from 2 to 99999999999999999999999"),
        Err(InstructionError::InvalidNumber)
    );
}

#[test]
fn crates_arrive_in_reverse_order() {
    let stacks = Stacks { stacks: vec![vec!['a', 'b', 'c', 'd'], vec!['x']] };
    let moved = stacks.apply_instruction(Instruction { n: 3, from: 1, to: 2 }).unwrap();
    assert_eq!(moved.stacks, vec![vec!['a'], vec!['x', 'd', 'c', 'b']]);
    assert_eq!(moved.get_top_elements(), vec!['a', 'b']);
}

#[test]
fn instructions_that_cannot_be_carried_out() {
    let stacks = Stacks { stacks: vec![vec!['a', 'b'], vec![]] };
    let go = |n: usize, from: usize, to: usize| {
        stacks.clone().apply_instruction(Instruction { n, from, to }).map(|s| s.stacks)
    };
    assert_eq!(go(0, 9, 9), Ok(vec![vec!['a', 'b'], vec![]]));
    assert_eq!(go(1, 0, 1), Err(MoveError::NoSuchStack));
    assert_eq!(go(1, 3, 1), Err(MoveError::NoSuchStack));
    assert_eq!(go(1, 2, 9), Err(MoveError::NoElementToMove));
    assert_eq!(go(1, 1, 9), Err(MoveError::NoSuchStack));
    assert_eq!(go(1, 1, 0), Err(MoveError::NoSuchStack));
    assert_eq!(go(3, 1, 2), Err(MoveError::NoElementToMove));
    assert_eq!(go(5, 1, 1), Ok(vec![vec!['a', 'b'], vec![]]));
    assert_eq!(go(5, 2, 2), Err(MoveError::NoElementToMove));
    assert_eq!(go(2, 1, 2), Ok(vec![vec![], vec!['b', 'a']]));
    assert_eq!(MoveError::NoElementToMove.message(), "No element to move");
}

#[test]
fn the_first_failing_instruction_stops_the_crane() {
    let stacks = Stacks { stacks: vec![vec!['a'], vec![]] };
    let list = vec![
        Instruction { n: 1, from: 1, to: 2 },
        Instruction { n: 1, from: 1, to: 2 },
        Instruction { n: 1, from: 7, to: 2 },
    ];
    assert_eq!(stacks.apply_instructions(list).err(), Some(MoveError::NoElementToMove));
}

#[test]
fn errors_of_a_puzzle_text() {
    assert_eq!(top_crates("[A]\n\nmove 1 from 1 to 1\n"), Err(PuzzleError::Drawing(StacksError::NoIndexRow)));
    assert_eq!(
        top_crates("[A]\n 1 \n\nmove 1 from 1 to 1\nmove\n"),
        Err(PuzzleError::Line(InstructionError::MissingWord))
    );
    assert_eq!(
        top_crates("[A]\n 1 \n\nmove 1 from 1 to 2\n"),
        Err(PuzzleError::Crane(MoveError::NoSuchStack))
    );
    assert_eq!(top_crates("[A]\n 1 \n"), Ok(vec!['A']));
    assert_eq!(top_crates("[A]\n 1 \n\nnotes\nmove 0 from 1 to 1\n"), Ok(vec!['A']));
}

#[test]
fn adds_two_counts() {
    assert_eq!(add(40, 2), 42);
}
