//! The library against short programs written with the standard library
//! and itertools, on generated inputs.

use advent_puzzles::day01;
use advent_puzzles::day06;
use advent_puzzles::day10;
use advent_puzzles::day1_lib;
use advent_puzzles::day3;
use advent_puzzles::day4;
use advent_puzzles::day5;
use advent_puzzles::day7;
use advent_puzzles::day8;
use advent_puzzles::day9;
use id_tree::InsertBehavior;
use id_tree::Node;
use id_tree::Tree;
use itertools::Itertools;
use std::collections::HashSet;

/// A small generator of numbers that gives the same numbers on every run.
struct Numbers(u64);

impl Numbers {
    fn next(&mut self) -> u64 {
        self.0 = self.0.wrapping_mul(6364136223846793005).wrapping_add(1442695040888963407);
        self.0 >> 33
    }

    fn below(&mut self, bound: u64) -> u64 {
        self.next() % bound
    }

    fn text(&mut self, alphabet: &[&str], pieces: u64) -> String {
        let count = self.below(pieces + 1);
        (0..count).map(|_| alphabet[self.below(alphabet.len() as u64) as usize]).collect()
    }
}

#[test]
fn lines_agree_with_the_standard_library() {
    let mut numbers = Numbers(1);
    for _ in 0..2000 {
        let text = numbers.text(&["a", "b", "\n", "\r", "\r\n", " ", "é"], 12);
        let expected: Vec<Vec<&str>> = text
            .lines()
            .collect::<Vec<_>>()
            .chunks_exact(3)
            .map(|chunk| chunk.to_vec())
            .collect();
        assert_eq!(day3::parse_input_to_groups(&text), expected, "{:?}", text);
    }
}

#[test]
fn unsigned_numbers_agree_with_the_standard_library() {
    let mut numbers = Numbers(2);
    for _ in 0..3000 {
        let text = numbers.text(&["0", "1", "4", "9", "+", "-", " ", "x", "4294967295", "4294967296"], 4);
        let expected = text.parse::<u32>().ok();
        let got = day4::ZoneAssignment::try_from(text.as_str()).ok();
        if text.contains('-') {
            continue;
        }
        assert_eq!(
            got.map(|zone| (*zone.range.start(), *zone.range.end())),
            expected.map(|n| (n, n)),
            "{:?}",
            text
        );
    }
}

#[test]
fn signed_numbers_agree_with_the_standard_library() {
    let mut numbers = Numbers(3);
    for _ in 0..3000 {
        let text = numbers.text(&["0", "1", "7", "+", "-", "x", "2147483647", "2147483648", "214748364"], 4);
        let expected = text.parse::<i32>().ok();
        let line = format!("addx {}", text);
        let got = match day10::Instruction::parse(&line) {
            Ok(day10::Instruction::Addx(n)) => Some(n),
            _ => None,
        };
        assert_eq!(got, expected, "{:?}", text);
    }
}

#[test]
fn word_numbers_agree_with_the_standard_library() {
    let mut numbers = Numbers(4);
    for _ in 0..3000 {
        let text = numbers.text(&["0", "3", "+", "-", " ", "\t", "x", "18446744073709551615", "18446744073709551616"], 5);
        let line = format!("move {} from 1 to 2", text);
        let parts = line.split_ascii_whitespace().collect::<Vec<_>>();
        let expected = if parts.len() < 6 {
            None
        } else {
            match (parts[1].parse::<usize>(), parts[3].parse::<usize>(), parts[5].parse::<usize>()) {
                (Ok(n), Ok(from), Ok(to)) => Some(day5::Instruction { n, from, to }),
                _ => None,
            }
        };
        assert_eq!(day5::Instruction::try_from(line.as_str()).ok(), expected, "{:?}", line);
    }
}

#[test]
fn group_totals_agree_with_batching() {
    let mut numbers = Numbers(5);
    for _ in 0..2000 {
        let text = numbers.text(&["1", "20", "\n", "\n", "x", "\r\n", "+3"], 14);
        let expected: Vec<u32> = text
            .lines()
            .map(|v| v.parse::<u32>().ok())
            .batching(|l| {
                let mut sum = None;
                while let Some(Some(v)) = l.next() {
                    sum = Some(sum.unwrap_or(0) + v);
                }
                sum
            })
            .collect();
        assert_eq!(day01::parse_string_to_elves(&text), expected, "{:?}", text);
    }
}

#[test]
fn closed_group_totals_agree_with_a_loop() {
    let mut numbers = Numbers(6);
    for _ in 0..2000 {
        let text = numbers.text(&["1", "-20", "\n", "\n", "x", "\r\n", "+3"], 14);
        let mut expected: Result<Vec<i32>, usize> = Ok(Vec::new());
        let mut open: Vec<i32> = Vec::new();
        for (index, line) in text.lines().enumerate() {
            if line.is_empty() {
                if let Ok(totals) = expected.as_mut() {
                    totals.push(open.iter().sum());
                }
                open.clear();
            } else {
                match line.parse::<i32>() {
                    Ok(n) => open.push(n),
                    Err(_) => {
                        expected = Err(index);
                        break;
                    }
                }
            }
        }
        let got = day1_lib::parse_string_to_elves(&text).map_err(|error| match error {
            day1_lib::ElvesError::InvalidLine { line } => line,
            day1_lib::ElvesError::TotalTooLarge { .. } => usize::MAX,
        });
        assert_eq!(got, expected, "{:?}", text);
    }
}

#[test]
fn sums_of_the_largest_agree_with_sorting() {
    let mut numbers = Numbers(7);
    for _ in 0..1000 {
        let count = numbers.below(8);
        let list: Vec<i32> = (0..count).map(|_| numbers.below(41) as i32 - 20).collect();
        let top_n = numbers.below(10) as usize;
        let mut sorted = list.clone();
        sorted.sort();
        let expected: i32 = sorted.iter().rev().take(top_n).sum();
        assert_eq!(day01::get_sum_of_top_n(list.clone(), top_n), expected);
        let mut in_place = list.clone();
        assert_eq!(day1_lib::get_sum_of_top_n(&mut in_place, top_n), expected);
        assert_eq!(in_place, sorted);
    }
}

#[test]
fn markers_agree_with_windows() {
    let mut numbers = Numbers(8);
    for _ in 0..2000 {
        let text = numbers.text(&["a", "b", "c", "d", "é"], 12);
        let window_size = 1 + numbers.below(4) as u32;
        let window_usize = window_size as usize;
        let expected = text
            .as_bytes()
            .windows(window_usize)
            .position(|window| window.iter().unique().count() == window_usize)
            .map(|pos| pos + window_usize);
        assert_eq!(
            day06::get_end_index_of_first_unique_chunk(&text, window_size),
            expected,
            "{:?} {}",
            text,
            window_size
        );
        let index = numbers.below(14) as usize;
        assert_eq!(day06::get_char_at_index(&text, index), text.chars().nth(index));
    }
}

#[test]
fn shared_characters_agree_with_sets() {
    let mut numbers = Numbers(9);
    for _ in 0..1000 {
        let count = 1 + numbers.below(3);
        let strings: Vec<String> = (0..count).map(|_| numbers.text(&["a", "b", "c", "D"], 5)).collect();
        let sets: Vec<HashSet<char>> = strings.iter().map(|s| s.chars().collect()).collect();
        let mut expected = sets[0].clone();
        for set in sets.iter().skip(1) {
            expected = expected.intersection(set).cloned().collect();
        }
        let got = day3::get_shared_chars(strings.iter().map(|s| s.as_str()).collect());
        assert_eq!(got.iter().cloned().collect::<HashSet<char>>(), expected);
        assert_eq!(got.len(), expected.len());
    }
}

#[test]
fn ropes_agree_with_a_set_of_positions() {
    let mut numbers = Numbers(10);
    for _ in 0..300 {
        let text: String = (0..numbers.below(12))
            .map(|_| format!("{} {}\n", ["U", "D", "L", "R"][numbers.below(4) as usize], numbers.below(9)))
            .collect();
        let instructions = day9::instruction_parsing::parse_instructions(&text).unwrap();
        let expected_steps: usize = text
            .lines()
            .map(|line| line[2..].parse::<usize>().unwrap())
            .sum();
        assert_eq!(instructions.len(), expected_steps);
        for knots in [1usize, 2, 3, 10] {
            let mut chain = vec![(0i32, 0i32); knots];
            let mut seen = HashSet::new();
            seen.insert(chain[knots - 1]);
            for instruction in &instructions {
                match instruction {
                    day9::instruction_parsing::Instruction::Up => chain[0].1 += 1,
                    day9::instruction_parsing::Instruction::Down => chain[0].1 -= 1,
                    day9::instruction_parsing::Instruction::Left => chain[0].0 -= 1,
                    day9::instruction_parsing::Instruction::Right => chain[0].0 += 1,
                }
                for i in 1..knots {
                    let dx = chain[i - 1].0 - chain[i].0;
                    let dy = chain[i - 1].1 - chain[i].1;
                    if dx.abs() > 1 || dy.abs() > 1 {
                        chain[i].0 += dx.signum();
                        chain[i].1 += dy.signum();
                    }
                }
                seen.insert(chain[knots - 1]);
            }
            assert_eq!(day9::simulate(&instructions, knots), Some(seen.len()), "{:?}", text);
        }
    }
}

#[test]
fn scenic_scores_agree_with_four_walks() {
    let mut numbers = Numbers(11);
    for _ in 0..200 {
        let width = 1 + numbers.below(6) as usize;
        let height = 1 + numbers.below(6) as usize;
        let rows: Vec<Vec<usize>> = (0..height)
            .map(|_| (0..width).map(|_| numbers.below(10) as usize).collect())
            .collect();
        let text: String = rows
            .iter()
            .map(|row| row.iter().map(|tree| tree.to_string()).collect::<String>() + "\n")
            .collect();
        let grid = day8::parse_grid(&text).unwrap();
        let mut best = 0;
        for y in 0..height {
            for x in 0..width {
                let mut score = 1;
                for (dx, dy) in [(0isize, -1isize), (-1, 0), (1, 0), (0, 1)] {
                    let mut seen = 0;
                    let (mut cx, mut cy) = (x as isize, y as isize);
                    loop {
                        cx += dx;
                        cy += dy;
                        if cx < 0 || cy < 0 || cx >= width as isize || cy >= height as isize {
                            break;
                        }
                        seen += 1;
                        if rows[cy as usize][cx as usize] >= rows[y][x] {
                            break;
                        }
                    }
                    score *= seen;
                }
                assert_eq!(
                    day8::get_scenic_score(&grid, day8::grid::GridCoord { x, y }),
                    Some(score),
                    "{:?}",
                    text
                );
                best = best.max(score);
            }
        }
        assert_eq!(day8::max_scenic_score(&grid), Some(best));
    }
}

#[test]
fn stacks_agree_with_reading_by_columns() {
    let mut numbers = Numbers(12);
    for _ in 0..500 {
        let stacks_count = 1 + numbers.below(4) as usize;
        let height = numbers.below(4) as usize;
        let mut lines: Vec<String> = Vec::new();
        for _ in 0..height {
            let line: String = (0..stacks_count)
                .map(|_| if numbers.below(2) == 0 { "    ".to_string() } else { format!("[{}] ", ["A", "B", "C"][numbers.below(3) as usize]) })
                .collect();
            lines.push(line);
        }
        lines.push((1..=stacks_count).map(|i| format!(" {}  ", i)).collect());
        let text = lines.join("\n");

        let index_row = lines
            .iter()
            .position(|line| line.chars().all(|c| c.is_ascii_digit() || c.is_ascii_whitespace()))
            .unwrap();
        let positions: Vec<usize> = lines[index_row]
            .chars()
            .enumerate()
            .filter(|(_, c)| *c != ' ')
            .map(|(i, _)| i)
            .collect();
        let mut expected: Vec<Vec<char>> = vec![vec![]; positions.len()];
        for line in lines.iter() {
            for (i, position) in positions.iter().enumerate() {
                let element = line.chars().nth(*position).unwrap();
                if element != ' ' && !element.is_ascii_digit() {
                    expected[i].push(element);
                }
            }
        }
        expected.iter_mut().for_each(|stack| stack.reverse());
        assert_eq!(day5::Stacks::try_from(text.as_str()).unwrap().stacks, expected, "{:?}", text);
    }
}

fn subtree_size(tree: &Tree<u64>, node: &Node<u64>) -> u64 {
    let mut total = *node.data();
    for child in node.children() {
        total += subtree_size(tree, tree.get(child).unwrap());
    }
    total
}

fn answer_with_a_tree(text: &str) -> Result<Option<u64>, day7::FsError> {
    let mut tree = Tree::<u64>::new();
    let root = tree.insert(Node::new(0), InsertBehavior::AsRoot).unwrap();
    let mut curr = root.clone();
    for line in text.lines() {
        if let Some(path) = line.strip_prefix("$ cd ") {
            match path {
                "/" => {}
                ".." => {
                    curr = match tree.get(&curr).unwrap().parent() {
                        Some(parent) => parent.clone(),
                        None => return Err(day7::FsError::NoParent),
                    };
                }
                _ => {
                    curr = tree.insert(Node::new(0), InsertBehavior::UnderNode(&curr)).unwrap();
                }
            }
        } else if line.as_bytes()[0].is_ascii_digit() {
            let size = line.split(' ').next().unwrap().parse::<u64>().unwrap();
            tree.insert(Node::new(size), InsertBehavior::UnderNode(&curr)).unwrap();
        }
    }
    let usage = subtree_size(&tree, tree.get(&root).unwrap());
    if usage > 70000000 {
        return Err(day7::FsError::DiskOverfull);
    }
    let free = 70000000 - usage;
    if free > 30000000 {
        return Err(day7::FsError::NothingToFree);
    }
    let size_to_free = 30000000 - free;
    Ok(tree
        .traverse_pre_order(&root)
        .unwrap()
        .filter(|n| !n.children().is_empty())
        .map(|n| subtree_size(&tree, n))
        .filter(|&n| n > size_to_free)
        .min())
}

#[test]
fn sessions_agree_with_a_tree_built_by_hand() {
    let mut numbers = Numbers(13);
    let mut answers = 0;
    for _ in 0..3000 {
        let count = numbers.below(14);
        let text: String = (0..count)
            .map(|_| match numbers.below(9) {
                0 => "$ ls\n".to_string(),
                1 => "$ cd /\n".to_string(),
                2 | 3 => "$ cd ..\n".to_string(),
                4 | 5 => format!("$ cd {}\n", ["a", "b", "c.d"][numbers.below(3) as usize]),
                6 => format!("dir {}\n", ["a", "b"][numbers.below(2) as usize]),
                _ => format!("{} f.txt\n", numbers.below(5) * 7000000 + numbers.below(3)),
            })
            .collect();
        let expected = answer_with_a_tree(&text);
        if let Ok(Some(_)) = expected {
            answers += 1;
        }
        assert_eq!(day7::smallest_directory_to_free(&text), expected, "{:?}", text);
    }
    assert!(answers > 100);
}
