use advent_puzzles::day2::char_pairs_to_round;
use advent_puzzles::day2::parse_input_to_moves;
use advent_puzzles::day2::str_to_char_pairs;
use advent_puzzles::day2::total_points;
use advent_puzzles::day2::DesiredResult;
use advent_puzzles::day2::GuideError;
use advent_puzzles::day2::Move;
use advent_puzzles::day2::Round;

#[test]
fn test_parse_str_to_move_pairs() {
    let move_pairs = str_to_char_pairs("A X\nB Y\nC Z").unwrap();
    assert_eq!(move_pairs, vec![("A", "X"), ("B", "Y"), ("C", "Z")]);
}

#[test]
fn test_str_to_move_enum() {
    let current_move = Move::try_from('A').unwrap();
    assert_eq!(current_move, Move::Rock);
}

#[test]
fn guide_of_three_rounds_scores_twelve() {
    let moves = parse_input_to_moves("A Y\nB X\nC Z").unwrap();
    assert_eq!(
        moves,
        vec![
            Round { ours: Move::Rock, theirs: Move::Rock },
            Round { ours: Move::Rock, theirs: Move::Paper },
            Round { ours: Move::Rock, theirs: Move::Scissors },
        ]
    );
    let round_points = moves.iter().map(|round| round.points()).collect::<Vec<_>>();
    assert_eq!(round_points, vec![4, 1, 7]);
    assert_eq!(total_points(&moves), 12);
    assert_eq!(total_points(&vec![]), 0);
}

#[test]
fn points_of_every_round() {
    let shapes = [Move::Rock, Move::Paper, Move::Scissors];
    let expected = [[4, 1, 7], [8, 5, 2], [3, 9, 6]];
    for (i, ours) in shapes.iter().enumerate() {
        for (j, theirs) in shapes.iter().enumerate() {
            let round = Round { ours: *ours, theirs: *theirs };
            assert_eq!(round.points(), expected[i][j]);
        }
    }
}

#[test]
fn shapes_beat_each_other_in_a_circle() {
    assert_eq!(Move::Rock.wins_against(), Move::Scissors);
    assert_eq!(Move::Paper.wins_against(), Move::Rock);
    assert_eq!(Move::Scissors.wins_against(), Move::Paper);
    for shape in [Move::Rock, Move::Paper, Move::Scissors] {
        assert_eq!(shape.wins_against().loses_against(), shape);
        assert_eq!(shape.loses_against().wins_against(), shape);
    }
}

#[test]
fn letters_stand_for_moves_and_results() {
    assert_eq!(Move::try_from('B'), Ok(Move::Paper));
    assert_eq!(Move::try_from('C'), Ok(Move::Scissors));
    assert_eq!(Move::try_from('X'), Err(GuideError::InvalidMove));
    assert_eq!(DesiredResult::try_from('X'), Ok(DesiredResult::Loss));
    assert_eq!(DesiredResult::try_from('Y'), Ok(DesiredResult::Draw));
    assert_eq!(DesiredResult::try_from('Z'), Ok(DesiredResult::Win));
    assert_eq!(DesiredResult::try_from('A'), Err(GuideError::InvalidMove));
    assert_eq!(GuideError::InvalidMove.message(), "Invalid move");
}

#[test]
fn rounds_that_reach_a_result() {
    assert_eq!(
        DesiredResult::Win.get_round(Move::Rock),
        Round { ours: Move::Paper, theirs: Move::Rock }
    );
    assert_eq!(
        DesiredResult::Draw.get_round(Move::Paper),
        Round { ours: Move::Paper, theirs: Move::Paper }
    );
    assert_eq!(
        DesiredResult::Loss.get_round(Move::Scissors),
        Round { ours: Move::Paper, theirs: Move::Scissors }
    );
}

#[test]
fn lines_are_parted_at_their_first_space() {
    assert_eq!(str_to_char_pairs("A X Y\n Z\nB \n"), Ok(vec![("A", "X Y"), ("", "Z"), ("B", "")]));
    assert_eq!(str_to_char_pairs(""), Ok(vec![]));
    assert_eq!(str_to_char_pairs("A X\nBY\n"), Err(GuideError::InvalidInput));
    assert_eq!(str_to_char_pairs("A X\n\nB Y"), Err(GuideError::InvalidInput));
}

#[test]
fn first_letters_make_the_round() {
    assert_eq!(
        char_pairs_to_round(vec![("Alpha", "Zulu")]),
        Ok(vec![Round { ours: Move::Paper, theirs: Move::Rock }])
    );
    assert_eq!(char_pairs_to_round(vec![("", "X")]), Err(GuideError::MissingLetter));
    assert_eq!(char_pairs_to_round(vec![("A", "")]), Err(GuideError::MissingLetter));
    assert_eq!(char_pairs_to_round(vec![("D", "X")]), Err(GuideError::InvalidMove));
    assert_eq!(char_pairs_to_round(vec![("A", "W")]), Err(GuideError::InvalidMove));
    assert_eq!(char_pairs_to_round(vec![("A", "X"), ("A", ""), ("D", "X")]), Err(GuideError::MissingLetter));
    assert_eq!(parse_input_to_moves("A X\nB"), Err(GuideError::InvalidInput));
    assert_eq!(parse_input_to_moves("A X\nB Q"), Err(GuideError::InvalidMove));
}
