//! Rock, paper, scissors by a strategy guide: each line names the other
//! player's move and the result to reach, and a round scores points for
//! the shape played and for the outcome.

use crate::text::chars_of;
use crate::text::find_char;
use crate::text::find_char_from;
use crate::text::line_ranges;
use crate::text::lines;
use crate::text::ranges_cut;
use vstd::prelude::*;
use vstd::slice::slice_subrange;
use vstd::string::StrSliceExecFns;

verus! {

/// One of the three shapes.
#[derive(Debug, Clone, Copy, PartialEq, Eq, Structural)]
pub enum Move {
    Rock,
    Paper,
    Scissors,
}

/// What we play and what the other player plays.
#[derive(Debug, Clone, Copy, PartialEq, Eq, Structural)]
pub struct Round {
    pub ours: Move,
    pub theirs: Move,
}

/// The result that the guide asks for.
#[derive(Debug, Clone, Copy, PartialEq, Eq, Structural)]
pub enum DesiredResult {
    Win,
    Draw,
    Loss,
}

/// Why a text is no strategy guide.
#[derive(Debug, Clone, Copy, PartialEq, Eq, Structural)]
pub enum GuideError {
    /// A line holds no space to part its two words.
    InvalidInput,
    /// A word is empty, so that it has no first letter.
    MissingLetter,
    /// A letter stands for no move or for no result.
    InvalidMove,
}

impl GuideError {
    /// The sentence for the user, as characters.
    pub open spec fn sentence(self) -> Seq<char> {
        match self {
            GuideError::InvalidInput => "Invalid input"@,
            GuideError::MissingLetter => "Missing letter"@,
            GuideError::InvalidMove => "Invalid move"@,
        }
    }

    /// A sentence for the user.
    pub fn message(&self) -> (text: &'static str)
        ensures
            text@ == self.sentence(),
    {
        match self {
            GuideError::InvalidInput => "Invalid input",
            GuideError::MissingLetter => "Missing letter",
            GuideError::InvalidMove => "Invalid move",
        }
    }
}

/// The shape that `shape` beats.
pub open spec fn beaten_by(shape: Move) -> Move {
    match shape {
        Move::Rock => Move::Scissors,
        Move::Paper => Move::Rock,
        Move::Scissors => Move::Paper,
    }
}

/// The shape that beats `shape`.
pub open spec fn winner_over(shape: Move) -> Move {
    match shape {
        Move::Rock => Move::Paper,
        Move::Paper => Move::Scissors,
        Move::Scissors => Move::Rock,
    }
}

/// The points for playing a shape: 1 for rock, 2 for paper, 3 for scissors.
pub open spec fn shape_points(shape: Move) -> int {
    match shape {
        Move::Rock => 1,
        Move::Paper => 2,
        Move::Scissors => 3,
    }
}

/// The points for the outcome: 3 for a draw, 6 for a win, 0 for a loss.
pub open spec fn outcome_points(round: Round) -> int {
    if round.ours == round.theirs {
        3
    } else if beaten_by(round.ours) == round.theirs {
        6
    } else {
        0
    }
}

/// The points of a round.
pub open spec fn round_points(round: Round) -> int {
    outcome_points(round) + shape_points(round.ours)
}

/// The move that a letter of the first column stands for.
pub open spec fn letter_move(letter: char) -> Option<Move> {
    if letter == 'A' {
        Some(Move::Rock)
    } else if letter == 'B' {
        Some(Move::Paper)
    } else if letter == 'C' {
        Some(Move::Scissors)
    } else {
        None
    }
}

/// The result that a letter of the second column stands for.
pub open spec fn letter_result(letter: char) -> Option<DesiredResult> {
    if letter == 'X' {
        Some(DesiredResult::Loss)
    } else if letter == 'Y' {
        Some(DesiredResult::Draw)
    } else if letter == 'Z' {
        Some(DesiredResult::Win)
    } else {
        None
    }
}

/// The round in which we reach `result` against `theirs`.
pub open spec fn round_for(result: DesiredResult, theirs: Move) -> Round {
    match result {
        DesiredResult::Win => Round { ours: winner_over(theirs), theirs },
        DesiredResult::Draw => Round { ours: theirs, theirs },
        DesiredResult::Loss => Round { ours: beaten_by(theirs), theirs },
    }
}

impl Round {
    /// The points that the round scores for us.
    pub fn points(&self) -> (p: u32)
        ensures
            p == round_points(*self),
    {
        let victory_points: u32 = if self.ours == self.theirs {
            3
        } else if self.ours.wins_against() == self.theirs {
            6
        } else {
            0
        };
        let our_move_points: u32 = if self.ours == Move::Rock {
            1
        } else if self.ours == Move::Paper {
            2
        } else {
            3
        };
        victory_points + our_move_points
    }
}

impl Move {
    /// The shape that this shape beats.
    pub fn wins_against(&self) -> (other: Move)
        ensures
            other == beaten_by(*self),
    {
        match self {
            Move::Rock => Move::Scissors,
            Move::Paper => Move::Rock,
            Move::Scissors => Move::Paper,
        }
    }

    /// The shape that beats this shape.
    pub fn loses_against(&self) -> (other: Move)
        ensures
            other == winner_over(*self),
    {
        match self {
            Move::Rock => Move::Paper,
            Move::Paper => Move::Scissors,
            Move::Scissors => Move::Rock,
        }
    }

    /// The move that `A`, `B` or `C` stands for.
    pub fn try_from(value: char) -> (r: Result<Move, GuideError>)
        ensures
            match r {
                Ok(shape) => letter_move(value) == Some(shape),
                Err(e) => letter_move(value) is None && e == GuideError::InvalidMove,
            },
    {
        if value == 'A' {
            Ok(Move::Rock)
        } else if value == 'B' {
            Ok(Move::Paper)
        } else if value == 'C' {
            Ok(Move::Scissors)
        } else {
            Err(GuideError::InvalidMove)
        }
    }
}

impl DesiredResult {
    /// The round in which we reach this result against `other_move`.
    pub fn get_round(&self, other_move: Move) -> (round: Round)
        ensures
            round == round_for(*self, other_move),
    {
        match self {
            DesiredResult::Win => Round { ours: other_move.loses_against(), theirs: other_move },
            DesiredResult::Draw => Round { ours: other_move, theirs: other_move },
            DesiredResult::Loss => Round { ours: other_move.wins_against(), theirs: other_move },
        }
    }

    /// The result that `X`, `Y` or `Z` stands for.
    pub fn try_from(value: char) -> (r: Result<DesiredResult, GuideError>)
        ensures
            match r {
                Ok(result) => letter_result(value) == Some(result),
                Err(e) => letter_result(value) is None && e == GuideError::InvalidMove,
            },
    {
        if value == 'X' {
            Ok(DesiredResult::Loss)
        } else if value == 'Y' {
            Ok(DesiredResult::Draw)
        } else if value == 'Z' {
            Ok(DesiredResult::Win)
        } else {
            Err(GuideError::InvalidMove)
        }
    }
}

/// The two words of a line: what stands before its first space and what
/// stands after it. `None` for a line without a space.
pub open spec fn line_pair(line: Seq<char>) -> Option<(Seq<char>, Seq<char>)> {
    let space = find_char(line, ' ', 0);
    if space < line.len() {
        Some((line.take(space), line.skip(space + 1)))
    } else {
        None
    }
}

/// The pairs of words of all the lines, or the error of the first line
/// without a space.
pub open spec fn lines_pairs(ls: Seq<Seq<char>>) -> Result<Seq<(Seq<char>, Seq<char>)>, GuideError>
    decreases ls.len(),
{
    if ls.len() == 0 {
        Ok(Seq::empty())
    } else {
        match lines_pairs(ls.drop_last()) {
            Err(e) => Err(e),
            Ok(before) => match line_pair(ls.last()) {
                None => Err(GuideError::InvalidInput),
                Some(pair) => Ok(before.push(pair)),
            },
        }
    }
}

/// The round that a pair of words stands for: the first letter of the
/// first word is their move, the first letter of the second word the result
/// to reach.
pub open spec fn pair_round(pair: (Seq<char>, Seq<char>)) -> Result<Round, GuideError> {
    if pair.0.len() == 0 || pair.1.len() == 0 {
        Err(GuideError::MissingLetter)
    } else if letter_result(pair.1[0]) is None || letter_move(pair.0[0]) is None {
        Err(GuideError::InvalidMove)
    } else {
        Ok(round_for(letter_result(pair.1[0])->0, letter_move(pair.0[0])->0))
    }
}

/// The rounds of all the pairs, or the error of the first pair that stands
/// for no round.
pub open spec fn pairs_rounds(pairs: Seq<(Seq<char>, Seq<char>)>) -> Result<Seq<Round>, GuideError>
    decreases pairs.len(),
{
    if pairs.len() == 0 {
        Ok(Seq::empty())
    } else {
        match pairs_rounds(pairs.drop_last()) {
            Err(e) => Err(e),
            Ok(before) => match pair_round(pairs.last()) {
                Err(e) => Err(e),
                Ok(round) => Ok(before.push(round)),
            },
        }
    }
}

/// The rounds of a strategy guide.
pub open spec fn guide_rounds(input: Seq<char>) -> Result<Seq<Round>, GuideError> {
    match lines_pairs(lines(input)) {
        Err(e) => Err(e),
        Ok(pairs) => pairs_rounds(pairs),
    }
}

/// The views of a list of pairs of words.
pub open spec fn pairs_view(pairs: Seq<(&str, &str)>) -> Seq<(Seq<char>, Seq<char>)> {
    Seq::new(pairs.len(), |i: int| (pairs[i].0@, pairs[i].1@))
}

/// A line among the first `k` without a space makes the whole text fail.
proof fn lemma_pairs_failure_stays(ls: Seq<Seq<char>>, k: int)
    requires
        0 <= k <= ls.len(),
        lines_pairs(ls.take(k)) is Err,
    ensures
        lines_pairs(ls) == lines_pairs(ls.take(k)),
    decreases ls.len(),
{
    if k == ls.len() {
        assert(ls.take(k) == ls);
    } else {
        assert(ls.drop_last().take(k) == ls.take(k));
        lemma_pairs_failure_stays(ls.drop_last(), k);
    }
}

/// A pair among the first `k` that stands for no round makes the whole list
/// fail.
proof fn lemma_rounds_failure_stays(pairs: Seq<(Seq<char>, Seq<char>)>, k: int)
    requires
        0 <= k <= pairs.len(),
        pairs_rounds(pairs.take(k)) is Err,
    ensures
        pairs_rounds(pairs) == pairs_rounds(pairs.take(k)),
    decreases pairs.len(),
{
    if k == pairs.len() {
        assert(pairs.take(k) == pairs);
    } else {
        assert(pairs.drop_last().take(k) == pairs.take(k));
        lemma_rounds_failure_stays(pairs.drop_last(), k);
    }
}

/// Parts every line of `input` at its first space.
pub fn str_to_char_pairs<'a>(input: &'a str) -> (r: Result<Vec<(&'a str, &'a str)>, GuideError>)
    ensures
        match r {
            Ok(pairs) => lines_pairs(lines(input@)) == Ok::<
                Seq<(Seq<char>, Seq<char>)>,
                GuideError,
            >(pairs_view(pairs@)),
            Err(e) => lines_pairs(lines(input@)) == Err::<Seq<(Seq<char>, Seq<char>)>, GuideError>(
                e,
            ),
        },
{
    let chars = chars_of(input);
    let ranges = line_ranges(chars.as_slice());
    let ghost all = lines(input@);
    let mut pairs: Vec<(&'a str, &'a str)> = Vec::new();
    let mut i: usize = 0;
    assert(all.take(0) == Seq::<Seq<char>>::empty());
    assert(pairs_view(pairs@) =~= Seq::<(Seq<char>, Seq<char>)>::empty());
    while i < ranges.len()
        invariant
            i <= ranges@.len(),
            chars@ == input@,
            all == lines(input@),
            ranges_cut(chars@, ranges@, all),
            lines_pairs(all.take(i as int)) == Ok::<Seq<(Seq<char>, Seq<char>)>, GuideError>(
                pairs_view(pairs@),
            ),
        decreases ranges@.len() - i,
    {
        let (from, to) = ranges[i];
        let line = slice_subrange(chars.as_slice(), from, to);
        proof {
            assert(line@ == all[i as int]);
            assert(all.take(i + 1).drop_last() == all.take(i as int));
            assert(all.take(i + 1).last() == all[i as int]);
        }
        let space = find_char_from(line, ' ', 0);
        if space >= line.len() {
            proof {
                lemma_pairs_failure_stays(all, i + 1);
            }
            return Err(GuideError::InvalidInput);
        }
        let first = input.substring_char(from, from + space);
        let second = input.substring_char(from + space + 1, to);
        proof {
            assert(first@ == line@.take(space as int));
            assert(second@ == line@.skip(space + 1));
        }
        let ghost before = pairs@;
        pairs.push((first, second));
        proof {
            assert(pairs_view(pairs@) =~= pairs_view(before).push((first@, second@)));
        }
        i += 1;
    }
    assert(all.take(i as int) == all);
    Ok(pairs)
}

/// Reads the first letters of a pair of words as a round.
fn pair_to_round(first: &str, second: &str) -> (r: Result<Round, GuideError>)
    ensures
        r == pair_round((first@, second@)),
{
    if first.unicode_len() == 0 || second.unicode_len() == 0 {
        return Err(GuideError::MissingLetter);
    }
    let their_char = first.get_char(0);
    let outcome_char = second.get_char(0);
    let desired_result = match DesiredResult::try_from(outcome_char) {
        Ok(result) => result,
        Err(e) => {
            return Err(e);
        },
    };
    match Move::try_from(their_char) {
        Ok(theirs) => Ok(desired_result.get_round(theirs)),
        Err(e) => Err(e),
    }
}

/// The rounds that pairs of words stand for.
pub fn char_pairs_to_round(char_pairs: Vec<(&str, &str)>) -> (r: Result<Vec<Round>, GuideError>)
    ensures
        match r {
            Ok(rounds) => pairs_rounds(pairs_view(char_pairs@)) == Ok::<Seq<Round>, GuideError>(
                rounds@,
            ),
            Err(e) => pairs_rounds(pairs_view(char_pairs@)) == Err::<Seq<Round>, GuideError>(e),
        },
{
    let ghost all = pairs_view(char_pairs@);
    let mut rounds: Vec<Round> = Vec::new();
    let mut i: usize = 0;
    assert(all.take(0) == Seq::<(Seq<char>, Seq<char>)>::empty());
    while i < char_pairs.len()
        invariant
            i <= char_pairs@.len(),
            all == pairs_view(char_pairs@),
            pairs_rounds(all.take(i as int)) == Ok::<Seq<Round>, GuideError>(rounds@),
        decreases char_pairs@.len() - i,
    {
        proof {
            assert(all.take(i + 1).drop_last() == all.take(i as int));
            assert(all.take(i + 1).last() == all[i as int]);
        }
        let pair = char_pairs[i];
        match pair_to_round(pair.0, pair.1) {
            Ok(round) => {
                rounds.push(round);
            },
            Err(e) => {
                proof {
                    lemma_rounds_failure_stays(all, i + 1);
                }
                return Err(e);
            },
        }
        i += 1;
    }
    assert(all.take(i as int) == all);
    Ok(rounds)
}

/// The rounds of a strategy guide: one for each line.
pub fn parse_input_to_moves(input: &str) -> (r: Result<Vec<Round>, GuideError>)
    ensures
        match r {
            Ok(rounds) => guide_rounds(input@) == Ok::<Seq<Round>, GuideError>(rounds@),
            Err(e) => guide_rounds(input@) == Err::<Seq<Round>, GuideError>(e),
        },
{
    match str_to_char_pairs(input) {
        Ok(char_pairs) => char_pairs_to_round(char_pairs),
        Err(e) => Err(e),
    }
}

/// The points of all the rounds together.
pub open spec fn rounds_points(rounds: Seq<Round>) -> int
    decreases rounds.len(),
{
    if rounds.len() == 0 {
        0
    } else {
        rounds_points(rounds.drop_last()) + round_points(rounds.last())
    }
}

/// The points of the first `k` rounds are no more than the points of all.
proof fn lemma_points_grow(rounds: Seq<Round>, k: int)
    requires
        0 <= k <= rounds.len(),
    ensures
        0 <= rounds_points(rounds.take(k)) <= rounds_points(rounds),
    decreases rounds.len(),
{
    if k == rounds.len() {
        assert(rounds.take(k) == rounds);
        if k > 0 {
            lemma_points_grow(rounds.drop_last(), k - 1);
            lemma_points_grow(rounds.drop_last(), 0);
            assert(rounds.drop_last().take(0) == Seq::<Round>::empty());
        }
    } else {
        assert(rounds.drop_last().take(k) == rounds.take(k));
        lemma_points_grow(rounds.drop_last(), k);
    }
}

/// The points that all the rounds score together. The sum must be one that
/// a `u32` can hold.
pub fn total_points(rounds: &Vec<Round>) -> (sum: u32)
    requires
        rounds_points(rounds@) <= u32::MAX,
    ensures
        sum == rounds_points(rounds@),
{
    let mut sum: u32 = 0;
    let mut i: usize = 0;
    assert(rounds@.take(0) == Seq::<Round>::empty());
    while i < rounds.len()
        invariant
            i <= rounds@.len(),
            rounds_points(rounds@) <= u32::MAX,
            sum == rounds_points(rounds@.take(i as int)),
        decreases rounds@.len() - i,
    {
        proof {
            assert(rounds@.take(i + 1).drop_last() == rounds@.take(i as int));
            assert(rounds@.take(i + 1).last() == rounds@[i as int]);
            lemma_points_grow(rounds@, i + 1);
        }
        sum = sum + rounds[i].points();
        i += 1;
    }
    assert(rounds@.take(i as int) == rounds@);
    sum
}

} // verus!
