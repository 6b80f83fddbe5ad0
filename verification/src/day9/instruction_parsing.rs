//! Reading the head's instructions: one line is a direction letter, a
//! space and a repeat count, and stands for that many single steps.

use crate::text::chars_of;
use crate::text::line_ranges;
use crate::text::lines;
use crate::text::parse_i32;
use crate::text::parse_signed;
use crate::text::ranges_cut;
use vstd::prelude::*;
use vstd::slice::slice_subrange;

verus! {

/// One step of the head, by one cell.
#[derive(Debug, Copy, Clone, PartialEq, Eq, Structural)]
pub enum Instruction {
    Down,
    Left,
    Right,
    Up,
}

/// Why a line is not an instruction.
#[derive(Debug, Copy, Clone, PartialEq, Eq, Structural)]
pub enum LineError {
    /// The line does not start with one of `U`, `D`, `L`, `R` that ends the
    /// line or has a space after it.
    InvalidDirection,
    /// No count follows the direction, or what follows is not a decimal
    /// number between 0 and `i32::MAX`.
    InvalidCount,
}

impl LineError {
    /// The sentence for the user, as characters.
    pub open spec fn sentence(self) -> Seq<char> {
        match self {
            LineError::InvalidDirection => "the direction is not one of U, D, L, R"@,
            LineError::InvalidCount => "the repeat count is missing or is not a number"@,
        }
    }

    /// A sentence for the user.
    pub fn message(&self) -> (text: &'static str)
        ensures
            text@ == self.sentence(),
    {
        match self {
            LineError::InvalidDirection => "the direction is not one of U, D, L, R",
            LineError::InvalidCount => "the repeat count is missing or is not a number",
        }
    }
}

/// The first line of a text that is not an instruction, and why.
#[derive(Debug, Copy, Clone, PartialEq, Eq, Structural)]
pub struct ParseError {
    /// The line's index, counted from 0.
    pub line: usize,
    pub kind: LineError,
}

/// The direction that a letter stands for.
pub open spec fn direction_of(letter: char) -> Option<Instruction> {
    if letter == 'U' {
        Some(Instruction::Up)
    } else if letter == 'D' {
        Some(Instruction::Down)
    } else if letter == 'L' {
        Some(Instruction::Left)
    } else if letter == 'R' {
        Some(Instruction::Right)
    } else {
        None
    }
}

/// `count` steps in one direction.
pub open spec fn expand(direction: Instruction, count: nat) -> Seq<Instruction> {
    Seq::new(count, |i: int| direction)
}

/// The steps that one line stands for, or why it stands for none.
pub open spec fn line_instructions(line: Seq<char>) -> Result<Seq<Instruction>, LineError> {
    if line.len() == 0 || direction_of(line[0]) is None || (line.len() > 1 && line[1] != ' ') {
        Err(LineError::InvalidDirection)
    } else if line.len() == 1 {
        Err(LineError::InvalidCount)
    } else {
        match parse_signed(line.skip(2), 0, i32::MAX as int) {
            Some(count) => Ok(expand(direction_of(line[0])->0, count as nat)),
            None => Err(LineError::InvalidCount),
        }
    }
}

/// A line with the count 0 stands for no step.
pub proof fn lemma_count_zero(line: Seq<char>)
    requires
        line_instructions(line) is Ok,
        parse_signed(line.skip(2), 0, i32::MAX as int) == Some(0int),
    ensures
        line_instructions(line) == Ok::<Seq<Instruction>, LineError>(Seq::empty()),
{
    assert(expand(direction_of(line[0])->0, 0) =~= Seq::<Instruction>::empty());
}

/// Whether the exec result `r` is the spec result `expected`.
pub open spec fn line_result_is(
    r: Result<Vec<Instruction>, LineError>,
    expected: Result<Seq<Instruction>, LineError>,
) -> bool {
    match r {
        Ok(steps) => expected == Ok::<Seq<Instruction>, LineError>(steps@),
        Err(kind) => expected == Err::<Seq<Instruction>, LineError>(kind),
    }
}

fn letter_direction(letter: char) -> (r: Option<Instruction>)
    ensures
        r == direction_of(letter),
{
    if letter == 'U' {
        Some(Instruction::Up)
    } else if letter == 'D' {
        Some(Instruction::Down)
    } else if letter == 'L' {
        Some(Instruction::Left)
    } else if letter == 'R' {
        Some(Instruction::Right)
    } else {
        None
    }
}

/// Reads one line given as characters.
pub fn parse_line_chars(line: &[char]) -> (r: Result<Vec<Instruction>, LineError>)
    ensures
        line_result_is(r, line_instructions(line@)),
{
    if line.len() == 0 {
        return Err(LineError::InvalidDirection);
    }
    let direction = match letter_direction(line[0]) {
        Some(d) => d,
        None => {
            return Err(LineError::InvalidDirection);
        },
    };
    if line.len() == 1 {
        return Err(LineError::InvalidCount);
    }
    if line[1] != ' ' {
        return Err(LineError::InvalidDirection);
    }
    let digits = slice_subrange(line, 2, line.len());
    assert(digits@ == line@.skip(2));
    let count: i32 = match parse_i32(digits) {
        Some(c) => c,
        None => {
            return Err(LineError::InvalidCount);
        },
    };
    if count < 0 {
        return Err(LineError::InvalidCount);
    }
    let mut steps: Vec<Instruction> = Vec::new();
    let mut done: i32 = 0;
    while done < count
        invariant
            0 <= done <= count,
            steps@ == expand(direction, done as nat),
        decreases count - done,
    {
        steps.push(direction);
        done += 1;
    }
    Ok(steps)
}

/// Expands one line `<letter> <count>` into `count` steps in the letter's
/// direction. A count of 0 gives no step.
pub fn parse_line(line: &str) -> (r: Result<Vec<Instruction>, LineError>)
    ensures
        line_result_is(r, line_instructions(line@)),
{
    let chars = chars_of(line);
    parse_line_chars(chars.as_slice())
}

/// `ls` without the empty lines at its end.
pub open spec fn without_blank_end(ls: Seq<Seq<char>>) -> Seq<Seq<char>>
    decreases ls.len(),
{
    if ls.len() > 0 && ls.last().len() == 0 {
        without_blank_end(ls.drop_last())
    } else {
        ls
    }
}

/// The steps of all the lines `ls` in their order, or the first line that is
/// not an instruction.
pub open spec fn lines_instructions(ls: Seq<Seq<char>>) -> Result<Seq<Instruction>, ParseError>
    decreases ls.len(),
{
    if ls.len() == 0 {
        Ok(Seq::empty())
    } else {
        match lines_instructions(ls.drop_last()) {
            Err(e) => Err(e),
            Ok(before) => match line_instructions(ls.last()) {
                Err(kind) => Err(ParseError { line: (ls.len() - 1) as usize, kind }),
                Ok(steps) => Ok(before + steps),
            },
        }
    }
}

/// The instruction stream that a text stands for: the steps of its lines,
/// one after the other, empty lines at the end of the text left aside.
pub open spec fn text_instructions(text: Seq<char>) -> Result<Seq<Instruction>, ParseError> {
    lines_instructions(without_blank_end(lines(text)))
}

/// Whether the exec result `r` is the spec result `expected`.
pub open spec fn text_result_is(
    r: Result<Vec<Instruction>, ParseError>,
    expected: Result<Seq<Instruction>, ParseError>,
) -> bool {
    match r {
        Ok(steps) => expected == Ok::<Seq<Instruction>, ParseError>(steps@),
        Err(e) => expected == Err::<Seq<Instruction>, ParseError>(e),
    }
}

/// Expands a whole text, line by line, into the stream of single steps.
/// Stops at the first line that is not an instruction.
pub fn parse_instructions(text: &str) -> (r: Result<Vec<Instruction>, ParseError>)
    ensures
        text_result_is(r, text_instructions(text@)),
{
    let chars = chars_of(text);
    let ranges = line_ranges(chars.as_slice());
    let ghost all = lines(chars@);
    let mut count: usize = ranges.len();
    assert(all.take(count as int) == all);
    while count > 0 && ranges[count - 1].0 == ranges[count - 1].1
        invariant
            count <= ranges@.len(),
            ranges_cut(chars@, ranges@, all),
            without_blank_end(all) == without_blank_end(all.take(count as int)),
        decreases count,
    {
        proof {
            let shorter = all.take(count as int);
            assert(shorter.last() == all[count - 1]);
            assert(shorter.drop_last() == all.take(count - 1));
        }
        count -= 1;
    }
    let ghost kept = all.take(count as int);
    proof {
        if count > 0 {
            assert(kept.last() == all[count - 1]);
        }
        assert(without_blank_end(all) == kept);
    }
    let mut steps: Vec<Instruction> = Vec::new();
    let mut i: usize = 0;
    while i < count
        invariant
            i <= count <= ranges@.len(),
            ranges_cut(chars@, ranges@, all),
            kept == all.take(count as int),
            text_instructions(text@) == lines_instructions(kept),
            lines_instructions(kept.take(i as int)) == Ok::<Seq<Instruction>, ParseError>(steps@),
        decreases count - i,
    {
        let (from, to) = ranges[i];
        let line = slice_subrange(chars.as_slice(), from, to);
        proof {
            assert(line@ == all[i as int]);
            assert(kept.take(i + 1).last() == all[i as int]);
            assert(kept.take(i + 1).drop_last() == kept.take(i as int));
        }
        match parse_line_chars(line) {
            Err(kind) => {
                proof {
                    lemma_error_stays(kept, i + 1);
                }
                return Err(ParseError { line: i, kind });
            },
            Ok(mut more) => {
                steps.append(&mut more);
            },
        }
        i += 1;
    }
    assert(kept.take(count as int) == kept);
    Ok(steps)
}

/// An error among the first `k` lines is the error of the whole text.
pub proof fn lemma_error_stays(ls: Seq<Seq<char>>, k: int)
    requires
        0 <= k <= ls.len(),
        lines_instructions(ls.take(k)) is Err,
    ensures
        lines_instructions(ls) == lines_instructions(ls.take(k)),
    decreases ls.len(),
{
    if k == ls.len() {
        assert(ls.take(k) == ls);
    } else {
        assert(ls.drop_last().take(k) == ls.take(k));
        lemma_error_stays(ls.drop_last(), k);
    }
}

} // verus!
