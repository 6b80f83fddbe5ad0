//! A processor with one register and a screen that it draws on: `noop`
//! takes one cycle, `addx n` takes two and then adds `n` to the register.

use crate::text::chars_of;
use crate::text::lines;
use crate::text::parse_i32;
use crate::text::parse_signed;
use crate::text::rows;
use crate::text::split;
use crate::text::split_lines;
use crate::text::split_ranges;
use vstd::prelude::*;
use vstd::slice::slice_subrange;

verus! {

/// One instruction of a program.
#[derive(Clone, Copy, Debug, PartialEq, Eq, Structural)]
pub enum Instruction {
    Noop,
    Addx(i32),
}

/// Why a line is no instruction.
#[derive(Clone, Copy, Debug, PartialEq, Eq, Structural)]
pub enum ParseError {
    /// `addx` stands alone on its line.
    MissingAmount,
    /// What follows `addx` is no number that an `i32` can hold.
    InvalidAmount,
}

impl ParseError {
    /// The sentence for the user, as characters.
    pub open spec fn sentence(self) -> Seq<char> {
        match self {
            ParseError::MissingAmount => "addx without an amount"@,
            ParseError::InvalidAmount => "the amount of addx is not a number"@,
        }
    }

    /// A sentence for the user.
    pub fn message(&self) -> (text: &'static str)
        ensures
            text@ == self.sentence(),
    {
        match self {
            ParseError::MissingAmount => "addx without an amount",
            ParseError::InvalidAmount => "the amount of addx is not a number",
        }
    }
}

/// The word `addx`.
pub open spec fn addx_word() -> Seq<char> {
    seq!['a', 'd', 'd', 'x']
}

/// The instruction that a line stands for. The line is parted at its
/// spaces: where the first piece is `addx` the second piece is the amount,
/// and every other line is a `noop`.
pub open spec fn line_instruction(line: Seq<char>) -> Result<Instruction, ParseError> {
    let pieces = split(line, ' ');
    if pieces[0] != addx_word() {
        Ok(Instruction::Noop)
    } else if pieces.len() < 2 {
        Err(ParseError::MissingAmount)
    } else {
        match parse_signed(pieces[1], i32::MIN as int, i32::MAX as int) {
            Some(amount) => Ok(Instruction::Addx(amount as i32)),
            None => Err(ParseError::InvalidAmount),
        }
    }
}

/// The number of cycles that an instruction takes.
pub open spec fn cycles(instruction: Instruction) -> int {
    match instruction {
        Instruction::Noop => 1,
        Instruction::Addx(_) => 2,
    }
}

/// What an instruction adds to the register.
pub open spec fn amount(instruction: Instruction) -> int {
    match instruction {
        Instruction::Noop => 0,
        Instruction::Addx(n) => n as int,
    }
}

impl Instruction {
    /// Reads an instruction given as characters.
    pub fn from_chars(line: &[char]) -> (r: Result<Instruction, ParseError>)
        ensures
            r == line_instruction(line@),
    {
        let ranges = split_ranges(line, ' ');
        let ghost pieces = split(line@, ' ');
        let (from, to) = ranges[0];
        let word = slice_subrange(line, from, to);
        assert(word@ == pieces[0]);
        let is_addx = word.len() == 4 && word[0] == 'a' && word[1] == 'd' && word[2] == 'd'
            && word[3] == 'x';
        assert(is_addx == (word@ == addx_word())) by {
            if is_addx {
                assert(word@ =~= addx_word());
            }
        }
        if !is_addx {
            return Ok(Instruction::Noop);
        }
        if ranges.len() < 2 {
            return Err(ParseError::MissingAmount);
        }
        let (from, to) = ranges[1];
        let digits = slice_subrange(line, from, to);
        assert(digits@ == pieces[1]);
        match parse_i32(digits) {
            Some(n) => Ok(Instruction::Addx(n)),
            None => Err(ParseError::InvalidAmount),
        }
    }

    /// Reads `noop` or `addx` with its amount.
    pub fn parse(i: &str) -> (r: Result<Instruction, ParseError>)
        ensures
            r == line_instruction(i@),
    {
        let chars = chars_of(i);
        Instruction::from_chars(chars.as_slice())
    }

    /// The number of cycles that the instruction takes.
    pub fn cycle_count(&self) -> (n: i32)
        ensures
            n == cycles(*self),
    {
        match self {
            Instruction::Noop => 1,
            Instruction::Addx(_) => 2,
        }
    }
}

/// The cycles that all the instructions take together.
pub open spec fn cycles_of(list: Seq<Instruction>) -> int
    decreases list.len(),
{
    if list.len() == 0 {
        0
    } else {
        cycles_of(list.drop_last()) + cycles(list.last())
    }
}

/// What all the instructions add to the register together.
pub open spec fn amounts_of(list: Seq<Instruction>) -> int
    decreases list.len(),
{
    if list.len() == 0 {
        0
    } else {
        amounts_of(list.drop_last()) + amount(list.last())
    }
}

/// How many instructions from the start of the program are complete when
/// cycle `cycle` begins. The first cycle has the number 1.
pub open spec fn settled(list: Seq<Instruction>, cycle: int) -> int
    decreases list.len(),
{
    if list.len() == 0 || 1 + cycles_of(list) <= cycle {
        list.len() as int
    } else {
        settled(list.drop_last(), cycle)
    }
}

/// The value of the register during cycle `cycle`: 1 and what the
/// instructions have added that are complete when the cycle begins.
pub open spec fn register_during(list: Seq<Instruction>, cycle: int) -> int {
    1 + amounts_of(list.take(settled(list, cycle)))
}

/// Instructions take at least a cycle each, and what they add is bounded by
/// their number.
proof fn lemma_sums(list: Seq<Instruction>)
    ensures
        list.len() <= cycles_of(list),
        -list.len() * 0x8000_0000 <= amounts_of(list) <= list.len() * 0x8000_0000,
    decreases list.len(),
{
    if list.len() > 0 {
        lemma_sums(list.drop_last());
    }
}

/// A longer program takes at least as many cycles.
proof fn lemma_cycles_grow(list: Seq<Instruction>, k: int)
    requires
        0 <= k <= list.len(),
    ensures
        cycles_of(list.take(k)) <= cycles_of(list),
    decreases list.len(),
{
    if k == list.len() {
        assert(list.take(k) == list);
    } else {
        assert(list.drop_last().take(k) == list.take(k));
        lemma_cycles_grow(list.drop_last(), k);
    }
}

/// The `k` first instructions are the settled ones if they are complete
/// when the cycle begins and the next instruction is not.
proof fn lemma_settled(list: Seq<Instruction>, cycle: int, k: int)
    requires
        0 <= k <= list.len(),
        k == 0 || 1 + cycles_of(list.take(k)) <= cycle,
        k < list.len() ==> 1 + cycles_of(list.take(k + 1)) > cycle,
    ensures
        settled(list, cycle) == k,
    decreases list.len(),
{
    if k == list.len() {
        assert(list.take(k) == list);
    } else {
        lemma_cycles_grow(list, k + 1);
        let shorter = list.drop_last();
        assert(shorter.take(k) == list.take(k));
        if k < shorter.len() {
            assert(shorter.take(k + 1) == list.take(k + 1));
        }
        lemma_settled(shorter, cycle, k);
    }
}

/// A program: its instructions in order.
#[derive(Debug, Clone)]
pub struct InstructionHistory {
    pub instructions: Vec<Instruction>,
}

impl InstructionHistory {
    /// The value of the register during cycle `cycle`, whatever its size.
    pub fn register_value(&self, cycle: i32) -> (value: i64)
        ensures
            value == register_during(self.instructions@, cycle as int),
    {
        let ghost list = self.instructions@;
        let mut register_value: i64 = 1;
        let mut cycle_count: i64 = 1;
        let mut i: usize = 0;
        assert(list.take(0) == Seq::<Instruction>::empty());
        while i < self.instructions.len()
            invariant
                i <= list.len(),
                list == self.instructions@,
                cycle_count == 1 + cycles_of(list.take(i as int)),
                register_value == 1 + amounts_of(list.take(i as int)),
                i == 0 || cycle_count <= cycle,
            decreases list.len() - i,
        {
            let instruction = self.instructions[i];
            proof {
                assert(list.take(i + 1).drop_last() == list.take(i as int));
                assert(list.take(i + 1).last() == instruction);
                lemma_sums(list.take(i as int));
                assert(i * 0x8000_0000 <= 0x8000_0000 * 0x8000_0000) by (nonlinear_arith)
                    requires
                        0 <= i <= 0x8000_0000,
                ;
            }
            if cycle_count + instruction.cycle_count() as i64 > cycle as i64 {
                proof {
                    lemma_settled(list, cycle as int, i as int);
                }
                return register_value;
            }
            cycle_count = cycle_count + instruction.cycle_count() as i64;
            match instruction {
                Instruction::Noop => {},
                Instruction::Addx(amount) => {
                    register_value = register_value + amount as i64;
                },
            }
            i += 1;
        }
        proof {
            lemma_settled(list, cycle as int, i as int);
        }
        register_value
    }

    /// The value of the register during cycle `cycle`, which must be one
    /// that an `i32` can hold.
    pub fn register_value_during_cycle(&self, cycle: &i32) -> (value: i32)
        requires
            i32::MIN <= register_during(self.instructions@, *cycle as int) <= i32::MAX,
        ensures
            value == register_during(self.instructions@, *cycle as int),
    {
        self.register_value(*cycle) as i32
    }
}

/// The instructions of all the lines in order, or the error of the first
/// line that is no instruction.
pub open spec fn lines_program(ls: Seq<Seq<char>>) -> Result<Seq<Instruction>, ParseError>
    decreases ls.len(),
{
    if ls.len() == 0 {
        Ok(Seq::empty())
    } else {
        match lines_program(ls.drop_last()) {
            Err(e) => Err(e),
            Ok(before) => match line_instruction(ls.last()) {
                Err(e) => Err(e),
                Ok(instruction) => Ok(before.push(instruction)),
            },
        }
    }
}

/// A line among the first `k` that is no instruction makes the whole
/// program fail.
proof fn lemma_program_failure_stays(ls: Seq<Seq<char>>, k: int)
    requires
        0 <= k <= ls.len(),
        lines_program(ls.take(k)) is Err,
    ensures
        lines_program(ls) == lines_program(ls.take(k)),
    decreases ls.len(),
{
    if k == ls.len() {
        assert(ls.take(k) == ls);
    } else {
        assert(ls.drop_last().take(k) == ls.take(k));
        lemma_program_failure_stays(ls.drop_last(), k);
    }
}

/// Reads a program, one instruction for each line.
pub fn parse_program(input: &str) -> (r: Result<InstructionHistory, ParseError>)
    ensures
        match r {
            Ok(history) => lines_program(lines(input@)) == Ok::<Seq<Instruction>, ParseError>(
                history.instructions@,
            ),
            Err(e) => lines_program(lines(input@)) == Err::<Seq<Instruction>, ParseError>(e),
        },
{
    let chars = chars_of(input);
    let ls = split_lines(chars.as_slice());
    let ghost all = rows(ls@);
    let mut instructions: Vec<Instruction> = Vec::new();
    let mut i: usize = 0;
    assert(all.take(0) == Seq::<Seq<char>>::empty());
    while i < ls.len()
        invariant
            i <= ls@.len(),
            all == rows(ls@),
            all == lines(input@),
            lines_program(all.take(i as int)) == Ok::<Seq<Instruction>, ParseError>(instructions@),
        decreases ls@.len() - i,
    {
        proof {
            assert(all.take(i + 1).drop_last() == all.take(i as int));
            assert(all.take(i + 1).last() == ls@[i as int]@);
        }
        match Instruction::from_chars(ls[i].as_slice()) {
            Ok(instruction) => {
                instructions.push(instruction);
            },
            Err(e) => {
                proof {
                    lemma_program_failure_stays(all, i + 1);
                }
                return Err(e);
            },
        }
        i += 1;
    }
    assert(all.take(i as int) == all);
    Ok(InstructionHistory { instructions })
}

/// The pixel that the screen shows in cycle `cycle`: lit where the register
/// is at most two to the left of the column that is drawn or one to its
/// right. A row has 40 columns.
pub open spec fn pixel(list: Seq<Instruction>, cycle: int) -> char {
    let column = (cycle - 1) % 40;
    let value = register_during(list, cycle);
    if column - 2 <= value < column + 2 {
        '#'
    } else {
        '.'
    }
}

/// The screen after 240 cycles: six rows of 40 pixels, a line feed after
/// each row.
pub open spec fn screen(list: Seq<Instruction>) -> Seq<char> {
    Seq::new(
        246,
        |i: int|
            if i % 41 == 40 {
                '\n'
            } else {
                pixel(list, (i / 41) * 40 + i % 41 + 1)
            },
    )
}

/// Draws the screen of 240 cycles of the program.
pub fn draw_screen(history: &InstructionHistory) -> (pixels: Vec<char>)
    ensures
        pixels@ == screen(history.instructions@),
{
    let ghost list = history.instructions@;
    let mut pixels: Vec<char> = Vec::new();
    let mut cycle_count: i32 = 1;
    while cycle_count <= 240
        invariant
            1 <= cycle_count <= 241,
            list == history.instructions@,
            pixels@.len() == (cycle_count - 1) + (cycle_count - 1) / 40,
            forall|i: int| 0 <= i < pixels@.len() ==> #[trigger] pixels@[i] == screen(list)[i],
        decreases 241 - cycle_count,
    {
        let register_value = history.register_value(cycle_count);
        let crt_position: i32 = (cycle_count - 1) % 40;
        let lit = (crt_position - 2) as i64 <= register_value && register_value < (crt_position
            + 2) as i64;
        let ghost at = pixels@.len() as int;
        proof {
            assert(at % 41 == (cycle_count - 1) % 40 && at / 41 == (cycle_count - 1) / 40) by {
                let q = (cycle_count - 1) / 40;
                let r = (cycle_count - 1) % 40;
                assert(at == 41 * q + r);
            }
        }
        if lit {
            pixels.push('#');
        } else {
            pixels.push('.');
        }
        if cycle_count % 40 == 0 {
            proof {
                let after = pixels@.len() as int;
                assert(after % 41 == 40);
            }
            pixels.push('\n');
        }
        cycle_count += 1;
    }
    assert(pixels@ =~= screen(list));
    pixels
}

} // verus!
