//! Stacks of crates and a crane that moves them one crate at a time.
//!
//! A drawing shows the stacks side by side, the top crates in the first
//! line; below the crates a row of numbers marks the columns of the
//! stacks. Instructions of the form `move 3 from 1 to 2` follow.

use crate::text::ascii_digit;
use crate::text::ascii_space;
use crate::text::chars_of;
use crate::text::is_ascii_space;
use crate::text::is_digit;
use crate::text::lines;
use crate::text::parse_unsigned;
use crate::text::parse_usize;
use crate::text::rows;
use crate::text::split_lines;
use crate::text::split_words;
use crate::text::strip_cr;
use crate::text::words;
use vstd::prelude::*;

verus! {

/// The sum of two numbers that `usize` can hold the sum of.
pub fn add(left: usize, right: usize) -> (sum: usize)
    requires
        left + right <= usize::MAX,
    ensures
        sum == left + right,
{
    left + right
}

/// The stacks, each from its bottom crate to its top crate.
#[derive(Debug, PartialEq, Clone)]
pub struct Stacks {
    pub stacks: Vec<Vec<char>>,
}

impl View for Stacks {
    type V = Seq<Seq<char>>;

    open spec fn view(&self) -> Seq<Seq<char>> {
        rows(self.stacks@)
    }
}

/// Move `n` crates, one at a time, from stack `from` to stack `to`; stacks
/// are numbered from 1.
#[derive(Debug, PartialEq, Eq, Clone, Copy, Structural)]
pub struct Instruction {
    pub n: usize,
    pub from: usize,
    pub to: usize,
}

/// Why a drawing shows no stacks.
#[derive(Debug, PartialEq, Eq, Clone, Copy, Structural)]
pub enum StacksError {
    /// No line holds digits and white space only.
    NoIndexRow,
    /// A line ends before the column of the last stack.
    ShortLine,
}

/// Why a line is no instruction.
#[derive(Debug, PartialEq, Eq, Clone, Copy, Structural)]
pub enum InstructionError {
    /// The line ends before the word that holds a number.
    MissingWord,
    /// The second, fourth or sixth word is not a decimal number.
    InvalidNumber,
}

/// Why an instruction cannot be carried out.
#[derive(Debug, PartialEq, Eq, Clone, Copy, Structural)]
pub enum MoveError {
    /// The instruction names a stack that does not exist.
    NoSuchStack,
    /// The stack to take from is empty.
    NoElementToMove,
}

/// Why a puzzle text has no answer.
#[derive(Debug, PartialEq, Eq, Clone, Copy, Structural)]
pub enum PuzzleError {
    Drawing(StacksError),
    Line(InstructionError),
    Crane(MoveError),
}

impl StacksError {
    /// The sentence for the user, as characters.
    pub open spec fn sentence(self) -> Seq<char> {
        match self {
            StacksError::NoIndexRow => "No index row found"@,
            StacksError::ShortLine => "A line of the drawing is too short"@,
        }
    }

    /// A sentence for the user.
    pub fn message(&self) -> (text: &'static str)
        ensures
            text@ == self.sentence(),
    {
        match self {
            StacksError::NoIndexRow => "No index row found",
            StacksError::ShortLine => "A line of the drawing is too short",
        }
    }
}

impl MoveError {
    /// The sentence for the user, as characters.
    pub open spec fn sentence(self) -> Seq<char> {
        match self {
            MoveError::NoSuchStack => "No such stack"@,
            MoveError::NoElementToMove => "No element to move"@,
        }
    }

    /// A sentence for the user.
    pub fn message(&self) -> (text: &'static str)
        ensures
            text@ == self.sentence(),
    {
        match self {
            MoveError::NoSuchStack => "No such stack",
            MoveError::NoElementToMove => "No element to move",
        }
    }
}

/// Whether a line holds digits and ASCII white space only.
pub open spec fn is_index_row(line: Seq<char>) -> bool {
    forall|i: int| 0 <= i < line.len() ==> is_digit(#[trigger] line[i]) || is_ascii_space(line[i])
}

/// The first line at or after `from` that is an index row, or the number of
/// lines where there is none.
pub open spec fn index_row_from(ls: Seq<Seq<char>>, from: int) -> int
    decreases ls.len() - from,
{
    if 0 <= from < ls.len() && !is_index_row(ls[from]) {
        index_row_from(ls, from + 1)
    } else {
        from
    }
}

/// The columns that an index row marks: the indices of its characters other
/// than the space, in increasing order.
pub open spec fn positions(row: Seq<char>) -> Seq<int>
    decreases row.len(),
{
    if row.len() == 0 {
        Seq::empty()
    } else if row.last() != ' ' {
        positions(row.drop_last()).push(row.len() - 1)
    } else {
        positions(row.drop_last())
    }
}

/// Whether a character of the drawing is a crate: neither a space nor a
/// digit.
pub open spec fn is_crate(c: char) -> bool {
    c != ' ' && !is_digit(c)
}

/// The crates in column `p` of the lines, from the last line up to the
/// first: a stack from its bottom to its top.
pub open spec fn column(ls: Seq<Seq<char>>, p: int) -> Seq<char>
    decreases ls.len(),
{
    if ls.len() == 0 {
        Seq::empty()
    } else if is_crate(ls.last()[p]) {
        seq![ls.last()[p]] + column(ls.drop_last(), p)
    } else {
        column(ls.drop_last(), p)
    }
}

/// Whether some line ends at or before column `p`.
pub open spec fn some_line_ends_by(ls: Seq<Seq<char>>, p: int) -> bool {
    exists|i: int| 0 <= i < ls.len() && (#[trigger] ls[i]).len() <= p
}

/// The stacks that the lines of a drawing show. The first index row gives
/// the columns; every line, read in every column, gives a crate or none.
pub open spec fn drawing_stacks(ls: Seq<Seq<char>>) -> Result<Seq<Seq<char>>, StacksError> {
    let row = index_row_from(ls, 0);
    if row >= ls.len() {
        Err(StacksError::NoIndexRow)
    } else {
        let at = positions(ls[row]);
        if at.len() > 0 && some_line_ends_by(ls, at.last()) {
            Err(StacksError::ShortLine)
        } else {
            Ok(Seq::new(at.len(), |k: int| column(ls, at[k])))
        }
    }
}

/// Whether the exec result `r` is the spec result `expected`.
pub open spec fn stacks_result_is<E>(r: Result<Stacks, E>, expected: Result<Seq<Seq<char>>, E>) -> bool {
    match r {
        Ok(stacks) => expected == Ok::<Seq<Seq<char>>, E>(stacks@),
        Err(e) => expected == Err::<Seq<Seq<char>>, E>(e),
    }
}

fn index_row(line: &Vec<char>) -> (r: bool)
    ensures
        r == is_index_row(line@),
{
    let mut i: usize = 0;
    while i < line.len()
        invariant
            i <= line@.len(),
            forall|j: int| 0 <= j < i ==> is_digit(#[trigger] line@[j]) || is_ascii_space(line@[j]),
        decreases line@.len() - i,
    {
        if !ascii_digit(line[i]) && !ascii_space(line[i]) {
            return false;
        }
        i += 1;
    }
    true
}

/// The positions are indices into the row, in increasing order.
proof fn lemma_positions(row: Seq<char>)
    ensures
        forall|k: int| 0 <= k < positions(row).len() ==> 0 <= #[trigger] positions(row)[k] < row.len(),
        forall|k: int|
            0 <= k < positions(row).len() ==> #[trigger] positions(row)[k] <= positions(row).last(),
    decreases row.len(),
{
    if row.len() > 0 {
        let shorter = row.drop_last();
        lemma_positions(shorter);
        assert forall|k: int| 0 <= k < positions(row).len() implies 0 <= #[trigger] positions(
            row,
        )[k] < row.len() && positions(row)[k] <= positions(row).last() by {
            if k < positions(shorter).len() {
                assert(positions(row)[k] == positions(shorter)[k]);
            }
            if positions(row).len() == positions(shorter).len() && positions(shorter).len() > 0 {
                assert(positions(row).last() == positions(shorter).last());
            }
        }
    }
}

fn positions_of(row: &Vec<char>) -> (at: Vec<usize>)
    ensures
        at@.len() == positions(row@).len(),
        forall|k: int| 0 <= k < at@.len() ==> #[trigger] at@[k] as int == positions(row@)[k],
{
    let mut at: Vec<usize> = Vec::new();
    let mut i: usize = 0;
    while i < row.len()
        invariant
            i <= row@.len(),
            at@.len() == positions(row@.take(i as int)).len(),
            forall|k: int|
                0 <= k < at@.len() ==> #[trigger] at@[k] as int == positions(row@.take(i as int))[k],
        decreases row@.len() - i,
    {
        proof {
            assert(row@.take(i + 1).drop_last() == row@.take(i as int));
            assert(row@.take(i + 1).last() == row@[i as int]);
        }
        if row[i] != ' ' {
            at.push(i);
        }
        i += 1;
    }
    assert(row@.take(i as int) == row@);
    at
}

fn column_of(ls: &Vec<Vec<char>>, p: usize) -> (stack: Vec<char>)
    requires
        forall|i: int| 0 <= i < ls@.len() ==> p < (#[trigger] ls@[i])@.len(),
    ensures
        stack@ == column(rows(ls@), p as int),
{
    let ghost all = rows(ls@);
    let mut stack: Vec<char> = Vec::new();
    let mut i: usize = ls.len();
    assert(all.take(i as int) == all);
    while i > 0
        invariant
            i <= ls@.len(),
            all == rows(ls@),
            forall|i: int| 0 <= i < ls@.len() ==> p < (#[trigger] ls@[i])@.len(),
            stack@ + column(all.take(i as int), p as int) == column(all, p as int),
        decreases i,
    {
        i -= 1;
        let c = ls[i][p];
        proof {
            let longer = all.take(i + 1);
            assert(longer.drop_last() == all.take(i as int));
            assert(longer.last() == ls@[i as int]@);
            if is_crate(c) {
                assert(stack@ + (seq![c] + column(all.take(i as int), p as int)) == stack@.push(c)
                    + column(all.take(i as int), p as int));
            }
        }
        if c != ' ' && !ascii_digit(c) {
            stack.push(c);
        }
    }
    assert(stack@ + Seq::<char>::empty() == stack@);
    stack
}

/// Reads the stacks off the lines of a drawing.
pub fn stacks_of_lines(ls: &Vec<Vec<char>>) -> (r: Result<Stacks, StacksError>)
    ensures
        stacks_result_is(r, drawing_stacks(rows(ls@))),
{
    let ghost all = rows(ls@);
    let mut row: usize = 0;
    while row < ls.len() && !index_row(&ls[row])
        invariant
            row <= ls@.len(),
            all == rows(ls@),
            index_row_from(all, 0) == index_row_from(all, row as int),
        decreases ls@.len() - row,
    {
        row += 1;
    }
    if row == ls.len() {
        return Err(StacksError::NoIndexRow);
    }
    let at = positions_of(&ls[row]);
    let ghost marks = positions(all[row as int]);
    proof {
        lemma_positions(all[row as int]);
    }
    if at.len() > 0 {
        let last = at[at.len() - 1];
        let mut i: usize = 0;
        while i < ls.len()
            invariant
                i <= ls@.len(),
                all == rows(ls@),
                row < all.len(),
                index_row_from(all, 0) == row,
                marks == positions(all[row as int]),
                marks.len() > 0,
                last == marks.last(),
                forall|j: int| 0 <= j < i ==> last < (#[trigger] all[j]).len(),
            decreases ls@.len() - i,
        {
            if ls[i].len() <= last {
                assert(all[i as int].len() <= last);
                return Err(StacksError::ShortLine);
            }
            i += 1;
        }
    }
    let mut stacks: Vec<Vec<char>> = Vec::new();
    let mut k: usize = 0;
    while k < at.len()
        invariant
            k <= at@.len(),
            all == rows(ls@),
            row < ls@.len(),
            marks == positions(all[row as int]),
            at@.len() == marks.len(),
            forall|k: int| 0 <= k < at@.len() ==> #[trigger] at@[k] as int == marks[k],
            forall|k: int| 0 <= k < marks.len() ==> #[trigger] marks[k] <= marks.last(),
            at@.len() > 0 ==> forall|j: int|
                0 <= j < all.len() ==> marks.last() < (#[trigger] all[j]).len(),
            stacks@.len() == k,
            forall|j: int| 0 <= j < k ==> (#[trigger] stacks@[j])@ == column(all, marks[j]),
        decreases at@.len() - k,
    {
        proof {
            assert forall|i: int| 0 <= i < ls@.len() implies at@[k as int] < (#[trigger] ls@[i])@.len() by {
                assert(marks[k as int] <= marks.last());
                assert(all[i] == ls@[i]@);
            }
        }
        let stack = column_of(ls, at[k]);
        stacks.push(stack);
        k += 1;
    }
    let found = Stacks { stacks };
    proof {
        assert(found@ =~= Seq::new(marks.len(), |k: int| column(all, marks[k])));
        if marks.len() > 0 && some_line_ends_by(all, marks.last()) {
            let i = choose|i: int| 0 <= i < all.len() && (#[trigger] all[i]).len() <= marks.last();
            assert(marks.last() < all[i].len());
        }
    }
    Ok(found)
}

/// The instruction that a sequence of words stands for: its second, fourth
/// and sixth word are the numbers, the other words are not looked at.
pub open spec fn words_instruction(ws: Seq<Seq<char>>) -> Result<Instruction, InstructionError> {
    let max = usize::MAX as int;
    if ws.len() < 2 {
        Err(InstructionError::MissingWord)
    } else if parse_unsigned(ws[1], max) is None {
        Err(InstructionError::InvalidNumber)
    } else if ws.len() < 4 {
        Err(InstructionError::MissingWord)
    } else if parse_unsigned(ws[3], max) is None {
        Err(InstructionError::InvalidNumber)
    } else if ws.len() < 6 {
        Err(InstructionError::MissingWord)
    } else if parse_unsigned(ws[5], max) is None {
        Err(InstructionError::InvalidNumber)
    } else {
        Ok(
            Instruction {
                n: parse_unsigned(ws[1], max)->0 as usize,
                from: parse_unsigned(ws[3], max)->0 as usize,
                to: parse_unsigned(ws[5], max)->0 as usize,
            },
        )
    }
}

/// The instruction that a line stands for.
pub open spec fn line_instruction(line: Seq<char>) -> Result<Instruction, InstructionError> {
    words_instruction(words(line))
}

impl Instruction {
    /// Reads an instruction given as characters.
    pub fn from_chars(line: &Vec<char>) -> (r: Result<Instruction, InstructionError>)
        ensures
            r == line_instruction(line@),
    {
        let ws = split_words(line.as_slice());
        assert(forall|i: int| 0 <= i < ws@.len() ==> (#[trigger] ws@[i])@ == words(line@)[i]);
        if ws.len() < 2 {
            return Err(InstructionError::MissingWord);
        }
        let n = match parse_usize(ws[1].as_slice()) {
            Some(n) => n,
            None => {
                return Err(InstructionError::InvalidNumber);
            },
        };
        if ws.len() < 4 {
            return Err(InstructionError::MissingWord);
        }
        let from = match parse_usize(ws[3].as_slice()) {
            Some(n) => n,
            None => {
                return Err(InstructionError::InvalidNumber);
            },
        };
        if ws.len() < 6 {
            return Err(InstructionError::MissingWord);
        }
        let to = match parse_usize(ws[5].as_slice()) {
            Some(n) => n,
            None => {
                return Err(InstructionError::InvalidNumber);
            },
        };
        Ok(Instruction { n, from, to })
    }

    /// Reads an instruction such as `move 1 from 2 to 3`.
    pub fn try_from(value: &str) -> (r: Result<Instruction, InstructionError>)
        ensures
            r == line_instruction(value@),
    {
        let chars = chars_of(value);
        Instruction::from_chars(&chars)
    }
}

/// The stacks after one instruction. Nothing is asked of an instruction
/// that moves no crate. Otherwise both stacks must exist and the stack to
/// take from must hold `n` crates; they arrive in reverse order, as they
/// are moved one at a time. Moving from a stack to itself changes nothing
/// but needs a crate to move.
pub open spec fn move_crates(stacks: Seq<Seq<char>>, ins: Instruction) -> Result<
    Seq<Seq<char>>,
    MoveError,
> {
    let from = ins.from - 1;
    let to = ins.to - 1;
    if ins.n == 0 {
        Ok(stacks)
    } else if !(1 <= ins.from <= stacks.len()) {
        Err(MoveError::NoSuchStack)
    } else if stacks[from].len() == 0 {
        Err(MoveError::NoElementToMove)
    } else if !(1 <= ins.to <= stacks.len()) {
        Err(MoveError::NoSuchStack)
    } else if from == to {
        Ok(stacks)
    } else if stacks[from].len() < ins.n {
        Err(MoveError::NoElementToMove)
    } else {
        let keep = stacks[from].len() - ins.n;
        Ok(
            stacks.update(from, stacks[from].take(keep)).update(
                to,
                stacks[to] + stacks[from].skip(keep).reverse(),
            ),
        )
    }
}

/// The stacks after all the instructions in order, or the error of the first
/// instruction that cannot be carried out.
pub open spec fn move_all(stacks: Seq<Seq<char>>, list: Seq<Instruction>) -> Result<
    Seq<Seq<char>>,
    MoveError,
>
    decreases list.len(),
{
    if list.len() == 0 {
        Ok(stacks)
    } else {
        match move_all(stacks, list.drop_last()) {
            Err(e) => Err(e),
            Ok(before) => move_crates(before, list.last()),
        }
    }
}

/// The top crate of each stack, a space for an empty stack.
pub open spec fn tops(stacks: Seq<Seq<char>>) -> Seq<char> {
    Seq::new(
        stacks.len(),
        |i: int|
            if stacks[i].len() > 0 {
                stacks[i].last()
            } else {
                ' '
            },
    )
}

impl Stacks {
    /// Reads the stacks off a drawing.
    pub fn try_from(drawing: &str) -> (r: Result<Stacks, StacksError>)
        ensures
            stacks_result_is(r, drawing_stacks(lines(drawing@))),
    {
        let chars = chars_of(drawing);
        let ls = split_lines(chars.as_slice());
        stacks_of_lines(&ls)
    }

    /// Carries out the instructions in order.
    pub fn apply_instructions(self, instructions: Vec<Instruction>) -> (r: Result<Stacks, MoveError>)
        ensures
            stacks_result_is(r, move_all(self@, instructions@)),
    {
        let ghost start = self@;
        let mut stacks = self;
        let mut i: usize = 0;
        assert(instructions@.take(0) == Seq::<Instruction>::empty());
        while i < instructions.len()
            invariant
                i <= instructions@.len(),
                start == self@,
                move_all(start, instructions@.take(i as int)) == Ok::<Seq<Seq<char>>, MoveError>(
                    stacks@,
                ),
            decreases instructions@.len() - i,
        {
            proof {
                assert(instructions@.take(i + 1).drop_last() == instructions@.take(i as int));
                assert(instructions@.take(i + 1).last() == instructions@[i as int]);
            }
            let ghost before = stacks@;
            match stacks.apply_instruction(instructions[i]) {
                Ok(next) => {
                    stacks = next;
                },
                Err(e) => {
                    proof {
                        assert(move_crates(before, instructions@[i as int]) == Err::<
                            Seq<Seq<char>>,
                            MoveError,
                        >(e));
                        lemma_move_failure_stays(start, instructions@, i + 1);
                    }
                    return Err(e);
                },
            }
            i += 1;
        }
        assert(instructions@.take(i as int) == instructions@);
        Ok(stacks)
    }

    /// Carries out one instruction.
    pub fn apply_instruction(self, instruction: Instruction) -> (r: Result<Stacks, MoveError>)
        ensures
            stacks_result_is(r, move_crates(self@, instruction)),
    {
        let ghost start = self@;
        let mut current = self;
        if instruction.n == 0 {
            return Ok(current);
        }
        let count = current.stacks.len();
        if instruction.from < 1 || instruction.from > count {
            return Err(MoveError::NoSuchStack);
        }
        let from = instruction.from - 1;
        assert(start[from as int] == current.stacks@[from as int]@);
        if current.stacks[from].len() == 0 {
            return Err(MoveError::NoElementToMove);
        }
        if instruction.to < 1 || instruction.to > count {
            return Err(MoveError::NoSuchStack);
        }
        let to = instruction.to - 1;
        if from == to {
            return Ok(current);
        }
        let height = current.stacks[from].len();
        if height < instruction.n {
            return Err(MoveError::NoElementToMove);
        }
        let ghost source = start[from as int];
        let ghost target = start[to as int];
        assert(target == current.stacks@[to as int]@);
        let mut moved: usize = 0;
        assert(source.skip(height as int).reverse() =~= Seq::<char>::empty());
        assert(target + Seq::<char>::empty() == target);
        assert(source.take(height as int) == source);
        while moved < instruction.n
            invariant
                moved <= instruction.n <= height,
                height == source.len(),
                from != to,
                from < count,
                to < count,
                current.stacks@.len() == count,
                start.len() == count,
                source == start[from as int],
                target == start[to as int],
                forall|j: int|
                    0 <= j < count && j != from && j != to ==> (#[trigger] current.stacks@[j])@
                        == start[j],
                current.stacks@[from as int]@ == source.take(height - moved),
                current.stacks@[to as int]@ == target + source.skip(height - moved).reverse(),
            decreases instruction.n - moved,
        {
            let ghost lower = source.skip(height - moved).reverse();
            let c = current.stacks[from].pop().unwrap();
            current.stacks[to].push(c);
            moved += 1;
            proof {
                assert(c == source[height - moved]);
                assert(source.take(height - moved + 1).drop_last() == source.take(height - moved));
                assert(source.skip(height - moved).reverse() =~= lower.push(c));
                assert((target + lower).push(c) == target + lower.push(c));
            }
        }
        proof {
            let keep = height - instruction.n;
            assert(current@ =~= start.update(from as int, source.take(keep)).update(
                to as int,
                target + source.skip(keep).reverse(),
            ));
        }
        Ok(current)
    }

    /// The top crate of each stack, a space for an empty stack.
    pub fn get_top_elements(&self) -> (out: Vec<char>)
        ensures
            out@ == tops(self@),
    {
        let mut out: Vec<char> = Vec::new();
        let mut i: usize = 0;
        while i < self.stacks.len()
            invariant
                i <= self.stacks@.len(),
                out@ == tops(self@).take(i as int),
            decreases self.stacks@.len() - i,
        {
            let stack = &self.stacks[i];
            let top = if stack.len() > 0 {
                stack[stack.len() - 1]
            } else {
                ' '
            };
            out.push(top);
            assert(out@ =~= tops(self@).take(i + 1));
            i += 1;
        }
        assert(tops(self@).take(i as int) == tops(self@));
        out
    }
}

/// An instruction among the first `k` that fails makes the whole list fail,
/// with the same error.
pub proof fn lemma_move_failure_stays(stacks: Seq<Seq<char>>, list: Seq<Instruction>, k: int)
    requires
        0 <= k <= list.len(),
        move_all(stacks, list.take(k)) is Err,
    ensures
        move_all(stacks, list) == move_all(stacks, list.take(k)),
    decreases list.len(),
{
    if k == list.len() {
        assert(list.take(k) == list);
    } else {
        assert(list.drop_last().take(k) == list.take(k));
        lemma_move_failure_stays(stacks, list.drop_last(), k);
    }
}

/// The first empty line at or after `from`, or the number of lines where
/// there is none.
pub open spec fn empty_line_from(ls: Seq<Seq<char>>, from: int) -> int
    decreases ls.len() - from,
{
    if 0 <= from < ls.len() && ls[from].len() > 0 {
        empty_line_from(ls, from + 1)
    } else {
        from
    }
}

/// The lines of the drawing: the lines before the first empty line. Every
/// one of them but the last loses one more carriage return at its end.
pub open spec fn drawing_lines(ls: Seq<Seq<char>>) -> Seq<Seq<char>> {
    let head = ls.take(empty_line_from(ls, 0));
    if head.len() == 0 {
        head
    } else {
        head.drop_last().map_values(|line: Seq<char>| strip_cr(line)).push(head.last())
    }
}

/// Whether a line starts with the word `move`.
pub open spec fn starts_with_move(line: Seq<char>) -> bool {
    line.len() >= 4 && line[0] == 'm' && line[1] == 'o' && line[2] == 'v' && line[3] == 'e'
}

/// The first line at or after `from` that starts with `move`, or the number
/// of lines where there is none.
pub open spec fn move_line_from(ls: Seq<Seq<char>>, from: int) -> int
    decreases ls.len() - from,
{
    if 0 <= from < ls.len() && !starts_with_move(ls[from]) {
        move_line_from(ls, from + 1)
    } else {
        from
    }
}

/// The instructions of all the lines in order, or the error of the first
/// line that is no instruction.
pub open spec fn lines_instructions(ls: Seq<Seq<char>>) -> Result<Seq<Instruction>, InstructionError>
    decreases ls.len(),
{
    if ls.len() == 0 {
        Ok(Seq::empty())
    } else {
        match lines_instructions(ls.drop_last()) {
            Err(e) => Err(e),
            Ok(before) => match line_instruction(ls.last()) {
                Err(e) => Err(e),
                Ok(ins) => Ok(before.push(ins)),
            },
        }
    }
}

/// The answer to a puzzle text: the top crates after the crane has carried
/// out every instruction. The drawing ends at the first empty line; the
/// instructions are all the lines from the first that starts with `move`.
pub open spec fn puzzle_answer(text: Seq<char>) -> Result<Seq<char>, PuzzleError> {
    let ls = lines(text);
    match drawing_stacks(drawing_lines(ls)) {
        Err(e) => Err(PuzzleError::Drawing(e)),
        Ok(stacks) => match lines_instructions(ls.skip(move_line_from(ls, 0))) {
            Err(e) => Err(PuzzleError::Line(e)),
            Ok(list) => match move_all(stacks, list) {
                Err(e) => Err(PuzzleError::Crane(e)),
                Ok(end) => Ok(tops(end)),
            },
        },
    }
}

/// A line among the first `k` that is no instruction makes the whole list
/// fail, with the same error.
pub proof fn lemma_line_failure_stays(ls: Seq<Seq<char>>, k: int)
    requires
        0 <= k <= ls.len(),
        lines_instructions(ls.take(k)) is Err,
    ensures
        lines_instructions(ls) == lines_instructions(ls.take(k)),
    decreases ls.len(),
{
    if k == ls.len() {
        assert(ls.take(k) == ls);
    } else {
        assert(ls.drop_last().take(k) == ls.take(k));
        lemma_line_failure_stays(ls.drop_last(), k);
    }
}

fn line_starts_with_move(line: &Vec<char>) -> (r: bool)
    ensures
        r == starts_with_move(line@),
{
    line.len() >= 4 && line[0] == 'm' && line[1] == 'o' && line[2] == 'v' && line[3] == 'e'
}

fn drawing_of(ls: &Vec<Vec<char>>) -> (head: Vec<Vec<char>>)
    ensures
        rows(head@) == drawing_lines(rows(ls@)),
{
    let ghost all = rows(ls@);
    let mut end: usize = 0;
    while end < ls.len() && ls[end].len() > 0
        invariant
            end <= ls@.len(),
            all == rows(ls@),
            empty_line_from(all, 0) == empty_line_from(all, end as int),
        decreases ls@.len() - end,
    {
        end += 1;
    }
    let ghost taken = all.take(end as int);
    let ghost expected = drawing_lines(all);
    let mut head: Vec<Vec<char>> = Vec::new();
    if end == 0 {
        assert(rows(head@) =~= expected);
        return head;
    }
    let mut i: usize = 0;
    while i < end
        invariant
            i <= end <= ls@.len(),
            all == rows(ls@),
            taken == all.take(end as int),
            expected == taken.drop_last().map_values(|line: Seq<char>| strip_cr(line)).push(
                taken.last(),
            ),
            head@.len() == i,
            forall|j: int| 0 <= j < i ==> (#[trigger] head@[j])@ == expected[j],
        decreases end - i,
    {
        let line = &ls[i];
        assert(line@ == taken[i as int]);
        let keep = if i + 1 < end && line.len() > 0 && line[line.len() - 1] == '\r' {
            line.len() - 1
        } else {
            line.len()
        };
        let copy = crate::text::copy_range(line.as_slice(), 0, keep);
        proof {
            if i + 1 < end {
                assert(copy@ == strip_cr(line@));
            } else {
                assert(copy@ == line@);
            }
        }
        head.push(copy);
        i += 1;
    }
    assert(rows(head@) =~= expected);
    head
}

/// The top crates after the crane has carried out every instruction of the
/// puzzle text.
pub fn top_crates(text: &str) -> (r: Result<Vec<char>, PuzzleError>)
    ensures
        match r {
            Ok(out) => puzzle_answer(text@) == Ok::<Seq<char>, PuzzleError>(out@),
            Err(e) => puzzle_answer(text@) == Err::<Seq<char>, PuzzleError>(e),
        },
{
    let chars = chars_of(text);
    let ls = split_lines(chars.as_slice());
    let ghost all = rows(ls@);
    let head = drawing_of(&ls);
    let stacks = match stacks_of_lines(&head) {
        Ok(stacks) => stacks,
        Err(e) => {
            return Err(PuzzleError::Drawing(e));
        },
    };
    let mut first: usize = 0;
    while first < ls.len() && !line_starts_with_move(&ls[first])
        invariant
            first <= ls@.len(),
            all == rows(ls@),
            move_line_from(all, 0) == move_line_from(all, first as int),
        decreases ls@.len() - first,
    {
        first += 1;
    }
    let ghost rest = all.skip(first as int);
    let mut list: Vec<Instruction> = Vec::new();
    let mut i: usize = first;
    assert(rest.take(0) == Seq::<Seq<char>>::empty());
    while i < ls.len()
        invariant
            first <= i <= ls@.len(),
            all == rows(ls@),
            all == lines(text@),
            rest == all.skip(first as int),
            first == move_line_from(all, 0),
            drawing_stacks(drawing_lines(all)) == Ok::<Seq<Seq<char>>, StacksError>(stacks@),
            lines_instructions(rest.take(i - first)) == Ok::<Seq<Instruction>, InstructionError>(
                list@,
            ),
        decreases ls@.len() - i,
    {
        proof {
            assert(rest.take(i - first + 1).drop_last() == rest.take(i - first));
            assert(rest.take(i - first + 1).last() == ls@[i as int]@);
        }
        match Instruction::from_chars(&ls[i]) {
            Ok(ins) => {
                list.push(ins);
            },
            Err(e) => {
                proof {
                    lemma_line_failure_stays(rest, i - first + 1);
                }
                return Err(PuzzleError::Line(e));
            },
        }
        i += 1;
    }
    assert(rest.take(i - first) == rest);
    match stacks.apply_instructions(list) {
        Ok(end) => Ok(end.get_top_elements()),
        Err(e) => Err(PuzzleError::Crane(e)),
    }
}

} // verus!
