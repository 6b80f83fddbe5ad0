//! A chain of knots that follows its head across the lattice.
//!
//! The head moves one cell at a time. Every other knot looks at the knot
//! before it: while the two touch it stays, otherwise it moves one cell
//! towards that knot along each axis on which they differ. The positions
//! that the last knot occupies are collected and counted.

pub mod grid;
pub mod instruction_parsing;

use crate::distinct::first_occurrences;
use crate::distinct::lemma_first_occurrences;
use crate::distinct::unique_points;
use crate::day9::grid::fits;
use crate::day9::grid::minus;
use crate::day9::grid::plus;
use crate::day9::grid::GridPos;
use crate::day9::instruction_parsing::expand;
use crate::day9::instruction_parsing::Instruction;
use vstd::prelude::*;

verus! {

/// The move of the head for one instruction.
pub open spec fn unit(direction: Instruction) -> (int, int) {
    match direction {
        Instruction::Up => (0, 1),
        Instruction::Down => (0, -1),
        Instruction::Left => (-1, 0),
        Instruction::Right => (1, 0),
    }
}

/// -1, 0 or 1 as `d` is negative, zero or positive.
pub open spec fn sign(d: int) -> int {
    if d > 0 {
        1
    } else if d < 0 {
        -1
    } else {
        0
    }
}

/// The absolute value of `d`.
pub open spec fn magnitude(d: int) -> int {
    if d < 0 {
        -d
    } else {
        d
    }
}

/// The Chebyshev distance of two points: the larger of their distances
/// along the two axes.
pub open spec fn chebyshev(a: (int, int), b: (int, int)) -> int {
    if magnitude(a.0 - b.0) >= magnitude(a.1 - b.1) {
        magnitude(a.0 - b.0)
    } else {
        magnitude(a.1 - b.1)
    }
}

/// Two knots touch when they overlap or are neighbours, diagonals included.
pub open spec fn touching(a: (int, int), b: (int, int)) -> bool {
    chebyshev(a, b) <= 1
}

/// How a knot moves whose leader is `delta` away: not at all while they
/// touch, else one cell towards the leader on each axis where they differ.
pub open spec fn follow_move(delta: (int, int)) -> (int, int) {
    if magnitude(delta.0) <= 1 && magnitude(delta.1) <= 1 {
        (0, 0)
    } else {
        (sign(delta.0), sign(delta.1))
    }
}

/// Where `knot` is after following `leader`.
pub open spec fn follow(leader: (int, int), knot: (int, int)) -> (int, int) {
    plus(knot, follow_move(minus(leader, knot)))
}

/// Whether every knot of the chain touches the knot before it.
pub open spec fn linked(chain: Seq<(int, int)>) -> bool {
    forall|i: int| 0 < i < chain.len() ==> touching(chain[i - 1], #[trigger] chain[i])
}

/// The chain after one step: the head moves by the instruction's unit, then
/// each knot in turn follows the new position of the knot before it.
pub open spec fn step_chain(chain: Seq<(int, int)>, direction: Instruction) -> Seq<(int, int)>
    decreases chain.len(),
{
    if chain.len() == 0 {
        chain
    } else if chain.len() == 1 {
        seq![plus(chain[0], unit(direction))]
    } else {
        let front = step_chain(chain.drop_last(), direction);
        front.push(follow(front.last(), chain.last()))
    }
}

/// The chain after all the steps of `stream`, taken in order.
pub open spec fn run_chain(chain: Seq<(int, int)>, stream: Seq<Instruction>) -> Seq<(int, int)>
    decreases stream.len(),
{
    if stream.len() == 0 {
        chain
    } else {
        step_chain(run_chain(chain, stream.drop_last()), stream.last())
    }
}

/// The positions of the tail: where it starts, then where it is after each
/// step of `stream`.
pub open spec fn tail_trail(chain: Seq<(int, int)>, stream: Seq<Instruction>) -> Seq<(int, int)> {
    Seq::new(stream.len() + 1, |k: int| run_chain(chain, stream.take(k)).last())
}

/// The visited set: the distinct positions of the tail, its start included.
pub open spec fn visited(chain: Seq<(int, int)>, stream: Seq<Instruction>) -> Set<(int, int)> {
    tail_trail(chain, stream).to_set()
}

/// How far the head has moved after `stream`.
pub open spec fn displacement(stream: Seq<Instruction>) -> (int, int)
    decreases stream.len(),
{
    if stream.len() == 0 {
        (0, 0)
    } else {
        plus(displacement(stream.drop_last()), unit(stream.last()))
    }
}

/// Whether a head that starts at `start` stays on `i32` coordinates during
/// the whole of `stream`.
pub open spec fn head_path_fits(start: (int, int), stream: Seq<Instruction>) -> bool {
    forall|k: int| 0 <= k <= stream.len() ==> fits(plus(start, #[trigger] displacement(stream.take(k))))
}

/// A chain of `knots` knots that all lie on the origin.
pub open spec fn origin_chain(knots: nat) -> Seq<(int, int)> {
    Seq::new(knots, |i: int| (0int, 0int))
}

/// The views of a sequence of positions.
pub open spec fn points(knots: Seq<GridPos>) -> Seq<(int, int)> {
    Seq::new(knots.len(), |i: int| knots[i]@)
}

/// The pairs of a recorded trail as points of the lattice.
pub open spec fn trail_points(trail: Seq<(i32, i32)>) -> Seq<(int, int)> {
    Seq::new(trail.len(), |i: int| (trail[i].0 as int, trail[i].1 as int))
}

/// The shape of one step: the chain keeps its length, the head moves by
/// the unit, and every other knot follows the new position of the knot
/// before it.
pub proof fn lemma_step_shape(chain: Seq<(int, int)>, direction: Instruction)
    ensures
        step_chain(chain, direction).len() == chain.len(),
        chain.len() > 0 ==> step_chain(chain, direction)[0] == plus(chain[0], unit(direction)),
        forall|i: int|
            0 < i < chain.len() ==> #[trigger] step_chain(chain, direction)[i] == follow(
                step_chain(chain, direction)[i - 1],
                chain[i],
            ),
    decreases chain.len(),
{
    if chain.len() >= 2 {
        lemma_step_shape(chain.drop_last(), direction);
    }
}

/// One step on a linked chain: the chain keeps its length and stays linked,
/// the head moves by the unit, and no knot moves further than to a cell
/// that touches the one it left.
pub proof fn lemma_step_chain(chain: Seq<(int, int)>, direction: Instruction)
    requires
        linked(chain),
    ensures
        step_chain(chain, direction).len() == chain.len(),
        linked(step_chain(chain, direction)),
        chain.len() > 0 ==> step_chain(chain, direction)[0] == plus(chain[0], unit(direction)),
        forall|i: int|
            0 <= i < chain.len() ==> touching(#[trigger] step_chain(chain, direction)[i], chain[i]),
    decreases chain.len(),
{
    if chain.len() >= 2 {
        let shorter = chain.drop_last();
        assert forall|i: int| 0 < i < shorter.len() implies touching(
            shorter[i - 1],
            #[trigger] shorter[i],
        ) by {
            assert(touching(chain[i - 1], chain[i]));
        }
        lemma_step_chain(shorter, direction);
        let front = step_chain(shorter, direction);
        let after = step_chain(chain, direction);
        let n = chain.len() as int;
        assert(touching(chain[n - 2], chain[n - 1]));
        assert(touching(front[n - 2], shorter[n - 2]));
        assert forall|i: int| 0 < i < after.len() implies touching(
            after[i - 1],
            #[trigger] after[i],
        ) by {
            if i < n - 1 {
                assert(touching(front[i - 1], front[i]));
            }
        }
        assert forall|i: int| 0 <= i < chain.len() implies touching(
            #[trigger] after[i],
            chain[i],
        ) by {
            if i < n - 1 {
                assert(touching(front[i], shorter[i]));
            }
        }
    }
}

/// After every step of a stream, a chain that was linked is linked: every
/// knot touches the knot before it.
pub proof fn lemma_run_keeps_linked(chain: Seq<(int, int)>, stream: Seq<Instruction>, k: int)
    requires
        linked(chain),
        0 <= k <= stream.len(),
    ensures
        linked(run_chain(chain, stream.take(k))),
        run_chain(chain, stream.take(k)).len() == chain.len(),
        chain.len() > 0 ==> run_chain(chain, stream.take(k))[0] == plus(
            chain[0],
            displacement(stream.take(k)),
        ),
    decreases k,
{
    let prefix = stream.take(k);
    if k > 0 {
        assert(prefix.drop_last() == stream.take(k - 1));
        lemma_run_keeps_linked(chain, stream, k - 1);
        lemma_step_chain(run_chain(chain, stream.take(k - 1)), prefix.last());
    }
}

/// A chain whose knots all lie on the origin is linked.
pub proof fn lemma_origin_chain_linked(knots: nat)
    ensures
        linked(origin_chain(knots)),
{
}

/// A head that starts on the origin stays on `i32` coordinates during a
/// stream of at most `i32::MAX` steps.
pub proof fn lemma_short_stream_fits(stream: Seq<Instruction>)
    requires
        stream.len() <= i32::MAX,
    ensures
        head_path_fits((0, 0), stream),
{
    assert forall|k: int| 0 <= k <= stream.len() implies fits(
        plus((0, 0), #[trigger] displacement(stream.take(k))),
    ) by {
        lemma_displacement_bound(stream.take(k));
    }
}

/// The head is never further from its start than it has taken steps.
pub proof fn lemma_displacement_bound(stream: Seq<Instruction>)
    ensures
        magnitude(displacement(stream).0) <= stream.len(),
        magnitude(displacement(stream).1) <= stream.len(),
    decreases stream.len(),
{
    if stream.len() > 0 {
        lemma_displacement_bound(stream.drop_last());
    }
}

/// The visited set never loses a position: what the tail has visited after
/// the first `k` steps it has visited after the whole stream, so the size of
/// the set does not decrease as the stream is consumed.
pub proof fn lemma_visited_grows(chain: Seq<(int, int)>, stream: Seq<Instruction>, k: int)
    requires
        0 <= k <= stream.len(),
    ensures
        visited(chain, stream.take(k)).subset_of(visited(chain, stream)),
        visited(chain, stream).finite(),
        visited(chain, stream.take(k)).len() <= visited(chain, stream).len(),
{
    let part = tail_trail(chain, stream.take(k));
    let whole = tail_trail(chain, stream);
    assert forall|p: (int, int)| part.to_set().contains(p) implies whole.to_set().contains(p) by {
        let j = choose|j: int| 0 <= j < part.len() && part[j] == p;
        assert(stream.take(k).take(j) == stream.take(j));
        assert(whole[j] == p);
    }
    vstd::seq_lib::seq_to_set_is_finite(whole);
    vstd::set_lib::lemma_len_subset(part.to_set(), whole.to_set());
}

/// An instruction with count 0 expands to no step, and a stream that is
/// continued by no step leaves the chain and the visited set as they were.
pub proof fn lemma_zero_count(
    chain: Seq<(int, int)>,
    stream: Seq<Instruction>,
    direction: Instruction,
)
    ensures
        expand(direction, 0).len() == 0,
        run_chain(chain, stream + expand(direction, 0)) == run_chain(chain, stream),
        visited(chain, stream + expand(direction, 0)) == visited(chain, stream),
{
    assert(stream + expand(direction, 0) == stream);
}

/// Two recorded trails of the same stream from the same chain are the same
/// trail, and so are the visited sets that they give.
pub proof fn lemma_same_run_same_visited(
    chain: Seq<(int, int)>,
    stream: Seq<Instruction>,
    first: Seq<(i32, i32)>,
    second: Seq<(i32, i32)>,
)
    requires
        trail_points(first) == tail_trail(chain, stream),
        trail_points(second) == tail_trail(chain, stream),
    ensures
        first == second,
        trail_points(first).to_set() == visited(chain, stream),
        trail_points(second).to_set() == visited(chain, stream),
{
    assert(first.len() == trail_points(first).len());
    assert(second.len() == trail_points(second).len());
    assert forall|i: int| 0 <= i < first.len() implies first[i] == second[i] by {
        assert(trail_points(first)[i] == trail_points(second)[i]);
    }
    assert(first =~= second);
}

/// The number of distinct pairs of a trail is the number of distinct points
/// that they stand for.
proof fn lemma_distinct_points(trail: Seq<(i32, i32)>)
    ensures
        first_occurrences(trail).len() == trail_points(trail).to_set().len(),
{
    let found = first_occurrences(trail);
    lemma_first_occurrences(trail);
    let as_points = trail_points(found);
    assert forall|i: int, j: int|
        0 <= i < as_points.len() && 0 <= j < as_points.len() && i != j implies as_points[i]
        != as_points[j] by {
        assert(found[i] != found[j]);
    }
    as_points.unique_seq_to_set();
    assert forall|p: (int, int)| as_points.to_set().contains(p) <==> trail_points(
        trail,
    ).to_set().contains(p) by {
        if as_points.to_set().contains(p) {
            let i = choose|i: int| 0 <= i < as_points.len() && as_points[i] == p;
            assert(found.to_set().contains(found[i]));
            assert(trail.to_set().contains(found[i]));
            let j = choose|j: int| 0 <= j < trail.len() && trail[j] == found[i];
            assert(trail_points(trail)[j] == p);
        }
        if trail_points(trail).to_set().contains(p) {
            let j = choose|j: int| 0 <= j < trail.len() && trail_points(trail)[j] == p;
            assert(trail.to_set().contains(trail[j]));
            assert(found.to_set().contains(trail[j]));
            let i = choose|i: int| 0 <= i < found.len() && found[i] == trail[j];
            assert(as_points[i] == p);
        }
    }
    assert(as_points.to_set() =~= trail_points(trail).to_set());
}

/// The move of a knot whose leader is `position_delta` away: zero while the
/// two touch, else one cell towards the leader on each axis on which they
/// differ.
pub fn update_position(position_delta: GridPos) -> (r: (i32, i32))
    ensures
        (r.0 as int, r.1 as int) == follow_move(position_delta@),
{
    let dx = position_delta.x;
    let dy = position_delta.y;
    if -1 <= dx && dx <= 1 && -1 <= dy && dy <= 1 {
        (0, 0)
    } else {
        let mx: i32 = if dx > 0 {
            1
        } else if dx < 0 {
            -1
        } else {
            0
        };
        let my: i32 = if dy > 0 {
            1
        } else if dy < 0 {
            -1
        } else {
            0
        };
        (mx, my)
    }
}

/// The chain of knots. Index 0 is the head, the last index is the tail.
pub struct Rope {
    knots: Vec<GridPos>,
}

impl View for Rope {
    type V = Seq<(int, int)>;

    closed spec fn view(&self) -> Seq<(int, int)> {
        points(self.knots@)
    }
}

impl Rope {
    /// A rope has a knot, and each knot touches the knot before it.
    pub open spec fn wf(&self) -> bool {
        self@.len() >= 1 && linked(self@)
    }

    /// A rope of `knots` knots, all on the origin. There is no rope without
    /// a knot.
    pub fn new(knots: usize) -> (r: Option<Rope>)
        ensures
            knots == 0 ==> r is None,
            knots > 0 ==> r is Some && r->0@ == origin_chain(knots as nat) && r->0.wf(),
    {
        if knots == 0 {
            return None;
        }
        let mut list: Vec<GridPos> = Vec::new();
        let mut i: usize = 0;
        while i < knots
            invariant
                i <= knots,
                list@.len() == i,
                forall|j: int| 0 <= j < i ==> list@[j] == (GridPos { x: 0, y: 0 }),
            decreases knots - i,
        {
            list.push(GridPos { x: 0, y: 0 });
            i += 1;
        }
        let rope = Rope { knots: list };
        assert(rope@ =~= origin_chain(knots as nat));
        Some(rope)
    }

    /// The number of knots.
    pub fn len(&self) -> (n: usize)
        ensures
            n == self@.len(),
    {
        self.knots.len()
    }

    /// The position of knot `i`.
    pub fn knot(&self, i: usize) -> (p: GridPos)
        requires
            i < self@.len(),
        ensures
            p@ == self@[i as int],
    {
        self.knots[i]
    }

    /// The position of the last knot.
    pub fn tail(&self) -> (p: GridPos)
        requires
            self@.len() >= 1,
        ensures
            p@ == self@.last(),
    {
        self.knots[self.knots.len() - 1]
    }

    /// Whether the head has room on `i32` coordinates to move one cell in
    /// `direction`.
    pub fn can_step(&self, direction: Instruction) -> (b: bool)
        requires
            self@.len() >= 1,
        ensures
            b == fits(plus(self@[0], unit(direction))),
    {
        let head = self.knots[0];
        match direction {
            Instruction::Up => head.y < i32::MAX,
            Instruction::Down => head.y > i32::MIN,
            Instruction::Left => head.x > i32::MIN,
            Instruction::Right => head.x < i32::MAX,
        }
    }

    /// Moves the head one cell and lets every other knot follow the knot
    /// before it. The head must have room on `i32` coordinates.
    pub fn step(&mut self, direction: Instruction)
        requires
            old(self).wf(),
            fits(plus(old(self)@[0], unit(direction))),
        ensures
            final(self).wf(),
            final(self)@ == step_chain(old(self)@, direction),
    {
        let ghost before = self@;
        let ghost after = step_chain(before, direction);
        proof {
            lemma_step_shape(before, direction);
            lemma_step_chain(before, direction);
        }
        let n = self.knots.len();
        let head = self.knots[0];
        let moved = match direction {
            Instruction::Up => GridPos { x: head.x, y: head.y + 1 },
            Instruction::Down => GridPos { x: head.x, y: head.y - 1 },
            Instruction::Left => GridPos { x: head.x - 1, y: head.y },
            Instruction::Right => GridPos { x: head.x + 1, y: head.y },
        };
        self.knots.set(0, moved);
        let mut i: usize = 1;
        while i < n
            invariant
                1 <= i <= n,
                n == self.knots@.len(),
                n == before.len(),
                n == after.len(),
                linked(before),
                forall|j: int| 0 <= j < n ==> touching(#[trigger] after[j], before[j]),
                forall|j: int|
                    0 < j < n ==> #[trigger] after[j] == follow(after[j - 1], before[j]),
                forall|j: int| 0 <= j < i ==> (#[trigger] self.knots@[j])@ == after[j],
                forall|j: int| i <= j < n ==> (#[trigger] self.knots@[j])@ == before[j],
            decreases n - i,
        {
            let leader = self.knots[i - 1];
            let knot = self.knots[i];
            proof {
                assert(touching(after[i - 1], before[i - 1]));
                assert(touching(before[i - 1], before[i as int]));
                assert(after[i as int] == follow(leader@, knot@));
            }
            let (dx, dy) = update_position(leader - knot);
            self.knots.set(i, GridPos { x: knot.x + dx, y: knot.y + dy });
            i += 1;
        }
        assert(self@ =~= after);
    }

    /// Takes all the steps of `instructions` in order and records where the
    /// tail is at the start and after each step.
    pub fn run(&mut self, instructions: &Vec<Instruction>) -> (trail: Vec<(i32, i32)>)
        requires
            old(self).wf(),
            head_path_fits(old(self)@[0], instructions@),
        ensures
            final(self).wf(),
            final(self)@ == run_chain(old(self)@, instructions@),
            trail_points(trail@) == tail_trail(old(self)@, instructions@),
    {
        let ghost before = self@;
        let ghost stream = instructions@;
        let mut trail: Vec<(i32, i32)> = Vec::new();
        let start = self.tail();
        trail.push((start.x, start.y));
        assert(stream.take(0) == Seq::<Instruction>::empty());
        let mut k: usize = 0;
        while k < instructions.len()
            invariant
                k <= stream.len(),
                stream == instructions@,
                linked(before),
                before.len() >= 1,
                head_path_fits(before[0], stream),
                self.wf(),
                self@ == run_chain(before, stream.take(k as int)),
                trail@.len() == k + 1,
                forall|j: int|
                    0 <= j <= k ==> (#[trigger] trail@[j].0 as int, trail@[j].1 as int)
                        == run_chain(before, stream.take(j)).last(),
            decreases stream.len() - k,
        {
            proof {
                lemma_run_keeps_linked(before, stream, k as int);
                assert(stream.take(k + 1).drop_last() == stream.take(k as int));
                assert(stream.take(k + 1).last() == stream[k as int]);
                assert(fits(plus(before[0], displacement(stream.take(k + 1)))));
            }
            self.step(instructions[k]);
            let tail = self.tail();
            trail.push((tail.x, tail.y));
            k += 1;
        }
        proof {
            assert(stream.take(k as int) == stream);
            assert(trail_points(trail@) =~= tail_trail(before, stream));
        }
        trail
    }
}

/// Whether a head that starts on the origin stays on `i32` coordinates
/// during the whole of `instructions`.
pub fn path_fits(instructions: &Vec<Instruction>) -> (b: bool)
    ensures
        b == head_path_fits((0, 0), instructions@),
{
    let ghost stream = instructions@;
    let mut x: i32 = 0;
    let mut y: i32 = 0;
    let mut k: usize = 0;
    assert(stream.take(0) == Seq::<Instruction>::empty());
    while k < instructions.len()
        invariant
            k <= stream.len(),
            stream == instructions@,
            (x as int, y as int) == displacement(stream.take(k as int)),
            forall|j: int| 0 <= j <= k ==> fits(plus((0, 0), #[trigger] displacement(stream.take(j)))),
        decreases stream.len() - k,
    {
        proof {
            assert(stream.take(k + 1).drop_last() == stream.take(k as int));
            assert(stream.take(k + 1).last() == stream[k as int]);
        }
        let stuck = match instructions[k] {
            Instruction::Up => y == i32::MAX,
            Instruction::Down => y == i32::MIN,
            Instruction::Left => x == i32::MIN,
            Instruction::Right => x == i32::MAX,
        };
        if stuck {
            assert(!fits(plus((0, 0), displacement(stream.take(k + 1)))));
            return false;
        }
        match instructions[k] {
            Instruction::Up => {
                y = y + 1;
            },
            Instruction::Down => {
                y = y - 1;
            },
            Instruction::Left => {
                x = x - 1;
            },
            Instruction::Right => {
                x = x + 1;
            },
        }
        k += 1;
    }
    true
}

/// Drives `rope` through `instructions` and counts the distinct positions
/// that its tail occupies, the position it starts on included.
pub fn count_tail_positions(rope: &mut Rope, instructions: &Vec<Instruction>) -> (count: usize)
    requires
        old(rope).wf(),
        head_path_fits(old(rope)@[0], instructions@),
    ensures
        final(rope).wf(),
        final(rope)@ == run_chain(old(rope)@, instructions@),
        count == visited(old(rope)@, instructions@).len(),
{
    let trail = rope.run(instructions);
    let distinct = unique_points(&trail);
    proof {
        lemma_distinct_points(trail@);
    }
    distinct.len()
}

/// Drives a rope of `knots` knots, which all start on the origin, through
/// `instructions` and counts the distinct positions of its tail. `None`
/// where there is no knot or where the head would leave the `i32`
/// coordinates.
pub fn simulate(instructions: &Vec<Instruction>, knots: usize) -> (r: Option<usize>)
    ensures
        match r {
            Some(count) => knots > 0 && head_path_fits((0, 0), instructions@) && count == visited(
                origin_chain(knots as nat),
                instructions@,
            ).len(),
            None => knots == 0 || !head_path_fits((0, 0), instructions@),
        },
{
    if !path_fits(instructions) {
        return None;
    }
    match Rope::new(knots) {
        Some(mut rope) => Some(count_tail_positions(&mut rope, instructions)),
        None => None,
    }
}

/// The number of positions that the tail of a rope of two knots visits when
/// both start on the origin.
pub fn short_rope(instructions: Vec<Instruction>) -> (count: usize)
    requires
        head_path_fits((0, 0), instructions@),
    ensures
        count == visited(origin_chain(2), instructions@).len(),
{
    match Rope::new(2) {
        Some(mut rope) => count_tail_positions(&mut rope, &instructions),
        None => 0,
    }
}

/// The number of positions that the tail of a rope of ten knots visits when
/// all start on the origin.
pub fn long_rope(instructions: Vec<Instruction>) -> (count: usize)
    requires
        head_path_fits((0, 0), instructions@),
    ensures
        count == visited(origin_chain(10), instructions@).len(),
{
    match Rope::new(10) {
        Some(mut rope) => count_tail_positions(&mut rope, &instructions),
        None => 0,
    }
}

} // verus!
