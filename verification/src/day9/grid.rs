//! Positions on the integer lattice.

use vstd::prelude::*;
use vstd::std_specs::ops::AddSpecImpl;
use vstd::std_specs::ops::SubSpecImpl;

verus! {

/// A point of the lattice. Its view is the pair of its coordinates as
/// mathematical integers.
#[derive(Clone, Copy, Debug, PartialEq, Eq, Hash, Structural)]
pub struct GridPos {
    pub x: i32,
    pub y: i32,
}

impl View for GridPos {
    type V = (int, int);

    open spec fn view(&self) -> (int, int) {
        (self.x as int, self.y as int)
    }
}

/// Whether both coordinates of `p` can be held in an `i32`.
pub open spec fn fits(p: (int, int)) -> bool {
    i32::MIN <= p.0 <= i32::MAX && i32::MIN <= p.1 <= i32::MAX
}

/// Component-wise sum.
pub open spec fn plus(a: (int, int), b: (int, int)) -> (int, int) {
    (a.0 + b.0, a.1 + b.1)
}

/// Component-wise difference.
pub open spec fn minus(a: (int, int), b: (int, int)) -> (int, int) {
    (a.0 - b.0, a.1 - b.1)
}

impl core::ops::Add for GridPos {
    type Output = GridPos;

    fn add(self, other: GridPos) -> (sum: GridPos) {
        GridPos { x: self.x + other.x, y: self.y + other.y }
    }
}

impl AddSpecImpl for GridPos {
    open spec fn obeys_add_spec() -> bool {
        true
    }

    open spec fn add_req(self, other: GridPos) -> bool {
        fits(plus(self@, other@))
    }

    open spec fn add_spec(self, other: GridPos) -> GridPos {
        GridPos { x: (self.x + other.x) as i32, y: (self.y + other.y) as i32 }
    }
}

impl core::ops::Sub for GridPos {
    type Output = GridPos;

    fn sub(self, other: GridPos) -> (difference: GridPos) {
        GridPos { x: self.x - other.x, y: self.y - other.y }
    }
}

impl SubSpecImpl for GridPos {
    open spec fn obeys_sub_spec() -> bool {
        true
    }

    open spec fn sub_req(self, other: GridPos) -> bool {
        fits(minus(self@, other@))
    }

    open spec fn sub_spec(self, other: GridPos) -> GridPos {
        GridPos { x: (self.x - other.x) as i32, y: (self.y - other.y) as i32 }
    }
}

} // verus!
