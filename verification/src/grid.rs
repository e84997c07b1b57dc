//! Shared 2D-coordinate primitives: axis-aligned unit moves, Manhattan
//! distance, and bounds tests against a rectangular region.

use vstd::prelude::*;

verus! {

/// A position on a rectangular grid; `x` grows rightward, `y` grows downward.
#[derive(PartialEq, Eq, Structural, Clone, Copy, Debug)]
pub struct Coord {
    pub x: usize,
    pub y: usize,
}

/// One of the four axis-aligned unit directions.
#[derive(PartialEq, Eq, Structural, Clone, Copy, Debug)]
pub enum Direction {
    Right,
    Left,
    Up,
    Down,
}

/// Manhattan distance between two coordinates.
pub open spec fn manhattan(a: Coord, b: Coord) -> int {
    let dx = if a.x >= b.x { a.x - b.x } else { b.x - a.x };
    let dy = if a.y >= b.y { a.y - b.y } else { b.y - a.y };
    dx + dy
}

impl Coord {
    pub fn new(x: usize, y: usize) -> (r: Coord)
        ensures
            r.x == x,
            r.y == y,
    {
        Coord { x, y }
    }

    pub fn move_right(&self) -> (r: Coord)
        requires
            self.x < usize::MAX,
        ensures
            r.x == self.x + 1,
            r.y == self.y,
    {
        Coord { x: self.x + 1, y: self.y }
    }

    pub fn move_left(&self) -> (r: Coord)
        requires
            self.x >= 1,
        ensures
            r.x == self.x - 1,
            r.y == self.y,
    {
        Coord { x: self.x - 1, y: self.y }
    }

    pub fn move_down(&self) -> (r: Coord)
        requires
            self.y < usize::MAX,
        ensures
            r.x == self.x,
            r.y == self.y + 1,
    {
        Coord { x: self.x, y: self.y + 1 }
    }

    pub fn move_up(&self) -> (r: Coord)
        requires
            self.y >= 1,
        ensures
            r.x == self.x,
            r.y == self.y - 1,
    {
        Coord { x: self.x, y: self.y - 1 }
    }

    /// Step one cell in the given direction.
    pub fn move_to(&self, dir: Direction) -> (r: Coord)
        requires
            dir == Direction::Right ==> self.x < usize::MAX,
            dir == Direction::Left ==> self.x >= 1,
            dir == Direction::Down ==> self.y < usize::MAX,
            dir == Direction::Up ==> self.y >= 1,
        ensures
            r == self.spec_move_to(dir),
    {
        match dir {
            Direction::Right => self.move_right(),
            Direction::Left => self.move_left(),
            Direction::Down => self.move_down(),
            Direction::Up => self.move_up(),
        }
    }

    /// Where one step in `dir` lands, as a spec-level function.
    pub open spec fn spec_move_to(self, dir: Direction) -> Coord {
        match dir {
            Direction::Right => Coord { x: (self.x + 1) as usize, y: self.y },
            Direction::Left => Coord { x: (self.x - 1) as usize, y: self.y },
            Direction::Down => Coord { x: self.x, y: (self.y + 1) as usize },
            Direction::Up => Coord { x: self.x, y: (self.y - 1) as usize },
        }
    }

    /// Manhattan distance to `other`.
    pub fn distance_to(&self, other: &Coord) -> (r: usize)
        requires
            manhattan(*self, *other) <= usize::MAX,
        ensures
            r == manhattan(*self, *other),
    {
        let dx = if self.x >= other.x { self.x - other.x } else { other.x - self.x };
        let dy = if self.y >= other.y { self.y - other.y } else { other.y - self.y };
        dx + dy
    }
}

/// A rectangular region of `width * height` cells whose upper-left interior
/// cell is `(min_x, min_y)`.
#[derive(PartialEq, Eq, Structural, Clone, Copy, Debug)]
pub struct Rect {
    pub min_x: usize,
    pub min_y: usize,
    pub width: usize,
    pub height: usize,
}

impl Rect {
    pub open spec fn spec_contains(self, c: Coord) -> bool {
        &&& self.min_x <= c.x < self.min_x + self.width
        &&& self.min_y <= c.y < self.min_y + self.height
    }

    /// Whether `c` lies inside the region.
    pub fn contains(&self, c: Coord) -> (r: bool)
        ensures
            r == self.spec_contains(c),
    {
        self.min_x <= c.x && c.x - self.min_x < self.width && self.min_y <= c.y
            && c.y - self.min_y < self.height
    }
}

} // verus!
