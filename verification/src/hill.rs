//! Hill-climbing shortest path: a grid of elevation letters with a start
//! and an end marker, unit steps that may climb at most one level, and a
//! breadth-first frontier traversal that finds the least number of steps.

use vstd::prelude::*;
use crate::grid::Coord;

verus! {

/// An elevation grid, row-major.
pub struct Terrain {
    pub levels: Vec<u8>,
    pub width: usize,
    pub height: usize,
}

proof fn lemma_terrain_size(t: Terrain)
    requires
        t.wf(),
    ensures
        t.width * t.height <= 100000000,
        t.height * t.width <= 100000000,
{
    assert(t.width * t.height <= 100000000 && t.height * t.width <= 100000000)
        by (nonlinear_arith)
        requires
            1 <= t.width <= 10000,
            1 <= t.height <= 10000,
    ;
}

proof fn lemma_row_major_lt(width: int, x2: int, y2: int, y: int)
    requires
        0 <= x2 < width,
        0 <= y2 < y,
    ensures
        y2 * width + x2 < y * width,
{
    assert(y2 * width + x2 < y * width) by (nonlinear_arith)
        requires
            0 <= x2 < width,
            0 <= y2 < y,
    ;
}

/// The matching cells of one row left of `x`, leftmost first.
pub open spec fn coords_in_row(t: Terrain, level: u8, y: int, x: int) -> Seq<Coord>
    decreases x,
{
    if x <= 0 {
        Seq::empty()
    } else {
        coords_in_row(t, level, y, x - 1) + if t.spec_level_at(x - 1, y) == level {
            seq![Coord { x: (x - 1) as usize, y: y as usize }]
        } else {
            Seq::empty()
        }
    }
}

/// The matching cells of the first `rows` rows, row-major.
pub open spec fn coords_with_level(t: Terrain, level: u8, rows: int) -> Seq<Coord>
    decreases rows,
{
    if rows <= 0 {
        Seq::empty()
    } else {
        coords_with_level(t, level, rows - 1) + coords_in_row(t, level, rows - 1, t.width as int)
    }
}

impl Terrain {
    pub open spec fn wf(self) -> bool {
        &&& 1 <= self.width <= 10000
        &&& 1 <= self.height <= 10000
        &&& self.levels@.len() == self.width * self.height
    }

    /// The recorded letter of a cell.
    pub open spec fn spec_level_at(self, x: int, y: int) -> u8 {
        self.levels@[y * self.width + x]
    }

    /// Build the grid from rows of letters.  Empty or ragged input is
    /// malformed.
    pub fn from_2d_vec(area: &Vec<Vec<u8>>) -> (r: Option<Terrain>)
        ensures
            match r {
                Option::Some(t) => {
                    &&& t.wf()
                    &&& t.height == area@.len()
                    &&& t.width == area.deep_view()[0].len()
                    &&& forall|x: int, y: int|
                        0 <= y < t.height && 0 <= x < t.width ==> #[trigger] t.spec_level_at(x, y)
                            == area.deep_view()[y][x]
                },
                Option::None => area@.len() == 0 || area@.len() > 10000
                    || area.deep_view()[0].len() == 0 || area.deep_view()[0].len() > 10000
                    || exists|y: int|
                    0 <= y < area@.len() && (#[trigger] area.deep_view()[y]).len()
                        != area.deep_view()[0].len(),
            },
    {
        let ghost av = area.deep_view();
        let height = area.len();
        if height == 0 || height > 10000 {
            return None;
        }
        let width = area[0].len();
        proof {
            assert(av[0] == area@[0]@);
        }
        if width == 0 || width > 10000 {
            return None;
        }
        let mut levels: Vec<u8> = Vec::new();
        let mut y: usize = 0;
        while y < height
            invariant
                av == area.deep_view(),
                av.len() == area@.len() == height,
                1 <= height <= 10000,
                1 <= width <= 10000,
                width == av[0].len(),
                y <= height,
                levels@.len() == y * width,
                forall|y2: int| 0 <= y2 < y ==> (#[trigger] av[y2]).len() == width,
                forall|x2: int, y2: int|
                    0 <= y2 < y && 0 <= x2 < width ==> levels@[y2 * width + x2] == (
                    #[trigger] av[y2][x2]),
            decreases height - y,
        {
            if area[y].len() != width {
                proof {
                    assert(av[y as int] == area@[y as int]@);
                }
                return None;
            }
            let mut x: usize = 0;
            while x < width
                invariant
                    av == area.deep_view(),
                    av.len() == area@.len() == height,
                    1 <= width <= 10000,
                    y < height <= 10000,
                    width == av[0].len(),
                    av[y as int].len() == width,
                    x <= width,
                    levels@.len() == y * width + x,
                    forall|x2: int, y2: int|
                        0 <= y2 < y && 0 <= x2 < width ==> levels@[y2 * width + x2] == (
                        #[trigger] av[y2][x2]),
                    forall|x2: int| 0 <= x2 < x ==> levels@[y * width + x2] == (#[trigger] av[
                        y as int][x2]),
                decreases width - x,
            {
                proof {
                    assert(av[y as int] == area@[y as int]@);
                }
                levels.push(area[y][x]);
                proof {
                    assert forall|x2: int, y2: int|
                        0 <= y2 < y && 0 <= x2 < width implies levels@[y2 * width + x2] == (
                    #[trigger] av[y2][x2]) by {
                        lemma_row_major_lt(width as int, x2, y2, y as int);
                    }
                }
                x += 1;
            }
            proof {
                assert(y * width + width == (y + 1) * width) by (nonlinear_arith);
            }
            y += 1;
        }
        proof {
            assert(levels@.len() == height * width);
            assert(height * width == width * height) by (nonlinear_arith);
        }
        Some(Terrain { levels, width, height })
    }

    /// Read one cell.
    pub fn level_at(&self, c: Coord) -> (r: u8)
        requires
            self.wf(),
            c.x < self.width,
            c.y < self.height,
        ensures
            r == self.spec_level_at(c.x as int, c.y as int),
    {
        proof {
            lemma_terrain_size(*self);
            assert(c.y * self.width + c.x < (c.y + 1) * self.width) by (nonlinear_arith)
                requires
                    c.x < self.width,
            ;
            assert((c.y + 1) * self.width <= self.height * self.width) by (nonlinear_arith)
                requires
                    c.y + 1 <= self.height,
                    self.width >= 0,
            ;
            assert(self.height * self.width == self.width * self.height) by (nonlinear_arith);
        }
        self.levels[c.y * self.width + c.x]
    }

    /// Whether the end marker stands at `c`.
    pub fn is_end_at(&self, c: Coord) -> (r: bool)
        requires
            self.wf(),
            c.x < self.width,
            c.y < self.height,
        ensures
            r == (self.spec_level_at(c.x as int, c.y as int) == 69),
    {
        self.level_at(c) == 69
    }

    /// Every cell holding the given letter, in row-major order.
    pub fn all_coords_with_level(&self, level: u8) -> (r: Vec<Coord>)
        requires
            self.wf(),
        ensures
            r@ == coords_with_level(*self, level, self.height as int),
    {
        let mut coords: Vec<Coord> = Vec::new();
        let mut y: usize = 0;
        proof {
            assert(coords@ =~= coords_with_level(*self, level, 0));
        }
        while y < self.height
            invariant
                self.wf(),
                y <= self.height,
                coords@ == coords_with_level(*self, level, y as int),
            decreases self.height - y,
        {
            let mut x: usize = 0;
            proof {
                assert(coords@ =~= coords_with_level(*self, level, y as int) + coords_in_row(
                    *self,
                    level,
                    y as int,
                    0,
                ));
            }
            while x < self.width
                invariant
                    self.wf(),
                    y < self.height,
                    x <= self.width,
                    coords@ == coords_with_level(*self, level, y as int) + coords_in_row(
                        *self,
                        level,
                        y as int,
                        x as int,
                    ),
                decreases self.width - x,
            {
                let c = Coord { x, y };
                if self.level_at(c) == level {
                    coords.push(c);
                }
                proof {
                    assert(coords@ =~= coords_with_level(*self, level, y as int) + coords_in_row(
                        *self,
                        level,
                        y as int,
                        x + 1,
                    ));
                }
                x += 1;
            }
            proof {
                assert(coords@ =~= coords_with_level(*self, level, y + 1));
            }
            y += 1;
        }
        coords
    }

}

/// The letter read as a climbing level: the start marker is lowest, the
/// end marker highest.
pub open spec fn effective_level(b: u8) -> int {
    if b == 83 {
        97
    } else if b == 69 {
        122
    } else {
        b as int
    }
}

/// A unit step from `from` to `to` is walkable: orthogonally adjacent,
/// inside the grid, climbing at most one level.
pub open spec fn spec_can_go(t: Terrain, from: Coord, to: Coord) -> bool {
    &&& from.x < t.width && from.y < t.height
    &&& to.x < t.width && to.y < t.height
    &&& crate::blizzard::is_step(from, to) && from != to
    &&& effective_level(t.spec_level_at(to.x as int, to.y as int)) <= effective_level(
        t.spec_level_at(from.x as int, from.y as int),
    ) + 1
}

/// Whether one may walk from `from` one cell in the given direction.
pub fn can_go(t: &Terrain, from: Coord, to: Coord) -> (r: bool)
    requires
        t.wf(),
        from.x < t.width,
        from.y < t.height,
    ensures
        r == spec_can_go(*t, from, to),
{
    if !(to.x < t.width && to.y < t.height) {
        return false;
    }
    let adjacent = (from.x == to.x && (from.y + 1 == to.y || to.y + 1 == from.y)) || (from.y
        == to.y && (from.x + 1 == to.x || to.x + 1 == from.x));
    if !adjacent {
        return false;
    }
    let from_level = t.level_at(from);
    let to_level = t.level_at(to);
    let from_eff: u32 = if from_level == 83 {
        97
    } else if from_level == 69 {
        122
    } else {
        from_level as u32
    };
    let to_eff: u32 = if to_level == 83 {
        97
    } else if to_level == 69 {
        122
    } else {
        to_level as u32
    };
    to_eff <= from_eff + 1
}

/// The cells reachable in exactly `k` walkable steps from `start`.
pub open spec fn hill_reach(t: Terrain, start: Coord, k: nat, c: Coord) -> bool
    decreases k,
{
    if k == 0 {
        c == start
    } else {
        exists|p: Coord| hill_reach(t, start, (k - 1) as nat, p) && #[trigger] spec_can_go(t, p, c)
    }
}

proof fn lemma_hill_reach_bounds(t: Terrain, start: Coord, k: nat, c: Coord)
    requires
        t.wf(),
        start.x < t.width,
        start.y < t.height,
        hill_reach(t, start, k, c),
    ensures
        c.x < t.width && c.y < t.height,
{
}

/// A frontier grid encodes exactly the cells reachable in `k` steps.
pub open spec fn hill_frontier_ok(t: Terrain, f: Seq<bool>, start: Coord, k: nat) -> bool {
    &&& f.len() == t.width * t.height
    &&& forall|x: int, y: int|
        0 <= x < t.width && 0 <= y < t.height ==> f[#[trigger] hill_index(t, x, y)] == hill_reach(
            t,
            start,
            k,
            Coord { x: x as usize, y: y as usize },
        )
}

pub open spec fn hill_index(t: Terrain, x: int, y: int) -> int {
    y * t.width + x
}

proof fn lemma_hill_index_bounds(t: Terrain, x: int, y: int)
    requires
        t.wf(),
        0 <= x < t.width,
        0 <= y < t.height,
    ensures
        0 <= hill_index(t, x, y) < t.width * t.height,
{
    assert(0 <= y * t.width + x < t.width * t.height) by (nonlinear_arith)
        requires
            0 <= x < t.width,
            0 <= y < t.height,
    ;
}

fn hill_frontier_get(t: &Terrain, f: &Vec<bool>, x: usize, y: usize) -> (r: bool)
    requires
        t.wf(),
        f@.len() == t.width * t.height,
        x < t.width,
        y < t.height,
    ensures
        r == f@[hill_index(*t, x as int, y as int)],
{
    proof {
        lemma_terrain_size(*t);
        lemma_hill_index_bounds(*t, x as int, y as int);
    }
    f[y * t.width + x]
}

/// One cell of the next frontier: reachable in `k + 1` steps exactly when
/// a walkable step leads in from a cell of the step-`k` frontier.
proof fn lemma_hill_step_cases(
    t: Terrain,
    f: Seq<bool>,
    start: Coord,
    k: nat,
    c: Coord,
    found: bool,
)
    requires
        t.wf(),
        start.x < t.width,
        start.y < t.height,
        hill_frontier_ok(t, f, start, k),
        c.x < t.width,
        c.y < t.height,
        found == ((c.x + 1 < t.width && f[hill_index(t, c.x + 1, c.y as int)] && spec_can_go(
            t,
            Coord { x: (c.x + 1) as usize, y: c.y },
            c,
        )) || (c.x >= 1 && f[hill_index(t, c.x - 1, c.y as int)] && spec_can_go(
            t,
            Coord { x: (c.x - 1) as usize, y: c.y },
            c,
        )) || (c.y + 1 < t.height && f[hill_index(t, c.x as int, c.y + 1)] && spec_can_go(
            t,
            Coord { x: c.x, y: (c.y + 1) as usize },
            c,
        )) || (c.y >= 1 && f[hill_index(t, c.x as int, c.y - 1)] && spec_can_go(
            t,
            Coord { x: c.x, y: (c.y - 1) as usize },
            c,
        ))),
    ensures
        found == hill_reach(t, start, (k + 1) as nat, c),
{
    if found {
        assert(hill_reach(t, start, (k + 1) as nat, c));
    } else {
        if hill_reach(t, start, (k + 1) as nat, c) {
            let p = choose|p: Coord|
                hill_reach(t, start, k, p) && #[trigger] spec_can_go(t, p, c);
            lemma_hill_reach_bounds(t, start, k, p);
            if p.x == c.x + 1 && p.y == c.y {
                assert(p == Coord { x: (c.x + 1) as usize, y: c.y });
                assert(f[hill_index(t, c.x + 1, c.y as int)]);
            } else if c.x >= 1 && p.x == c.x - 1 && p.y == c.y {
                assert(p == Coord { x: (c.x - 1) as usize, y: c.y });
                assert(f[hill_index(t, c.x - 1, c.y as int)]);
            } else if p.x == c.x && p.y == c.y + 1 {
                assert(p == Coord { x: c.x, y: (c.y + 1) as usize });
                assert(f[hill_index(t, c.x as int, c.y + 1)]);
            } else {
                assert(c.y >= 1 && p.x == c.x && p.y == c.y - 1);
                assert(p == Coord { x: c.x, y: (c.y - 1) as usize });
                assert(f[hill_index(t, c.x as int, c.y - 1)]);
            }
            assert(false);
        }
    }
}

/// Advance the frontier one walkable step.
fn hill_next_frontier(t: &Terrain, f: &Vec<bool>, Ghost(start): Ghost<Coord>, Ghost(k): Ghost<
    nat,
>) -> (nf: Vec<bool>)
    requires
        t.wf(),
        start.x < t.width,
        start.y < t.height,
        hill_frontier_ok(*t, f@, start, k),
    ensures
        hill_frontier_ok(*t, nf@, start, (k + 1) as nat),
{
    let mut nf: Vec<bool> = Vec::new();
    let mut y: usize = 0;
    while y < t.height
        invariant
            t.wf(),
            start.x < t.width,
            start.y < t.height,
            hill_frontier_ok(*t, f@, start, k),
            y <= t.height,
            nf@.len() == y * t.width,
            forall|x2: int, y2: int|
                0 <= x2 < t.width && 0 <= y2 < y ==> nf@[#[trigger] hill_index(*t, x2, y2)]
                    == hill_reach(
                    *t,
                    start,
                    (k + 1) as nat,
                    Coord { x: x2 as usize, y: y2 as usize },
                ),
        decreases t.height - y,
    {
        let mut x: usize = 0;
        while x < t.width
            invariant
                t.wf(),
                start.x < t.width,
                start.y < t.height,
                hill_frontier_ok(*t, f@, start, k),
                y < t.height,
                x <= t.width,
                nf@.len() == y * t.width + x,
                forall|x2: int, y2: int|
                    0 <= x2 < t.width && 0 <= y2 < y ==> nf@[#[trigger] hill_index(*t, x2, y2)]
                        == hill_reach(
                        *t,
                        start,
                        (k + 1) as nat,
                        Coord { x: x2 as usize, y: y2 as usize },
                    ),
                forall|x2: int|
                    0 <= x2 < x ==> nf@[#[trigger] hill_index(*t, x2, y as int)] == hill_reach(
                        *t,
                        start,
                        (k + 1) as nat,
                        Coord { x: x2 as usize, y: y },
                    ),
            decreases t.width - x,
        {
            let c = Coord { x, y };
            let mut found = false;
            if x + 1 < t.width {
                found = hill_frontier_get(t, f, x + 1, y) && can_go(
                    t,
                    Coord { x: x + 1, y },
                    c,
                );
            }
            if !found && x >= 1 {
                found = hill_frontier_get(t, f, x - 1, y) && can_go(
                    t,
                    Coord { x: x - 1, y },
                    c,
                );
            }
            if !found && y + 1 < t.height {
                found = hill_frontier_get(t, f, x, y + 1) && can_go(
                    t,
                    Coord { x, y: y + 1 },
                    c,
                );
            }
            if !found && y >= 1 {
                found = hill_frontier_get(t, f, x, y - 1) && can_go(
                    t,
                    Coord { x, y: y - 1 },
                    c,
                );
            }
            proof {
                lemma_hill_step_cases(*t, f@, start, k, c, found);
            }
            nf.push(found);
            proof {
                assert(hill_index(*t, x as int, y as int) == nf@.len() - 1);
                assert forall|x2: int|
                    0 <= x2 < x + 1 implies nf@[#[trigger] hill_index(*t, x2, y as int)]
                    == hill_reach(
                    *t,
                    start,
                    (k + 1) as nat,
                    Coord { x: x2 as usize, y: y },
                ) by {
                    lemma_hill_index_bounds(*t, x2, y as int);
                }
                assert forall|x2: int, y2: int|
                    0 <= x2 < t.width && 0 <= y2 < y implies nf@[#[trigger] hill_index(
                    *t,
                    x2,
                    y2,
                )] == hill_reach(
                    *t,
                    start,
                    (k + 1) as nat,
                    Coord { x: x2 as usize, y: y2 as usize },
                ) by {
                    lemma_hill_index_bounds(*t, x2, y2);
                    assert(hill_index(*t, x2, y2) < y * t.width) by (nonlinear_arith)
                        requires
                            0 <= x2 < t.width,
                            0 <= y2 < y,
                            hill_index(*t, x2, y2) == y2 * t.width + x2,
                    ;
                }
            }
            x += 1;
        }
        proof {
            assert(y * t.width + t.width == (y + 1) * t.width) by (nonlinear_arith);
        }
        y += 1;
    }
    proof {
        assert(nf@.len() == t.height * t.width);
        assert(t.height * t.width == t.width * t.height) by (nonlinear_arith);
    }
    nf
}

/// Breadth-first shortest walk: the least number of steps from `start` to
/// `goal`, or `None` when `goal` is not reachable within `horizon` steps.
pub fn find_next(t: &Terrain, start: Coord, goal: Coord, horizon: usize) -> (r: Option<usize>)
    requires
        t.wf(),
        start.x < t.width,
        start.y < t.height,
        goal.x < t.width,
        goal.y < t.height,
        horizon + 1 <= usize::MAX,
    ensures
        match r {
            Option::Some(k) => k <= horizon && hill_reach(*t, start, k as nat, goal) && forall|
                j: nat,
            |
                j < k ==> !hill_reach(*t, start, j, goal),
            Option::None => forall|j: nat| j <= horizon ==> !hill_reach(*t, start, j, goal),
        },
{
    proof {
        lemma_terrain_size(*t);
    }
    let mut frontier: Vec<bool> = Vec::new();
    let size = t.width * t.height;
    while frontier.len() < size
        invariant
            frontier@.len() <= size,
            forall|j: int| 0 <= j < frontier@.len() ==> !(#[trigger] frontier@[j]),
        decreases size - frontier@.len(),
    {
        frontier.push(false);
    }
    proof {
        lemma_terrain_size(*t);
        lemma_hill_index_bounds(*t, start.x as int, start.y as int);
    }
    let sidx = start.y * t.width + start.x;
    frontier.set(sidx, true);
    proof {
        assert forall|x: int, y: int|
            0 <= x < t.width && 0 <= y < t.height implies frontier@[#[trigger] hill_index(
            *t,
            x,
            y,
        )] == hill_reach(*t, start, 0, Coord { x: x as usize, y: y as usize }) by {
            lemma_hill_index_bounds(*t, x, y);
            if x == start.x && y == start.y {
                assert(Coord { x: x as usize, y: y as usize } == start);
            } else {
                assert(Coord { x: x as usize, y: y as usize } != start);
                if hill_index(*t, x, y) == hill_index(*t, start.x as int, start.y as int) {
                    assert(x == start.x && y == start.y) by (nonlinear_arith)
                        requires
                            0 <= x < t.width,
                            0 <= y < t.height,
                            0 <= start.x < t.width,
                            0 <= start.y < t.height,
                            y * t.width + x == start.y as int * t.width + start.x,
                    ;
                }
            }
        }
    }
    let mut k: usize = 0;
    while k <= horizon
        invariant
            t.wf(),
            start.x < t.width,
            start.y < t.height,
            goal.x < t.width,
            goal.y < t.height,
            horizon + 1 <= usize::MAX,
            k <= horizon + 1,
            hill_frontier_ok(*t, frontier@, start, k as nat),
            forall|j: nat| j < k ==> !hill_reach(*t, start, j, goal),
        decreases horizon + 1 - k,
    {
        let at_goal = hill_frontier_get(t, &frontier, goal.x, goal.y);
        if at_goal {
            return Some(k);
        }
        let nf = hill_next_frontier(t, &frontier, Ghost(start), Ghost(k as nat));
        frontier = nf;
        k += 1;
    }
    None
}

} // verus!
