//! Rope physics: a head knot walks unit steps, and the tail knot follows
//! whenever it falls more than one cell behind, stepping one cell toward
//! the head on each axis that differs.

use vstd::prelude::*;
use crate::grid::Direction;
use crate::valves::{parse_u32, parse_u32_spec};

verus! {

/// A position on the unbounded plane.
#[derive(PartialEq, Eq, Structural, Clone, Copy, Debug)]
pub struct Knot {
    pub x: i64,
    pub y: i64,
}

/// Positions stay well inside the representable range: the walk is bounded
/// by the number of parsed steps.
pub open spec fn knot_in_range(k: Knot) -> bool {
    -0x100000000 <= k.x <= 0x100000000 && -0x100000000 <= k.y <= 0x100000000
}

impl Knot {
    pub fn move_coord(&mut self, dir: Direction)
        requires
            knot_in_range(*old(self)),
        ensures
            *final(self) == spec_move(*old(self), dir),
    {
        match dir {
            Direction::Right => self.x = self.x + 1,
            Direction::Left => self.x = self.x - 1,
            Direction::Up => self.y = self.y + 1,
            Direction::Down => self.y = self.y - 1,
        }
    }

    /// The axis distances to `other`.
    pub fn distance(&self, other: Knot) -> (r: (i64, i64))
        requires
            knot_in_range(*self),
            knot_in_range(other),
        ensures
            r.0 == other.x - self.x,
            r.1 == other.y - self.y,
    {
        (other.x - self.x, other.y - self.y)
    }
}

/// Where one step in `dir` lands.
pub open spec fn spec_move(k: Knot, dir: Direction) -> Knot {
    match dir {
        Direction::Right => Knot { x: (k.x + 1) as i64, y: k.y },
        Direction::Left => Knot { x: (k.x - 1) as i64, y: k.y },
        Direction::Up => Knot { x: k.x, y: (k.y + 1) as i64 },
        Direction::Down => Knot { x: k.x, y: (k.y - 1) as i64 },
    }
}

/// One step toward `b` on the axes where `a` differs, taken only when the
/// two knots are not touching.
pub open spec fn spec_follow(tail: Knot, head: Knot) -> Knot {
    let dx = head.x - tail.x;
    let dy = head.y - tail.y;
    if -1 <= dx <= 1 && -1 <= dy <= 1 {
        tail
    } else {
        Knot {
            x: (tail.x + if dx > 0 {
                1int
            } else if dx < 0 {
                -1int
            } else {
                0int
            }) as i64,
            y: (tail.y + if dy > 0 {
                1int
            } else if dy < 0 {
                -1int
            } else {
                0int
            }) as i64,
        }
    }
}

/// Pull the tail after the head: unchanged while touching, else one step
/// toward the head on each differing axis.
pub fn move_tail_according_to_head(tail: &mut Knot, head: Knot)
    requires
        knot_in_range(*old(tail)),
        knot_in_range(head),
    ensures
        *final(tail) == spec_follow(*old(tail), head),
{
    let (d_x, d_y) = tail.distance(head);
    if -1 <= d_x && d_x <= 1 && -1 <= d_y && d_y <= 1 {
        return;
    }
    if d_x > 0 {
        tail.x = tail.x + 1;
    }
    if d_x < 0 {
        tail.x = tail.x - 1;
    }
    if d_y > 0 {
        tail.y = tail.y + 1;
    }
    if d_y < 0 {
        tail.y = tail.y - 1;
    }
}

/// What a move line means: a direction letter, a blank, and a step count.
pub open spec fn parse_move_spec(line: Seq<u8>) -> Option<(Direction, int)> {
    if line.len() >= 3 && (line[0] == 82 || line[0] == 76 || line[0] == 85 || line[0] == 68)
        && line[1] == 32 {
        let dir = if line[0] == 82 {
            Direction::Right
        } else if line[0] == 76 {
            Direction::Left
        } else if line[0] == 85 {
            Direction::Up
        } else {
            Direction::Down
        };
        match parse_u32_spec(line.subrange(2, line.len() as int)) {
            Option::Some(n) => Some((dir, n)),
            Option::None => None,
        }
    } else {
        None
    }
}

/// Parse one move line, `R 4` style.
pub fn parse_move(line: &Vec<u8>) -> (r: Option<(Direction, u32)>)
    ensures
        match r {
            Option::Some((dir, n)) => parse_move_spec(line@) == Some((dir, n as int)),
            Option::None => parse_move_spec(line@) is None,
        },
{
    if line.len() < 3 {
        return None;
    }
    let b = line[0];
    if !(b == 82 || b == 76 || b == 85 || b == 68) || line[1] != 32 {
        return None;
    }
    let dir = if b == 82 {
        Direction::Right
    } else if b == 76 {
        Direction::Left
    } else if b == 85 {
        Direction::Up
    } else {
        Direction::Down
    };
    let mut digits: Vec<u8> = Vec::new();
    let mut k: usize = 2;
    proof {
        assert(line@.subrange(2, 2) =~= Seq::<u8>::empty());
    }
    while k < line.len()
        invariant
            2 <= k <= line@.len(),
            digits@ == line@.subrange(2, k as int),
        decreases line@.len() - k,
    {
        proof {
            assert(line@.subrange(2, k + 1) =~= line@.subrange(2, k as int).push(
                line@[k as int],
            ));
        }
        digits.push(line[k]);
        k += 1;
    }
    match parse_u32(&digits) {
        Option::Some(n) => Some((dir, n)),
        Option::None => None,
    }
}

/// How often each position appears first in a walk: the number of distinct
/// positions.
pub open spec fn count_distinct(s: Seq<Knot>) -> int
    decreases s.len(),
{
    if s.len() == 0 {
        0
    } else {
        count_distinct(s.drop_last()) + if s.drop_last().contains(s.last()) {
            0int
        } else {
            1int
        }
    }
}

/// Count the distinct positions of a walk.
pub fn count_visited(coords: &Vec<Knot>) -> (r: u64)
    requires
        coords@.len() <= u32::MAX,
    ensures
        r == count_distinct(coords@),
{
    let mut count: u64 = 0;
    let mut i: usize = 0;
    proof {
        assert(coords@.subrange(0, 0) =~= Seq::<Knot>::empty());
    }
    while i < coords.len()
        invariant
            i <= coords@.len() <= u32::MAX,
            count == count_distinct(coords@.subrange(0, i as int)),
            count <= i,
        decreases coords@.len() - i,
    {
        let ghost pre = coords@.subrange(0, i as int);
        let mut seen = false;
        let mut j: usize = 0;
        while j < i
            invariant
                j <= i < coords@.len(),
                pre == coords@.subrange(0, i as int),
                seen == exists|k: int| 0 <= k < j && coords@[k] == coords@[i as int],
            decreases i - j,
        {
            if coords[j].x == coords[i].x && coords[j].y == coords[i].y {
                proof {
                    assert(coords@[j as int] == coords@[i as int]);
                }
                seen = true;
            }
            j += 1;
        }
        proof {
            assert(coords@.subrange(0, i + 1).drop_last() =~= pre);
            assert(coords@.subrange(0, i + 1).last() == coords@[i as int]);
            if seen {
                let k = choose|k: int| 0 <= k < i && coords@[k] == coords@[i as int];
                assert(pre[k] == coords@[k]);
                assert(pre.contains(coords@[i as int]));
            } else {
                if pre.contains(coords@[i as int]) {
                    let k = choose|k: int| 0 <= k < pre.len() && pre[k] == coords@[i as int];
                    assert(coords@[k] == coords@[i as int]);
                }
            }
        }
        if !seen {
            count = count + 1;
        }
        i += 1;
    }
    proof {
        assert(coords@.subrange(0, coords@.len() as int) =~= coords@);
    }
    count
}

/// The tail positions of a walk: head and tail start together at the
/// origin, the head takes each step, the tail follows; the starting
/// position counts as visited.
pub open spec fn spec_walk(moves: Seq<Direction>, k: int) -> (Knot, Knot)
    decreases k,
{
    if k <= 0 {
        (Knot { x: 0, y: 0 }, Knot { x: 0, y: 0 })
    } else {
        let (head, tail) = spec_walk(moves, k - 1);
        let head2 = spec_move(head, moves[k - 1]);
        (head2, spec_follow(tail, head2))
    }
}

/// Run the walk and collect every tail position, the start included.
pub fn tail_visits(moves: &Vec<Direction>) -> (r: Vec<Knot>)
    requires
        moves@.len() <= 0x10000000,
    ensures
        r@.len() == moves@.len() + 1,
        forall|k: int| 0 <= k <= moves@.len() ==> r@[k] == spec_walk(moves@, k).1,
{
    let mut head = Knot { x: 0, y: 0 };
    let mut tail = Knot { x: 0, y: 0 };
    let mut visits: Vec<Knot> = Vec::new();
    visits.push(tail);
    let mut i: usize = 0;
    while i < moves.len()
        invariant
            i <= moves@.len() <= 0x10000000,
            (head, tail) == spec_walk(moves@, i as int),
            knot_in_range(head),
            knot_in_range(tail),
            -(i as int) <= head.x <= i as int && -(i as int) <= head.y <= i as int,
            -(i as int) <= tail.x <= i as int && -(i as int) <= tail.y <= i as int,
            visits@.len() == i + 1,
            forall|k: int| 0 <= k <= i ==> visits@[k] == spec_walk(moves@, k).1,
        decreases moves@.len() - i,
    {
        head.move_coord(moves[i]);
        move_tail_according_to_head(&mut tail, head);
        visits.push(tail);
        i += 1;
    }
    visits
}

} // verus!
