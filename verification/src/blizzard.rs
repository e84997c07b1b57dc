//! Time-evolving obstacle field and shortest-path search: obstacles sweep
//! across a toroidal interior one cell per step, the occupancy of the field
//! is periodic with period `width * height`, and a crossing is searched
//! over (position, time) states.

use vstd::prelude::*;
use crate::grid::{Coord, Direction};

verus! {

/// A moving obstacle: a position inside the interior and a fixed heading.
#[derive(PartialEq, Eq, Structural, Clone, Copy, Debug)]
pub struct Blizzard {
    pub pos: Coord,
    pub dir: Direction,
}

impl Blizzard {
    pub fn new(pos: Coord, dir: Direction) -> (r: Self)
        ensures
            r.pos == pos,
            r.dir == dir,
    {
        Self { pos, dir }
    }
}

/// Interior cells run from `(1, 1)` to `(width, height)`; the border rows
/// and columns are walls but for the two openings.
pub open spec fn in_interior(width: nat, height: nat, x: int, y: int) -> bool {
    1 <= x <= width && 1 <= y <= height
}

/// Where an obstacle stands after `t` steps: one cell per step along its
/// heading, wrapping around its own axis.
pub open spec fn blizzard_at(b: Blizzard, t: int, width: nat, height: nat) -> (int, int) {
    match b.dir {
        Direction::Right => ((b.pos.x - 1 + t) % (width as int) + 1, b.pos.y as int),
        Direction::Left => ((b.pos.x - 1 - t) % (width as int) + 1, b.pos.y as int),
        Direction::Down => (b.pos.x as int, (b.pos.y - 1 + t) % (height as int) + 1),
        Direction::Up => (b.pos.x as int, (b.pos.y - 1 - t) % (height as int) + 1),
    }
}

/// Whether cell `(x, y)` is occupied by some obstacle at time `t`.
pub open spec fn occupied(
    bs: Seq<Blizzard>,
    t: int,
    width: nat,
    height: nat,
    x: int,
    y: int,
) -> bool {
    exists|i: int|
        0 <= i < bs.len() && blizzard_at(#[trigger] bs[i], t, width, height) == (x, y)
}

/// Every obstacle always stands inside the interior.
pub proof fn lemma_blizzard_in_interior(b: Blizzard, t: int, width: nat, height: nat)
    requires
        width >= 1,
        height >= 1,
        in_interior(width, height, b.pos.x as int, b.pos.y as int),
    ensures
        in_interior(
            width,
            height,
            blizzard_at(b, t, width, height).0,
            blizzard_at(b, t, width, height).1,
        ),
{
    let w = width as int;
    let h = height as int;
    vstd::arithmetic::div_mod::lemma_mod_bound(b.pos.x - 1 + t, w);
    vstd::arithmetic::div_mod::lemma_mod_bound(b.pos.x - 1 - t, w);
    vstd::arithmetic::div_mod::lemma_mod_bound(b.pos.y - 1 + t, h);
    vstd::arithmetic::div_mod::lemma_mod_bound(b.pos.y - 1 - t, h);
}

/// One obstacle's motion is periodic with period `width * height`: both
/// axis lengths divide it.
pub proof fn lemma_blizzard_periodic(b: Blizzard, t: int, width: nat, height: nat)
    requires
        width >= 1,
        height >= 1,
    ensures
        blizzard_at(b, t + width * height, width, height) == blizzard_at(b, t, width, height),
{
    let w = width as int;
    let h = height as int;
    vstd::arithmetic::div_mod::lemma_mod_multiples_vanish(h, b.pos.x - 1 + t, w);
    vstd::arithmetic::div_mod::lemma_mod_multiples_vanish(-h, b.pos.x - 1 - t, w);
    vstd::arithmetic::div_mod::lemma_mod_multiples_vanish(w, b.pos.y - 1 + t, h);
    vstd::arithmetic::div_mod::lemma_mod_multiples_vanish(-w, b.pos.y - 1 - t, h);
    assert(w * h == h * w) by (nonlinear_arith);
    assert(w * (-h) == -(w * h)) by (nonlinear_arith);
    assert(h * (-w) == -(w * h)) by (nonlinear_arith);
    assert(b.pos.x - 1 + (t + w * h) == w * h + (b.pos.x - 1 + t));
    assert(b.pos.x - 1 - (t + w * h) == w * (-h) + (b.pos.x - 1 - t));
    assert(h * w + (b.pos.y - 1 + t) == b.pos.y - 1 + (t + w * h));
    assert(h * (-w) + (b.pos.y - 1 - t) == b.pos.y - 1 - (t + w * h));
}

/// The whole field repeats after `width * height` steps: the occupancy
/// sets at `t` and `t + width * height` are the same.
pub proof fn lemma_field_periodic(
    bs: Seq<Blizzard>,
    t: int,
    width: nat,
    height: nat,
    x: int,
    y: int,
)
    requires
        width >= 1,
        height >= 1,
    ensures
        occupied(bs, t + width * height, width, height, x, y) == occupied(
            bs,
            t,
            width,
            height,
            x,
            y,
        ),
{
    assert forall|i: int| 0 <= i < bs.len() implies blizzard_at(
        #[trigger] bs[i],
        t + width * height,
        width,
        height,
    ) == blizzard_at(bs[i], t, width, height) by {
        lemma_blizzard_periodic(bs[i], t, width, height);
    }
}

/// Congruent times modulo the period see the same field.
pub proof fn lemma_field_mod_period(
    bs: Seq<Blizzard>,
    t: nat,
    width: nat,
    height: nat,
    x: int,
    y: int,
)
    requires
        width >= 1,
        height >= 1,
    ensures
        occupied(bs, t as int, width, height, x, y) == occupied(
            bs,
            (t as int) % (width * height) as int,
            width,
            height,
            x,
            y,
        ),
    decreases t,
{
    let p = (width * height) as int;
    assert((width * height) as int >= 1) by (nonlinear_arith)
        requires
            width >= 1,
            height >= 1,
    ;
    if t < p {
        vstd::arithmetic::div_mod::lemma_small_mod(t, (width * height) as nat);
    } else {
        let prev = (t - p) as nat;
        lemma_field_mod_period(bs, prev, width, height, x, y);
        lemma_field_periodic(bs, prev as int, width, height, x, y);
        assert((prev + p) % p == (prev as int) % p) by {
            vstd::arithmetic::div_mod::lemma_mod_add_multiples_vanish(prev as int, p);
        }
    }
}

/// The bounded interior with its two openings on the border rows.
#[derive(PartialEq, Eq, Structural, Clone, Copy, Debug)]
pub struct Valley {
    pub width: usize,
    pub height: usize,
    pub start: Coord,
    pub end: Coord,
}

impl Valley {
    pub open spec fn spec_is_off(self, pos: Coord) -> bool {
        pos.x < 1 || pos.x > self.width || pos.y < 1 || pos.y > self.height
    }

    /// Whether `pos` lies outside the interior.
    pub fn is_off(&self, pos: Coord) -> (r: bool)
        ensures
            r == self.spec_is_off(pos),
    {
        pos.x < 1 || pos.x > self.width || pos.y < 1 || pos.y > self.height
    }
}

/// Interior cells are laid out row-major: `(x, y)` at `(y-1)*width + (x-1)`.
pub open spec fn cell_index(width: nat, x: int, y: int) -> int {
    (y - 1) * width + (x - 1)
}

proof fn lemma_cell_index_bounds(width: nat, height: nat, x: int, y: int)
    requires
        in_interior(width, height, x, y),
    ensures
        0 <= cell_index(width, x, y) < width * height,
    decreases height,
{
    assert(0 <= (y - 1) * width + (x - 1) < width * height) by (nonlinear_arith)
        requires
            1 <= x <= width,
            1 <= y <= height,
    ;
}

proof fn lemma_cell_index_injective(width: nat, height: nat, x1: int, y1: int, x2: int, y2: int)
    requires
        in_interior(width, height, x1, y1),
        in_interior(width, height, x2, y2),
        cell_index(width, x1, y1) == cell_index(width, x2, y2),
    ensures
        x1 == x2 && y1 == y2,
{
    assert(x1 == x2 && y1 == y2) by (nonlinear_arith)
        requires
            1 <= x1 <= width,
            1 <= y1 <= height,
            1 <= x2 <= width,
            1 <= y2 <= height,
            (y1 - 1) * width + (x1 - 1) == (y2 - 1) * width + (x2 - 1),
    ;
}

/// One precomputed occupancy grid per step of a full period.
pub struct BlizzardPrediction {
    pub forecasts: Vec<Vec<bool>>,
    pub forecasts_repeat_after: usize,
    pub width: usize,
    pub height: usize,
    pub blizzards: Ghost<Seq<Blizzard>>,
}

impl BlizzardPrediction {
    /// The grid cell recorded for `(x, y)` at step `t` of the period.
    pub open spec fn cell(self, t: int, x: int, y: int) -> bool {
        self.forecasts@[t]@[cell_index(self.width as nat, x, y)]
    }

    pub open spec fn wf(self) -> bool {
        &&& self.width >= 1
        &&& self.height >= 1
        &&& self.forecasts_repeat_after == self.width * self.height
        &&& self.forecasts@.len() == self.forecasts_repeat_after
        &&& forall|t: int|
            0 <= t < self.forecasts@.len() ==> (#[trigger] self.forecasts@[t])@.len()
                == self.forecasts_repeat_after
        &&& forall|i: int|
            0 <= i < self.blizzards@.len() ==> in_interior(
                self.width as nat,
                self.height as nat,
                (#[trigger] self.blizzards@[i]).pos.x as int,
                self.blizzards@[i].pos.y as int,
            )
        &&& forall|t: int, x: int, y: int|
            0 <= t < self.forecasts_repeat_after && in_interior(
                self.width as nat,
                self.height as nat,
                x,
                y,
            ) ==> #[trigger] self.cell(t, x, y) == occupied(
                self.blizzards@,
                t,
                self.width as nat,
                self.height as nat,
                x,
                y,
            )
    }

    /// Precompute one occupancy grid for each step of a full period.
    pub fn new(blizzards: &Vec<Blizzard>, width: usize, height: usize) -> (r: Self)
        requires
            width >= 1,
            height >= 1,
            width * height <= 10000,
            forall|i: int|
                0 <= i < blizzards@.len() ==> in_interior(
                    width as nat,
                    height as nat,
                    (#[trigger] blizzards@[i]).pos.x as int,
                    blizzards@[i].pos.y as int,
                ),
        ensures
            r.wf(),
            r.blizzards@ == blizzards@,
            r.width == width,
            r.height == height,
            r.forecasts_repeat_after == width * height,
    {
        let forecasts_repeat_after = width * height;
        let mut forecasts: Vec<Vec<bool>> = Vec::new();
        let mut t: usize = 0;
        while t < forecasts_repeat_after
            invariant
                width >= 1,
                height >= 1,
                forecasts_repeat_after == width * height <= 10000,
                t <= forecasts_repeat_after,
                forecasts@.len() == t,
                forall|i: int|
                    0 <= i < blizzards@.len() ==> in_interior(
                        width as nat,
                        height as nat,
                        (#[trigger] blizzards@[i]).pos.x as int,
                        blizzards@[i].pos.y as int,
                    ),
                forall|u: int|
                    0 <= u < t ==> (#[trigger] forecasts@[u])@.len() == forecasts_repeat_after,
                forall|u: int, x: int, y: int|
                    #![trigger forecasts@[u]@[cell_index(width as nat, x, y)]]
                    0 <= u < t && in_interior(width as nat, height as nat, x, y)
                        ==> forecasts@[u]@[cell_index(width as nat, x, y)] == occupied(
                        blizzards@,
                        u,
                        width as nat,
                        height as nat,
                        x,
                        y,
                    ),
            decreases forecasts_repeat_after - t,
        {
            let g = forecast_grid(blizzards, width, height, t);
            forecasts.push(g);
            t += 1;
        }
        BlizzardPrediction {
            forecasts,
            forecasts_repeat_after,
            width,
            height,
            blizzards: Ghost(blizzards@),
        }
    }

    /// The occupancy grid for iteration `n`, read through the period.
    pub fn predict_for_iteration(&self, n: usize) -> (g: &Vec<bool>)
        requires
            self.wf(),
        ensures
            g@.len() == self.forecasts_repeat_after,
            forall|x: int, y: int|
                in_interior(self.width as nat, self.height as nat, x, y) ==> g@[#[trigger] cell_index(
                    self.width as nat,
                    x,
                    y,
                )] == occupied(self.blizzards@, n as int, self.width as nat, self.height as nat, x, y),
    {
        proof {
            assert forall|x: int, y: int|
                in_interior(self.width as nat, self.height as nat, x, y) implies occupied(
                self.blizzards@,
                n as int,
                self.width as nat,
                self.height as nat,
                x,
                y,
            ) == occupied(
                self.blizzards@,
                (n as int) % (self.width * self.height) as int,
                self.width as nat,
                self.height as nat,
                x,
                y,
            ) by {
                lemma_field_mod_period(
                    self.blizzards@,
                    n as nat,
                    self.width as nat,
                    self.height as nat,
                    x,
                    y,
                );
            }
            assert(self.forecasts_repeat_after >= 1) by (nonlinear_arith)
                requires
                    self.forecasts_repeat_after == self.width * self.height,
                    self.width >= 1,
                    self.height >= 1,
            ;
            assert((n as int) % (self.forecasts_repeat_after as int) < self.forecasts_repeat_after
                && 0 <= (n as int) % (self.forecasts_repeat_after as int)) by {
                vstd::arithmetic::div_mod::lemma_mod_bound(
                    n as int,
                    self.forecasts_repeat_after as int,
                );
            }
        }
        let idx = n % self.forecasts_repeat_after;
        proof {
            assert forall|x: int, y: int|
                in_interior(self.width as nat, self.height as nat, x, y) implies self.forecasts@[
            idx as int]@[#[trigger] cell_index(self.width as nat, x, y)] == occupied(
                self.blizzards@,
                n as int,
                self.width as nat,
                self.height as nat,
                x,
                y,
            ) by {
                assert(self.cell(idx as int, x, y) == occupied(
                    self.blizzards@,
                    idx as int,
                    self.width as nat,
                    self.height as nat,
                    x,
                    y,
                ));
            }
        }
        &self.forecasts[idx]
    }

    /// Whether `pos` is occupied at iteration `n`: interior cells by the
    /// precomputed grid, anything outside the interior never.
    pub fn occupied_at(&self, n: usize, pos: Coord) -> (r: bool)
        requires
            self.wf(),
        ensures
            r == occupied(
                self.blizzards@,
                n as int,
                self.width as nat,
                self.height as nat,
                pos.x as int,
                pos.y as int,
            ),
    {
        let x = pos.x;
        let y = pos.y;
        if 1 <= x && x <= self.width && 1 <= y && y <= self.height {
            proof {
                lemma_cell_index_bounds(self.width as nat, self.height as nat, x as int, y as int);
                assert(self.forecasts_repeat_after == self.width * self.height);
            }
            let g = self.predict_for_iteration(n);
            let idx = (y - 1) * self.width + (x - 1);
            proof {
                assert(idx == cell_index(self.width as nat, x as int, y as int));
            }
            g[idx]
        } else {
            proof {
                assert forall|i: int| 0 <= i < self.blizzards@.len() implies blizzard_at(
                    #[trigger] self.blizzards@[i],
                    n as int,
                    self.width as nat,
                    self.height as nat,
                ) != (pos.x as int, pos.y as int) by {
                    lemma_blizzard_in_interior(
                        self.blizzards@[i],
                        n as int,
                        self.width as nat,
                        self.height as nat,
                    );
                }
            }
            false
        }
    }
}

/// Build the occupancy grid of one step: every obstacle's wrapped position
/// is marked.
fn forecast_grid(blizzards: &Vec<Blizzard>, width: usize, height: usize, t: usize) -> (g: Vec<
    bool,
>)
    requires
        width >= 1,
        height >= 1,
        width * height <= 10000,
        forall|i: int|
            0 <= i < blizzards@.len() ==> in_interior(
                width as nat,
                height as nat,
                (#[trigger] blizzards@[i]).pos.x as int,
                blizzards@[i].pos.y as int,
            ),
    ensures
        g@.len() == width * height,
        forall|x: int, y: int|
            in_interior(width as nat, height as nat, x, y) ==> g@[#[trigger] cell_index(
                width as nat,
                x,
                y,
            )] == occupied(blizzards@, t as int, width as nat, height as nat, x, y),
{
    let size = width * height;
    let mut g: Vec<bool> = Vec::new();
    while g.len() < size
        invariant
            g@.len() <= size,
            forall|j: int| 0 <= j < g@.len() ==> !(#[trigger] g@[j]),
        decreases size - g@.len(),
    {
        g.push(false);
    }
    proof {
        assert forall|x: int, y: int|
            in_interior(width as nat, height as nat, x, y) implies !g@[#[trigger] cell_index(
            width as nat,
            x,
            y,
        )] by {
            lemma_cell_index_bounds(width as nat, height as nat, x, y);
        }
    }
    let mut k: usize = 0;
    while k < blizzards.len()
        invariant
            width >= 1,
            height >= 1,
            size == width * height <= 10000,
            g@.len() == size,
            k <= blizzards@.len(),
            forall|i: int|
                0 <= i < blizzards@.len() ==> in_interior(
                    width as nat,
                    height as nat,
                    (#[trigger] blizzards@[i]).pos.x as int,
                    blizzards@[i].pos.y as int,
                ),
            forall|x: int, y: int|
                in_interior(width as nat, height as nat, x, y) ==> g@[#[trigger] cell_index(
                    width as nat,
                    x,
                    y,
                )] == exists|i: int|
                    0 <= i < k && blizzard_at(
                        #[trigger] blizzards@[i],
                        t as int,
                        width as nat,
                        height as nat,
                    ) == (x, y),
        decreases blizzards@.len() - k,
    {
        let b = blizzards[k];
        let (bx, by) = blizzard_position(&b, t, width, height);
        proof {
            lemma_cell_index_bounds(width as nat, height as nat, bx as int, by as int);
        }
        let ghost oldg = g@;
        let idx = (by - 1) * width + (bx - 1);
        g.set(idx, true);
        proof {
            assert forall|x: int, y: int|
                in_interior(width as nat, height as nat, x, y) implies g@[#[trigger] cell_index(
                width as nat,
                x,
                y,
            )] == exists|i: int|
                0 <= i < k + 1 && blizzard_at(
                    #[trigger] blizzards@[i],
                    t as int,
                    width as nat,
                    height as nat,
                ) == (x, y) by {
                lemma_cell_index_bounds(width as nat, height as nat, x, y);
                if x == bx && y == by {
                    assert(blizzard_at(blizzards@[k as int], t as int, width as nat, height as nat)
                        == (x, y));
                } else {
                    if cell_index(width as nat, x, y) == cell_index(
                        width as nat,
                        bx as int,
                        by as int,
                    ) {
                        lemma_cell_index_injective(
                            width as nat,
                            height as nat,
                            x,
                            y,
                            bx as int,
                            by as int,
                        );
                    }
                    assert(g@[cell_index(width as nat, x, y)] == oldg[cell_index(
                        width as nat,
                        x,
                        y,
                    )]);
                    assert forall|i: int|
                        0 <= i < k + 1 && blizzard_at(
                            #[trigger] blizzards@[i],
                            t as int,
                            width as nat,
                            height as nat,
                        ) == (x, y) implies i < k by {
                        if i == k {
                            assert(blizzard_at(
                                blizzards@[i],
                                t as int,
                                width as nat,
                                height as nat,
                            ) == (bx as int, by as int));
                        }
                    }
                }
            }
        }
        k += 1;
    }
    g
}

/// One obstacle's wrapped position at step `t`, as [`blizzard_at`] gives it.
fn blizzard_position(b: &Blizzard, t: usize, width: usize, height: usize) -> (r: (usize, usize))
    requires
        width >= 1,
        height >= 1,
        width * height <= 10000,
        in_interior(width as nat, height as nat, b.pos.x as int, b.pos.y as int),
    ensures
        (r.0 as int, r.1 as int) == blizzard_at(*b, t as int, width as nat, height as nat),
        in_interior(width as nat, height as nat, r.0 as int, r.1 as int),
    decreases t,
{
    let w = width;
    let h = height;
    let x = b.pos.x;
    let y = b.pos.y;
    proof {
        lemma_blizzard_in_interior(*b, t as int, width as nat, height as nat);
        assert(w <= 10000 && h <= 10000) by (nonlinear_arith)
            requires
                w as int * h as int <= 10000,
                w >= 1,
                h >= 1,
                w == width && h == height,
        ;
        vstd::arithmetic::div_mod::lemma_mod_bound(t as int, w as int);
        vstd::arithmetic::div_mod::lemma_mod_bound(t as int, h as int);
        vstd::arithmetic::div_mod::lemma_fundamental_div_mod(t as int, w as int);
        vstd::arithmetic::div_mod::lemma_fundamental_div_mod(t as int, h as int);
    }
    match b.dir {
        Direction::Right => {
            proof {
                vstd::arithmetic::div_mod::lemma_mod_bound(x - 1 + (t as int) % (w as int), w as int);
                vstd::arithmetic::div_mod::lemma_mod_multiples_vanish(
                    (t as int) / (w as int),
                    x - 1 + (t as int) % (w as int),
                    w as int,
                );
            }
            let r0 = (x - 1 + t % w) % w + 1;
            (r0, y)
        },
        Direction::Left => {
            proof {
                let q = (t as int) / (w as int);
                assert(w * (-q - 1) == -(w * q) - w) by (nonlinear_arith);
                vstd::arithmetic::div_mod::lemma_mod_bound(
                    x - 1 + w - (t as int) % (w as int),
                    w as int,
                );
                vstd::arithmetic::div_mod::lemma_mod_multiples_vanish(
                    -((t as int) / (w as int)) - 1,
                    x - 1 + w - (t as int) % (w as int),
                    w as int,
                );
            }
            let r0 = (x - 1 + w - t % w) % w + 1;
            (r0, y)
        },
        Direction::Down => {
            proof {
                vstd::arithmetic::div_mod::lemma_mod_bound(y - 1 + (t as int) % (h as int), h as int);
                vstd::arithmetic::div_mod::lemma_mod_multiples_vanish(
                    (t as int) / (h as int),
                    y - 1 + (t as int) % (h as int),
                    h as int,
                );
            }
            let r1 = (y - 1 + t % h) % h + 1;
            (x, r1)
        },
        Direction::Up => {
            proof {
                let q = (t as int) / (h as int);
                assert(h * (-q - 1) == -(h * q) - h) by (nonlinear_arith);
                vstd::arithmetic::div_mod::lemma_mod_bound(
                    y - 1 + h - (t as int) % (h as int),
                    h as int,
                );
                vstd::arithmetic::div_mod::lemma_mod_multiples_vanish(
                    -((t as int) / (h as int)) - 1,
                    y - 1 + h - (t as int) % (h as int),
                    h as int,
                );
            }
            let r1 = (y - 1 + h - t % h) % h + 1;
            (x, r1)
        },
    }
}

/// One move of the crossing: wait in place or step one cell.
pub open spec fn is_step(a: Coord, b: Coord) -> bool {
    (a.x == b.x && (a.y == b.y || a.y + 1 == b.y || b.y + 1 == a.y)) || (a.y == b.y && (a.x + 1
        == b.x || b.x + 1 == a.x))
}

/// Cells a crossing may stand on: the interior, and the two openings.
pub open spec fn valley_allows(m: Valley, c: Coord) -> bool {
    c == m.start || c == m.end || !m.spec_is_off(c)
}

/// Geometry facts the searches need: positive interior, openings on the
/// border ring.
pub open spec fn valley_ok(m: Valley) -> bool {
    &&& m.width >= 1 && m.height >= 1
    &&& m.width <= 10000 && m.height <= 10000
    &&& m.start.x <= m.width + 1 && m.start.y <= m.height + 1
    &&& m.end.x <= m.width + 1 && m.end.y <= m.height + 1
}

/// The positions a crossing can reach `k` steps after absolute time `t0`,
/// starting at the valley's start cell: each step moves to an allowed cell
/// that the field leaves free at the arrival time.
pub open spec fn reach(bs: Seq<Blizzard>, m: Valley, t0: int, k: nat, c: Coord) -> bool
    decreases k,
{
    if k == 0 {
        c == m.start
    } else {
        &&& valley_allows(m, c)
        &&& !occupied(bs, t0 + k, m.width as nat, m.height as nat, c.x as int, c.y as int)
        &&& exists|p: Coord| reach(bs, m, t0, (k - 1) as nat, p) && #[trigger] is_step(p, c)
    }
}

/// Reached positions stay on the padded grid.
proof fn lemma_reach_bounds(bs: Seq<Blizzard>, m: Valley, t0: int, k: nat, c: Coord)
    requires
        valley_ok(m),
        reach(bs, m, t0, k, c),
    ensures
        c.x < m.width + 2 && c.y < m.height + 2,
{
}

/// Row-major index on the padded grid (the interior plus its border ring).
pub open spec fn full_index(m: Valley, x: int, y: int) -> int {
    y * (m.width + 2) + x
}

/// A frontier grid encodes exactly the positions reachable in `k` steps.
pub open spec fn frontier_ok(bs: Seq<Blizzard>, m: Valley, f: Seq<bool>, t0: int, k: nat) -> bool {
    &&& f.len() == (m.width + 2) * (m.height + 2)
    &&& forall|x: int, y: int|
        0 <= x < m.width + 2 && 0 <= y < m.height + 2 ==> f[#[trigger] full_index(m, x, y)]
            == reach(bs, m, t0, k, Coord { x: x as usize, y: y as usize })
}

proof fn lemma_grid_size(m: Valley)
    requires
        valley_ok(m),
    ensures
        (m.width + 2) * (m.height + 2) <= 200000000,
{
    assert((m.width + 2) * (m.height + 2) <= 200000000) by (nonlinear_arith)
        requires
            m.width <= 10000,
            m.height <= 10000,
    ;
}

proof fn lemma_full_index_bounds(m: Valley, x: int, y: int)
    requires
        0 <= x < m.width + 2,
        0 <= y < m.height + 2,
    ensures
        0 <= full_index(m, x, y) < (m.width + 2) * (m.height + 2),
{
    assert(0 <= y * (m.width + 2) + x < (m.width + 2) * (m.height + 2)) by (nonlinear_arith)
        requires
            0 <= x < m.width + 2,
            0 <= y < m.height + 2,
    ;
}

proof fn lemma_full_index_injective(m: Valley, x1: int, y1: int, x2: int, y2: int)
    requires
        0 <= x1 < m.width + 2,
        0 <= y1 < m.height + 2,
        0 <= x2 < m.width + 2,
        0 <= y2 < m.height + 2,
        full_index(m, x1, y1) == full_index(m, x2, y2),
    ensures
        x1 == x2 && y1 == y2,
{
    assert(x1 == x2 && y1 == y2) by (nonlinear_arith)
        requires
            0 <= x1 < m.width + 2,
            0 <= y1 < m.height + 2,
            0 <= x2 < m.width + 2,
            0 <= y2 < m.height + 2,
            y1 * (m.width + 2) + x1 == y2 * (m.width + 2) + x2,
    ;
}

/// Advance the frontier one step: a cell is reachable at step `k + 1` when
/// it is allowed, free of obstacles at the arrival time, and touches a
/// cell of the step-`k` frontier.
fn next_frontier(
    pred: &BlizzardPrediction,
    m: &Valley,
    frontier: &Vec<bool>,
    tnext: usize,
    Ghost(t0): Ghost<int>,
    Ghost(k): Ghost<nat>,
) -> (nf: Vec<bool>)
    requires
        pred.wf(),
        m.width == pred.width,
        m.height == pred.height,
        valley_ok(*m),
        frontier_ok(pred.blizzards@, *m, frontier@, t0, k),
        tnext == t0 + k + 1,
    ensures
        frontier_ok(pred.blizzards@, *m, nf@, t0, (k + 1) as nat),
{
    let ghost bs = pred.blizzards@;
    proof {
        lemma_grid_size(*m);
    }
    let w2 = m.width + 2;
    let h2 = m.height + 2;
    let size = w2 * h2;
    let mut nf: Vec<bool> = Vec::new();
    let mut y: usize = 0;
    while y < h2
        invariant
            pred.wf(),
            m.width == pred.width,
            m.height == pred.height,
            valley_ok(*m),
            frontier_ok(bs, *m, frontier@, t0, k),
            bs == pred.blizzards@,
            tnext == t0 + k + 1,
            w2 == m.width + 2,
            h2 == m.height + 2,
            size == w2 * h2,
            y <= h2,
            nf@.len() == y * w2,
            forall|x2: int, y2: int|
                0 <= x2 < w2 && 0 <= y2 < y ==> nf@[#[trigger] full_index(*m, x2, y2)] == reach(
                    bs,
                    *m,
                    t0,
                    (k + 1) as nat,
                    Coord { x: x2 as usize, y: y2 as usize },
                ),
        decreases h2 - y,
    {
        let mut x: usize = 0;
        while x < w2
            invariant
                pred.wf(),
                m.width == pred.width,
                m.height == pred.height,
                valley_ok(*m),
                frontier_ok(bs, *m, frontier@, t0, k),
                bs == pred.blizzards@,
                tnext == t0 + k + 1,
                w2 == m.width + 2,
                h2 == m.height + 2,
                size == w2 * h2,
                y < h2,
                x <= w2,
                nf@.len() == y * w2 + x,
                forall|x2: int, y2: int|
                    0 <= x2 < w2 && 0 <= y2 < y ==> nf@[#[trigger] full_index(*m, x2, y2)]
                        == reach(
                        bs,
                        *m,
                        t0,
                        (k + 1) as nat,
                        Coord { x: x2 as usize, y: y2 as usize },
                    ),
                forall|x2: int|
                    0 <= x2 < x ==> nf@[#[trigger] full_index(*m, x2, y as int)] == reach(
                        bs,
                        *m,
                        t0,
                        (k + 1) as nat,
                        Coord { x: x2 as usize, y: y },
                    ),
            decreases w2 - x,
        {
            let c = Coord { x, y };
            let allowed = (c.x == m.start.x && c.y == m.start.y) || (c.x == m.end.x && c.y
                == m.end.y) || (1 <= c.x && c.x <= m.width && 1 <= c.y && c.y <= m.height);
            let mut value = false;
            if allowed {
                if !pred.occupied_at(tnext, c) {
                    // any of the five touching cells on the step-k frontier
                    let mut found = frontier_get(m, frontier, x, y);
                    if !found && x + 1 < w2 {
                        found = frontier_get(m, frontier, x + 1, y);
                    }
                    if !found && x >= 1 {
                        found = frontier_get(m, frontier, x - 1, y);
                    }
                    if !found && y + 1 < h2 {
                        found = frontier_get(m, frontier, x, y + 1);
                    }
                    if !found && y >= 1 {
                        found = frontier_get(m, frontier, x, y - 1);
                    }
                    value = found;
                    proof {
                        lemma_step_cases(bs, *m, t0, k, c, found, frontier@);
                    }
                } else {
                    proof {
                        assert(!reach(bs, *m, t0, (k + 1) as nat, c));
                    }
                }
            } else {
                proof {
                    assert(!valley_allows(*m, c));
                    assert(!reach(bs, *m, t0, (k + 1) as nat, c));
                }
            }
            nf.push(value);
            proof {
                assert(full_index(*m, x as int, y as int) == nf@.len() - 1);
                assert forall|x2: int|
                    0 <= x2 < x + 1 implies nf@[#[trigger] full_index(*m, x2, y as int)] == reach(
                    bs,
                    *m,
                    t0,
                    (k + 1) as nat,
                    Coord { x: x2 as usize, y: y },
                ) by {
                    lemma_full_index_bounds(*m, x2, y as int);
                }
                assert forall|x2: int, y2: int|
                    0 <= x2 < w2 && 0 <= y2 < y implies nf@[#[trigger] full_index(*m, x2, y2)]
                    == reach(bs, *m, t0, (k + 1) as nat, Coord { x: x2 as usize, y: y2 as usize })
                    by {
                    lemma_full_index_bounds(*m, x2, y2);
                    assert(full_index(*m, x2, y2) < y * w2) by (nonlinear_arith)
                        requires
                            0 <= x2 < w2,
                            0 <= y2 < y,
                            full_index(*m, x2, y2) == y2 * w2 + x2,
                    ;
                }
            }
            x += 1;
        }
        proof {
            assert(nf@.len() == y * w2 + w2 == (y + 1) * w2) by (nonlinear_arith)
                requires
                    nf@.len() == y * w2 + w2,
            ;
        }
        y += 1;
    }
    proof {
        assert(nf@.len() == h2 * w2);
        assert(h2 * w2 == w2 * h2) by (nonlinear_arith);
        assert forall|x2: int, y2: int|
            0 <= x2 < m.width + 2 && 0 <= y2 < m.height + 2 implies nf@[#[trigger] full_index(
            *m,
            x2,
            y2,
        )] == reach(bs, *m, t0, (k + 1) as nat, Coord { x: x2 as usize, y: y2 as usize }) by {
        }
    }
    nf
}

/// Read one frontier cell.
fn frontier_get(m: &Valley, f: &Vec<bool>, x: usize, y: usize) -> (r: bool)
    requires
        valley_ok(*m),
        f@.len() == (m.width + 2) * (m.height + 2),
        x < m.width + 2,
        y < m.height + 2,
    ensures
        r == f@[full_index(*m, x as int, y as int)],
{
    proof {
        lemma_grid_size(*m);
        lemma_full_index_bounds(*m, x as int, y as int);
    }
    f[y * (m.width + 2) + x]
}

/// Case analysis of one arrival cell: it is reachable at step `k + 1`
/// exactly when one of the five touching cells was reachable at step `k`
/// (given the cell is allowed and free at the arrival time).
proof fn lemma_step_cases(
    bs: Seq<Blizzard>,
    m: Valley,
    t0: int,
    k: nat,
    c: Coord,
    found: bool,
    f: Seq<bool>,
)
    requires
        valley_ok(m),
        frontier_ok(bs, m, f, t0, k),
        valley_allows(m, c),
        c.x < m.width + 2,
        c.y < m.height + 2,
        !occupied(bs, t0 + k + 1, m.width as nat, m.height as nat, c.x as int, c.y as int),
        found == (f[full_index(m, c.x as int, c.y as int)] || (c.x + 1 < m.width + 2 && f[
        full_index(m, c.x + 1, c.y as int)]) || (c.x >= 1 && f[full_index(m, c.x - 1, c.y as int)])
            || (c.y + 1 < m.height + 2 && f[full_index(m, c.x as int, c.y + 1)]) || (c.y >= 1 && f[
        full_index(m, c.x as int, c.y - 1)])),
    ensures
        found == reach(bs, m, t0, (k + 1) as nat, c),
{
    if found {
        if f[full_index(m, c.x as int, c.y as int)] {
            assert(reach(bs, m, t0, k, c) && is_step(c, c));
        } else if c.x + 1 < m.width + 2 && f[full_index(m, c.x + 1, c.y as int)] {
            let p = Coord { x: (c.x + 1) as usize, y: c.y };
            assert(reach(bs, m, t0, k, p) && is_step(p, c));
        } else if c.x >= 1 && f[full_index(m, c.x - 1, c.y as int)] {
            let p = Coord { x: (c.x - 1) as usize, y: c.y };
            assert(reach(bs, m, t0, k, p) && is_step(p, c));
        } else if c.y + 1 < m.height + 2 && f[full_index(m, c.x as int, c.y + 1)] {
            let p = Coord { x: c.x, y: (c.y + 1) as usize };
            assert(reach(bs, m, t0, k, p) && is_step(p, c));
        } else {
            let p = Coord { x: c.x, y: (c.y - 1) as usize };
            assert(reach(bs, m, t0, k, p) && is_step(p, c));
        }
        assert(reach(bs, m, t0, (k + 1) as nat, c));
    } else {
        if reach(bs, m, t0, (k + 1) as nat, c) {
            let p = choose|p: Coord| reach(bs, m, t0, k, p) && #[trigger] is_step(p, c);
            lemma_reach_bounds(bs, m, t0, k, p);
            if p.x == c.x && p.y == c.y {
                assert(p == c);
                assert(f[full_index(m, c.x as int, c.y as int)]);
            } else if p.x == c.x + 1 && p.y == c.y {
                assert(p == Coord { x: (c.x + 1) as usize, y: c.y });
                assert(f[full_index(m, c.x + 1, c.y as int)]);
            } else if c.x >= 1 && p.x == c.x - 1 && p.y == c.y {
                assert(p == Coord { x: (c.x - 1) as usize, y: c.y });
                assert(f[full_index(m, c.x - 1, c.y as int)]);
            } else if p.x == c.x && p.y == c.y + 1 {
                assert(p == Coord { x: c.x, y: (c.y + 1) as usize });
                assert(f[full_index(m, c.x as int, c.y + 1)]);
            } else {
                assert(c.y >= 1 && p.x == c.x && p.y == c.y - 1);
                assert(p == Coord { x: c.x, y: (c.y - 1) as usize });
                assert(f[full_index(m, c.x as int, c.y - 1)]);
            }
            assert(false);
        }
    }
}

/// Exhaustive breadth-first crossing search: the least number of steps
/// after `offset` that reaches the end opening, or `None` when no crossing
/// exists within `horizon` steps.
pub fn min_crossing_time(
    pred: &BlizzardPrediction,
    m: &Valley,
    offset: usize,
    horizon: usize,
) -> (r: Option<usize>)
    requires
        pred.wf(),
        m.width == pred.width,
        m.height == pred.height,
        valley_ok(*m),
        offset + horizon + 1 <= usize::MAX,
    ensures
        match r {
            Option::Some(k) => k <= horizon && reach(
                pred.blizzards@,
                *m,
                offset as int,
                k as nat,
                m.end,
            ) && forall|j: nat|
                j < k ==> !reach(pred.blizzards@, *m, offset as int, j, m.end),
            Option::None => forall|j: nat|
                j <= horizon ==> !reach(pred.blizzards@, *m, offset as int, j, m.end),
        },
{
    let ghost bs = pred.blizzards@;
    proof {
        lemma_grid_size(*m);
    }
    let w2 = m.width + 2;
    let h2 = m.height + 2;
    let size = w2 * h2;
    let mut frontier: Vec<bool> = Vec::new();
    while frontier.len() < size
        invariant
            frontier@.len() <= size,
            forall|j: int| 0 <= j < frontier@.len() ==> !(#[trigger] frontier@[j]),
        decreases size - frontier@.len(),
    {
        frontier.push(false);
    }
    proof {
        lemma_grid_size(*m);
        lemma_full_index_bounds(*m, m.start.x as int, m.start.y as int);
    }
    let sidx = m.start.y * w2 + m.start.x;
    frontier.set(sidx, true);
    proof {
        assert forall|x: int, y: int|
            0 <= x < m.width + 2 && 0 <= y < m.height + 2 implies frontier@[#[trigger] full_index(
            *m,
            x,
            y,
        )] == reach(bs, *m, offset as int, 0, Coord { x: x as usize, y: y as usize }) by {
            lemma_full_index_bounds(*m, x, y);
            if x == m.start.x && y == m.start.y {
                assert(Coord { x: x as usize, y: y as usize } == m.start);
            } else {
                assert(Coord { x: x as usize, y: y as usize } != m.start);
                if full_index(*m, x, y) == full_index(*m, m.start.x as int, m.start.y as int) {
                    lemma_full_index_injective(*m, x, y, m.start.x as int, m.start.y as int);
                }
            }
        }
    }
    let mut k: usize = 0;
    while k <= horizon
        invariant
            pred.wf(),
            m.width == pred.width,
            m.height == pred.height,
            valley_ok(*m),
            bs == pred.blizzards@,
            offset + horizon + 1 <= usize::MAX,
            k <= horizon + 1,
            frontier_ok(bs, *m, frontier@, offset as int, k as nat),
            forall|j: nat| j < k ==> !reach(bs, *m, offset as int, j, m.end),
        decreases horizon + 1 - k,
    {
        proof {
            lemma_full_index_bounds(*m, m.end.x as int, m.end.y as int);
        }
        let at_end = frontier_get(m, &frontier, m.end.x, m.end.y);
        if at_end {
            return Some(k);
        }
        let nf = next_frontier(pred, m, &frontier, offset + k + 1, Ghost(offset as int), Ghost(k as nat));
        frontier = nf;
        k += 1;
    }
    None
}

/// Steps of search budget left: how far `iteration` still is from the
/// best known path length.
pub open spec fn budget_left(shortest_known: int, iteration: int) -> nat {
    if shortest_known >= iteration {
        (shortest_known - iteration) as nat
    } else {
        0
    }
}

/// The end opening can be reached from `pos` in exactly `k` more steps
/// after absolute time `t`: each step lands on an allowed cell that the
/// field leaves free at the arrival time.
pub open spec fn can_reach_end(
    bs: Seq<Blizzard>,
    m: Valley,
    pos: Coord,
    t: int,
    k: nat,
) -> bool
    decreases k,
{
    if k == 0 {
        pos == m.end
    } else {
        exists|q: Coord|
            #[trigger] is_step(pos, q) && valley_allows(m, q) && !occupied(
                bs,
                t + 1,
                m.width as nat,
                m.height as nat,
                q.x as int,
                q.y as int,
            ) && can_reach_end(bs, m, q, t + 1, (k - 1) as nat)
    }
}

/// Crossings from a cell depend only on the time modulo the period: the
/// field repeats, so the remaining-steps question does too.
pub proof fn lemma_can_reach_end_mod(bs: Seq<Blizzard>, m: Valley, pos: Coord, t: nat, k: nat)
    requires
        m.width >= 1,
        m.height >= 1,
    ensures
        can_reach_end(bs, m, pos, t as int, k) == can_reach_end(
            bs,
            m,
            pos,
            (t as int) % (m.width * m.height) as int,
            k,
        ),
    decreases t,
{
    let p = (m.width * m.height) as int;
    assert((m.width * m.height) as int >= 1) by (nonlinear_arith)
        requires
            m.width >= 1,
            m.height >= 1,
    ;
    if t < p {
        vstd::arithmetic::div_mod::lemma_small_mod(t, (m.width * m.height) as nat);
    } else {
        let prev = (t - p) as nat;
        lemma_can_reach_end_mod(bs, m, pos, prev, k);
        lemma_can_reach_end_shift(bs, m, pos, prev as int, k);
        assert((prev + p) % p == (prev as int) % p) by {
            vstd::arithmetic::div_mod::lemma_mod_add_multiples_vanish(prev as int, p);
        }
    }
}

/// Crossings one period apart are the same crossings.
proof fn lemma_can_reach_end_shift(bs: Seq<Blizzard>, m: Valley, pos: Coord, t: int, k: nat)
    requires
        m.width >= 1,
        m.height >= 1,
    ensures
        can_reach_end(bs, m, pos, t + m.width * m.height, k) == can_reach_end(bs, m, pos, t, k),
    decreases k,
{
    let p = (m.width * m.height) as int;
    if k > 0 {
        assert forall|q: Coord| true implies ({
            &&& occupied(
                bs,
                t + p + 1,
                m.width as nat,
                m.height as nat,
                q.x as int,
                q.y as int,
            ) == occupied(bs, t + 1, m.width as nat, m.height as nat, q.x as int, q.y as int)
            &&& can_reach_end(bs, m, q, t + p + 1, (k - 1) as nat) == can_reach_end(
                bs,
                m,
                q,
                t + 1,
                (k - 1) as nat,
            )
        }) by {
            lemma_field_periodic(bs, t + 1, m.width as nat, m.height as nat, q.x as int, q.y as int);
            lemma_can_reach_end_shift(bs, m, q, t + 1, (k - 1) as nat);
        }
    }
}

/// A position reached in `j` steps followed by a crossing of `k` more
/// steps is a crossing of `j + k` steps.  With the searches' contracts
/// this pins the pruned search from below: any length it reports under its
/// bound is reachable, so it is never less than the exhaustive minimum.
pub proof fn lemma_crossing_composes(
    bs: Seq<Blizzard>,
    m: Valley,
    t0: int,
    j: nat,
    pos: Coord,
    k: nat,
)
    requires
        reach(bs, m, t0, j, pos),
        can_reach_end(bs, m, pos, t0 + j, k),
    ensures
        reach(bs, m, t0, (j + k) as nat, m.end),
    decreases k,
{
    if k == 0 {
        assert(pos == m.end);
    } else {
        let q = choose|q: Coord|
            #[trigger] is_step(pos, q) && valley_allows(m, q) && !occupied(
                bs,
                t0 + j + 1,
                m.width as nat,
                m.height as nat,
                q.x as int,
                q.y as int,
            ) && can_reach_end(bs, m, q, t0 + j + 1, (k - 1) as nat);
        assert(reach(bs, m, t0, (j + 1) as nat, q));
        lemma_crossing_composes(bs, m, t0, (j + 1) as nat, q, (k - 1) as nat);
    }
}

/// Every crossing takes at least the Manhattan distance to the end.
proof fn lemma_cre_manhattan(bs: Seq<Blizzard>, m: Valley, pos: Coord, t: int, k: nat)
    requires
        can_reach_end(bs, m, pos, t, k),
    ensures
        k >= crate::grid::manhattan(pos, m.end),
    decreases k,
{
    if k == 0 {
        assert(pos == m.end);
    } else {
        let q = choose|q: Coord|
            #[trigger] is_step(pos, q) && valley_allows(m, q) && !occupied(
                bs,
                t + 1,
                m.width as nat,
                m.height as nat,
                q.x as int,
                q.y as int,
            ) && can_reach_end(bs, m, q, t + 1, (k - 1) as nat);
        lemma_cre_manhattan(bs, m, q, t + 1, (k - 1) as nat);
        assert(crate::grid::manhattan(q, m.end) >= crate::grid::manhattan(pos, m.end) - 1);
    }
}

/// The memo key of a (time modulo period, position) state.
pub open spec fn cache_key(m: Valley, tm: int, x: int, y: int) -> int {
    tm * ((m.width + 2) * (m.height + 2)) + full_index(m, x, y)
}

proof fn lemma_cache_key_bounds(m: Valley, p: int, tm: int, x: int, y: int)
    requires
        0 <= tm < p,
        0 <= x < m.width + 2,
        0 <= y < m.height + 2,
    ensures
        0 <= cache_key(m, tm, x, y) < p * ((m.width + 2) * (m.height + 2)),
{
    lemma_full_index_bounds(m, x, y);
    assert(0 <= tm * ((m.width + 2) * (m.height + 2)) + full_index(m, x, y) < p * ((m.width + 2)
        * (m.height + 2))) by (nonlinear_arith)
        requires
            0 <= tm < p,
            0 <= full_index(m, x, y) < (m.width + 2) * (m.height + 2),
    ;
}

proof fn lemma_cache_key_injective(
    m: Valley,
    p: int,
    tm1: int,
    x1: int,
    y1: int,
    tm2: int,
    x2: int,
    y2: int,
)
    requires
        0 <= tm1 < p,
        0 <= x1 < m.width + 2,
        0 <= y1 < m.height + 2,
        0 <= tm2 < p,
        0 <= x2 < m.width + 2,
        0 <= y2 < m.height + 2,
        cache_key(m, tm1, x1, y1) == cache_key(m, tm2, x2, y2),
    ensures
        tm1 == tm2 && x1 == x2 && y1 == y2,
{
    lemma_full_index_bounds(m, x1, y1);
    lemma_full_index_bounds(m, x2, y2);
    let size = (m.width + 2) * (m.height + 2);
    assert(tm1 == tm2) by (nonlinear_arith)
        requires
            0 <= full_index(m, x1, y1) < size,
            0 <= full_index(m, x2, y2) < size,
            tm1 * size + full_index(m, x1, y1) == tm2 * size + full_index(m, x2, y2),
            size >= 1,
    ;
    lemma_full_index_injective(m, x1, y1, x2, y2);
}

/// Every memo entry is a true and least promise: from its state, the end
/// opening is reachable in exactly the recorded number of steps and in no
/// fewer, at any time congruent modulo the period.
pub open spec fn cache_ok(
    bs: Seq<Blizzard>,
    m: Valley,
    offset: int,
    cache: Seq<Option<usize>>,
) -> bool {
    &&& cache.len() == (m.width * m.height) * ((m.width + 2) * (m.height + 2))
    &&& forall|tm: int, x: int, y: int|
        0 <= tm < m.width * m.height && 0 <= x < m.width + 2 && 0 <= y < m.height + 2 ==> match
        #[trigger] cache[cache_key(m, tm, x, y)] {
            Option::Some(v) => (forall|it2: nat|
                (it2 as int) % (m.width * m.height) as int == tm ==> #[trigger] can_reach_end(
                    bs,
                    m,
                    Coord { x: x as usize, y: y as usize },
                    offset + it2,
                    v as nat,
                )) && (forall|it2: nat, k: nat|
                (it2 as int) % (m.width * m.height) as int == tm && k < v ==> !(
                #[trigger] can_reach_end(
                    bs,
                    m,
                    Coord { x: x as usize, y: y as usize },
                    offset + it2,
                    k,
                ))),
            Option::None => true,
        }
}

/// Depth-first crossing search with memoization and branch-and-bound
/// pruning: Manhattan distance to the end is an admissible bound, and
/// results are memoized by (iteration modulo the field period, position).
/// Any result under the best known length is a real crossing of exactly
/// that length, and nothing shorter than the result fits under that bound:
/// on a crossable field the search returns the minimal crossing, as
/// [`min_crossing_time`] finds it.
#[verifier::rlimit(50)]
pub fn find_path(
    cur_pos: Coord,
    offset: usize,
    iteration: usize,
    shortest_known_path: usize,
    m: &Valley,
    weatherman: &BlizzardPrediction,
    cache: &mut Vec<Option<usize>>,
    reverse: bool,
) -> (r: usize)
    requires
        weatherman.wf(),
        m.width == weatherman.width,
        m.height == weatherman.height,
        valley_ok(*m),
        !reverse ==> m.end.y > m.height,
        reverse ==> m.end.y == 0,
        m.start.y != m.end.y,
        valley_allows(*m, cur_pos),
        cur_pos != m.end,
        cur_pos.x < m.width + 2,
        cur_pos.y < m.height + 2,
        cache_ok(weatherman.blizzards@, *m, offset as int, old(cache)@),
        (m.width * m.height) * ((m.width + 2) * (m.height + 2)) <= usize::MAX,
        offset + shortest_known_path + 1 <= usize::MAX,
    ensures
        cache_ok(weatherman.blizzards@, *m, offset as int, final(cache)@),
        r >= iteration || r == shortest_known_path,
        r < shortest_known_path ==> can_reach_end(
            weatherman.blizzards@,
            *m,
            cur_pos,
            offset + iteration,
            (r - iteration) as nat,
        ),
        forall|k: nat|
            iteration + k < r && iteration + k < shortest_known_path ==> !(
            #[trigger] can_reach_end(
                weatherman.blizzards@,
                *m,
                cur_pos,
                offset + iteration,
                k,
            )),
    decreases budget_left(shortest_known_path as int, iteration as int),
{
    let ghost bs = weatherman.blizzards@;
    let ghost p = (m.width * m.height) as int;
    if iteration >= shortest_known_path {
        return shortest_known_path;
    }
    proof {
        lemma_grid_size(*m);
        assert(p >= 1) by (nonlinear_arith)
            requires
                m.width >= 1,
                m.height >= 1,
                p == (m.width * m.height) as int,
        ;
    }
    let size = (m.width + 2) * (m.height + 2);
    let period = weatherman.forecasts_repeat_after;
    let tm = iteration % period;
    proof {
        vstd::arithmetic::div_mod::lemma_mod_bound(iteration as int, p);
        lemma_full_index_bounds(*m, cur_pos.x as int, cur_pos.y as int);
        lemma_cache_key_bounds(*m, p, tm as int, cur_pos.x as int, cur_pos.y as int);
    }
    let key = tm * size + (cur_pos.y * (m.width + 2) + cur_pos.x);
    proof {
        assert(key == cache_key(*m, tm as int, cur_pos.x as int, cur_pos.y as int));
    }
    if let Some(val) = cache[key] {
        proof {
            assert(cache@[cache_key(*m, tm as int, cur_pos.x as int, cur_pos.y as int)] == Some(
                val,
            ));
            assert(Coord { x: cur_pos.x as usize, y: cur_pos.y as usize } == cur_pos);
            assert(can_reach_end(bs, *m, cur_pos, offset + iteration, val as nat));
            assert forall|k: nat| k < val implies !(#[trigger] can_reach_end(
                bs,
                *m,
                cur_pos,
                offset + iteration,
                k,
            )) by {}
        }
        if val > usize::MAX - iteration {
            return usize::MAX;
        }
        return iteration + val;
    }
    // an admissible lower bound: the remaining Manhattan distance
    let dist = cur_pos.distance_to(&m.end);
    if dist > shortest_known_path - iteration {
        proof {
            assert forall|k: nat|
                iteration + k < shortest_known_path implies !(#[trigger] can_reach_end(
                bs,
                *m,
                cur_pos,
                offset + iteration,
                k,
            )) by {
                if can_reach_end(bs, *m, cur_pos, offset + iteration, k) {
                    lemma_cre_manhattan(bs, *m, cur_pos, offset + iteration, k);
                }
            }
        }
        return shortest_known_path;
    }
    let next_occupied_time = offset + iteration + 1;
    // arriving next to the end opening finishes the crossing
    if (!reverse && cur_pos.y + 1 == m.end.y && cur_pos.x == m.end.x) || (reverse && m.end.y + 1
        == cur_pos.y && cur_pos.x == m.end.x) {
        proof {
            assert forall|i: int| 0 <= i < bs.len() implies blizzard_at(
                #[trigger] bs[i],
                offset + iteration + 1,
                m.width as nat,
                m.height as nat,
            ) != (m.end.x as int, m.end.y as int) by {
                lemma_blizzard_in_interior(
                    bs[i],
                    offset + iteration + 1,
                    m.width as nat,
                    m.height as nat,
                );
            }
            assert(is_step(cur_pos, m.end) && valley_allows(*m, m.end));
            assert(can_reach_end(bs, *m, m.end, offset + iteration + 1, 0));
            assert(can_reach_end(bs, *m, cur_pos, offset + iteration, 1));
        }
        return iteration + 1;
    }
    let mut best_path: usize = shortest_known_path;
    let candidates: [(usize, usize); 5] = [
        (cur_pos.x, cur_pos.y),
        (cur_pos.x + 1, cur_pos.y),
        (cur_pos.x, cur_pos.y + 1),
        (if cur_pos.x >= 1 {
            cur_pos.x - 1
        } else {
            cur_pos.x
        }, cur_pos.y),
        (cur_pos.x, if cur_pos.y >= 1 {
            cur_pos.y - 1
        } else {
            cur_pos.y
        }),
    ];
    let mut i: usize = 0;
    while i < 5
        invariant
            weatherman.wf(),
            m.width == weatherman.width,
            m.height == weatherman.height,
            valley_ok(*m),
            !reverse ==> m.end.y > m.height,
            reverse ==> m.end.y == 0,
            m.start.y != m.end.y,
            valley_allows(*m, cur_pos),
            cur_pos != m.end,
            !((!reverse && cur_pos.y + 1 == m.end.y && cur_pos.x == m.end.x) || (reverse
                && m.end.y + 1 == cur_pos.y && cur_pos.x == m.end.x)),
            bs == weatherman.blizzards@,
            cache_ok(bs, *m, offset as int, cache@),
            (m.width * m.height) * ((m.width + 2) * (m.height + 2)) <= usize::MAX,
            offset + shortest_known_path + 1 <= usize::MAX,
            iteration < shortest_known_path,
            iteration <= best_path <= shortest_known_path,
            next_occupied_time == offset + iteration + 1,
            cur_pos.x < m.width + 2,
            cur_pos.y < m.height + 2,
            candidates@ == seq![
                (cur_pos.x, cur_pos.y),
                ((cur_pos.x + 1) as usize, cur_pos.y),
                (cur_pos.x, (cur_pos.y + 1) as usize),
                (if cur_pos.x >= 1 { (cur_pos.x - 1) as usize } else { cur_pos.x }, cur_pos.y),
                (cur_pos.x, if cur_pos.y >= 1 { (cur_pos.y - 1) as usize } else { cur_pos.y }),
            ],
            best_path < shortest_known_path ==> can_reach_end(
                bs,
                *m,
                cur_pos,
                offset + iteration,
                (best_path - iteration) as nat,
            ),
            forall|j: int, k2: nat|
                #![trigger can_reach_end(bs, *m, Coord { x: candidates@[j].0, y: candidates@[j].1 }, offset + iteration + 1, k2)]
                0 <= j < i && iteration + 1 + k2 < best_path && valley_allows(
                    *m,
                    Coord { x: candidates@[j].0, y: candidates@[j].1 },
                ) && !occupied(
                    bs,
                    offset + iteration + 1,
                    m.width as nat,
                    m.height as nat,
                    candidates@[j].0 as int,
                    candidates@[j].1 as int,
                ) ==> !can_reach_end(
                    bs,
                    *m,
                    Coord { x: candidates@[j].0, y: candidates@[j].1 },
                    offset + iteration + 1,
                    k2,
                ),
        decreases 5 - i,
    {
        let (nx, ny) = candidates[i];
        let next = Coord { x: nx, y: ny };
        proof {
            if i == 0 {
                assert(next == cur_pos);
            } else if i == 1 {
                assert(next == Coord { x: (cur_pos.x + 1) as usize, y: cur_pos.y });
            } else if i == 2 {
                assert(next == Coord { x: cur_pos.x, y: (cur_pos.y + 1) as usize });
            } else if i == 3 {
                if cur_pos.x >= 1 {
                    assert(next == Coord { x: (cur_pos.x - 1) as usize, y: cur_pos.y });
                } else {
                    assert(next == cur_pos);
                }
            } else {
                if cur_pos.y >= 1 {
                    assert(next == Coord { x: cur_pos.x, y: (cur_pos.y - 1) as usize });
                } else {
                    assert(next == cur_pos);
                }
            }
            assert(is_step(cur_pos, next));
        }
        let inside = next.x >= 1 && next.x <= m.width && next.y >= 1 && next.y <= m.height;
        let is_opening = (next.x == m.start.x && next.y == m.start.y) || (next.x == m.end.x
            && next.y == m.end.y);
        proof {
            assert((inside || is_opening) == valley_allows(*m, next));
        }
        if (inside || is_opening) && next.x < m.width + 2 && next.y < m.height + 2 {
            if !weatherman.occupied_at(next_occupied_time, next) {
                proof {
                    // no candidate is the end opening: a vertical neighbor
                    // would have closed the crossing above, a horizontal one
                    // is no allowed cell, and the position itself is not the
                    // end
                    if next == m.end {
                        assert(is_step(cur_pos, m.end) && cur_pos != m.end);
                        if cur_pos.y == m.end.y {
                            assert(!(1 <= cur_pos.y <= m.height));
                            assert(cur_pos == m.start);
                            assert(false);
                        } else {
                            assert(cur_pos.x == m.end.x);
                            assert(cur_pos.y + 1 == m.end.y || m.end.y + 1 == cur_pos.y);
                            if !reverse {
                                assert(m.end.y > m.height);
                                assert(cur_pos.y < m.height + 2);
                                assert(false);
                            } else {
                                assert(m.end.y == 0);
                                assert(false);
                            }
                        }
                    }
                }
                let ghost bound_child = best_path;
                let sub = find_path(
                    next,
                    offset,
                    iteration + 1,
                    best_path,
                    m,
                    weatherman,
                    cache,
                    reverse,
                );
                proof {
                    assert forall|k2: nat|
                        iteration + 1 + k2 < (if sub < best_path {
                            sub as int
                        } else {
                            best_path as int
                        }) implies !(#[trigger] can_reach_end(
                        bs,
                        *m,
                        next,
                        offset + iteration + 1,
                        k2,
                    )) by {
                        assert(iteration + 1 + k2 < sub);
                        assert(iteration + 1 + k2 < bound_child);
                        assert(!can_reach_end(
                            bs,
                            *m,
                            next,
                            offset + (iteration + 1),
                            k2,
                        ));
                    }
                }
                if sub < best_path {
                    proof {
                        assert(valley_allows(*m, next));
                        assert(can_reach_end(bs, *m, next, offset + iteration + 1, (sub - iteration
                            - 1) as nat));
                        assert(can_reach_end(bs, *m, cur_pos, offset + iteration, (sub - iteration)
                            as nat));
                    }
                    best_path = sub;
                }
            }
        }
        i += 1;
    }
    proof {
        // nothing shorter than the best found fits: a first step of any
        // crossing is one of the five candidates, all accounted for
        assert forall|k: nat| iteration + k < best_path implies !(#[trigger] can_reach_end(
            bs,
            *m,
            cur_pos,
            offset + iteration,
            k,
        )) by {
            if can_reach_end(bs, *m, cur_pos, offset + iteration, k) {
                if k == 0 {
                    assert(cur_pos == m.end);
                } else {
                    let q = choose|q: Coord|
                        #[trigger] is_step(cur_pos, q) && valley_allows(*m, q) && !occupied(
                            bs,
                            offset + iteration + 1,
                            m.width as nat,
                            m.height as nat,
                            q.x as int,
                            q.y as int,
                        ) && can_reach_end(bs, *m, q, offset + iteration + 1, (k - 1) as nat);
                    // q is one of the five candidates
                    let ghost cx = cur_pos.x as int;
                    let ghost cy = cur_pos.y as int;
                    if q == cur_pos {
                        assert(q == Coord { x: candidates@[0].0, y: candidates@[0].1 });
                        assert(!can_reach_end(bs, *m, q, offset + iteration + 1, (k - 1) as nat));
                    } else if q.x == cur_pos.x + 1 && q.y == cur_pos.y {
                        assert(q == Coord { x: candidates@[1].0, y: candidates@[1].1 });
                        assert(!can_reach_end(bs, *m, q, offset + iteration + 1, (k - 1) as nat));
                    } else if q.x + 1 == cur_pos.x && q.y == cur_pos.y {
                        assert(cur_pos.x >= 1);
                        assert(q == Coord { x: candidates@[3].0, y: candidates@[3].1 });
                        assert(!can_reach_end(bs, *m, q, offset + iteration + 1, (k - 1) as nat));
                    } else if q.x == cur_pos.x && q.y == cur_pos.y + 1 {
                        assert(q == Coord { x: candidates@[2].0, y: candidates@[2].1 });
                        assert(!can_reach_end(bs, *m, q, offset + iteration + 1, (k - 1) as nat));
                    } else {
                        assert(q.y + 1 == cur_pos.y && q.x == cur_pos.x);
                        assert(cur_pos.y >= 1);
                        assert(q == Coord { x: candidates@[4].0, y: candidates@[4].1 });
                        assert(!can_reach_end(bs, *m, q, offset + iteration + 1, (k - 1) as nat));
                    }
                    assert(false);
                }
            }
        }
    }
    if best_path < shortest_known_path {
        let remaining = best_path - iteration;
        let ghost before = cache@;
        cache.set(key, Some(remaining));
        proof {
            assert forall|it2: nat|
                (it2 as int) % p == tm implies #[trigger] can_reach_end(
                bs,
                *m,
                cur_pos,
                offset + it2,
                remaining as nat,
            ) by {
                lemma_can_reach_end_mod(bs, *m, cur_pos, (offset + it2) as nat, remaining as nat);
                lemma_can_reach_end_mod(
                    bs,
                    *m,
                    cur_pos,
                    (offset + iteration) as nat,
                    remaining as nat,
                );
                assert((offset + it2) % p == (offset + iteration) % p) by {
                    vstd::arithmetic::div_mod::lemma_mod_adds(offset as int, it2 as int, p);
                    vstd::arithmetic::div_mod::lemma_mod_adds(offset as int, iteration as int, p);
                }
            }
            assert forall|it2: nat, k: nat|
                (it2 as int) % p == tm && k < remaining implies !(#[trigger] can_reach_end(
                bs,
                *m,
                cur_pos,
                offset + it2,
                k,
            )) by {
                lemma_can_reach_end_mod(bs, *m, cur_pos, (offset + it2) as nat, k);
                lemma_can_reach_end_mod(bs, *m, cur_pos, (offset + iteration) as nat, k);
                assert((offset + it2) % p == (offset + iteration) % p) by {
                    vstd::arithmetic::div_mod::lemma_mod_adds(offset as int, it2 as int, p);
                    vstd::arithmetic::div_mod::lemma_mod_adds(offset as int, iteration as int, p);
                }
            }
            assert forall|tm2: int, x2: int, y2: int|
                0 <= tm2 < p && 0 <= x2 < m.width + 2 && 0 <= y2 < m.height + 2 implies match
            #[trigger] cache@[cache_key(*m, tm2, x2, y2)] {
                Option::Some(v) => (forall|it2: nat|
                    (it2 as int) % p == tm2 ==> #[trigger] can_reach_end(
                        bs,
                        *m,
                        Coord { x: x2 as usize, y: y2 as usize },
                        offset + it2,
                        v as nat,
                    )) && (forall|it2: nat, k: nat|
                    (it2 as int) % p == tm2 && k < v ==> !(#[trigger] can_reach_end(
                        bs,
                        *m,
                        Coord { x: x2 as usize, y: y2 as usize },
                        offset + it2,
                        k,
                    ))),
                Option::None => true,
            } by {
                lemma_cache_key_bounds(*m, p, tm2, x2, y2);
                if cache_key(*m, tm2, x2, y2) == cache_key(
                    *m,
                    tm as int,
                    cur_pos.x as int,
                    cur_pos.y as int,
                ) {
                    lemma_cache_key_injective(
                        *m,
                        p,
                        tm2,
                        x2,
                        y2,
                        tm as int,
                        cur_pos.x as int,
                        cur_pos.y as int,
                    );
                    assert(Coord { x: x2 as usize, y: y2 as usize } == cur_pos);
                } else {
                    assert(cache@[cache_key(*m, tm2, x2, y2)] == before[cache_key(
                        *m,
                        tm2,
                        x2,
                        y2,
                    )]);
                }
            }
        }
    }
    best_path
}

/// Arrow bytes mark moving obstacles.
pub open spec fn is_arrow(b: u8) -> bool {
    b == 62 || b == 60 || b == 94 || b == 118
}

/// The heading an arrow byte stands for.
pub open spec fn arrow_dir(b: u8) -> Direction {
    if b == 62 {
        Direction::Right
    } else if b == 60 {
        Direction::Left
    } else if b == 94 {
        Direction::Up
    } else {
        Direction::Down
    }
}

/// The obstacles one text row contributes, leftmost first.
pub open spec fn row_blizzards(line: Seq<u8>, y: nat) -> Seq<Blizzard>
    decreases line.len(),
{
    if line.len() == 0 {
        Seq::empty()
    } else {
        row_blizzards(line.drop_last(), y) + if is_arrow(line.last()) {
            seq![
                Blizzard {
                    pos: Coord { x: (line.len() - 1) as usize, y: y as usize },
                    dir: arrow_dir(line.last()),
                },
            ]
        } else {
            Seq::empty()
        }
    }
}

/// All obstacles of the grid, top row first.
pub open spec fn map_blizzards(lines: Seq<Seq<u8>>) -> Seq<Blizzard>
    decreases lines.len(),
{
    if lines.len() == 0 {
        Seq::empty()
    } else {
        map_blizzards(lines.drop_last()) + row_blizzards(
            lines.last(),
            (lines.len() - 1) as nat,
        )
    }
}

/// A well-shaped grid: at least the border ring around one cell, all rows
/// equally long, small enough to precompute, every arrow inside the
/// interior.
pub open spec fn valid_map(lines: Seq<Seq<u8>>) -> bool {
    &&& lines.len() >= 3
    &&& lines[0].len() >= 3
    &&& forall|y: int| 0 <= y < lines.len() ==> (#[trigger] lines[y]).len() == lines[0].len()
    &&& (lines[0].len() - 2) * (lines.len() - 2) <= 10000
    &&& forall|y: int, x: int|
        0 <= y < lines.len() && 0 <= x < lines[0].len() && is_arrow(#[trigger] lines[y][x])
            ==> in_interior((lines[0].len() - 2) as nat, (lines.len() - 2) as nat, x, y)
}

/// Parse the character grid: the interior size, the two openings, and the
/// obstacles with their headings.  A grid that is too small, ragged, too
/// large to precompute, or has an obstacle on its border is malformed.
pub fn parse_map(lines: &Vec<Vec<u8>>) -> (r: Option<(Valley, Vec<Blizzard>)>)
    ensures
        ({
            match r {
                Option::Some((m, bs)) => valid_map(lines.deep_view()) && m.width == lines@[0]@.len()
                    - 2 && m.height == lines@.len() - 2 && m.start == (Coord { x: 1, y: 0 })
                    && m.end == (Coord { x: m.width, y: (m.height + 1) as usize })
                    && bs@ == map_blizzards(lines.deep_view()) && forall|i: int|
                    0 <= i < bs@.len() ==> in_interior(
                        m.width as nat,
                        m.height as nat,
                        (#[trigger] bs@[i]).pos.x as int,
                        bs@[i].pos.y as int,
                    ),
                Option::None => !valid_map(lines.deep_view()),
            }
        }),
{
    let ghost lv = lines.deep_view();
    proof {
        assert(lv.len() == lines@.len());
        assert(forall|i: int| 0 <= i < lines@.len() ==> lv[i] == (#[trigger] lines@[i])@);
    }
    if lines.len() < 3 {
        return None;
    }
    let width_full = lines[0].len();
    if width_full < 3 {
        return None;
    }
    let width = width_full - 2;
    let height = lines.len() - 2;
    if width > 10000 || height > 10000 {
        proof {
            assert(width as int * height as int > 10000) by (nonlinear_arith)
                requires
                    width >= 1,
                    height >= 1,
                    width > 10000 || height > 10000,
            ;
            assert(lv[0].len() == lines@[0]@.len());
        }
        return None;
    }
    proof {
        assert(width as int * height as int <= 100000000) by (nonlinear_arith)
            requires
                width <= 10000,
                height <= 10000,
        ;
        assert(lv[0].len() == lines@[0]@.len());
    }
    if width * height > 10000 {
        return None;
    }
    // shape and placement checks
    let mut y: usize = 0;
    while y < lines.len()
        invariant
            lv == lines.deep_view(),
            lv.len() == lines@.len() >= 3,
            width_full == lv[0].len() >= 3,
            width == width_full - 2,
            height == lv.len() - 2,
            y <= lv.len(),
            forall|y2: int| 0 <= y2 < y ==> (#[trigger] lv[y2]).len() == width_full,
            forall|y2: int, x2: int|
                0 <= y2 < y && 0 <= x2 < width_full && is_arrow(#[trigger] lv[y2][x2])
                    ==> in_interior(width as nat, height as nat, x2, y2),
        decreases lv.len() - y,
    {
        if lines[y].len() != width_full {
            proof {
                assert(lv[y as int].len() == lines@[y as int]@.len());
            }
            return None;
        }
        let mut x: usize = 0;
        while x < width_full
            invariant
                lv == lines.deep_view(),
                lv.len() == lines@.len() >= 3,
                width_full == lv[0].len() >= 3,
                width == width_full - 2,
                height == lv.len() - 2,
                y < lv.len(),
                lv[y as int].len() == width_full,
                x <= width_full,
                forall|x2: int|
                    0 <= x2 < x && is_arrow(#[trigger] lv[y as int][x2]) ==> in_interior(
                        width as nat,
                        height as nat,
                        x2,
                        y as int,
                    ),
            decreases width_full - x,
        {
            let b = lines[y][x];
            proof {
                assert(lv[y as int][x as int] == lines@[y as int]@[x as int]);
            }
            if b == 62 || b == 60 || b == 94 || b == 118 {
                if !(1 <= x && x <= width && 1 <= y && y <= height) {
                    return None;
                }
            }
            x += 1;
        }
        y += 1;
    }
    // collect the obstacles
    let mut bs: Vec<Blizzard> = Vec::new();
    let mut y: usize = 0;
    proof {
        assert(lv.subrange(0, 0) =~= Seq::<Seq<u8>>::empty());
    }
    while y < lines.len()
        invariant
            lv == lines.deep_view(),
            lv.len() == lines@.len() >= 3,
            width_full == lv[0].len() >= 3,
            width == width_full - 2,
            height == lv.len() - 2,
            y <= lv.len(),
            forall|y2: int| 0 <= y2 < lv.len() ==> (#[trigger] lv[y2]).len() == width_full,
            forall|y2: int, x2: int|
                0 <= y2 < lv.len() && 0 <= x2 < width_full && is_arrow(#[trigger] lv[y2][x2])
                    ==> in_interior(width as nat, height as nat, x2, y2),
            bs@ == map_blizzards(lv.subrange(0, y as int)),
            forall|i: int|
                0 <= i < bs@.len() ==> in_interior(
                    width as nat,
                    height as nat,
                    (#[trigger] bs@[i]).pos.x as int,
                    bs@[i].pos.y as int,
                ),
        decreases lv.len() - y,
    {
        let mut x: usize = 0;
        let ghost row_start = bs@;
        proof {
            assert(lv[y as int].subrange(0, 0) =~= Seq::<u8>::empty());
        }
        while x < width_full
            invariant
                lv == lines.deep_view(),
                lv.len() == lines@.len() >= 3,
                width_full == lv[0].len() >= 3,
                width == width_full - 2,
                height == lv.len() - 2,
                y < lv.len(),
                lv[y as int].len() == width_full,
                x <= width_full,
                forall|y2: int, x2: int|
                    0 <= y2 < lv.len() && 0 <= x2 < width_full && is_arrow(#[trigger] lv[y2][x2])
                        ==> in_interior(width as nat, height as nat, x2, y2),
                bs@ == row_start + row_blizzards(lv[y as int].subrange(0, x as int), y as nat),
                forall|i: int|
                    0 <= i < row_start.len() ==> in_interior(
                        width as nat,
                        height as nat,
                        (#[trigger] row_start[i]).pos.x as int,
                        row_start[i].pos.y as int,
                    ),
                forall|i: int|
                    0 <= i < bs@.len() ==> in_interior(
                        width as nat,
                        height as nat,
                        (#[trigger] bs@[i]).pos.x as int,
                        bs@[i].pos.y as int,
                    ),
            decreases width_full - x,
        {
            let b = lines[y][x];
            let ghost pre = lv[y as int].subrange(0, x as int);
            let ghost cur = lv[y as int].subrange(0, x + 1);
            proof {
                assert(cur.drop_last() =~= pre);
                assert(cur.last() == lv[y as int][x as int]);
            }
            if b == 62 {
                bs.push(Blizzard { pos: Coord { x, y }, dir: Direction::Right });
            } else if b == 60 {
                bs.push(Blizzard { pos: Coord { x, y }, dir: Direction::Left });
            } else if b == 94 {
                bs.push(Blizzard { pos: Coord { x, y }, dir: Direction::Up });
            } else if b == 118 {
                bs.push(Blizzard { pos: Coord { x, y }, dir: Direction::Down });
            }
            proof {
                if is_arrow(lv[y as int][x as int]) {
                    assert(bs@ =~= row_start + row_blizzards(cur, y as nat));
                } else {
                    assert(bs@ =~= row_start + row_blizzards(cur, y as nat));
                }
            }
            x += 1;
        }
        proof {
            assert(lv[y as int].subrange(0, width_full as int) =~= lv[y as int]);
            assert(lv.subrange(0, y + 1).drop_last() =~= lv.subrange(0, y as int));
            assert(lv.subrange(0, y + 1).last() == lv[y as int]);
            assert(bs@ =~= map_blizzards(lv.subrange(0, y + 1)));
        }
        y += 1;
    }
    proof {
        assert(lv.subrange(0, lv.len() as int) =~= lv);
    }
    let m = Valley {
        width,
        height,
        start: Coord { x: 1, y: 0 },
        end: Coord { x: width, y: height + 1 },
    };
    Some((m, bs))
}

} // verus!
